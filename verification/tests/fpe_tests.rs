use feistel_fpe::cycle_walking_fpe;
use feistel_fpe::feistel_evaluate;
use feistel_fpe::feistel_inverse;
use feistel_fpe::hash_ahash;

#[test]
fn test_bijection_sample() {
    let samples: Vec<u32> = vec![
        16, 461, 161, 324, 879, 104, 820, 742, 783, 795, 735, 619, 217,
        267, 282, 575, 581, 709, 10, 698, 656, 1004, 1005, 467, 445, 787,
        25345, 11322, 10856, 42540, 55356, 10564, 57473, 49024, 8159,
        8337, 47787, 36844, 42002, 39367, 37372, 6872, 29479, 30753,
        10797, 24703, 18836, 51033, 52685, 48931, 23499, 24893,
        500125, 112350, 955974, 1033654, 643440, 577050, 948722, 1045211,
        439513, 390211, 24655, 826485, 1037208, 837007, 614895, 180705,
        850335, 567403, 1033626, 160476, 68020, 558514, 570564, 180353,
        616816, 65537
    ];

    for s in samples {
        let mut v: Vec<u32> = Vec::with_capacity(s as usize);
        let rnd = hash_ahash(1);

        for j in 0..s {
            v.push(cycle_walking_fpe(j as u64, s as u64, rnd) as u32);
        }

        v.sort_unstable();

        // Ensure that the cipher is bijective by sorting it and asserting
        // that the mapping contains everything
        for j in 0..s {
            assert_eq!(j as u32, v[j as usize]);
        }
    }
}

#[test]
fn test_reasonable_entropy() {
    let mut v: Vec<u64> = vec![0; 256];
    let mut p: Vec<f64> = vec![0.; 8];
    let rnd = hash_ahash(1);

    for j in 0..256 {
        v[j] = cycle_walking_fpe(j as u64, 256, rnd);
    }

    // Calculate probability of each bit flipping
    for j in 1..256 {
        let x = v[j] ^ v[j - 1];

        for i in 0..8 {
            p[i] += ((x >> i) & 0x1) as f64 / 256.;
        }
    }

    for i in 0..8 {
        assert!((0.5 - p[i]).abs() < 0.125);
    }
}

#[test]
fn test_determinism() {
    let key = hash_ahash(1);
    for n in [1u64, 2, 3, 1000, 65537] {
        for x in 0..n.min(50) {
            assert_eq!(
                cycle_walking_fpe(x, n, key),
                cycle_walking_fpe(x, n, key)
            );
        }
    }
}

#[test]
fn test_key_sensitivity() {
    let n: u64 = 4096;
    let key1 = hash_ahash(1);
    let key2 = hash_ahash(2);
    assert_ne!(key1, key2);
    let mut same: u64 = 0;
    for x in 0..n {
        if cycle_walking_fpe(x, n, key1) == cycle_walking_fpe(x, n, key2) {
            same += 1;
        }
    }
    // Under independent permutations about one collision is expected;
    // most outputs must differ.
    assert!(same < n / 4);
}

#[test]
fn test_identity_single_element() {
    for seed in 0..16u64 {
        let key = hash_ahash(seed);
        assert_eq!(cycle_walking_fpe(0, 1, key), 0);
    }
    assert_eq!(cycle_walking_fpe(0, 1, 0), 0);
    assert_eq!(cycle_walking_fpe(0, 1, u64::MAX), 0);
}

#[test]
fn test_small_domains() {
    let key = hash_ahash(7);
    for n in 1u64..9 {
        let mut v: Vec<u64> = (0..n).map(|x| cycle_walking_fpe(x, n, key)).collect();
        v.sort_unstable();
        for j in 0..n {
            assert_eq!(v[j as usize], j);
        }
    }
}

#[test]
fn test_feistel_round_trip() {
    let key = hash_ahash(3);
    for (lb, rb) in [(0u32, 1u32), (1, 1), (2, 3), (3, 4), (5, 5)] {
        let block: u64 = 1 << (lb + rb);
        for x in 0..block {
            let y = feistel_evaluate(x, lb, rb, key);
            assert!(y < block);
            assert_eq!(feistel_inverse(y, lb, rb, key), x);
        }
    }
}

#[test]
fn test_feistel_inverse_round_trip() {
    let key = hash_ahash(4);
    for (lb, rb) in [(1u32, 2u32), (4, 4)] {
        let block: u64 = 1 << (lb + rb);
        for y in 0..block {
            let x = feistel_inverse(y, lb, rb, key);
            assert!(x < block);
            assert_eq!(feistel_evaluate(x, lb, rb, key), y);
        }
    }
}

#[test]
fn test_hash_mixes() {
    // The keyed mixer must actually transform its input: an identity
    // "hash" would make all of these hold at once only by accident.
    let mut moved = 0;
    for x in 0..64u64 {
        if hash_ahash(x) != x {
            moved += 1;
        }
    }
    assert!(moved > 32);
    // And it is a fixed function of its input.
    assert_eq!(hash_ahash(12345), hash_ahash(12345));
}
