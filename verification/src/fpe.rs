//! Cycle-walking format-preserving encryption: a keyed permutation of
//! `[0, n)` for arbitrary `n >= 1`.
//!
//! The domain is embedded in the smallest power-of-two block covering it,
//! and the Feistel network is re-applied until its output lands back inside
//! `[0, n)`. Restricting a bijection of the block to the orbit of values
//! below `n` keeps it a bijection, so the walk terminates (the orbit must
//! return) and the resulting map is a permutation of `[0, n)`.

use vstd::prelude::*;
use vstd::arithmetic::power2::pow2;
use vstd::arithmetic::power2::lemma_pow2_unfold;
use vstd::arithmetic::power2::lemma_pow2_strictly_increases;
use vstd::arithmetic::power2::lemma2_to64;
use vstd::arithmetic::power2::lemma2_to64_rest;
use vstd::bits::lemma_u64_shl_is_mul;
use vstd::bits::lemma_u64_pow2_no_overflow;
use vstd::set_lib::set_int_range;
use vstd::set_lib::lemma_int_range;
use vstd::set_lib::lemma_len_subset;
use crate::feistel::feistel_spec;
use crate::feistel::valid_split;
use crate::feistel::in_block;
use crate::feistel::lemma_feistel_in_block;
use crate::feistel::lemma_feistel_injective;
use crate::feistel::lemma_in_block_iff;
use crate::feistel::feistel_evaluate;

verus! {

/// The width of the smallest power-of-two block covering `[0, n)`:
/// `ceil(log2(n))`, and `0` for the degenerate domains `n <= 1`.
pub open spec fn min_bits(n: nat) -> nat
    decreases n,
{
    if n <= 1 {
        0
    } else {
        min_bits((n + 1) / 2) + 1
    }
}

/// `min_bits` is the minimal exponent whose power of two covers `n`.
pub proof fn lemma_min_bits_props(n: nat)
    ensures
        n <= pow2(min_bits(n)),
        n >= 2 ==> min_bits(n) >= 1 && pow2((min_bits(n) - 1) as nat) < n,
    decreases n,
{
    lemma2_to64();
    if n >= 2 {
        let m = (n + 1) / 2;
        assert(n <= 2 * m && 2 * m <= n + 1 && 1 <= m < n);
        lemma_min_bits_props(m);
        let k = min_bits(m);
        lemma_pow2_unfold((k + 1) as nat);
        if m == 1 {
            assert(n == 2);
        } else {
            lemma_pow2_unfold(k);
            assert(pow2(k) == 2 * pow2((k - 1) as nat));
            assert(pow2(k) < 2 * m);
            if n % 2 == 0 {
                assert(2 * m == n);
            } else {
                assert(pow2(k) % 2 == 0);
                assert(pow2(k) != n);
            }
        }
    }
}

/// Only one exponent is minimal.
pub proof fn lemma_min_bits_unique(n: nat, b: nat)
    requires
        n >= 2,
        b >= 1,
        pow2((b - 1) as nat) < n,
        n <= pow2(b),
    ensures
        b == min_bits(n),
{
    lemma_min_bits_props(n);
    let mb = min_bits(n);
    if b < mb {
        if b < mb - 1 {
            lemma_pow2_strictly_increases(b, (mb - 1) as nat);
        }
        assert(false);
    }
    if mb < b {
        if mb < b - 1 {
            lemma_pow2_strictly_increases(mb, (b - 1) as nat);
        }
        assert(false);
    }
}

/// A `u64` domain never needs more than a 64-bit block.
pub proof fn lemma_min_bits_le_64(n: u64)
    ensures
        min_bits(n as nat) <= 64,
{
    lemma_min_bits_props(n as nat);
    let mb = min_bits(n as nat);
    if mb > 64 {
        lemma2_to64();
        lemma2_to64_rest();
        if mb - 1 > 64 {
            lemma_pow2_strictly_increases(64, (mb - 1) as nat);
        }
        assert(pow2((mb - 1) as nat) >= 0x10000000000000000);
        assert(false);
    }
}

/// The width of the left (high) half of the block for domain size `n`.
pub open spec fn lb_of(n: u64) -> u64 {
    (min_bits(n as nat) / 2) as u64
}

/// The width of the right (low) half of the block for domain size `n`.
pub open spec fn rb_of(n: u64) -> u64 {
    (min_bits(n as nat) - min_bits(n as nat) / 2) as u64
}

/// The split derived from `n` is one the Feistel network is bijective for,
/// and together the halves span the whole covering block.
pub proof fn lemma_split_of(n: u64)
    requires
        n >= 2,
    ensures
        valid_split(lb_of(n), rb_of(n)),
        rb_of(n) >= 1,
        lb_of(n) + rb_of(n) == min_bits(n as nat),
        n as nat <= pow2(min_bits(n as nat)),
{
    lemma_min_bits_props(n as nat);
    lemma_min_bits_le_64(n);
    let mb = min_bits(n as nat);
    assert(mb / 2 + (mb - mb / 2) == mb);
    assert(2 * (mb / 2) <= mb);
    assert(mb - mb / 2 <= 32 && mb / 2 <= 32);
}

/// `k` applications of the Feistel network to `x`.
pub open spec fn fiter(x: u64, k: nat, lb: u64, rb: u64, key: u64) -> u64
    decreases k,
{
    if k == 0 {
        x
    } else {
        feistel_spec(fiter(x, (k - 1) as nat, lb, rb, key), lb, rb, key)
    }
}

/// The cycle walk: re-apply the Feistel network until the value lands below
/// `n`, giving up (and returning the last value) when the fuel runs out.
pub open spec fn walk(x: u64, n: u64, fuel: nat, lb: u64, rb: u64, key: u64) -> u64
    decreases fuel,
{
    let y = feistel_spec(x, lb, rb, key);
    if y < n || fuel <= 1 {
        y
    } else {
        walk(y, n, (fuel - 1) as nat, lb, rb, key)
    }
}

/// Within `fuel` steps the orbit of `x` reaches a value below `n`.
pub open spec fn hits(x: u64, n: u64, fuel: nat, lb: u64, rb: u64, key: u64) -> bool {
    exists|k: nat| 1 <= k <= fuel && fiter(x, k, lb, rb, key) < n
}

/// What `cycle_walking_fpe` returns: the identity on a degenerate domain,
/// else the cycle walk through the covering block, with fuel enough for the
/// whole block.
pub open spec fn fpe_spec(x: u64, n: u64, key: u64) -> u64 {
    if n <= 1 {
        x
    } else {
        walk(x, n, pow2(min_bits(n as nat)), lb_of(n), rb_of(n), key)
    }
}

proof fn lemma_fiter_in_block(x: u64, k: nat, lb: u64, rb: u64, key: u64)
    requires
        valid_split(lb, rb),
        in_block(x, lb, rb),
    ensures
        in_block(fiter(x, k, lb, rb, key), lb, rb),
    decreases k,
{
    if k > 0 {
        lemma_fiter_in_block(x, (k - 1) as nat, lb, rb, key);
        lemma_feistel_in_block(fiter(x, (k - 1) as nat, lb, rb, key), lb, rb, key);
    }
}

proof fn lemma_fiter_compose(x: u64, a: nat, b: nat, lb: u64, rb: u64, key: u64)
    ensures
        fiter(x, a + b, lb, rb, key) == fiter(fiter(x, b, lb, rb, key), a, lb, rb, key),
    decreases a,
{
    if a > 0 {
        lemma_fiter_compose(x, (a - 1) as nat, b, lb, rb, key);
    }
}

proof fn lemma_fiter_injective(x1: u64, x2: u64, k: nat, lb: u64, rb: u64, key: u64)
    requires
        valid_split(lb, rb),
        in_block(x1, lb, rb),
        in_block(x2, lb, rb),
        fiter(x1, k, lb, rb, key) == fiter(x2, k, lb, rb, key),
    ensures
        x1 == x2,
    decreases k,
{
    if k > 0 {
        lemma_fiter_in_block(x1, (k - 1) as nat, lb, rb, key);
        lemma_fiter_in_block(x2, (k - 1) as nat, lb, rb, key);
        lemma_feistel_injective(
            fiter(x1, (k - 1) as nat, lb, rb, key),
            fiter(x2, (k - 1) as nat, lb, rb, key),
            lb,
            rb,
            key,
        );
        lemma_fiter_injective(x1, x2, (k - 1) as nat, lb, rb, key);
    }
}

/// Under a bijection of a finite block, the orbit of a value below `n`
/// must come back below `n` within one block's worth of steps.
proof fn lemma_orbit_hits(x: u64, n: u64, lb: u64, rb: u64, key: u64)
    requires
        valid_split(lb, rb),
        x < n,
        n as nat <= pow2((lb + rb) as nat),
    ensures
        hits(x, n, pow2((lb + rb) as nat), lb, rb, key),
{
    let nn = pow2((lb + rb) as nat);
    lemma_in_block_iff(x, lb, rb);
    if !hits(x, n, nn, lb, rb, key) {
        let s = Seq::<int>::new((nn + 1) as nat, |k: int| fiter(x, k as nat, lb, rb, key) as int);
        assert forall|k: int| 0 <= k < s.len() implies 0 <= #[trigger] s[k] < nn as int by {
            lemma_fiter_in_block(x, k as nat, lb, rb, key);
            lemma_in_block_iff(fiter(x, k as nat, lb, rb, key), lb, rb);
        }
        if s.no_duplicates() {
            s.unique_seq_to_set();
            assert(s.to_set().subset_of(set_int_range(0, nn as int))) by {
                assert forall|e: int| s.to_set().contains(e) implies set_int_range(
                    0,
                    nn as int,
                ).contains(e) by {
                    let i = choose|i: int| 0 <= i < s.len() && s[i] == e;
                    assert(0 <= s[i] < nn as int);
                }
            }
            lemma_int_range(0, nn as int);
            lemma_len_subset(s.to_set(), set_int_range(0, nn as int));
            assert(false);
        } else {
            let (i, j) = choose|i: int, j: int|
                0 <= i < s.len() && 0 <= j < s.len() && i != j && s[i] == s[j];
            let a = if i < j {
                i
            } else {
                j
            };
            let b = if i < j {
                j
            } else {
                i
            };
            assert(0 <= a < b < s.len() && s[a] == s[b]);
            assert(fiter(x, a as nat, lb, rb, key) == fiter(x, b as nat, lb, rb, key));
            lemma_fiter_compose(x, a as nat, (b - a) as nat, lb, rb, key);
            lemma_fiter_in_block(x, (b - a) as nat, lb, rb, key);
            lemma_fiter_injective(x, fiter(x, (b - a) as nat, lb, rb, key), a as nat, lb, rb, key);
            assert(1 <= (b - a) as nat <= nn && fiter(x, (b - a) as nat, lb, rb, key) < n);
            assert(false);
        }
    }
}

/// If the walk is not yet home, a step is available and preserves the claim.
proof fn lemma_hits_step(x: u64, n: u64, fuel: nat, lb: u64, rb: u64, key: u64)
    requires
        hits(x, n, fuel, lb, rb, key),
        feistel_spec(x, lb, rb, key) >= n,
    ensures
        fuel >= 2,
        hits(feistel_spec(x, lb, rb, key), n, (fuel - 1) as nat, lb, rb, key),
{
    let y = feistel_spec(x, lb, rb, key);
    let k = choose|k: nat| 1 <= k <= fuel && fiter(x, k, lb, rb, key) < n;
    assert(fiter(x, 0, lb, rb, key) == x);
    assert(fiter(x, 1, lb, rb, key) == y);
    assert(k >= 2);
    lemma_fiter_compose(x, (k - 1) as nat, 1, lb, rb, key);
    assert(1 <= (k - 1) as nat <= (fuel - 1) as nat && fiter(y, (k - 1) as nat, lb, rb, key) < n);
}

/// With enough fuel the walk lands below `n`, at the first index of the
/// orbit that does.
proof fn lemma_walk_first_hit(x: u64, n: u64, fuel: nat, lb: u64, rb: u64, key: u64)
    requires
        fuel >= 1,
        hits(x, n, fuel, lb, rb, key),
    ensures
        walk(x, n, fuel, lb, rb, key) < n,
        exists|k: nat|
            1 <= k <= fuel && walk(x, n, fuel, lb, rb, key) == fiter(x, k, lb, rb, key) && (
            forall|j: nat| 1 <= j < k ==> fiter(x, j, lb, rb, key) >= n),
    decreases fuel,
{
    let y = feistel_spec(x, lb, rb, key);
    assert(fiter(x, 0, lb, rb, key) == x);
    assert(fiter(x, 1, lb, rb, key) == y);
    if y < n {
        assert(1 <= 1 as nat <= fuel && walk(x, n, fuel, lb, rb, key) == fiter(x, 1, lb, rb, key)
            && (forall|j: nat| 1 <= j < 1 ==> fiter(x, j, lb, rb, key) >= n));
    } else {
        lemma_hits_step(x, n, fuel, lb, rb, key);
        lemma_walk_first_hit(y, n, (fuel - 1) as nat, lb, rb, key);
        let k1 = choose|k: nat|
            1 <= k <= (fuel - 1) as nat && walk(y, n, (fuel - 1) as nat, lb, rb, key) == fiter(
                y,
                k,
                lb,
                rb,
                key,
            ) && (forall|j: nat| 1 <= j < k ==> fiter(y, j, lb, rb, key) >= n);
        lemma_fiter_compose(x, k1, 1, lb, rb, key);
        assert(walk(x, n, fuel, lb, rb, key) == walk(y, n, (fuel - 1) as nat, lb, rb, key));
        assert forall|j: nat| 1 <= j < k1 + 1 implies fiter(x, j, lb, rb, key) >= n by {
            if j >= 2 {
                lemma_fiter_compose(x, (j - 1) as nat, 1, lb, rb, key);
            }
        }
        assert(1 <= (k1 + 1) as nat <= fuel && walk(x, n, fuel, lb, rb, key) == fiter(
            x,
            (k1 + 1) as nat,
            lb,
            rb,
            key,
        ) && (forall|j: nat| 1 <= j < (k1 + 1) as nat ==> fiter(x, j, lb, rb, key) >= n));
    }
}

/// The width of the smallest power-of-two block covering `[0, n)`.
fn domain_bits(n: u64) -> (bits: u32)
    requires
        n >= 2,
    ensures
        1 <= bits <= 64,
        bits as nat == min_bits(n as nat),
{
    let mut b: u32 = 1;
    proof {
        lemma2_to64();
    }
    while b < 64 && (1u64 << b) < n
        invariant
            n >= 2,
            1 <= b <= 64,
            pow2((b - 1) as nat) < n as nat,
        decreases 64 - b,
    {
        proof {
            lemma_u64_pow2_no_overflow(b as nat);
            lemma_u64_shl_is_mul(1u64, b as u64);
            assert(1u64 << b == 1u64 << (b as u64)) by (bit_vector);
        }
        b = b + 1;
    }
    proof {
        if b == 64 {
            lemma2_to64_rest();
            lemma_min_bits_unique(n as nat, 64);
        } else {
            lemma_u64_pow2_no_overflow(b as nat);
            lemma_u64_shl_is_mul(1u64, b as u64);
            assert(1u64 << b == 1u64 << (b as u64)) by (bit_vector);
            lemma_min_bits_unique(n as nat, b as nat);
        }
    }
    b
}

/// Cycle-walking format-preserving encryption: for a fixed `n` and `key`, a
/// permutation of the integers `[0, n)` with no repeats and no skips; the
/// `key` selects which permutation. Deterministic: the result is a function
/// of `(input, n, key)` alone, as the contract's equality with [`fpe_spec`]
/// states.
pub fn cycle_walking_fpe(input: u64, n: u64, key: u64) -> (r: u64)
    requires
        n >= 1,
        input < n,
    ensures
        r == fpe_spec(input, n, key),
        r < n,
{
    if n == 1 {
        // The degenerate single-element domain is mapped by the identity;
        // the bit-width arithmetic below has no meaning for it.
        return input;
    }
    let bits = domain_bits(n);
    let left_bits = bits / 2;
    let right_bits = bits - left_bits;
    proof {
        lemma_split_of(n);
    }
    let ghost lb = lb_of(n);
    let ghost rb = rb_of(n);
    let mut output = input;
    let ghost mut fuel: nat = pow2(min_bits(n as nat));
    proof {
        assert((lb + rb) as nat == min_bits(n as nat));
        lemma_orbit_hits(input, n, lb, rb, key);
    }
    loop
        invariant_except_break
            n >= 2,
            input < n,
            left_bits as u64 == lb_of(n),
            right_bits as u64 == rb_of(n),
            left_bits < 64,
            right_bits < 64,
            left_bits + right_bits <= 64,
            valid_split(lb_of(n), rb_of(n)),
            fuel >= 1,
            hits(output, n, fuel, lb_of(n), rb_of(n), key),
            walk(output, n, fuel, lb_of(n), rb_of(n), key) == fpe_spec(input, n, key),
        ensures
            output < n,
            output == fpe_spec(input, n, key),
        decreases fuel,
    {
        let next = feistel_evaluate(output, left_bits, right_bits, key);
        if next < n {
            proof {
                assert(walk(output, n, fuel, lb_of(n), rb_of(n), key) == next);
            }
            output = next;
            break ;
        }
        proof {
            lemma_hits_step(output, n, fuel, lb_of(n), rb_of(n), key);
            assert(walk(output, n, fuel, lb_of(n), rb_of(n), key) == walk(
                next,
                n,
                (fuel - 1) as nat,
                lb_of(n),
                rb_of(n),
                key,
            ));
            fuel = (fuel - 1) as nat;
        }
        output = next;
    }
    output
}

/// The map never leaves the domain: `fpe` of a value below `n` is below `n`.
pub proof fn lemma_fpe_in_range(x: u64, n: u64, key: u64)
    requires
        n >= 1,
        x < n,
    ensures
        fpe_spec(x, n, key) < n,
{
    if n >= 2 {
        lemma_split_of(n);
        lemma_orbit_hits(x, n, lb_of(n), rb_of(n), key);
        lemma_walk_first_hit(x, n, pow2(min_bits(n as nat)), lb_of(n), rb_of(n), key);
    }
}

/// On the degenerate single-element domain the map is the identity,
/// whatever the key.
pub proof fn lemma_fpe_identity(key: u64)
    ensures
        fpe_spec(0, 1, key) == 0,
{
}

proof fn lemma_fpe_inj_core(u: u64, v: u64, n: u64, key: u64, ku: nat, kv: nat)
    requires
        n >= 2,
        u < n,
        v < n,
        valid_split(lb_of(n), rb_of(n)),
        in_block(u, lb_of(n), rb_of(n)),
        in_block(v, lb_of(n), rb_of(n)),
        1 <= ku <= kv,
        fiter(u, ku, lb_of(n), rb_of(n), key) == fiter(v, kv, lb_of(n), rb_of(n), key),
        forall|j: nat| 1 <= j < kv ==> fiter(v, j, lb_of(n), rb_of(n), key) >= n,
    ensures
        u == v,
{
    let lb = lb_of(n);
    let rb = rb_of(n);
    lemma_fiter_compose(v, ku, (kv - ku) as nat, lb, rb, key);
    let w = fiter(v, (kv - ku) as nat, lb, rb, key);
    lemma_fiter_in_block(v, (kv - ku) as nat, lb, rb, key);
    lemma_fiter_injective(u, w, ku, lb, rb, key);
    if kv > ku {
        assert(fiter(v, (kv - ku) as nat, lb, rb, key) >= n);
        assert(false);
    }
    assert(w == fiter(v, 0, lb, rb, key));
}

/// No collisions: two values of `[0, n)` with the same image are the same
/// value.
pub proof fn lemma_fpe_injective(x1: u64, x2: u64, n: u64, key: u64)
    requires
        n >= 1,
        x1 < n,
        x2 < n,
        fpe_spec(x1, n, key) == fpe_spec(x2, n, key),
    ensures
        x1 == x2,
{
    if n >= 2 {
        let lb = lb_of(n);
        let rb = rb_of(n);
        let fuel = pow2(min_bits(n as nat));
        lemma_split_of(n);
        lemma_in_block_iff(x1, lb, rb);
        lemma_in_block_iff(x2, lb, rb);
        lemma_orbit_hits(x1, n, lb, rb, key);
        lemma_orbit_hits(x2, n, lb, rb, key);
        lemma_walk_first_hit(x1, n, fuel, lb, rb, key);
        lemma_walk_first_hit(x2, n, fuel, lb, rb, key);
        let k1 = choose|k: nat|
            1 <= k <= fuel && walk(x1, n, fuel, lb, rb, key) == fiter(x1, k, lb, rb, key) && (
            forall|j: nat| 1 <= j < k ==> fiter(x1, j, lb, rb, key) >= n);
        let k2 = choose|k: nat|
            1 <= k <= fuel && walk(x2, n, fuel, lb, rb, key) == fiter(x2, k, lb, rb, key) && (
            forall|j: nat| 1 <= j < k ==> fiter(x2, j, lb, rb, key) >= n);
        if k1 <= k2 {
            lemma_fpe_inj_core(x1, x2, n, key, k1, k2);
        } else {
            lemma_fpe_inj_core(x2, x1, n, key, k2, k1);
        }
    }
}

/// No omissions: every value of `[0, n)` is the image of some value of
/// `[0, n)`. With [`lemma_fpe_injective`] and [`lemma_fpe_in_range`], the
/// map is a bijection of `[0, n)`.
pub proof fn lemma_fpe_surjective(y: u64, n: u64, key: u64)
    requires
        n >= 1,
        y < n,
    ensures
        exists|x: u64| x < n && fpe_spec(x, n, key) == y,
{
    if n == 1 {
        assert(0u64 < n && fpe_spec(0u64, n, key) == y);
    } else if !(exists|x: u64| x < n && fpe_spec(x, n, key) == y) {
        let s = Seq::<int>::new(n as nat, |j: int| fpe_spec(j as u64, n, key) as int);
        assert forall|i: int, j: int| 0 <= i < s.len() && 0 <= j < s.len() && i != j implies s[i]
            != s[j] by {
            if s[i] == s[j] {
                lemma_fpe_injective(i as u64, j as u64, n, key);
            }
        }
        assert(s.no_duplicates());
        s.unique_seq_to_set();
        let target = set_int_range(0, n as int).remove(y as int);
        assert(s.to_set().subset_of(target)) by {
            assert forall|e: int| s.to_set().contains(e) implies target.contains(e) by {
                let i = choose|i: int| 0 <= i < s.len() && s[i] == e;
                lemma_fpe_in_range(i as u64, n, key);
                assert(fpe_spec(i as u64, n, key) != y);
            }
        }
        lemma_int_range(0, n as int);
        assert(target.len() == n - 1);
        lemma_len_subset(s.to_set(), target);
        assert(false);
    }
}

} // verus!
