//! A keyed, deterministic, bijective mapping (a permutation) over `[0, n)`
//! for arbitrary domain size `n`: format-preserving encryption built from a
//! fixed-round Feistel network over the smallest covering power-of-two
//! domain, adapted to `[0, n)` by cycle-walking.

pub mod feistel;
pub mod fpe;
pub mod mix;

pub use mix::hash_ahash;
pub use feistel::feistel_evaluate;
pub use feistel::feistel_inverse;
pub use fpe::cycle_walking_fpe;
