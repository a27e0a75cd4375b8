use vstd::prelude::*;

verus! {

/// Degree `n` of the ring `Z_q[X]/(X^n + 1)`.
pub const RING_DEGREE: usize = 128;

/// Number of coefficients stored in a ring element.
pub const DEGREE: usize = RING_DEGREE;

/// Degree of each CRT slot field `Z_q[X]/(X^2 - beta)`.
pub const EXTENSION_DEGREE: usize = 2;

/// Number of CRT slots.
pub const NUM_SLOTS: usize = RING_DEGREE / EXTENSION_DEGREE;

/// Historical name of the CRT slot count.
pub const HALF_DEGREE: usize = NUM_SLOTS;

/// The 50-bit prime modulus `q` (congruent to 1 modulo 128).
pub const MOD_Q: u64 = 1125899906839937;

/// Number of projection batches used by the verifier.
pub const NOF_BATCHES: usize = 2;

} // verus!
