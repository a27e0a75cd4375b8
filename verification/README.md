# rokoko_ring

Verified arithmetic over the cyclotomic ring `Z_q[X]/(X^128 + 1)` used by the
RoKoKo protocol, written in Verus.

## Layout

- `src/config.rs`, `src/modular.rs`, `src/roots.rs`: the moduli, modular
  arithmetic and the roots of unity.
- `src/layout.rs`, `src/ntt.rs`: the even-odd layout and the size-64 and
  size-32 negacyclic transforms.
- `src/ring_arithmetic.rs`: `RingElement` in its four representations
  (coefficients, even-odd coefficients, incomplete NTT, homogenized field
  extensions), conversions, addition, multiplication, inversion, and the
  quadratic slot field `QuadraticExtension`.
- `src/conjugation.rs`, `src/conjugation_table.rs`: the Galois conjugation
  `X -> X^{-1}` and the constant coefficient read from the NTT form.
- `src/quartic_ring.rs`: the quartic slot backend modulo the quartic prime.
- `src/norms.rs`, `src/sizes.rs`, `src/sampling.rs`: infinity norm and
  squared Euclidean norm, encoded sizes, random sampling (from `rand`'s
  thread-local generator, or from a `StdRng` seeded with the BLAKE3 digest of
  a seed string).
- `src/ntt_laws.rs`, `src/product_law.rs`, `src/conjugation_law.rs`,
  `src/norm_law.rs`, `src/quartic_law.rs`, `src/extension.rs`,
  `src/negacyclic.rs`: the mathematical statements and their proofs
  (transform round trips, multiplication in the NTT domain is multiplication
  in the ring, conjugation is a ring automorphism, the squared norm is the
  constant coefficient of `a * conj(a)`, quartic slot multiplication is ring
  multiplication).
- `app/`: the seeded thread-local sampling generator (`seed_rng`), the square
  roots of the Euclidean norms and the norm-bound check, which stay outside the
  verified library.
- `tests/`: executable tests of the library.

## Not included

The protocol's verifier rounds (`verifier_round`, `verifier_round_simple`,
`verifier_round_intermediate` and their shape checks) and its hardness
estimates are not part of this crate: they rest on the commitment, CRS,
sum-check, transcript, projection and matrix components and on the SIS
estimator, none of which is part of this code base, and the hardness
estimates compute in floating point.
