//! Arithmetic backend for the 50-bit quartic modulus: four coefficient
//! streams, size-32 negacyclic NTTs, and slot isomorphisms into one common
//! quartic field `F_q[T]/(T^4 - beta)`.
use num::bigint::BigUint;
use num::Zero;
use vstd::arithmetic::div_mod::*;
use vstd::arithmetic::mul::*;
use vstd::arithmetic::power::*;
use vstd::prelude::*;

use crate::extension::{extension_product, reduced_convolution};
use crate::modular::{inv_mod, is_inverse_of, is_reduced, mul_mod, pow_mod};
use crate::negacyclic::{negacyclic_multiply_mod, negacyclic_product};
use crate::ntt::{
    lemma_ntt_exponent_bound, lemma_ntt_exponent_zero, lemma_ntt_of_unit, ntt_exponent,
    ntt_forward_in_place, ntt_inverse_in_place, ntt_inverse_spec, ntt_point, ntt_spec, unit_vector,
    NTT_ROOT_QUARTIC_Q,
};
use crate::quartic_law::{lemma_quartic_point_root, lemma_slot_multiplication_is_ring_product};
use crate::slot_field::{lemma_binary_power_is_power, slot_pow};
use crate::ntt_laws::{lemma_bit_reverse_injective, lemma_ntt_roundtrip, lemma_powers_distinct, lemma_root_facts, two_pow};

verus! {

/// The quartic-line prime modulus.
pub const QUARTIC_Q: u64 = 926_510_094_425_921;

/// Degree `n` of the ring `Z_q[X]/(X^n + 1)`.
pub const RING_DEGREE: usize = 128;

/// Degree of each slot field.
pub const EXTENSION_DEGREE: usize = 4;

/// Number of CRT slots.
pub const SLOT_COUNT: usize = RING_DEGREE / EXTENSION_DEGREE;

#[verifier::external_type_specification]
#[verifier::external_body]
pub struct ExBigUint(BigUint);

/// The digits of a big unsigned integer in base `2^64`, least significant
/// first (as `BigUint::to_u64_digits` lists them).
pub uninterp spec fn big_digits(x: BigUint) -> Seq<u64>;

/// The number written by base-`2^64` digits, least significant first.
pub open spec fn digits_value(d: Seq<u64>) -> nat
    decreases d.len(),
{
    if d.len() == 0 {
        0
    } else {
        d[0] as nat + 0x1_0000_0000_0000_0000nat * digits_value(d.drop_first())
    }
}

/// `Zero::is_zero` on a `BigUint`: whether its value is zero.
#[verifier::external_body]
fn big_is_zero(x: &BigUint) -> (r: bool)
    ensures
        r == (digits_value(big_digits(*x)) == 0),
{
    x.is_zero()
}

/// `BigUint::bit(0)`: whether the value is odd.
#[verifier::external_body]
fn big_lowest_bit(x: &BigUint) -> (r: bool)
    ensures
        r == (digits_value(big_digits(*x)) % 2 == 1),
{
    x.bit(0)
}

/// `x >>= 1` on a `BigUint`: the value halved, rounded down.
#[verifier::external_body]
fn big_halve(x: &mut BigUint)
    ensures
        digits_value(big_digits(*final(x))) == digits_value(big_digits(*old(x))) / 2,
{
    *x >>= 1usize;
}

/// `BigUint::clone`: a copy of the same value.
#[verifier::external_body]
fn big_clone(x: &BigUint) -> (r: BigUint)
    ensures
        digits_value(big_digits(r)) == digits_value(big_digits(*x)),
{
    x.clone()
}

/// `BigUint::from(u64)`: the same value as a big integer.
#[verifier::external_body]
fn big_from_u64(v: u64) -> (r: BigUint)
    ensures
        digits_value(big_digits(r)) == v,
{
    BigUint::from(v)
}

/// `BigUint::pow(&self, u32)`: the exact power.
#[verifier::external_body]
fn big_pow(x: &BigUint, e: u32) -> (r: BigUint)
    ensures
        digits_value(big_digits(r)) == pow(digits_value(big_digits(*x)) as int, e as nat),
{
    x.pow(e)
}

/// `BigUint - u8`; num panics when the difference would be negative.
#[verifier::external_body]
fn big_sub_u8(x: BigUint, s: u8) -> (r: BigUint)
    requires
        digits_value(big_digits(x)) >= s,
    ensures
        digits_value(big_digits(r)) == digits_value(big_digits(x)) - s,
{
    x - s
}

/// An element of the slot field `F_q[T]/(T^4 - beta)`: coefficients in
/// increasing degree.
#[derive(Clone, Copy, Debug, PartialEq, Eq)]
pub struct QuarticSlot {
    pub coeffs: [u64; EXTENSION_DEGREE],
}

/// Product of two slot elements in `F_q[T]/(T^4 - beta)`.
pub open spec fn slot_mul(a: Seq<u64>, b: Seq<u64>, beta: int) -> Seq<u64> {
    extension_product(a, b, beta, QUARTIC_Q as int)
}

/// The unit of the slot field.
pub open spec fn unit_slot() -> Seq<u64> {
    seq![1u64, 0u64, 0u64, 0u64]
}

/// The zero of the slot field.
pub open spec fn zero_slot() -> Seq<u64> {
    seq![0u64, 0u64, 0u64, 0u64]
}

/// `acc` times `base^e` by binary exponentiation: the product, from the
/// lowest bit of `e` up, of the squarings `base^(2^i)` for the set bits `i`.
pub open spec fn binary_power(acc: Seq<u64>, base: Seq<u64>, e: nat, beta: int) -> Seq<u64>
    decreases e,
{
    if e == 0 {
        acc
    } else {
        binary_power(
            if e % 2 == 1 {
                slot_mul(acc, base, beta)
            } else {
                acc
            },
            slot_mul(base, base, beta),
            e / 2,
            beta,
        )
    }
}

impl QuarticSlot {
    /// The zero slot element.
    pub fn zero() -> (r: Self)
        ensures
            r.coeffs@ == zero_slot(),
    {
        let r = Self { coeffs: [0u64; EXTENSION_DEGREE] };
        proof {
            assert(r.coeffs@ =~= zero_slot());
        }
        r
    }

    /// The unit slot element.
    pub fn one() -> (r: Self)
        ensures
            r.coeffs@ == unit_slot(),
    {
        let r = Self { coeffs: [1u64, 0u64, 0u64, 0u64] };
        proof {
            assert(r.coeffs@ =~= unit_slot());
        }
        r
    }

    /// Product in `F_q[T]/(T^4 - beta)`.
    pub fn mul(&self, rhs: &Self, beta: u64) -> (r: Self)
        ensures
            r.coeffs@ == slot_mul(self.coeffs@, rhs.coeffs@, beta as int),
    {
        let v = reduced_convolution(self.coeffs.as_slice(), rhs.coeffs.as_slice(), beta, QUARTIC_Q);
        let r = Self { coeffs: [v[0], v[1], v[2], v[3]] };
        proof {
            assert(r.coeffs@ =~= v@);
        }
        r
    }

    /// `self^exponent` by binary exponentiation.
    pub fn pow_big(&self, exponent: &BigUint, beta: u64) -> (r: Self)
        ensures
            r.coeffs@ == slot_pow(self.coeffs@, digits_value(big_digits(*exponent)), beta as int),
    {
        let mut result = Self::one();
        let mut base = *self;
        let mut remaining = big_clone(exponent);
        while !big_is_zero(&remaining)
            invariant
                binary_power(
                    result.coeffs@,
                    base.coeffs@,
                    digits_value(big_digits(remaining)),
                    beta as int,
                ) == binary_power(
                    unit_slot(),
                    self.coeffs@,
                    digits_value(big_digits(*exponent)),
                    beta as int,
                ),
            decreases digits_value(big_digits(remaining)),
        {
            let ghost e = digits_value(big_digits(remaining));
            let ghost acc = result.coeffs@;
            let ghost b = base.coeffs@;
            if big_lowest_bit(&remaining) {
                result = result.mul(&base, beta);
            }
            big_halve(&mut remaining);
            if !big_is_zero(&remaining) {
                base = base.mul(&base, beta);
            }
            proof {
                assert(binary_power(acc, b, e, beta as int) == binary_power(
                    result.coeffs@,
                    slot_mul(b, b, beta as int),
                    e / 2,
                    beta as int,
                ));
            }
        }
        proof {
            lemma_binary_power_is_power(self.coeffs@, digits_value(big_digits(*exponent)), beta as int);
        }
        result
    }

    /// `self^(q^4 - 2)`, the inverse of a nonzero element of the slot field.
    pub fn inverse(&self, beta: u64) -> (r: Self)
        requires
            self.coeffs@ != zero_slot(),
        ensures
            r.coeffs@ == slot_pow(self.coeffs@, (pow(QUARTIC_Q as int, 4) - 2) as nat, beta as int),
    {
        let modulus = big_from_u64(QUARTIC_Q);
        let order = big_pow(&modulus, EXTENSION_DEGREE as u32);
        proof {
            lemma_pow_adds(QUARTIC_Q as int, 1, 3);
            lemma_pow1(QUARTIC_Q as int);
            lemma_pow_positive(QUARTIC_Q as int, 3);
            assert(QUARTIC_Q as int * pow(QUARTIC_Q as int, 3) >= 2) by (nonlinear_arith)
                requires
                    pow(QUARTIC_Q as int, 3) >= 1,
            ;
        }
        let exponent = big_sub_u8(order, 2);
        self.pow_big(&exponent, beta)
    }
}

/// Residue block `r` of a coefficient vector: `c_r, c_{4+r}, c_{8+r}, ...`.
pub open spec fn quartic_block(c: Seq<u64>, r: int) -> Seq<u64> {
    Seq::new(SLOT_COUNT as nat, |d: int| c[EXTENSION_DEGREE * d + r])
}

/// The size-32 forward transform of residue block `r`.
pub open spec fn quartic_transformed(c: Seq<u64>, r: int) -> Seq<u64> {
    ntt_spec(quartic_block(c, r), QUARTIC_Q)
}

/// Slot `s` in the common field, filled for raw degrees `0..count`: raw
/// degree `r` lands on degree `(e r) mod 4`, scaled by `beta^((e r) div 4)`.
pub open spec fn homogeneous_slot(c: Seq<u64>, beta: int, e: int, s: int, count: int) -> Seq<u64>
    decreases count,
{
    if count <= 0 {
        zero_slot()
    } else {
        let r = count - 1;
        homogeneous_slot(c, beta, e, s, r).update(
            (e * r) % 4,
            ((quartic_transformed(c, r)[s] * pow(beta, ((e * r) / 4) as nat)) % (QUARTIC_Q as int)) as u64,
        )
    }
}

/// The canonical inverse of `beta^k` modulo `q`.
pub open spec fn scale_inverse(beta: int, k: int) -> int {
    choose|x: int| #[trigger] is_inverse_of(x, pow(beta, k as nat) % (QUARTIC_Q as int), QUARTIC_Q as int)
}

/// Raw block `r` read back from slot values: slot `s` contributes its
/// coefficient of degree `(e_s r) mod 4` divided by `beta^((e_s r) div 4)`.
pub open spec fn raw_slot_block(
    values: spec_fn(int) -> Seq<u64>,
    exponents: Seq<usize>,
    beta: int,
    r: int,
) -> Seq<u64> {
    Seq::new(
        SLOT_COUNT as nat,
        |s: int|
            ((values(s)[(exponents[s] * r) % 4] * scale_inverse(beta, (exponents[s] * r) / 4)) % (
            QUARTIC_Q as int)) as u64,
    )
}

/// Coefficients recovered from slot values: each raw block transformed back
/// and interleaved.
pub open spec fn coefficients_from_slots(
    values: spec_fn(int) -> Seq<u64>,
    exponents: Seq<usize>,
    beta: int,
) -> Seq<u64> {
    Seq::new(
        RING_DEGREE as nat,
        |k: int|
            ntt_inverse_spec(raw_slot_block(values, exponents, beta, k % 4), QUARTIC_Q)[k / 4],
    )
}

/// Precomputed constants of the slot isomorphisms.
#[derive(Clone, Debug, PartialEq, Eq)]
pub struct QuarticTransform {
    /// The raw slot constants `zeta_i` satisfying `X^4 = zeta_i`.
    pub raw_shift_factors: [u64; SLOT_COUNT],
    /// Common field presentation `F_q[T]/(T^4 - beta)`.
    pub beta: u64,
    /// Odd exponents such that `zeta_i = beta^slot_exponents[i]`.
    pub slot_exponents: [usize; SLOT_COUNT],
}

impl QuarticTransform {
    /// The constants as `new` computes them.
    pub open spec fn well_formed(&self) -> bool {
        &&& self.beta == NTT_ROOT_QUARTIC_Q
        &&& forall|s: int|
            0 <= s < SLOT_COUNT ==> #[trigger] self.raw_shift_factors@[s] as int == ntt_point(
                SLOT_COUNT as nat,
                QUARTIC_Q,
                s as nat,
            )
        &&& forall|s: int|
            0 <= s < SLOT_COUNT ==> #[trigger] self.slot_exponents@[s] as nat == ntt_exponent(
                SLOT_COUNT as nat,
                s as nat,
            )
    }
}

/// The first odd exponent `e < 64` with `beta^e = shift`; it is the exponent
/// of the evaluation point of slot `s`.
fn first_odd_exponent(beta: u64, shift: u64, Ghost(s): Ghost<int>) -> (r: usize)
    requires
        beta == NTT_ROOT_QUARTIC_Q,
        0 <= s < SLOT_COUNT,
        shift as int == ntt_point(SLOT_COUNT as nat, QUARTIC_Q, s as nat),
    ensures
        r as nat == ntt_exponent(SLOT_COUNT as nat, s as nat),
{
    let ghost target = ntt_exponent(SLOT_COUNT as nat, s as nat);
    let ghost q = QUARTIC_Q as int;
    proof {
        lemma_ntt_exponent_bound(SLOT_COUNT as nat, s as nat);
        lemma_root_facts(SLOT_COUNT as nat, QUARTIC_Q);
        reveal_with_fuel(two_pow, 6);
    }
    let mut e: usize = 1;
    while e < 64
        invariant
            beta == NTT_ROOT_QUARTIC_Q,
            e % 2 == 1,
            1 <= e <= target,
            target == ntt_exponent(SLOT_COUNT as nat, s as nat),
            target % 2 == 1,
            target < 64,
            shift as int == pow(beta as int, target) % q,
            q == QUARTIC_Q as int,
            pow(beta as int, two_pow(5)) % q == q - 1,
            two_pow(5) == 32,
        decreases 64 - e,
    {
        let candidate = pow_mod(beta, e as u64, QUARTIC_Q);
        if candidate == shift {
            proof {
                assert(pow(beta as int, e as nat) % q == pow(beta as int, target) % q);
                if (e as nat) < target {
                    lemma_powers_distinct(beta as int, 5, q, e as nat, target);
                }
                assert(e as nat == target);
            }
            return e;
        }
        proof {
            if e as nat == target {
                assert(false);
            }
        }
        e = e + 2;
    }
    e
}

impl QuarticTransform {
    /// Compute the slot constants: the raw shift factors are the forward
    /// transform of `Y`, `beta` is the first of them, and every raw factor is
    /// an odd power of `beta`.
    pub fn new() -> (r: Self)
        ensures
            r.well_formed(),
            pow(r.beta as int, 32) % (QUARTIC_Q as int) == QUARTIC_Q - 1,
            pow(r.beta as int, 64) % (QUARTIC_Q as int) == 1,
            forall|s: int|
                0 <= s < SLOT_COUNT ==> #[trigger] r.raw_shift_factors@[s] as int == pow(
                    r.beta as int,
                    r.slot_exponents@[s] as nat,
                ) % (QUARTIC_Q as int),
            forall|s: int|
                0 <= s < SLOT_COUNT ==> #[trigger] r.slot_exponents@[s] % 2 == 1 && r.slot_exponents@[s]
                    < 64,
            forall|s1: int, s2: int|
                0 <= s1 < s2 < SLOT_COUNT ==> #[trigger] r.slot_exponents@[s1]
                    != #[trigger] r.slot_exponents@[s2],
            forall|s: int|
                0 <= s < SLOT_COUNT ==> pow(#[trigger] r.raw_shift_factors@[s] as int, 32) % (
                QUARTIC_Q as int) == QUARTIC_Q - 1,
    {
        let mut unit: Vec<u64> = Vec::new();
        let mut i: usize = 0;
        while i < SLOT_COUNT
            invariant
                i <= SLOT_COUNT,
                unit@ == unit_vector(SLOT_COUNT as nat).take(i as int),
            decreases SLOT_COUNT - i,
        {
            unit.push(if i == 1 {
                1u64
            } else {
                0u64
            });
            i = i + 1;
            proof {
                assert(unit@ =~= unit_vector(SLOT_COUNT as nat).take(i as int));
            }
        }
        proof {
            assert(unit@ =~= unit_vector(SLOT_COUNT as nat));
        }
        ntt_forward_in_place(&mut unit, SLOT_COUNT, QUARTIC_Q);
        let mut shifts = [0u64; SLOT_COUNT];
        let mut i: usize = 0;
        while i < SLOT_COUNT
            invariant
                i <= SLOT_COUNT,
                unit@ == ntt_spec(unit_vector(SLOT_COUNT as nat), QUARTIC_Q),
                forall|s: int| 0 <= s < i ==> #[trigger] shifts@[s] as int == ntt_point(
                    SLOT_COUNT as nat,
                    QUARTIC_Q,
                    s as nat,
                ),
            decreases SLOT_COUNT - i,
        {
            proof {
                lemma_ntt_of_unit(SLOT_COUNT as nat, QUARTIC_Q, i as nat);
            }
            shifts[i] = unit[i];
            i = i + 1;
        }
        let beta = shifts[0];
        proof {
            lemma_ntt_exponent_zero(SLOT_COUNT as nat);
            lemma_pow1(NTT_ROOT_QUARTIC_Q as int);
            lemma_small_mod(NTT_ROOT_QUARTIC_Q as nat, QUARTIC_Q as nat);
            assert(beta == NTT_ROOT_QUARTIC_Q);
            crate::roots::lemma_root_order_quartic_q();
        }
        let mut exponents = [0usize; SLOT_COUNT];
        let mut slot: usize = 0;
        while slot < SLOT_COUNT
            invariant
                slot <= SLOT_COUNT,
                beta == NTT_ROOT_QUARTIC_Q,
                forall|s: int| 0 <= s < SLOT_COUNT ==> #[trigger] shifts@[s] as int == ntt_point(
                    SLOT_COUNT as nat,
                    QUARTIC_Q,
                    s as nat,
                ),
                forall|s: int| 0 <= s < slot ==> #[trigger] exponents@[s] as nat == ntt_exponent(
                    SLOT_COUNT as nat,
                    s as nat,
                ),
            decreases SLOT_COUNT - slot,
        {
            exponents[slot] = first_odd_exponent(beta, shifts[slot], Ghost(slot as int));
            slot = slot + 1;
        }
        proof {
            assert forall|s: int| 0 <= s < SLOT_COUNT implies #[trigger] exponents@[s] % 2 == 1
                && exponents@[s] < 64 by {
                lemma_ntt_exponent_bound(SLOT_COUNT as nat, s as nat);
            }
            assert forall|s1: int, s2: int| 0 <= s1 < s2 < SLOT_COUNT implies #[trigger] exponents@[s1]
                != #[trigger] exponents@[s2] by {
                reveal_with_fuel(two_pow, 6);
                if exponents@[s1] == exponents@[s2] {
                    lemma_bit_reverse_injective(s1 as nat, s2 as nat, 5);
                }
            }
            assert forall|s: int| 0 <= s < SLOT_COUNT implies pow(#[trigger] shifts@[s] as int, 32) % (
            QUARTIC_Q as int) == QUARTIC_Q - 1 by {
                lemma_quartic_point_root(s);
            }
        }
        QuarticTransform { raw_shift_factors: shifts, beta, slot_exponents: exponents }
    }
}

/// `beta^(64 - k)` inverts `beta^k` modulo `q` for `k < 64`.
proof fn lemma_scale_invertible(k: nat)
    requires
        k < 64,
    ensures
        is_inverse_of(
            pow(NTT_ROOT_QUARTIC_Q as int, (64 - k) as nat) % (QUARTIC_Q as int),
            pow(NTT_ROOT_QUARTIC_Q as int, k) % (QUARTIC_Q as int),
            QUARTIC_Q as int,
        ),
{
    let q = QUARTIC_Q as int;
    let b = NTT_ROOT_QUARTIC_Q as int;
    crate::roots::lemma_root_order_quartic_q();
    lemma_mul_mod_noop(pow(b, (64 - k) as nat), pow(b, k), q);
    lemma_pow_adds(b, (64 - k) as nat, k);
    assert(((64 - k) as nat + k) as nat == 64);
    lemma_mod_bound(pow(b, (64 - k) as nat), q);
}

/// The canonical inverse of `beta^k` modulo `q`, for `k < 64`.
fn scale_inverse_exec(beta: u64, k: u64) -> (r: u64)
    requires
        beta == NTT_ROOT_QUARTIC_Q,
        k < 64,
    ensures
        r as int == scale_inverse(beta as int, k as int),
        is_inverse_of(r as int, pow(beta as int, k as nat) % (QUARTIC_Q as int), QUARTIC_Q as int),
{
    let scale = pow_mod(beta, k, QUARTIC_Q);
    let ghost q = QUARTIC_Q as int;
    proof {
        lemma_scale_invertible(k as nat);
    }
    let inverse = match inv_mod(scale, QUARTIC_Q) {
        Some(x) => x,
        None => {
            proof {
                let y = pow(beta as int, (64 - k) as nat) % q;
                assert((y * scale as int) % q == 1);
            }
            0
        },
    };
    proof {
        assert(is_inverse_of(inverse as int, scale as int, q));
        let c = scale_inverse(beta as int, k as int);
        assert(is_inverse_of(c, pow(beta as int, k as nat) % q, q));
        crate::ring_arithmetic::lemma_inverse_unique(inverse as int, c, scale as int, q);
    }
    inverse
}

/// Forward transforms of the four residue blocks.
fn transformed_blocks(coefficients: &[u64; RING_DEGREE]) -> (r: Vec<Vec<u64>>)
    ensures
        r.len() == EXTENSION_DEGREE,
        forall|b: int| 0 <= b < EXTENSION_DEGREE ==> #[trigger] r@[b]@ == quartic_transformed(
            coefficients@,
            b,
        ),
{
    let mut blocks: Vec<Vec<u64>> = Vec::new();
    let mut residue: usize = 0;
    while residue < EXTENSION_DEGREE
        invariant
            residue <= EXTENSION_DEGREE,
            blocks.len() == residue,
            forall|b: int| 0 <= b < residue ==> #[trigger] blocks@[b]@ == quartic_transformed(
                coefficients@,
                b,
            ),
        decreases EXTENSION_DEGREE - residue,
    {
        let mut blk: Vec<u64> = Vec::new();
        let mut digit: usize = 0;
        while digit < SLOT_COUNT
            invariant
                residue < EXTENSION_DEGREE,
                digit <= SLOT_COUNT,
                blk@ == quartic_block(coefficients@, residue as int).take(digit as int),
            decreases SLOT_COUNT - digit,
        {
            blk.push(coefficients[EXTENSION_DEGREE * digit + residue]);
            digit = digit + 1;
            proof {
                assert(blk@ =~= quartic_block(coefficients@, residue as int).take(digit as int));
            }
        }
        proof {
            assert(blk@ =~= quartic_block(coefficients@, residue as int));
        }
        ntt_forward_in_place(&mut blk, SLOT_COUNT, QUARTIC_Q);
        blocks.push(blk);
        residue = residue + 1;
    }
    blocks
}

impl QuarticTransform {
    /// Coefficients to the four raw blocks' transforms, then every slot into
    /// the common field `F_q[T]/(T^4 - beta)`.
    pub fn coefficients_to_homogeneous_slots(&self, coefficients: &[u64; RING_DEGREE]) -> (r: [QuarticSlot; SLOT_COUNT])
        requires
            self.well_formed(),
        ensures
            forall|s: int|
                0 <= s < SLOT_COUNT ==> #[trigger] r@[s].coeffs@ == homogeneous_slot(
                    coefficients@,
                    self.beta as int,
                    self.slot_exponents@[s] as int,
                    s,
                    4,
                ),
    {
        let blocks = transformed_blocks(coefficients);
        let mut result = [QuarticSlot { coeffs: [0u64; EXTENSION_DEGREE] }; SLOT_COUNT];
        let mut slot: usize = 0;
        while slot < SLOT_COUNT
            invariant
                slot <= SLOT_COUNT,
                self.well_formed(),
                blocks.len() == EXTENSION_DEGREE,
                forall|b: int| 0 <= b < EXTENSION_DEGREE ==> #[trigger] blocks@[b]@ == quartic_transformed(
                    coefficients@,
                    b,
                ),
                forall|s: int|
                    0 <= s < slot ==> #[trigger] result@[s].coeffs@ == homogeneous_slot(
                        coefficients@,
                        self.beta as int,
                        self.slot_exponents@[s] as int,
                        s,
                        4,
                    ),
            decreases SLOT_COUNT - slot,
        {
            let exponent = self.slot_exponents[slot];
            proof {
                lemma_ntt_exponent_bound(SLOT_COUNT as nat, slot as nat);
            }
            let mut coeffs = [0u64; EXTENSION_DEGREE];
            proof {
                assert(coeffs@ =~= zero_slot());
            }
            let mut raw_degree: usize = 0;
            while raw_degree < EXTENSION_DEGREE
                invariant
                    slot < SLOT_COUNT,
                    exponent < 64,
                    raw_degree <= EXTENSION_DEGREE,
                    blocks.len() == EXTENSION_DEGREE,
                    forall|b: int| 0 <= b < EXTENSION_DEGREE ==> #[trigger] blocks@[b]@
                        == quartic_transformed(coefficients@, b),
                    coeffs@ == homogeneous_slot(
                        coefficients@,
                        self.beta as int,
                        exponent as int,
                        slot as int,
                        raw_degree as int,
                    ),
                decreases EXTENSION_DEGREE - raw_degree,
            {
                proof {
                    assert(exponent * raw_degree < 256) by (nonlinear_arith)
                        requires
                            exponent < 64,
                            raw_degree < 4,
                    ;
                }
                let power = exponent * raw_degree;
                let homogeneous_degree = power % EXTENSION_DEGREE;
                let scale = pow_mod(self.beta, (power / EXTENSION_DEGREE) as u64, QUARTIC_Q);
                assert(blocks@[raw_degree as int].len() == SLOT_COUNT);
                let value = blocks[raw_degree][slot];
                proof {
                    lemma_mul_mod_noop_right(
                        value as int,
                        pow(self.beta as int, (power / EXTENSION_DEGREE) as nat),
                        QUARTIC_Q as int,
                    );
                }
                coeffs[homogeneous_degree] = mul_mod(value, scale, QUARTIC_Q);
                raw_degree = raw_degree + 1;
            }
            result[slot] = QuarticSlot { coeffs };
            slot = slot + 1;
        }
        result
    }

    /// Slots back to raw blocks, each transformed back and interleaved into
    /// coefficients.
    pub fn homogeneous_slots_to_coefficients(&self, slots: &[QuarticSlot; SLOT_COUNT]) -> (r: [u64; RING_DEGREE])
        requires
            self.well_formed(),
        ensures
            r@ == coefficients_from_slots(
                |s: int| slots@[s].coeffs@,
                self.slot_exponents@,
                self.beta as int,
            ),
    {
        let ghost values = |s: int| slots@[s].coeffs@;
        let ghost target = coefficients_from_slots(values, self.slot_exponents@, self.beta as int);
        let mut coefficients = [0u64; RING_DEGREE];
        let mut raw_degree: usize = 0;
        while raw_degree < EXTENSION_DEGREE
            invariant
                raw_degree <= EXTENSION_DEGREE,
                self.well_formed(),
                values == (|s: int| slots@[s].coeffs@),
                target == coefficients_from_slots(values, self.slot_exponents@, self.beta as int),
                forall|k: int|
                    0 <= k < RING_DEGREE && k % 4 < raw_degree ==> #[trigger] coefficients@[k]
                        == target[k],
            decreases EXTENSION_DEGREE - raw_degree,
        {
            let ghost raw = raw_slot_block(values, self.slot_exponents@, self.beta as int, raw_degree as int);
            let mut blk: Vec<u64> = Vec::new();
            let mut slot: usize = 0;
            while slot < SLOT_COUNT
                invariant
                    raw_degree < EXTENSION_DEGREE,
                    slot <= SLOT_COUNT,
                    self.well_formed(),
                    values == (|s: int| slots@[s].coeffs@),
                    raw == raw_slot_block(values, self.slot_exponents@, self.beta as int, raw_degree as int),
                    blk@ == raw.take(slot as int),
                decreases SLOT_COUNT - slot,
            {
                let exponent = self.slot_exponents[slot];
                proof {
                    lemma_ntt_exponent_bound(SLOT_COUNT as nat, slot as nat);
                    assert(self.slot_exponents@[slot as int] as nat == ntt_exponent(
                        SLOT_COUNT as nat,
                        slot as nat,
                    ));
                    assert(exponent * raw_degree < 256) by (nonlinear_arith)
                        requires
                            exponent < 64,
                            raw_degree < 4,
                    ;
                }
                let power = exponent * raw_degree;
                let inverse = scale_inverse_exec(self.beta, (power / EXTENSION_DEGREE) as u64);
                blk.push(mul_mod(slots[slot].coeffs[power % EXTENSION_DEGREE], inverse, QUARTIC_Q));
                slot = slot + 1;
                proof {
                    assert(blk@ =~= raw.take(slot as int));
                }
            }
            proof {
                assert(blk@ =~= raw);
            }
            ntt_inverse_in_place(&mut blk, SLOT_COUNT, QUARTIC_Q);
            let mut digit: usize = 0;
            while digit < SLOT_COUNT
                invariant
                    raw_degree < EXTENSION_DEGREE,
                    digit <= SLOT_COUNT,
                    blk@ == ntt_inverse_spec(raw, QUARTIC_Q),
                    raw == raw_slot_block(values, self.slot_exponents@, self.beta as int, raw_degree as int),
                    target == coefficients_from_slots(values, self.slot_exponents@, self.beta as int),
                    forall|k: int|
                        0 <= k < RING_DEGREE && k % 4 < raw_degree ==> #[trigger] coefficients@[k]
                            == target[k],
                    forall|d: int|
                        0 <= d < digit ==> #[trigger] coefficients@[4 * d + raw_degree] == target[4 * d
                            + raw_degree],
                decreases SLOT_COUNT - digit,
            {
                proof {
                    let k = 4 * digit + raw_degree;
                    lemma_fundamental_div_mod_converse(k as int, 4, digit as int, raw_degree as int);
                }
                coefficients[EXTENSION_DEGREE * digit + raw_degree] = blk[digit];
                digit = digit + 1;
            }
            proof {
                assert forall|k: int|
                    0 <= k < RING_DEGREE && k % 4 < raw_degree + 1 implies #[trigger] coefficients@[k]
                        == target[k] by {
                    if k % 4 == raw_degree {
                        lemma_fundamental_div_mod(k, 4);
                        assert(coefficients@[4 * (k / 4) + raw_degree] == target[4 * (k / 4) + raw_degree]);
                    }
                }
            }
            raw_degree = raw_degree + 1;
        }
        proof {
            assert forall|k: int| 0 <= k < RING_DEGREE implies #[trigger] coefficients@[k] == target[k] by {
                assert(k % 4 < 4);
            }
            assert(coefficients@ =~= target);
        }
        coefficients
    }
}

/// Slot values matter only on the slots.
pub proof fn lemma_coefficients_from_slots_ext(
    f: spec_fn(int) -> Seq<u64>,
    g: spec_fn(int) -> Seq<u64>,
    exponents: Seq<usize>,
    beta: int,
)
    requires
        forall|s: int| 0 <= s < SLOT_COUNT ==> #[trigger] f(s) == g(s),
    ensures
        coefficients_from_slots(f, exponents, beta) == coefficients_from_slots(g, exponents, beta),
{
    assert forall|r: int| 0 <= r < 4 implies #[trigger] raw_slot_block(f, exponents, beta, r)
        == raw_slot_block(g, exponents, beta, r) by {
        assert(raw_slot_block(f, exponents, beta, r) =~= raw_slot_block(g, exponents, beta, r));
    }
    assert forall|k: int| 0 <= k < RING_DEGREE implies #[trigger] coefficients_from_slots(
        f,
        exponents,
        beta,
    )[k] == coefficients_from_slots(g, exponents, beta)[k] by {
        assert(0 <= k % 4 < 4);
    }
    assert(coefficients_from_slots(f, exponents, beta) =~= coefficients_from_slots(
        g,
        exponents,
        beta,
    ));
}

/// Whether every coefficient of a slot element is zero.
fn is_zero_slot(slot: &QuarticSlot) -> (r: bool)
    ensures
        r == (slot.coeffs@ == zero_slot()),
{
    let r = slot.coeffs[0] == 0 && slot.coeffs[1] == 0 && slot.coeffs[2] == 0 && slot.coeffs[3] == 0;
    proof {
        if r {
            assert(slot.coeffs@ =~= zero_slot());
        }
    }
    r
}

impl QuarticTransform {
    /// Product of two coefficient vectors through the slot fields: both
    /// operands to slots, slot-wise products, back to coefficients.
    pub fn multiply(&self, lhs: &[u64; RING_DEGREE], rhs: &[u64; RING_DEGREE]) -> (r: [u64; RING_DEGREE])
        requires
            self.well_formed(),
        ensures
            r@ == coefficients_from_slots(
                |s: int|
                    slot_mul(
                        homogeneous_slot(lhs@, self.beta as int, self.slot_exponents@[s] as int, s, 4),
                        homogeneous_slot(rhs@, self.beta as int, self.slot_exponents@[s] as int, s, 4),
                        self.beta as int,
                    ),
                self.slot_exponents@,
                self.beta as int,
            ),
            r@ == negacyclic_product(lhs@, rhs@, QUARTIC_Q),
    {
        let lhs_slots = self.coefficients_to_homogeneous_slots(lhs);
        let rhs_slots = self.coefficients_to_homogeneous_slots(rhs);
        let mut product_slots = [QuarticSlot { coeffs: [0u64; EXTENSION_DEGREE] }; SLOT_COUNT];
        let mut slot: usize = 0;
        while slot < SLOT_COUNT
            invariant
                slot <= SLOT_COUNT,
                forall|s: int|
                    0 <= s < slot ==> #[trigger] product_slots@[s].coeffs@ == slot_mul(
                        lhs_slots@[s].coeffs@,
                        rhs_slots@[s].coeffs@,
                        self.beta as int,
                    ),
            decreases SLOT_COUNT - slot,
        {
            product_slots[slot] = lhs_slots[slot].mul(&rhs_slots[slot], self.beta);
            slot = slot + 1;
        }
        let r = self.homogeneous_slots_to_coefficients(&product_slots);
        proof {
            lemma_coefficients_from_slots_ext(
                |s: int| product_slots@[s].coeffs@,
                |s: int|
                    slot_mul(
                        homogeneous_slot(lhs@, self.beta as int, self.slot_exponents@[s] as int, s, 4),
                        homogeneous_slot(rhs@, self.beta as int, self.slot_exponents@[s] as int, s, 4),
                        self.beta as int,
                    ),
                self.slot_exponents@,
                self.beta as int,
            );
            lemma_slot_multiplication_is_ring_product(*self, lhs@, rhs@);
        }
        r
    }

    /// Inverse through the slot fields; `None` exactly when some slot is zero.
    pub fn inverse(&self, value: &[u64; RING_DEGREE]) -> (r: Option<[u64; RING_DEGREE]>)
        requires
            self.well_formed(),
        ensures
            r is None <==> exists|s: int|
                0 <= s < SLOT_COUNT && #[trigger] homogeneous_slot(
                    value@,
                    self.beta as int,
                    self.slot_exponents@[s] as int,
                    s,
                    4,
                ) == zero_slot(),
            r matches Some(c) ==> c@ == coefficients_from_slots(
                |s: int|
                    slot_pow(
                        homogeneous_slot(value@, self.beta as int, self.slot_exponents@[s] as int, s, 4),
                        (pow(QUARTIC_Q as int, 4) - 2) as nat,
                        self.beta as int,
                    ),
                self.slot_exponents@,
                self.beta as int,
            ),
    {
        let slots = self.coefficients_to_homogeneous_slots(value);
        let mut slot: usize = 0;
        while slot < SLOT_COUNT
            invariant
                slot <= SLOT_COUNT,
                forall|s: int|
                    0 <= s < SLOT_COUNT ==> #[trigger] slots@[s].coeffs@ == homogeneous_slot(
                        value@,
                        self.beta as int,
                        self.slot_exponents@[s] as int,
                        s,
                        4,
                    ),
                forall|s: int| 0 <= s < slot ==> #[trigger] slots@[s].coeffs@ != zero_slot(),
            decreases SLOT_COUNT - slot,
        {
            if is_zero_slot(&slots[slot]) {
                proof {
                    assert(slots@[slot as int].coeffs@ == homogeneous_slot(
                        value@,
                        self.beta as int,
                        self.slot_exponents@[slot as int] as int,
                        slot as int,
                        4,
                    ));
                }
                return None;
            }
            slot = slot + 1;
        }
        let mut inverses = [QuarticSlot { coeffs: [0u64; EXTENSION_DEGREE] }; SLOT_COUNT];
        let mut slot: usize = 0;
        while slot < SLOT_COUNT
            invariant
                slot <= SLOT_COUNT,
                forall|s: int| 0 <= s < SLOT_COUNT ==> #[trigger] slots@[s].coeffs@ != zero_slot(),
                forall|s: int|
                    0 <= s < slot ==> #[trigger] inverses@[s].coeffs@ == slot_pow(
                        slots@[s].coeffs@,
                        (pow(QUARTIC_Q as int, 4) - 2) as nat,
                        self.beta as int,
                    ),
            decreases SLOT_COUNT - slot,
        {
            inverses[slot] = slots[slot].inverse(self.beta);
            slot = slot + 1;
        }
        let r = self.homogeneous_slots_to_coefficients(&inverses);
        proof {
            assert forall|s: int| 0 <= s < SLOT_COUNT implies !(#[trigger] homogeneous_slot(
                value@,
                self.beta as int,
                self.slot_exponents@[s] as int,
                s,
                4,
            ) == zero_slot()) by {
                assert(slots@[s].coeffs@ != zero_slot());
            }
            lemma_coefficients_from_slots_ext(
                |s: int| inverses@[s].coeffs@,
                |s: int|
                    slot_pow(
                        homogeneous_slot(value@, self.beta as int, self.slot_exponents@[s] as int, s, 4),
                        (pow(QUARTIC_Q as int, 4) - 2) as nat,
                        self.beta as int,
                    ),
                self.slot_exponents@,
                self.beta as int,
            );
        }
        Some(r)
    }
}

/// Schoolbook product in `Z_q[X]/(X^128 + 1)` modulo the quartic prime.
pub fn naive_negacyclic_multiply(lhs: &[u64; RING_DEGREE], rhs: &[u64; RING_DEGREE]) -> (r: [u64; RING_DEGREE])
    ensures
        r@ == negacyclic_product(lhs@, rhs@, QUARTIC_Q),
{
    negacyclic_multiply_mod(lhs, rhs, QUARTIC_Q)
}

proof fn lemma_odd_multiples_distinct(e: int, r1: int, r2: int)
    requires
        e >= 0,
        e % 2 == 1,
        0 <= r1 < r2 < 4,
    ensures
        (e * r1) % 4 != (e * r2) % 4,
{
    lemma_mul_mod_noop_left(e, r1, 4);
    lemma_mul_mod_noop_left(e, r2, 4);
    assert(e % 4 == 1 || e % 4 == 3) by {
        lemma_fundamental_div_mod(e, 4);
        lemma_fundamental_div_mod(e, 2);
    }
}

/// In a filled slot, the coefficient that raw degree `r` landed on still
/// holds its value: no later raw degree lands there.
pub proof fn lemma_homogeneous_slot_at(c: Seq<u64>, beta: int, e: int, s: int, count: int, r: int)
    requires
        e >= 0,
        e % 2 == 1,
        0 <= r < count <= 4,
    ensures
        homogeneous_slot(c, beta, e, s, count)[(e * r) % 4] == ((quartic_transformed(c, r)[s] * pow(
            beta,
            ((e * r) / 4) as nat,
        )) % (QUARTIC_Q as int)) as u64,
    decreases count,
{
    assert(homogeneous_slot(c, beta, e, s, count - 1).len() == 4) by {
        lemma_homogeneous_slot_len(c, beta, e, s, count - 1);
    }
    if r < count - 1 {
        lemma_odd_multiples_distinct(e, r, count - 1);
        lemma_homogeneous_slot_at(c, beta, e, s, count - 1, r);
    }
}

pub proof fn lemma_homogeneous_slot_len(c: Seq<u64>, beta: int, e: int, s: int, count: int)
    requires
        e >= 0,
    ensures
        homogeneous_slot(c, beta, e, s, count).len() == 4,
    decreases count,
{
    if count > 0 {
        lemma_homogeneous_slot_len(c, beta, e, s, count - 1);
    }
}

/// Going to the slots and back gives canonical coefficients back.
pub proof fn lemma_quartic_roundtrip(t: QuarticTransform, c: Seq<u64>)
    requires
        t.well_formed(),
        c.len() == RING_DEGREE,
        is_reduced(c, QUARTIC_Q),
    ensures
        coefficients_from_slots(
            |s: int| homogeneous_slot(c, t.beta as int, t.slot_exponents@[s] as int, s, 4),
            t.slot_exponents@,
            t.beta as int,
        ) == c,
{
    let q = QUARTIC_Q as int;
    let beta = t.beta as int;
    let values = |s: int| homogeneous_slot(c, beta, t.slot_exponents@[s] as int, s, 4);
    assert forall|r: int| 0 <= r < 4 implies #[trigger] raw_slot_block(values, t.slot_exponents@, beta, r)
        == quartic_transformed(c, r) by {
        let blk = quartic_block(c, r);
        assert(blk.len() == SLOT_COUNT);
        assert forall|s: int| 0 <= s < SLOT_COUNT implies #[trigger] raw_slot_block(
            values,
            t.slot_exponents@,
            beta,
            r,
        )[s] == quartic_transformed(c, r)[s] by {
            let e = t.slot_exponents@[s] as int;
            lemma_ntt_exponent_bound(SLOT_COUNT as nat, s as nat);
            assert(e as nat == ntt_exponent(SLOT_COUNT as nat, s as nat));
            lemma_homogeneous_slot_at(c, beta, e, s, 4, r);
            let k = (e * r) / 4;
            assert(0 <= e * r < 256) by (nonlinear_arith)
                requires
                    0 <= e < 64,
                    0 <= r < 4,
            ;
            let x = quartic_transformed(c, r)[s] as int;
            let p = pow(beta, k as nat);
            let inv = scale_inverse(beta, k);
            lemma_scale_invertible(k as nat);
            let w = pow(beta, (64 - k) as nat) % q;
            assert(is_inverse_of(w, p % q, q));
            assert(is_inverse_of(inv, p % q, q));
            lemma_mul_mod_noop_left(x * p, inv, q);
            lemma_mul_is_associative(x, p, inv);
            lemma_mul_mod_noop_right(x, p * inv, q);
            lemma_mul_mod_noop_left(p, inv, q);
            lemma_mul_is_commutative(inv, p % q);
            lemma_mul_basics(x);
            lemma_small_mod(x as nat, q as nat);
        }
        assert(raw_slot_block(values, t.slot_exponents@, beta, r) =~= quartic_transformed(c, r));
    }
    assert forall|k: int| 0 <= k < RING_DEGREE implies #[trigger] coefficients_from_slots(
        values,
        t.slot_exponents@,
        beta,
    )[k] == c[k] by {
        let r = k % 4;
        let d = k / 4;
        lemma_fundamental_div_mod(k, 4);
        let blk = quartic_block(c, r);
        assert(is_reduced(blk, QUARTIC_Q)) by {
            assert forall|i: int| 0 <= i < blk.len() implies #[trigger] blk[i] < QUARTIC_Q by {
                assert(0 <= 4 * i + r < 128);
            }
        }
        lemma_ntt_roundtrip(blk, QUARTIC_Q);
    }
    assert(coefficients_from_slots(values, t.slot_exponents@, beta) =~= c);
}

} // verus!
