//! Elements of `Z_q[X]/(X^128 + 1)` and their four representations.
use vstd::arithmetic::div_mod::*;
use vstd::arithmetic::mul::*;
use vstd::prelude::*;

use crate::config::{DEGREE, EXTENSION_DEGREE, HALF_DEGREE, MOD_Q};
use crate::layout::{block, intt_blocks, interleaved, ntt_blocks, residue_major};
use crate::modular::{add_mod, inv_mod, is_inverse_of, is_reduced, mul_mod, pow_mod, sub_mod};
use crate::sampling::{random_below, random_below_with, random_byte, random_byte_with};
use rand::rngs::StdRng;
use crate::extension::{extension_product, reduced_convolution};
use crate::negacyclic::{negacyclic_multiply_mod, negacyclic_product};
use vstd::bytes::{spec_u64_from_le_bytes, spec_u64_to_le_bytes, u64_from_le_bytes, u64_to_le_bytes};
use crate::ntt::{
    lemma_ntt_exponent_bound, lemma_ntt_exponent_zero, lemma_ntt_of_unit, ntt_exponent, ntt_forward_in_place, ntt_inverse_in_place,
    ntt_inverse_spec, ntt_point, ntt_point_exec, ntt_spec, unit_vector, NTT_ROOT_MOD_Q,
};
use vstd::arithmetic::power::*;
use vstd::arithmetic::power2::{lemma2_to64, lemma_pow2_unfold, pow2};
use crate::roots::{
    lemma_normalize_witness, lemma_pow_double, lemma_pow_of_reduced_pow, lemma_pow_periodic,
    lemma_root_order_mod_q, normalize_witness,
};

verus! {

/// How the 128 stored values of a ring element are to be read.
#[derive(PartialEq, Eq, Structural, Clone, Copy, Debug)]
pub enum Representation {
    /// Plain coefficients `c_0, ..., c_127`.
    Coefficients,
    /// Coefficients grouped by their residue modulo `EXTENSION_DEGREE`.
    EvenOddCoefficients,
    /// Each residue block transformed independently by the size-64 NTT.
    IncompleteNTT,
    /// All CRT slots presented in one common quadratic field.
    HomogenizedFieldExtensions,
}

/// An element of `Z_q[X]/(X^128 + 1)` in one of its representations.
#[derive(PartialEq, Eq, Clone, Debug)]
pub struct RingElement {
    pub v: [u64; DEGREE],
    pub representation: Representation,
}

/// The all-zero vector of a ring element.
pub open spec fn zero_vector() -> Seq<u64> {
    Seq::new(DEGREE as nat, |i: int| 0u64)
}

/// Product of two incomplete-NTT operands with per-slot shift factors `s`:
/// slot `i` multiplies `(a_i + a_{64+i} X)(b_i + b_{64+i} X)` modulo `X^2 - s(i)`.
pub open spec fn slot_product(a: Seq<u64>, b: Seq<u64>, s: spec_fn(int) -> int) -> Seq<u64> {
    Seq::new(
        DEGREE as nat,
        |k: int|
            if k < HALF_DEGREE {
                ((a[k] * b[k] + s(k) * (a[k + HALF_DEGREE] * b[k + HALF_DEGREE])) % (
                MOD_Q as int)) as u64
            } else {
                ((a[k] * b[k - HALF_DEGREE] + a[k - HALF_DEGREE] * b[k]) % (MOD_Q as int)) as u64
            },
    )
}

/// Shift factor of slot `i`: the forward transform of `Y` at position `i`,
/// i.e. the root `zeta_i` of `Y^64 + 1` that slot `i` evaluates at.
pub open spec fn shift_factor(i: int) -> int {
    ntt_spec(unit_vector(HALF_DEGREE as nat), MOD_Q)[i] as int
}

/// The common field constant `beta`: the shift factor of slot 0.
pub open spec fn field_shift() -> int {
    shift_factor(0)
}

proof fn lemma_block_index(r: int, d: int)
    requires
        0 <= d < HALF_DEGREE,
        0 <= r,
    ensures
        (r * HALF_DEGREE as int + d) / HALF_DEGREE as int == r,
        (r * HALF_DEGREE as int + d) % HALF_DEGREE as int == d,
{
    lemma_fundamental_div_mod_converse(r * 64 + d, 64, r, d);
}

/// Apply the forward (or inverse) size-64 transform to both residue blocks.
fn transform_blocks(v: &mut [u64; DEGREE], forward: bool)
    ensures
        forward ==> final(v)@ == ntt_blocks(old(v)@),
        !forward ==> final(v)@ == intt_blocks(old(v)@),
{
    let ghost orig = v@;
    let ghost target = if forward {
        ntt_blocks(orig)
    } else {
        intt_blocks(orig)
    };
    let mut residue: usize = 0;
    while residue < EXTENSION_DEGREE
        invariant
            residue <= EXTENSION_DEGREE,
            orig.len() == DEGREE,
            target == (if forward {
                ntt_blocks(orig)
            } else {
                intt_blocks(orig)
            }),
            forall|k: int| 0 <= k < residue * HALF_DEGREE ==> #[trigger] v@[k] == target[k],
            forall|k: int| residue * HALF_DEGREE <= k < DEGREE ==> #[trigger] v@[k] == orig[k],
        decreases EXTENSION_DEGREE - residue,
    {
        let base = residue * HALF_DEGREE;
        let mut blk: Vec<u64> = Vec::new();
        let mut d: usize = 0;
        while d < HALF_DEGREE
            invariant
                base == residue * HALF_DEGREE,
                base <= HALF_DEGREE,
                residue < EXTENSION_DEGREE,
                d <= HALF_DEGREE,
                orig.len() == DEGREE,
                blk@ == orig.subrange(base as int, base + d),
                forall|k: int| residue * HALF_DEGREE <= k < DEGREE ==> #[trigger] v@[k] == orig[k],
            decreases HALF_DEGREE - d,
        {
            blk.push(v[base + d]);
            d = d + 1;
            proof {
                assert(blk@ =~= orig.subrange(base as int, base + d));
            }
        }
        let ghost blk0 = blk@;
        assert(blk0 == block(orig, residue as int));
        if forward {
            ntt_forward_in_place(&mut blk, HALF_DEGREE, MOD_Q);
        } else {
            ntt_inverse_in_place(&mut blk, HALF_DEGREE, MOD_Q);
        }
        let mut d: usize = 0;
        while d < HALF_DEGREE
            invariant
                base == residue * HALF_DEGREE,
                base <= HALF_DEGREE,
                residue < EXTENSION_DEGREE,
                d <= HALF_DEGREE,
                orig.len() == DEGREE,
                blk.len() == HALF_DEGREE,
                forward ==> blk@ == ntt_spec(block(orig, residue as int), MOD_Q),
                !forward ==> blk@ == ntt_inverse_spec(block(orig, residue as int), MOD_Q),
                target == (if forward {
                    ntt_blocks(orig)
                } else {
                    intt_blocks(orig)
                }),
                forall|k: int| 0 <= k < base + d ==> #[trigger] v@[k] == target[k],
                forall|k: int| base + d <= k < DEGREE ==> #[trigger] v@[k] == orig[k],
            decreases HALF_DEGREE - d,
        {
            proof {
                lemma_block_index(residue as int, d as int);
            }
            v[base + d] = blk[d];
            d = d + 1;
        }
        residue = residue + 1;
    }
    proof {
        assert(v@ =~= target);
    }
}

proof fn lemma_mod_product_sum(x: int, y: int, z: int, s: int, q: int)
    requires
        q > 0,
    ensures
        ((x % q) + (s * (y % q)) % q) % q == (x + s * y) % q,
        ((x % q) + (z % q)) % q == (x + z) % q,
{
    lemma_mul_mod_noop_right(s, y, q);
    lemma_add_mod_noop(x, s * y, q);
    lemma_mod_twice(s * y, q);
    lemma_add_mod_noop(x, z, q);
}

/// Slot-wise product with shift factors `shifts`.
fn slot_multiply(
    result: &mut [u64; DEGREE],
    a: &[u64; DEGREE],
    b: &[u64; DEGREE],
    shifts: &[u64; HALF_DEGREE],
    Ghost(s): Ghost<spec_fn(int) -> int>,
)
    requires
        forall|i: int| 0 <= i < HALF_DEGREE ==> #[trigger] s(i) == shifts@[i] as int,
    ensures
        final(result)@ == slot_product(a@, b@, s),
{
    let mut i: usize = 0;
    while i < HALF_DEGREE
        invariant
            i <= HALF_DEGREE,
            forall|j: int| 0 <= j < HALF_DEGREE ==> #[trigger] s(j) == shifts@[j] as int,
            forall|k: int|
                (0 <= k < i || HALF_DEGREE <= k < HALF_DEGREE + i) ==> #[trigger] result@[k]
                    == slot_product(a@, b@, s)[k],
        decreases HALF_DEGREE - i,
    {
        let x0 = a[i];
        let x1 = a[HALF_DEGREE + i];
        let y0 = b[i];
        let y1 = b[HALF_DEGREE + i];
        let ac = mul_mod(x0, y0, MOD_Q);
        let bd = mul_mod(x1, y1, MOD_Q);
        let sbd = mul_mod(shifts[i], bd, MOD_Q);
        let ad = mul_mod(x0, y1, MOD_Q);
        let bc = mul_mod(x1, y0, MOD_Q);
        let even = add_mod(ac, sbd, MOD_Q);
        let odd = add_mod(bc, ad, MOD_Q);
        proof {
            lemma_mod_product_sum(
                x0 as int * y0 as int,
                x1 as int * y1 as int,
                0,
                shifts@[i as int] as int,
                MOD_Q as int,
            );
            lemma_mod_product_sum(
                x1 as int * y0 as int,
                0,
                x0 as int * y1 as int,
                0,
                MOD_Q as int,
            );
        }
        result[i] = even;
        result[HALF_DEGREE + i] = odd;
        i = i + 1;
    }
    proof {
        assert(result@ =~= slot_product(a@, b@, s));
    }
}

/// Shift factors are the evaluation points of the size-64 transform.
pub proof fn lemma_shift_factor_is_point(i: int)
    requires
        0 <= i < HALF_DEGREE,
    ensures
        shift_factor(i) == ntt_point(HALF_DEGREE as nat, MOD_Q, i as nat),
        0 <= shift_factor(i) < MOD_Q,
{
    lemma_ntt_of_unit(HALF_DEGREE as nat, MOD_Q, i as nat);
}

/// The common field constant is the root of unity `psi` itself.
pub proof fn lemma_field_shift_is_root()
    ensures
        field_shift() == NTT_ROOT_MOD_Q as int,
{
    lemma_shift_factor_is_point(0);
    lemma_ntt_exponent_zero(HALF_DEGREE as nat);
    lemma_pow1(NTT_ROOT_MOD_Q as int);
    lemma_small_mod(NTT_ROOT_MOD_Q as nat, MOD_Q as nat);
}

/// The shift factors `zeta_i` of all slots: the forward transform of `Y`.
pub fn shift_factors() -> (r: [u64; HALF_DEGREE])
    ensures
        forall|i: int| 0 <= i < HALF_DEGREE ==> #[trigger] r@[i] as int == shift_factor(i),
        forall|i: int| 0 <= i < HALF_DEGREE ==> #[trigger] r@[i] < MOD_Q,
{
    let mut unit: Vec<u64> = Vec::new();
    let mut i: usize = 0;
    while i < HALF_DEGREE
        invariant
            i <= HALF_DEGREE,
            unit@ == unit_vector(HALF_DEGREE as nat).take(i as int),
        decreases HALF_DEGREE - i,
    {
        unit.push(if i == 1 {
            1u64
        } else {
            0u64
        });
        i = i + 1;
        proof {
            assert(unit@ =~= unit_vector(HALF_DEGREE as nat).take(i as int));
        }
    }
    proof {
        assert(unit@ =~= unit_vector(HALF_DEGREE as nat));
    }
    ntt_forward_in_place(&mut unit, HALF_DEGREE, MOD_Q);
    let mut r = [0u64; HALF_DEGREE];
    let mut i: usize = 0;
    while i < HALF_DEGREE
        invariant
            i <= HALF_DEGREE,
            unit@ == ntt_spec(unit_vector(HALF_DEGREE as nat), MOD_Q),
            forall|j: int| 0 <= j < i ==> #[trigger] r@[j] as int == shift_factor(j),
            forall|j: int| 0 <= j < i ==> #[trigger] r@[j] < MOD_Q,
        decreases HALF_DEGREE - i,
    {
        proof {
            lemma_shift_factor_is_point(i as int);
        }
        r[i] = unit[i];
        i = i + 1;
    }
    r
}

/// The common field constant `beta` (the shift factor of slot 0).
pub fn field_shift_factor() -> (r: u64)
    ensures
        r as int == field_shift(),
        r == NTT_ROOT_MOD_Q,
{
    proof {
        lemma_field_shift_is_root();
        lemma_shift_factor_is_point(0);
    }
    ntt_point_exec(HALF_DEGREE, MOD_Q, 0)
}

/// The slot product of a multiplication in incomplete-NTT form
/// (`homogenized == false`) or homogenized form (`homogenized == true`).
pub open spec fn ring_product(a: Seq<u64>, b: Seq<u64>, homogenized: bool) -> Seq<u64> {
    if homogenized {
        slot_product(a, b, |i: int| field_shift())
    } else {
        slot_product(a, b, |i: int| shift_factor(i))
    }
}

/// Multiply two elements slot by slot; `homogenized` selects the common field
/// presentation `X^2 = beta` instead of the raw slots `X^2 = zeta_i`.
pub fn incomplete_ntt_multiplication_inner(
    result: &mut RingElement,
    operand1: &RingElement,
    operand2: &RingElement,
    homogenized: bool,
)
    ensures
        final(result).v@ == ring_product(operand1.v@, operand2.v@, homogenized),
        final(result).representation == old(result).representation,
{
    let mut shifts = shift_factors();
    if homogenized {
        let beta = shifts[0];
        let mut i: usize = 0;
        while i < HALF_DEGREE
            invariant
                i <= HALF_DEGREE,
                beta as int == field_shift(),
                forall|j: int| 0 <= j < i ==> #[trigger] shifts@[j] as int == field_shift(),
            decreases HALF_DEGREE - i,
        {
            shifts[i] = beta;
            i = i + 1;
        }
        slot_multiply(&mut result.v, &operand1.v, &operand2.v, &shifts, Ghost(|i: int| field_shift()));
    } else {
        slot_multiply(&mut result.v, &operand1.v, &operand2.v, &shifts, Ghost(|i: int| shift_factor(i)));
    }
}

/// Slot-wise product with the shift factors given as a table computed once
/// by `shift_factors`: the raw slots (`X^2 = zeta_i`), or the common field
/// (`X^2 = beta`) when `homogenized`.
pub fn incomplete_ntt_multiplication_with(
    result: &mut RingElement,
    operand1: &RingElement,
    operand2: &RingElement,
    homogenized: bool,
    shifts: &[u64; HALF_DEGREE],
)
    requires
        forall|i: int| 0 <= i < HALF_DEGREE ==> #[trigger] shifts@[i] as int == shift_factor(i),
    ensures
        final(result).v@ == ring_product(operand1.v@, operand2.v@, homogenized),
        final(result).representation == old(result).representation,
{
    if homogenized {
        let beta = shifts[0];
        let mut common = [0u64; HALF_DEGREE];
        let mut i: usize = 0;
        while i < HALF_DEGREE
            invariant
                i <= HALF_DEGREE,
                beta as int == field_shift(),
                forall|j: int| 0 <= j < i ==> #[trigger] common@[j] as int == field_shift(),
            decreases HALF_DEGREE - i,
        {
            common[i] = beta;
            i = i + 1;
        }
        slot_multiply(&mut result.v, &operand1.v, &operand2.v, &common, Ghost(|i: int| field_shift()));
    } else {
        slot_multiply(&mut result.v, &operand1.v, &operand2.v, shifts, Ghost(|i: int| shift_factor(i)));
    }
}

impl RingElement {
    /// The zero element in the given representation.
    pub fn new(representation: Representation) -> (r: Self)
        ensures
            r.v@ == zero_vector(),
            r.representation == representation,
    {
        let r = Self { v: [0u64; DEGREE], representation };
        proof {
            assert(r.v@ =~= zero_vector());
        }
        r
    }

    /// A copy of this element (field by field).
    pub fn copy(&self) -> (r: Self)
        ensures
            r == *self,
    {
        Self { v: self.v, representation: self.representation }
    }
}

/// Condition that the search for the normalization factor of slot `i` tests
/// at exponent `t`: squaring `u X` in the homogenized slot (`X^2 = beta`) with
/// `u = zeta_i^t` gives the same vector as squaring `X` in the raw slot
/// (`X^2 = zeta_i`), namely `beta u^2 = zeta_i`.
pub open spec fn normalize_condition(i: int, t: nat) -> bool {
    let u = pow(shift_factor(i), t) % (MOD_Q as int);
    (field_shift() * (u * u)) % (MOD_Q as int) == shift_factor(i)
}

/// The least exponent that satisfies the normalization condition of slot `i`.
pub open spec fn normalize_exponent(i: int) -> nat {
    choose|t: nat| normalize_condition(i, t) && forall|t2: nat| t2 < t ==> !normalize_condition(i, t2)
}

/// Normalization factor of slot `i`: `zeta_i^t` for the least such exponent `t`.
pub open spec fn normalize_factor(i: int) -> int {
    pow(shift_factor(i), normalize_exponent(i)) % (MOD_Q as int)
}

/// Inverse of the normalization factor of slot `i` modulo `q`.
pub open spec fn normalize_inverse(i: int) -> int {
    choose|x: int| is_inverse_of(x, normalize_factor(i), MOD_Q as int)
}

/// Every slot has an exponent satisfying the normalization condition.
pub proof fn lemma_normalize_condition_holds(i: int)
    requires
        0 <= i < HALF_DEGREE,
    ensures
        normalize_witness(ntt_exponent(HALF_DEGREE as nat, i as nat)) < 64,
        normalize_condition(i, normalize_witness(ntt_exponent(HALF_DEGREE as nat, i as nat))),
{
    let q = MOD_Q as int;
    let psi = NTT_ROOT_MOD_Q as int;
    let e = ntt_exponent(HALF_DEGREE as nat, i as nat);
    lemma_ntt_exponent_bound(HALF_DEGREE as nat, i as nat);
    lemma_normalize_witness(e);
    let t = normalize_witness(e);
    lemma_shift_factor_is_point(i);
    lemma_field_shift_is_root();
    lemma_root_order_mod_q();
    let s = shift_factor(i);
    assert(s == pow(psi, e) % q);
    let u = pow(s, t) % q;
    lemma_pow_of_reduced_pow(psi, e, t, q);
    assert(u == pow(psi, e * t) % q);
    lemma_pow_double(psi, e * t, q);
    lemma_mul_mod_noop(pow(psi, e * t) % q, pow(psi, e * t) % q, q);
    lemma_mod_twice(pow(psi, e * t), q);
    assert((u * u) % q == pow(psi, 2 * (e * t)) % q);
    lemma_mul_mod_noop_right(psi, u * u, q);
    lemma_mul_mod_noop_right(psi, pow(psi, 2 * (e * t)), q);
    lemma_pow_adds(psi, 1, 2 * (e * t));
    lemma_pow1(psi);
    assert(psi * pow(psi, 2 * (e * t)) == pow(psi, 1 + 2 * (e * t)));
    let m = (2 * e * t + 1) / 128;
    lemma_fundamental_div_mod((2 * e * t + 1) as int, 128);
    assert(2 * e * t + 1 == e + 128 * m);
    assert(1 + 2 * (e * t) == e + 128 * m) by (nonlinear_arith)
        requires
            2 * e * t + 1 == e + 128 * m,
    ;
    lemma_pow_periodic(psi, 128, e, m as nat, q);
}

proof fn lemma_minimal_exponent_unique(i: int, t: nat)
    requires
        normalize_condition(i, t),
        forall|t2: nat| t2 < t ==> !normalize_condition(i, t2),
    ensures
        normalize_exponent(i) == t,
{
    let c = normalize_exponent(i);
    assert(normalize_condition(i, c) && forall|t2: nat| t2 < c ==> !normalize_condition(i, t2));
    if c < t {
        assert(!normalize_condition(i, c));
    }
    if t < c {
        assert(!normalize_condition(i, t));
    }
}

/// The least normalization exponent exists and is below 64.
pub proof fn lemma_normalize_exponent(i: int)
    requires
        0 <= i < HALF_DEGREE,
    ensures
        normalize_condition(i, normalize_exponent(i)),
        normalize_exponent(i) < 64,
        forall|t2: nat| t2 < normalize_exponent(i) ==> !normalize_condition(i, t2),
{
    lemma_normalize_condition_holds(i);
    let w = normalize_witness(ntt_exponent(HALF_DEGREE as nat, i as nat));
    lemma_least_satisfying(i, w, w);
}

proof fn lemma_least_satisfying(i: int, w: nat, k: nat)
    requires
        normalize_condition(i, w),
        k <= w,
        forall|t2: nat| t2 < w - k ==> !normalize_condition(i, t2),
    ensures
        normalize_condition(i, normalize_exponent(i)),
        normalize_exponent(i) <= w,
        forall|t2: nat| t2 < normalize_exponent(i) ==> !normalize_condition(i, t2),
    decreases k,
{
    let t = (w - k) as nat;
    if normalize_condition(i, t) {
        lemma_minimal_exponent_unique(i, t);
    } else {
        assert forall|t2: nat| t2 < w - (k - 1) implies !normalize_condition(i, t2) by {
            if t2 < t {
            }
        }
        lemma_least_satisfying(i, w, (k - 1) as nat);
    }
}

/// The normalization factor is a power of `psi` and hence invertible.
pub proof fn lemma_normalize_factor_invertible(i: int)
    requires
        0 <= i < HALF_DEGREE,
    ensures
        0 <= normalize_factor(i) < MOD_Q,
        0 <= normalize_inverse(i) < MOD_Q,
        (normalize_inverse(i) * normalize_factor(i)) % (MOD_Q as int) == 1,
        (normalize_factor(i) * normalize_inverse(i)) % (MOD_Q as int) == 1,
{
    let q = MOD_Q as int;
    let psi = NTT_ROOT_MOD_Q as int;
    let e = ntt_exponent(HALF_DEGREE as nat, i as nat);
    let t = normalize_exponent(i);
    lemma_shift_factor_is_point(i);
    lemma_root_order_mod_q();
    lemma_pow_of_reduced_pow(psi, e, t, q);
    let f = normalize_factor(i);
    assert(f == pow(psi, e * t) % q);
    let x = pow(psi, 127 * (e * t)) % q;
    lemma_mul_mod_noop(pow(psi, 127 * (e * t)), pow(psi, e * t), q);
    lemma_pow_adds(psi, 127 * (e * t), e * t);
    assert(127 * (e * t) + e * t == 0 + 128 * (e * t)) by (nonlinear_arith);
    lemma_pow_periodic(psi, 128, 0, e * t, q);
    lemma_pow0(psi);
    lemma_small_mod(1, q as nat);
    lemma_mod_bound(pow(psi, 127 * (e * t)), q);
    lemma_mod_bound(pow(psi, e * t), q);
    assert((x * f) % q == 1);
    assert(is_inverse_of(x, f, q));
    let y = normalize_inverse(i);
    assert(is_inverse_of(y, f, q));
    lemma_mul_is_commutative(y, f);
}

/// Inverses modulo `q` are unique among canonical representatives.
pub proof fn lemma_inverse_unique(x: int, y: int, f: int, q: int)
    requires
        q > 1,
        0 <= x < q,
        0 <= y < q,
        (x * f) % q == 1,
        (y * f) % q == 1,
    ensures
        x == y,
{
    lemma_mul_mod_noop_right(x, y * f, q);
    lemma_mul_mod_noop_right(y, x * f, q);
    lemma_mul_is_associative(x, y, f);
    lemma_mul_is_associative(y, x, f);
    lemma_mul_is_commutative(x, y);
    lemma_small_mod(x as nat, q as nat);
    lemma_small_mod(y as nat, q as nat);
    assert((x * (y * f)) % q == (x * ((y * f) % q)) % q);
    assert((x * 1) % q == x);
    assert((y * 1) % q == y);
}

/// Whether two coefficient arrays agree everywhere.
fn arrays_equal(a: &[u64; DEGREE], b: &[u64; DEGREE]) -> (r: bool)
    ensures
        r == (a@ == b@),
{
    let mut i: usize = 0;
    while i < DEGREE
        invariant
            i <= DEGREE,
            forall|j: int| 0 <= j < i ==> #[trigger] a@[j] == b@[j],
        decreases DEGREE - i,
    {
        if a[i] != b[i] {
            return false;
        }
        i = i + 1;
    }
    proof {
        assert(a@ =~= b@);
    }
    true
}

/// Whether exponent `t` passes the normalization test of slot `i`: square the
/// unit `X` of slot `i` in the raw presentation and `zeta_i^t X` in the
/// homogenized one, and compare the two products.
fn normalization_matches(i: usize, t: u64, shifts: &[u64; HALF_DEGREE]) -> (r: bool)
    requires
        i < HALF_DEGREE,
        forall|j: int| 0 <= j < HALF_DEGREE ==> #[trigger] shifts@[j] as int == shift_factor(j),
    ensures
        r == normalize_condition(i as int, t as nat),
{
    let mut ex = RingElement::new(Representation::IncompleteNTT);
    ex.v[HALF_DEGREE + i] = 1;
    let ghost e1 = ex.v@;
    let mut ex_0 = RingElement::new(Representation::IncompleteNTT);
    incomplete_ntt_multiplication_inner(&mut ex_0, &ex, &ex, false);
    let mut ex_1 = RingElement::new(Representation::HomogenizedFieldExtensions);
    let u = pow_mod(shifts[i], t, MOD_Q);
    ex.v[HALF_DEGREE + i] = u;
    let ghost e2 = ex.v@;
    incomplete_ntt_multiplication_inner(&mut ex_1, &ex, &ex, true);
    let r = arrays_equal(&ex_0.v, &ex_1.v);
    proof {
        let q = MOD_Q as int;
        let ii = i as int;
        let si = shift_factor(ii);
        lemma_shift_factor_is_point(ii);
        lemma_small_mod(si as nat, MOD_Q as nat);
        lemma_small_mod(0, MOD_Q as nat);
        assert(e1[ii] == 0 && e1[ii + HALF_DEGREE] == 1);
        assert(e2[ii] == 0 && e2[ii + HALF_DEGREE] == u);
        assert(e1[ii] * e1[ii] + si * (e1[ii + HALF_DEGREE] * e1[ii + HALF_DEGREE]) == si)
            by (nonlinear_arith)
            requires
                e1[ii] == 0,
                e1[ii + HALF_DEGREE] == 1,
        ;
        assert(si % q == si);
        assert(ex_0.v@[ii] as int == si);
        assert(ex_1.v@[ii] as int == (field_shift() * (u * u)) % q);
        assert(u as int == pow(si, t as nat) % q);
        assert forall|k: int| 0 <= k < DEGREE && k != ii implies #[trigger] ex_0.v@[k] == 0
            && ex_1.v@[k] == 0 by {
            if k < HALF_DEGREE {
                assert(e1[k] == 0 && e1[k + HALF_DEGREE] == 0);
                assert(e2[k] == 0 && e2[k + HALF_DEGREE] == 0);
                assert(field_shift() * (0 * 0) == 0);
                assert(shift_factor(k) * (0 * 0) == 0);
            } else {
                assert(e1[k - HALF_DEGREE] == 0);
                assert(e2[k - HALF_DEGREE] == 0);
                let (x1, x2) = (e1[k] as int, e2[k] as int);
                assert(x1 * 0 == 0 && x2 * 0 == 0 && 0 * x1 == 0 && 0 * x2 == 0)
                    by (nonlinear_arith);
            }
        }
        if normalize_condition(ii, t as nat) {
            assert(ex_0.v@ =~= ex_1.v@);
        }
    }
    r
}

/// Normalization factors (first component) mapping each raw slot
/// `Z_q[X]/(X^2 - zeta_i)` onto the common field `Z_q[X]/(X^2 - beta)`, and
/// their inverses (second component).
pub fn get_roots_of_unity_trans() -> (r: ([u64; HALF_DEGREE], [u64; HALF_DEGREE]))
    ensures
        forall|i: int| 0 <= i < HALF_DEGREE ==> #[trigger] r.0@[i] as int == normalize_factor(i),
        forall|i: int| 0 <= i < HALF_DEGREE ==> #[trigger] r.1@[i] as int == normalize_inverse(i),
{
    let shifts = shift_factors();
    let mut roots = [0u64; HALF_DEGREE];
    let mut i: usize = 0;
    while i < HALF_DEGREE
        invariant
            i <= HALF_DEGREE,
            forall|j: int| 0 <= j < HALF_DEGREE ==> #[trigger] shifts@[j] as int == shift_factor(j),
            forall|j: int| 0 <= j < i ==> #[trigger] roots@[j] as int == normalize_factor(j),
        decreases HALF_DEGREE - i,
    {
        let ghost w = normalize_witness(ntt_exponent(HALF_DEGREE as nat, i as nat));
        proof {
            lemma_normalize_condition_holds(i as int);
        }
        let mut t: u64 = 0;
        let mut found = normalization_matches(i, t, &shifts);
        while !found
            invariant
                i < HALF_DEGREE,
                forall|j: int|
                    0 <= j < HALF_DEGREE ==> #[trigger] shifts@[j] as int == shift_factor(j),
                w < 64,
                normalize_condition(i as int, w),
                t <= w,
                found == normalize_condition(i as int, t as nat),
                forall|t2: nat| t2 < t ==> !normalize_condition(i as int, t2),
            decreases w - t,
        {
            t = t + 1;
            found = normalization_matches(i, t, &shifts);
        }
        proof {
            lemma_minimal_exponent_unique(i as int, t as nat);
        }
        roots[i] = pow_mod(shifts[i], t, MOD_Q);
        i = i + 1;
    }
    let mut inverses = [0u64; HALF_DEGREE];
    let mut i: usize = 0;
    while i < HALF_DEGREE
        invariant
            i <= HALF_DEGREE,
            forall|j: int| 0 <= j < HALF_DEGREE ==> #[trigger] roots@[j] as int == normalize_factor(j),
            forall|j: int| 0 <= j < i ==> #[trigger] inverses@[j] as int == normalize_inverse(j),
        decreases HALF_DEGREE - i,
    {
        proof {
            lemma_normalize_factor_invertible(i as int);
        }
        match inv_mod(roots[i], MOD_Q) {
            Some(x) => {
                proof {
                    lemma_inverse_unique(
                        x as int,
                        normalize_inverse(i as int),
                        normalize_factor(i as int),
                        MOD_Q as int,
                    );
                }
                inverses[i] = x;
            },
            None => {
                proof {
                    assert((normalize_inverse(i as int) * roots@[i as int] as int) % (MOD_Q as int)
                        != 1);
                }
            },
        }
        i = i + 1;
    }
    (roots, inverses)
}

/// Multiply the odd residue block slot-wise by the normalization factors.
pub open spec fn homogenize(v: Seq<u64>) -> Seq<u64> {
    Seq::new(
        DEGREE as nat,
        |k: int|
            if k < HALF_DEGREE {
                v[k]
            } else {
                ((v[k] * normalize_factor(k - HALF_DEGREE)) % (MOD_Q as int)) as u64
            },
    )
}

/// Multiply the odd residue block slot-wise by the inverse normalization factors.
pub open spec fn dehomogenize(v: Seq<u64>) -> Seq<u64> {
    Seq::new(
        DEGREE as nat,
        |k: int|
            if k < HALF_DEGREE {
                v[k]
            } else {
                ((v[k] * normalize_inverse(k - HALF_DEGREE)) % (MOD_Q as int)) as u64
            },
    )
}

/// The stored values after converting `v` from representation `from` to `to`,
/// through the chain `Coefficients - EvenOddCoefficients - IncompleteNTT -
/// HomogenizedFieldExtensions`.
pub open spec fn converted(v: Seq<u64>, from: Representation, to: Representation) -> Seq<u64> {
    match (from, to) {
        (Representation::Coefficients, Representation::EvenOddCoefficients) => residue_major(v),
        (Representation::Coefficients, Representation::IncompleteNTT) => ntt_blocks(
            residue_major(v),
        ),
        (Representation::Coefficients, Representation::HomogenizedFieldExtensions) => homogenize(
            ntt_blocks(residue_major(v)),
        ),
        (Representation::EvenOddCoefficients, Representation::IncompleteNTT) => ntt_blocks(v),
        (Representation::EvenOddCoefficients, Representation::HomogenizedFieldExtensions) =>
            homogenize(ntt_blocks(v)),
        (Representation::IncompleteNTT, Representation::HomogenizedFieldExtensions) => homogenize(
            v,
        ),
        (Representation::HomogenizedFieldExtensions, Representation::IncompleteNTT) =>
            dehomogenize(v),
        (Representation::HomogenizedFieldExtensions, Representation::EvenOddCoefficients) =>
            intt_blocks(dehomogenize(v)),
        (Representation::HomogenizedFieldExtensions, Representation::Coefficients) => interleaved(
            intt_blocks(dehomogenize(v)),
        ),
        (Representation::IncompleteNTT, Representation::EvenOddCoefficients) => intt_blocks(v),
        (Representation::IncompleteNTT, Representation::Coefficients) => interleaved(
            intt_blocks(v),
        ),
        (Representation::EvenOddCoefficients, Representation::Coefficients) => interleaved(v),
        _ => v,
    }
}

/// Multiply the odd residue block slot-wise by `factors`.
fn scale_odd_block(v: &mut [u64; DEGREE], factors: &[u64; HALF_DEGREE], Ghost(f): Ghost<spec_fn(int) -> int>)
    requires
        forall|i: int| 0 <= i < HALF_DEGREE ==> #[trigger] factors@[i] as int == f(i),
    ensures
        forall|k: int| 0 <= k < HALF_DEGREE ==> #[trigger] final(v)@[k] == old(v)@[k],
        forall|k: int|
            HALF_DEGREE <= k < DEGREE ==> #[trigger] final(v)@[k] as int == (old(v)@[k] * f(
                k - HALF_DEGREE,
            )) % (MOD_Q as int),
{
    let ghost orig = v@;
    let mut i: usize = 0;
    while i < HALF_DEGREE
        invariant
            i <= HALF_DEGREE,
            orig.len() == DEGREE,
            forall|j: int| 0 <= j < HALF_DEGREE ==> #[trigger] factors@[j] as int == f(j),
            forall|k: int| 0 <= k < HALF_DEGREE ==> #[trigger] v@[k] == orig[k],
            forall|k: int|
                HALF_DEGREE <= k < HALF_DEGREE + i ==> #[trigger] v@[k] as int == (orig[k] * f(
                    k - HALF_DEGREE,
                )) % (MOD_Q as int),
            forall|k: int| HALF_DEGREE + i <= k < DEGREE ==> #[trigger] v@[k] == orig[k],
        decreases HALF_DEGREE - i,
    {
        v[HALF_DEGREE + i] = mul_mod(v[HALF_DEGREE + i], factors[i], MOD_Q);
        i = i + 1;
    }
}

impl RingElement {
    /// Regroup plain coefficients by residue modulo `EXTENSION_DEGREE`.
    pub fn from_coefficients_to_even_odd_coefficients(&mut self)
        requires
            old(self).representation == Representation::Coefficients,
        ensures
            final(self).v@ == residue_major(old(self).v@),
            final(self).representation == Representation::EvenOddCoefficients,
    {
        let mut temp = [0u64; DEGREE];
        let mut residue: usize = 0;
        while residue < EXTENSION_DEGREE
            invariant
                residue <= EXTENSION_DEGREE,
                forall|k: int|
                    0 <= k < residue * HALF_DEGREE ==> #[trigger] temp@[k] == residue_major(
                        self.v@,
                    )[k],
            decreases EXTENSION_DEGREE - residue,
        {
            let mut digit: usize = 0;
            while digit < HALF_DEGREE
                invariant
                    residue < EXTENSION_DEGREE,
                    digit <= HALF_DEGREE,
                    forall|k: int|
                        0 <= k < residue * HALF_DEGREE + digit ==> #[trigger] temp@[k]
                            == residue_major(self.v@)[k],
                decreases HALF_DEGREE - digit,
            {
                proof {
                    lemma_block_index(residue as int, digit as int);
                }
                temp[residue * HALF_DEGREE + digit] = self.v[EXTENSION_DEGREE * digit + residue];
                digit = digit + 1;
            }
            residue = residue + 1;
        }
        proof {
            assert(temp@ =~= residue_major(self.v@));
        }
        self.v = temp;
        self.representation = Representation::EvenOddCoefficients;
    }

    /// Interleave residue blocks back into plain coefficients.
    pub fn from_even_odd_coefficients_to_coefficients(&mut self)
        requires
            old(self).representation == Representation::EvenOddCoefficients,
        ensures
            final(self).v@ == interleaved(old(self).v@),
            final(self).representation == Representation::Coefficients,
    {
        let mut temp = [0u64; DEGREE];
        let mut residue: usize = 0;
        while residue < EXTENSION_DEGREE
            invariant
                residue <= EXTENSION_DEGREE,
                forall|k: int|
                    0 <= k < DEGREE && (k % EXTENSION_DEGREE as int) < residue ==> #[trigger] temp@[k]
                        == interleaved(self.v@)[k],
            decreases EXTENSION_DEGREE - residue,
        {
            let mut digit: usize = 0;
            while digit < HALF_DEGREE
                invariant
                    residue < EXTENSION_DEGREE,
                    digit <= HALF_DEGREE,
                    forall|k: int|
                        0 <= k < DEGREE && (k % EXTENSION_DEGREE as int) < residue ==> #[trigger] temp@[k]
                            == interleaved(self.v@)[k],
                    forall|k: int|
                        0 <= k < DEGREE && (k % EXTENSION_DEGREE as int) == residue && (k
                            / EXTENSION_DEGREE as int) < digit ==> #[trigger] temp@[k] == interleaved(
                            self.v@,
                        )[k],
                decreases HALF_DEGREE - digit,
            {
                proof {
                    lemma_fundamental_div_mod_converse(
                        (EXTENSION_DEGREE * digit + residue) as int,
                        EXTENSION_DEGREE as int,
                        digit as int,
                        residue as int,
                    );
                }
                temp[EXTENSION_DEGREE * digit + residue] = self.v[residue * HALF_DEGREE + digit];
                digit = digit + 1;
            }
            residue = residue + 1;
        }
        proof {
            assert forall|k: int| 0 <= k < DEGREE implies #[trigger] temp@[k] == interleaved(
                self.v@,
            )[k] by {
                assert(k % 2 < 2);
            }
            assert(temp@ =~= interleaved(self.v@));
        }
        self.v = temp;
        self.representation = Representation::Coefficients;
    }

    /// Transform each residue block by the size-64 negacyclic NTT.
    pub fn from_even_odd_coefficients_to_incomplete_ntt_representation(&mut self)
        requires
            old(self).representation == Representation::EvenOddCoefficients,
        ensures
            final(self).v@ == ntt_blocks(old(self).v@),
            final(self).representation == Representation::IncompleteNTT,
    {
        transform_blocks(&mut self.v, true);
        self.representation = Representation::IncompleteNTT;
    }

    /// Undo the per-block transform.
    pub fn from_incomplete_ntt_to_even_odd_coefficients(&mut self)
        requires
            old(self).representation == Representation::IncompleteNTT,
        ensures
            final(self).v@ == intt_blocks(old(self).v@),
            final(self).representation == Representation::EvenOddCoefficients,
    {
        transform_blocks(&mut self.v, false);
        self.representation = Representation::EvenOddCoefficients;
    }

    /// Map every raw slot onto the common field presentation.
    pub fn from_incomplete_ntt_to_homogenized_field_extensions(&mut self)
        requires
            old(self).representation == Representation::IncompleteNTT,
        ensures
            final(self).v@ == homogenize(old(self).v@),
            final(self).representation == Representation::HomogenizedFieldExtensions,
    {
        let (factors, _) = get_roots_of_unity_trans();
        let ghost old_v = self.v@;
        scale_odd_block(&mut self.v, &factors, Ghost(|i: int| normalize_factor(i)));
        proof {
            assert(self.v@ =~= homogenize(old_v));
        }
        self.representation = Representation::HomogenizedFieldExtensions;
    }

    /// `from_incomplete_ntt_to_homogenized_field_extensions` with the
    /// normalization factors given as the table that
    /// `get_roots_of_unity_trans` computes once.
    pub fn from_incomplete_ntt_to_homogenized_field_extensions_with(&mut self, factors: &[u64; HALF_DEGREE])
        requires
            old(self).representation == Representation::IncompleteNTT,
            forall|i: int| 0 <= i < HALF_DEGREE ==> #[trigger] factors@[i] as int == normalize_factor(i),
        ensures
            final(self).v@ == homogenize(old(self).v@),
            final(self).representation == Representation::HomogenizedFieldExtensions,
    {
        let ghost old_v = self.v@;
        scale_odd_block(&mut self.v, factors, Ghost(|i: int| normalize_factor(i)));
        proof {
            assert(self.v@ =~= homogenize(old_v));
        }
        self.representation = Representation::HomogenizedFieldExtensions;
    }

    /// `from_homogenized_field_extensions_to_incomplete_ntt` with the inverse
    /// normalization factors given as the table that
    /// `get_roots_of_unity_trans` computes once.
    pub fn from_homogenized_field_extensions_to_incomplete_ntt_with(&mut self, inverses: &[u64; HALF_DEGREE])
        requires
            old(self).representation == Representation::HomogenizedFieldExtensions,
            forall|i: int| 0 <= i < HALF_DEGREE ==> #[trigger] inverses@[i] as int == normalize_inverse(i),
        ensures
            final(self).v@ == dehomogenize(old(self).v@),
            final(self).representation == Representation::IncompleteNTT,
    {
        let ghost old_v = self.v@;
        scale_odd_block(&mut self.v, inverses, Ghost(|i: int| normalize_inverse(i)));
        proof {
            assert(self.v@ =~= dehomogenize(old_v));
        }
        self.representation = Representation::IncompleteNTT;
    }

    /// Map the common field presentation back onto the raw slots.
    pub fn from_homogenized_field_extensions_to_incomplete_ntt(&mut self)
        requires
            old(self).representation == Representation::HomogenizedFieldExtensions,
        ensures
            final(self).v@ == dehomogenize(old(self).v@),
            final(self).representation == Representation::IncompleteNTT,
    {
        let (_, inverses) = get_roots_of_unity_trans();
        let ghost old_v = self.v@;
        scale_odd_block(&mut self.v, &inverses, Ghost(|i: int| normalize_inverse(i)));
        proof {
            assert(self.v@ =~= dehomogenize(old_v));
        }
        self.representation = Representation::IncompleteNTT;
    }

    /// Convert to the requested representation.
    pub fn to_representation(&mut self, representation: Representation)
        ensures
            final(self).v@ == converted(old(self).v@, old(self).representation, representation),
            final(self).representation == representation,
    {
        match (self.representation, representation) {
            (Representation::Coefficients, Representation::EvenOddCoefficients) => {
                self.from_coefficients_to_even_odd_coefficients()
            },
            (Representation::Coefficients, Representation::IncompleteNTT) => {
                self.from_coefficients_to_even_odd_coefficients();
                self.from_even_odd_coefficients_to_incomplete_ntt_representation();
            },
            (Representation::Coefficients, Representation::HomogenizedFieldExtensions) => {
                self.from_coefficients_to_even_odd_coefficients();
                self.from_even_odd_coefficients_to_incomplete_ntt_representation();
                self.from_incomplete_ntt_to_homogenized_field_extensions();
            },
            (Representation::EvenOddCoefficients, Representation::IncompleteNTT) => {
                self.from_even_odd_coefficients_to_incomplete_ntt_representation()
            },
            (Representation::EvenOddCoefficients, Representation::HomogenizedFieldExtensions) => {
                self.from_even_odd_coefficients_to_incomplete_ntt_representation();
                self.from_incomplete_ntt_to_homogenized_field_extensions();
            },
            (Representation::IncompleteNTT, Representation::HomogenizedFieldExtensions) => {
                self.from_incomplete_ntt_to_homogenized_field_extensions()
            },
            (Representation::HomogenizedFieldExtensions, Representation::IncompleteNTT) => {
                self.from_homogenized_field_extensions_to_incomplete_ntt()
            },
            (Representation::HomogenizedFieldExtensions, Representation::EvenOddCoefficients) => {
                self.from_homogenized_field_extensions_to_incomplete_ntt();
                self.from_incomplete_ntt_to_even_odd_coefficients();
            },
            (Representation::HomogenizedFieldExtensions, Representation::Coefficients) => {
                self.from_homogenized_field_extensions_to_incomplete_ntt();
                self.from_incomplete_ntt_to_even_odd_coefficients();
                self.from_even_odd_coefficients_to_coefficients();
            },
            (Representation::IncompleteNTT, Representation::EvenOddCoefficients) => {
                self.from_incomplete_ntt_to_even_odd_coefficients();
            },
            (Representation::IncompleteNTT, Representation::Coefficients) => {
                self.from_incomplete_ntt_to_even_odd_coefficients();
                self.from_even_odd_coefficients_to_coefficients();
            },
            (Representation::EvenOddCoefficients, Representation::Coefficients) => {
                self.from_even_odd_coefficients_to_coefficients();
            },
            _ => {},
        }
    }
}

/// The vector with `value` in position 0 and zeros elsewhere.
pub open spec fn constant_vector(value: u64) -> Seq<u64> {
    Seq::new(DEGREE as nat, |i: int| if i == 0 { value } else { 0u64 })
}

/// The vector with `value` in every position.
pub open spec fn filled_vector(value: u64) -> Seq<u64> {
    Seq::new(DEGREE as nat, |i: int| value)
}

/// Coefficients that are canonical residues of centered magnitude below `bound`.
pub open spec fn is_centered_bounded(c: Seq<u64>, bound: u64) -> bool {
    &&& c.len() == DEGREE
    &&& forall|i: int|
        0 <= i < DEGREE ==> #[trigger] c[i] < MOD_Q && (c[i] < bound || MOD_Q - c[i] < bound)
}

/// Coefficients below `bound`.
pub open spec fn is_bounded(c: Seq<u64>, bound: u64) -> bool {
    &&& c.len() == DEGREE
    &&& forall|i: int| 0 <= i < DEGREE ==> #[trigger] c[i] < bound
}

/// Coefficients from drawn magnitudes and sign bytes: `values[i] mod q` when
/// the lowest bit of `signs[i]` is clear, `(q - values[i]) mod q` otherwise.
pub open spec fn signed_coefficients(values: Seq<u64>, signs: Seq<u8>) -> Seq<u64> {
    Seq::new(
        DEGREE as nat,
        |i: int|
            if signs[i] & 1u8 == 0u8 {
                (values[i] % MOD_Q) as u64
            } else {
                ((MOD_Q - values[i]) % (MOD_Q as int)) as u64
            },
    )
}

/// The low bit of each sign byte decides the sign: a clear bit keeps the
/// magnitude, a set bit gives its negation modulo `q`.
pub proof fn lemma_signed_coefficients_signs(values: Seq<u64>, signs: Seq<u8>, i: int)
    requires
        0 <= i < DEGREE,
        values[i] <= MOD_Q,
    ensures
        signs[i] & 1u8 == 0u8 ==> signed_coefficients(values, signs)[i] as int == (values[i] as int) % (MOD_Q as int),
        signs[i] & 1u8 == 1u8 ==> (signed_coefficients(values, signs)[i] as int + values[i] as int) % (MOD_Q as int) == 0,
        signs[i] & 1u8 == 0u8 || signs[i] & 1u8 == 1u8,
{
    let s = signs[i];
    assert(s & 1u8 == 0u8 || s & 1u8 == 1u8) by (bit_vector);
    let v = values[i] as int;
    let q = MOD_Q as int;
    if s & 1u8 == 1u8 {
        if v == 0 || v == q {
            lemma_small_mod(0, MOD_Q as nat);
            lemma_mod_self_0(q);
        } else {
            lemma_small_mod((q - v) as nat, MOD_Q as nat);
            lemma_mod_self_0(q);
        }
    }
}

/// Draws below `bound` give centered coefficients below `bound`.
proof fn lemma_signed_coefficients_bounded(values: Seq<u64>, signs: Seq<u8>, bound: u64)
    requires
        0 < bound <= MOD_Q + 1,
        values.len() == DEGREE,
        forall|j: int| 0 <= j < DEGREE ==> #[trigger] values[j] < bound,
    ensures
        is_bounded(values, bound),
        forall|j: int| 0 <= j < DEGREE ==> #[trigger] values[j] <= MOD_Q,
        is_centered_bounded(signed_coefficients(values, signs), bound),
{
    let c = signed_coefficients(values, signs);
    assert forall|j: int| 0 <= j < DEGREE implies #[trigger] c[j] < MOD_Q && (c[j] < bound || MOD_Q
        - c[j] < bound) by {
        let v = values[j];
        if v == MOD_Q || v == 0 {
            lemma_small_mod(0, MOD_Q as nat);
            lemma_mod_self_0(MOD_Q as int);
        } else {
            lemma_small_mod(v as nat, MOD_Q as nat);
            lemma_small_mod((MOD_Q - v) as nat, MOD_Q as nat);
        }
    }
}

impl RingElement {
    /// Uniformly random canonical values, read in the given representation.
    pub fn random(representation: Representation) -> (r: Self)
        ensures
            r.representation == representation,
            is_reduced(r.v@, MOD_Q),
    {
        let mut element = Self { v: [0u64; DEGREE], representation };
        let mut i: usize = 0;
        while i < DEGREE
            invariant
                i <= DEGREE,
                element.representation == representation,
                forall|j: int| 0 <= j < i ==> #[trigger] element.v@[j] < MOD_Q,
            decreases DEGREE - i,
        {
            element.v[i] = random_below(MOD_Q);
            i = i + 1;
        }
        element
    }

    /// Uniformly random canonical values drawn from `rng`, read in the given
    /// representation.
    pub fn random_with(rng: &mut StdRng, representation: Representation) -> (r: Self)
        ensures
            r.representation == representation,
            is_reduced(r.v@, MOD_Q),
    {
        let mut element = Self { v: [0u64; DEGREE], representation };
        let mut i: usize = 0;
        while i < DEGREE
            invariant
                i <= DEGREE,
                element.representation == representation,
                forall|j: int| 0 <= j < i ==> #[trigger] element.v@[j] < MOD_Q,
            decreases DEGREE - i,
        {
            element.v[i] = random_below_with(rng, MOD_Q);
            i = i + 1;
        }
        element
    }

    /// The constant `1`, converted to the given representation.
    pub fn one(representation: Representation) -> (r: Self)
        ensures
            r.representation == representation,
            r.v@ == converted(
                constant_vector(1),
                Representation::EvenOddCoefficients,
                representation,
            ),
    {
        Self::constant(1, representation)
    }

    /// Every coefficient equal to `value`, converted to the given representation.
    pub fn all(value: u64, representation: Representation) -> (r: Self)
        ensures
            r.representation == representation,
            r.v@ == converted(
                filled_vector(value),
                Representation::EvenOddCoefficients,
                representation,
            ),
    {
        let mut element = Self {
            v: [0u64; DEGREE],
            representation: Representation::EvenOddCoefficients,
        };
        let mut i: usize = 0;
        while i < DEGREE
            invariant
                i <= DEGREE,
                element.representation == Representation::EvenOddCoefficients,
                forall|j: int| 0 <= j < i ==> #[trigger] element.v@[j] == value,
            decreases DEGREE - i,
        {
            element.v[i] = value;
            i = i + 1;
        }
        proof {
            assert(element.v@ =~= filled_vector(value));
        }
        element.to_representation(representation);
        element
    }

    /// The zero element in the given representation.
    pub fn zero(representation: Representation) -> (r: Self)
        ensures
            r.v@ == zero_vector(),
            r.representation == representation,
    {
        let mut element = Self { v: [0u64; DEGREE], representation };
        element.v[0] = 0;
        proof {
            assert(element.v@ =~= zero_vector());
        }
        element
    }

    /// The constant `value`, converted to the given representation.
    pub fn constant(value: u64, representation: Representation) -> (r: Self)
        ensures
            r.representation == representation,
            r.v@ == converted(
                constant_vector(value),
                Representation::EvenOddCoefficients,
                representation,
            ),
    {
        let mut element = Self {
            v: [0u64; DEGREE],
            representation: Representation::EvenOddCoefficients,
        };
        element.v[0] = value;
        proof {
            assert(element.v@ =~= constant_vector(value));
        }
        element.to_representation(representation);
        element
    }

    /// The coefficients made from drawn magnitudes and sign bytes, reduced
    /// and converted to the given representation: magnitude `values[i]` when
    /// the lowest bit of `signs[i]` is clear, `q - values[i]` otherwise.
    pub fn from_signed_draws(
        values: &[u64; DEGREE],
        signs: &[u8; DEGREE],
        representation: Representation,
    ) -> (r: Self)
        requires
            forall|i: int| 0 <= i < DEGREE ==> #[trigger] values@[i] <= MOD_Q,
        ensures
            r.representation == representation,
            r.v@ == converted(
                signed_coefficients(values@, signs@),
                Representation::Coefficients,
                representation,
            ),
    {
        let mut element = Self { v: [0u64; DEGREE], representation: Representation::Coefficients };
        let mut i: usize = 0;
        while i < DEGREE
            invariant
                i <= DEGREE,
                element.representation == Representation::Coefficients,
                forall|j: int| 0 <= j < DEGREE ==> #[trigger] values@[j] <= MOD_Q,
                forall|j: int|
                    0 <= j < i ==> #[trigger] element.v@[j] == signed_coefficients(values@, signs@)[j],
            decreases DEGREE - i,
        {
            let signed = if (signs[i] & 1) == 0 {
                values[i]
            } else {
                MOD_Q - values[i]
            };
            element.v[i] = signed % MOD_Q;
            i = i + 1;
        }
        proof {
            assert(element.v@ =~= signed_coefficients(values@, signs@));
        }
        element.to_representation(representation);
        element
    }

    /// Random coefficients of centered magnitude below `bound`, converted to
    /// the given representation; drawn from `rand`'s thread-local generator.
    pub fn random_bounded(representation: Representation, bound: u64) -> (r: Self)
        requires
            0 < bound <= MOD_Q + 1,
        ensures
            r.representation == representation,
            exists|values: Seq<u64>, signs: Seq<u8>|
                #![trigger signed_coefficients(values, signs)]
                is_bounded(values, bound) && signs.len() == DEGREE && r.v@ == converted(
                    signed_coefficients(values, signs),
                    Representation::Coefficients,
                    representation,
                ),
            exists|c: Seq<u64>|
                is_centered_bounded(c, bound) && r.v@ == converted(
                    c,
                    Representation::Coefficients,
                    representation,
                ),
    {
        let mut values = [0u64; DEGREE];
        let mut signs = [0u8; DEGREE];
        let mut i: usize = 0;
        while i < DEGREE
            invariant
                0 < bound <= MOD_Q + 1,
                i <= DEGREE,
                forall|j: int| 0 <= j < i ==> #[trigger] values@[j] < bound,
            decreases DEGREE - i,
        {
            values[i] = random_below(bound);
            signs[i] = random_byte();
            i = i + 1;
        }
        proof {
            lemma_signed_coefficients_bounded(values@, signs@, bound);
        }
        Self::from_signed_draws(&values, &signs, representation)
    }

    /// Random coefficients of centered magnitude below `bound`, converted to
    /// the given representation; drawn from `rng`.
    pub fn random_bounded_with(rng: &mut StdRng, representation: Representation, bound: u64) -> (r: Self)
        requires
            0 < bound <= MOD_Q + 1,
        ensures
            r.representation == representation,
            exists|values: Seq<u64>, signs: Seq<u8>|
                #![trigger signed_coefficients(values, signs)]
                is_bounded(values, bound) && signs.len() == DEGREE && r.v@ == converted(
                    signed_coefficients(values, signs),
                    Representation::Coefficients,
                    representation,
                ),
            exists|c: Seq<u64>|
                is_centered_bounded(c, bound) && r.v@ == converted(
                    c,
                    Representation::Coefficients,
                    representation,
                ),
    {
        let mut values = [0u64; DEGREE];
        let mut signs = [0u8; DEGREE];
        let mut i: usize = 0;
        while i < DEGREE
            invariant
                0 < bound <= MOD_Q + 1,
                i <= DEGREE,
                forall|j: int| 0 <= j < i ==> #[trigger] values@[j] < bound,
            decreases DEGREE - i,
        {
            values[i] = random_below_with(rng, bound);
            signs[i] = random_byte_with(rng);
            i = i + 1;
        }
        proof {
            lemma_signed_coefficients_bounded(values@, signs@, bound);
        }
        Self::from_signed_draws(&values, &signs, representation)
    }

    /// Random coefficients in `[0, bound)`, converted to the given representation.
    pub fn random_bounded_unsigned(representation: Representation, bound: u64) -> (r: Self)
        requires
            bound > 0,
        ensures
            r.representation == representation,
            exists|c: Seq<u64>|
                is_bounded(c, bound) && r.v@ == converted(
                    c,
                    Representation::Coefficients,
                    representation,
                ),
    {
        let mut element = Self { v: [0u64; DEGREE], representation: Representation::Coefficients };
        let mut i: usize = 0;
        while i < DEGREE
            invariant
                bound > 0,
                i <= DEGREE,
                element.representation == Representation::Coefficients,
                forall|j: int| 0 <= j < i ==> #[trigger] element.v@[j] < bound,
            decreases DEGREE - i,
        {
            element.v[i] = random_below(bound);
            i = i + 1;
        }
        let ghost c = element.v@;
        element.to_representation(representation);
        proof {
            assert(is_bounded(c, bound));
        }
        element
    }

    /// Random coefficients in `[0, bound)` drawn from `rng`, converted to the
    /// given representation.
    pub fn random_bounded_unsigned_with(rng: &mut StdRng, representation: Representation, bound: u64) -> (r: Self)
        requires
            bound > 0,
        ensures
            r.representation == representation,
            exists|c: Seq<u64>|
                is_bounded(c, bound) && r.v@ == converted(
                    c,
                    Representation::Coefficients,
                    representation,
                ),
    {
        let mut element = Self { v: [0u64; DEGREE], representation: Representation::Coefficients };
        let mut i: usize = 0;
        while i < DEGREE
            invariant
                bound > 0,
                i <= DEGREE,
                element.representation == Representation::Coefficients,
                forall|j: int| 0 <= j < i ==> #[trigger] element.v@[j] < bound,
            decreases DEGREE - i,
        {
            element.v[i] = random_below_with(rng, bound);
            i = i + 1;
        }
        let ghost c = element.v@;
        element.to_representation(representation);
        proof {
            assert(is_bounded(c, bound));
        }
        element
    }

    /// Set every stored value to zero, keeping the representation.
    pub fn set_zero(&mut self)
        ensures
            final(self).v@ == zero_vector(),
            final(self).representation == old(self).representation,
    {
        let mut i: usize = 0;
        while i < DEGREE
            invariant
                i <= DEGREE,
                self.representation == old(self).representation,
                forall|j: int| 0 <= j < i ==> #[trigger] self.v@[j] == 0,
            decreases DEGREE - i,
        {
            self.v[i] = 0;
            i = i + 1;
        }
        proof {
            assert(self.v@ =~= zero_vector());
        }
    }

    /// Copy the values and representation of `other`.
    pub fn set_from(&mut self, other: &RingElement)
        ensures
            *final(self) == *other,
    {
        self.v = other.v;
        self.representation = other.representation;
    }
}

/// An element of a CRT slot field `Z_q[X]/(X^2 - beta)`: coefficients in
/// increasing degree.
#[derive(Copy, Clone, Debug, PartialEq, Eq)]
pub struct QuadraticExtension {
    pub coeffs: [u64; EXTENSION_DEGREE],
}

/// The slot-field product of `a` and `b` (`X^2 = beta`).
pub open spec fn extension_mul(a: QuadraticExtension, b: QuadraticExtension) -> Seq<u64> {
    extension_product(a.coeffs@, b.coeffs@, field_shift(), MOD_Q as int)
}

/// Canonical little-endian encoding of the coefficients in increasing degree.
pub open spec fn extension_le_bytes(a: QuadraticExtension) -> Seq<u8> {
    spec_u64_to_le_bytes(a.coeffs@[0]) + spec_u64_to_le_bytes(a.coeffs@[1])
}

/// Coefficient `i` decoded from the 8-byte chunk `i` of `bytes`.
pub open spec fn decoded_coefficient(bytes: Seq<u8>, i: int) -> u64 {
    spec_u64_from_le_bytes(bytes.subrange(8 * i, 8 * i + 8))
}

/// Whether `bytes` is a canonical encoding of a slot-field element.
pub open spec fn is_canonical_extension_encoding(bytes: Seq<u8>) -> bool {
    &&& bytes.len() == EXTENSION_DEGREE * 8
    &&& forall|i: int| 0 <= i < EXTENSION_DEGREE ==> #[trigger] decoded_coefficient(bytes, i) < MOD_Q
}

/// Decoding the encoding of a canonical element gives the element back, and
/// the encoding is canonical.
pub proof fn lemma_extension_encoding_roundtrip(a: QuadraticExtension)
    requires
        forall|i: int| 0 <= i < EXTENSION_DEGREE ==> #[trigger] a.coeffs@[i] < MOD_Q,
    ensures
        is_canonical_extension_encoding(extension_le_bytes(a)),
        forall|i: int|
            0 <= i < EXTENSION_DEGREE ==> #[trigger] decoded_coefficient(extension_le_bytes(a), i)
                == a.coeffs@[i],
{
    vstd::bytes::lemma_auto_spec_u64_to_from_le_bytes();
    let b = extension_le_bytes(a);
    let lo = spec_u64_to_le_bytes(a.coeffs@[0]);
    let hi = spec_u64_to_le_bytes(a.coeffs@[1]);
    assert(b.subrange(0, 8) =~= lo);
    assert(b.subrange(8, 16) =~= hi);
    assert forall|i: int| 0 <= i < EXTENSION_DEGREE implies #[trigger] decoded_coefficient(b, i)
        == a.coeffs@[i] by {
        if i == 0 {
            assert(b.subrange(8 * i, 8 * i + 8) == lo);
        } else {
            assert(b.subrange(8 * i, 8 * i + 8) == hi);
        }
    }
}

impl QuadraticExtension {
    /// The zero element.
    pub fn zero() -> (r: Self)
        ensures
            r.coeffs@ == seq![0u64, 0u64],
    {
        let r = Self { coeffs: [0u64; EXTENSION_DEGREE] };
        proof {
            assert(r.coeffs@ =~= seq![0u64, 0u64]);
        }
        r
    }

    /// The unit element.
    pub fn one() -> (r: Self)
        ensures
            r.coeffs@ == seq![1u64, 0u64],
    {
        let mut coeffs = [0u64; EXTENSION_DEGREE];
        coeffs[0] = 1;
        proof {
            assert(coeffs@ =~= seq![1u64, 0u64]);
        }
        Self { coeffs }
    }

    /// The embedding of a base-field element.
    pub fn from_base(value: u64) -> (r: Self)
        ensures
            r.coeffs@ == seq![value, 0u64],
    {
        let mut coeffs = [0u64; EXTENSION_DEGREE];
        coeffs[0] = value;
        proof {
            assert(coeffs@ =~= seq![value, 0u64]);
        }
        Self { coeffs }
    }

    /// `constant + linear X`.
    pub fn from_pair(constant: u64, linear: u64) -> (r: Self)
        ensures
            r.coeffs@ == seq![constant, linear],
    {
        let mut coeffs = [0u64; EXTENSION_DEGREE];
        coeffs[0] = constant;
        coeffs[1] = linear;
        proof {
            assert(coeffs@ =~= seq![constant, linear]);
        }
        Self { coeffs }
    }

    /// Canonical little-endian encoding of all coefficients in increasing degree.
    pub fn to_le_bytes(&self) -> (r: Vec<u8>)
        ensures
            r@ == extension_le_bytes(*self),
    {
        let mut bytes: Vec<u8> = Vec::new();
        let mut i: usize = 0;
        while i < EXTENSION_DEGREE
            invariant
                i <= EXTENSION_DEGREE,
                bytes@ == (if i == 0 {
                    Seq::<u8>::empty()
                } else if i == 1 {
                    spec_u64_to_le_bytes(self.coeffs@[0])
                } else {
                    extension_le_bytes(*self)
                }),
            decreases EXTENSION_DEGREE - i,
        {
            let chunk = u64_to_le_bytes(self.coeffs[i]);
            let mut j: usize = 0;
            let ghost before = bytes@;
            while j < chunk.len()
                invariant
                    j <= chunk.len(),
                    bytes@ == before + chunk@.take(j as int),
                decreases chunk.len() - j,
            {
                bytes.push(chunk[j]);
                j = j + 1;
                proof {
                    assert(bytes@ =~= before + chunk@.take(j as int));
                }
            }
            proof {
                assert(chunk@.take(chunk.len() as int) =~= chunk@);
                if i == 0 {
                    assert(bytes@ =~= spec_u64_to_le_bytes(self.coeffs@[0]));
                }
            }
            i = i + 1;
        }
        bytes
    }

    /// Decode a canonical encoding; `None` for a wrong length or a
    /// coefficient that is not a canonical residue.
    pub fn from_le_bytes(bytes: &[u8]) -> (r: Option<Self>)
        ensures
            r is Some <==> is_canonical_extension_encoding(bytes@),
            r matches Some(x) ==> forall|i: int|
                0 <= i < EXTENSION_DEGREE ==> #[trigger] x.coeffs@[i] == decoded_coefficient(
                    bytes@,
                    i,
                ),
    {
        if bytes.len() != EXTENSION_DEGREE * 8 {
            return None;
        }
        let mut result = Self::zero();
        let mut index: usize = 0;
        while index < EXTENSION_DEGREE
            invariant
                bytes.len() == EXTENSION_DEGREE * 8,
                index <= EXTENSION_DEGREE,
                forall|i: int| 0 <= i < index ==> #[trigger] result.coeffs@[i] == decoded_coefficient(
                    bytes@,
                    i,
                ),
                forall|i: int| 0 <= i < index ==> #[trigger] decoded_coefficient(bytes@, i) < MOD_Q,
            decreases EXTENSION_DEGREE - index,
        {
            let mut chunk: Vec<u8> = Vec::new();
            let mut j: usize = 0;
            while j < 8
                invariant
                    bytes.len() == EXTENSION_DEGREE * 8,
                    index < EXTENSION_DEGREE,
                    j <= 8,
                    chunk@ == bytes@.subrange(8 * index as int, 8 * index + j),
                decreases 8 - j,
            {
                chunk.push(bytes[8 * index + j]);
                j = j + 1;
                proof {
                    assert(chunk@ =~= bytes@.subrange(8 * index as int, 8 * index + j));
                }
            }
            let coefficient = u64_from_le_bytes(chunk.as_slice());
            assert(decoded_coefficient(bytes@, index as int) == coefficient);
            if coefficient >= MOD_Q {
                return None;
            }
            result.coeffs[index] = coefficient;
            index = index + 1;
        }
        Some(result)
    }

    /// Product in the slot field (`X^2 = beta`).
    fn multiply(&self, other: &Self) -> (r: Self)
        ensures
            r.coeffs@ == extension_mul(*self, *other),
    {
        let beta = field_shift_factor();
        let product = reduced_convolution(self.coeffs.as_slice(), other.coeffs.as_slice(), beta, MOD_Q);
        let mut coeffs = [0u64; EXTENSION_DEGREE];
        coeffs[0] = product[0];
        coeffs[1] = product[1];
        proof {
            assert(coeffs@ =~= extension_mul(*self, *other));
        }
        Self { coeffs }
    }
}

/// Coefficient-wise sum modulo `q`.
pub open spec fn pointwise_sum(a: Seq<u64>, b: Seq<u64>) -> Seq<u64> {
    Seq::new(a.len(), |k: int| ((a[k] + b[k]) % (MOD_Q as int)) as u64)
}

/// Coefficient-wise difference modulo `q`.
pub open spec fn pointwise_difference(a: Seq<u64>, b: Seq<u64>) -> Seq<u64> {
    Seq::new(a.len(), |k: int| ((a[k] - b[k]) % (MOD_Q as int)) as u64)
}

impl core::ops::Add for QuadraticExtension {
    type Output = Self;

    fn add(self, other: Self) -> (r: Self)
        ensures
            r.coeffs@ == pointwise_sum(self.coeffs@, other.coeffs@),
    {
        let mut r = Self::zero();
        r.add_pair(&self, &other);
        r
    }
}

impl vstd::std_specs::ops::AddSpecImpl for QuadraticExtension {
    open spec fn obeys_add_spec() -> bool {
        false
    }

    open spec fn add_req(self, rhs: Self) -> bool {
        true
    }

    open spec fn add_spec(self, rhs: Self) -> Self {
        arbitrary()
    }
}

impl core::ops::Mul for QuadraticExtension {
    type Output = Self;

    fn mul(self, other: Self) -> (r: Self)
        ensures
            r.coeffs@ == extension_mul(self, other),
    {
        self.multiply(&other)
    }
}

impl vstd::std_specs::ops::MulSpecImpl for QuadraticExtension {
    open spec fn obeys_mul_spec() -> bool {
        false
    }

    open spec fn mul_req(self, rhs: Self) -> bool {
        true
    }

    open spec fn mul_spec(self, rhs: Self) -> Self {
        arbitrary()
    }
}

impl QuadraticExtension {
    /// `self = op1 + op2` coefficient-wise.
    pub fn add_pair(&mut self, op1: &Self, op2: &Self)
        ensures
            final(self).coeffs@ == pointwise_sum(op1.coeffs@, op2.coeffs@),
    {
        let mut index: usize = 0;
        while index < EXTENSION_DEGREE
            invariant
                index <= EXTENSION_DEGREE,
                forall|k: int|
                    0 <= k < index ==> #[trigger] self.coeffs@[k] == pointwise_sum(
                        op1.coeffs@,
                        op2.coeffs@,
                    )[k],
            decreases EXTENSION_DEGREE - index,
        {
            self.coeffs[index] = add_mod(op1.coeffs[index], op2.coeffs[index], MOD_Q);
            index = index + 1;
        }
        proof {
            assert(self.coeffs@ =~= pointwise_sum(op1.coeffs@, op2.coeffs@));
        }
    }
}

impl<'a> core::ops::AddAssign<&'a QuadraticExtension> for QuadraticExtension {
    fn add_assign(&mut self, other: &'a QuadraticExtension)
        ensures
            final(self).coeffs@ == pointwise_sum(old(self).coeffs@, other.coeffs@),
    {
        let lhs = *self;
        self.add_pair(&lhs, other);
    }
}

impl<'a> core::ops::AddAssign<(&'a QuadraticExtension, &'a QuadraticExtension)> for QuadraticExtension {
    fn add_assign(&mut self, other: (&'a QuadraticExtension, &'a QuadraticExtension))
        ensures
            final(self).coeffs@ == pointwise_sum(other.0.coeffs@, other.1.coeffs@),
    {
        let (op1, op2) = other;
        self.add_pair(op1, op2);
    }
}

impl QuadraticExtension {
    /// `self = self - other` coefficient-wise.
    pub fn subtract(&mut self, other: &Self)
        ensures
            final(self).coeffs@ == pointwise_difference(old(self).coeffs@, other.coeffs@),
    {
        let ghost old_coeffs = self.coeffs@;
        let mut index: usize = 0;
        while index < EXTENSION_DEGREE
            invariant
                index <= EXTENSION_DEGREE,
                old_coeffs.len() == EXTENSION_DEGREE,
                forall|k: int|
                    0 <= k < index ==> #[trigger] self.coeffs@[k] == pointwise_difference(
                        old_coeffs,
                        other.coeffs@,
                    )[k],
                forall|k: int| index <= k < EXTENSION_DEGREE ==> #[trigger] self.coeffs@[k] == old_coeffs[k],
            decreases EXTENSION_DEGREE - index,
        {
            self.coeffs[index] = sub_mod(self.coeffs[index], other.coeffs[index], MOD_Q);
            index = index + 1;
        }
        proof {
            assert(self.coeffs@ =~= pointwise_difference(old_coeffs, other.coeffs@));
        }
    }

    /// Number of bits of the centered coefficients, a sign bit included.
    pub fn size_in_bits(&self) -> (r: usize)
        requires
            forall|i: int| 0 <= i < EXTENSION_DEGREE ==> #[trigger] self.coeffs@[i] <= MOD_Q,
        ensures
            r as int == extension_size_in_bits(self.coeffs@),
    {
        let mut size: usize = 0;
        let mut index: usize = 0;
        while index < EXTENSION_DEGREE
            invariant
                index <= EXTENSION_DEGREE,
                forall|i: int| 0 <= i < EXTENSION_DEGREE ==> #[trigger] self.coeffs@[i] <= MOD_Q,
                size as int == centered_bits_sum(self.coeffs@, index as int),
                size <= 64 * index,
            decreases EXTENSION_DEGREE - index,
        {
            let v = self.coeffs[index];
            let centered = if v > MOD_Q / 2 {
                MOD_Q - v
            } else {
                v
            };
            if centered != 0 {
                let bits = ilog2_exec(centered);
                size = size + bits as usize + 1;
            }
            index = index + 1;
        }
        size
    }
}

impl<'a> core::ops::SubAssign<&'a QuadraticExtension> for QuadraticExtension {
    fn sub_assign(&mut self, other: &'a QuadraticExtension)
        ensures
            final(self).coeffs@ == pointwise_difference(old(self).coeffs@, other.coeffs@),
    {
        self.subtract(other);
    }
}

impl<'a> core::ops::MulAssign<&'a QuadraticExtension> for QuadraticExtension {
    fn mul_assign(&mut self, other: &'a QuadraticExtension)
        ensures
            final(self).coeffs@ == extension_mul(*old(self), *other),
    {
        *self = self.multiply(other);
    }
}

impl<'a> core::ops::MulAssign<(&'a QuadraticExtension, &'a QuadraticExtension)> for QuadraticExtension {
    fn mul_assign(&mut self, other: (&'a QuadraticExtension, &'a QuadraticExtension))
        ensures
            final(self).coeffs@ == extension_mul(*other.0, *other.1),
    {
        let (lhs, rhs) = other;
        *self = lhs.multiply(rhs);
    }
}

/// `floor(log2 x)` for positive `x`.
pub open spec fn ilog2(x: nat) -> nat
    decreases x,
{
    if x <= 1 {
        0
    } else {
        1 + ilog2(x / 2)
    }
}

proof fn lemma_ilog2_bound(x: nat, n: nat)
    requires
        n >= 1,
        x < pow2(n),
    ensures
        ilog2(x) < n,
    decreases n,
{
    lemma_pow2_unfold(n);
    if x > 1 && n > 1 {
        lemma_ilog2_bound(x / 2, (n - 1) as nat);
    } else if x > 1 {
        assert(pow2(0) == 1) by {
            lemma2_to64();
        }
    }
}

/// `floor(log2 x)` for positive `x`.
pub fn ilog2_exec(x: u64) -> (r: u32)
    requires
        x > 0,
    ensures
        r as nat == ilog2(x as nat),
        r < 64,
{
    proof {
        lemma2_to64();
        lemma_ilog2_bound(x as nat, 64);
    }
    let mut y = x;
    let mut r: u32 = 0;
    while y > 1
        invariant
            y > 0,
            r as nat + ilog2(y as nat) == ilog2(x as nat),
            r as nat + ilog2(y as nat) < 64,
        decreases y,
    {
        y = y / 2;
        r = r + 1;
    }
    r
}

/// The centered representative's magnitude of a residue `v`.
pub open spec fn centered_magnitude(v: u64) -> nat {
    if v > MOD_Q / 2 {
        (MOD_Q - v) as nat
    } else {
        v as nat
    }
}

/// Sum over the first `k` coefficients of the bit size of the centered value
/// plus a sign bit, zero contributing nothing.
pub open spec fn centered_bits_sum(c: Seq<u64>, k: int) -> int
    decreases k,
{
    if k <= 0 {
        0
    } else {
        centered_bits_sum(c, k - 1) + if centered_magnitude(c[k - 1]) == 0 {
            0
        } else {
            ilog2(centered_magnitude(c[k - 1])) + 1
        }
    }
}

/// Bit size of a slot-field element with centered coefficients.
pub open spec fn extension_size_in_bits(c: Seq<u64>) -> int {
    centered_bits_sum(c, EXTENSION_DEGREE as int)
}

fn pointwise_add_arrays(result: &mut [u64; DEGREE], a: &[u64; DEGREE], b: &[u64; DEGREE])
    ensures
        final(result)@ == pointwise_sum(a@, b@),
{
    let mut i: usize = 0;
    while i < DEGREE
        invariant
            i <= DEGREE,
            forall|k: int| 0 <= k < i ==> #[trigger] result@[k] == pointwise_sum(a@, b@)[k],
        decreases DEGREE - i,
    {
        result[i] = add_mod(a[i], b[i], MOD_Q);
        i = i + 1;
    }
    proof {
        assert(result@ =~= pointwise_sum(a@, b@));
    }
}

fn pointwise_sub_arrays(result: &mut [u64; DEGREE], a: &[u64; DEGREE], b: &[u64; DEGREE])
    ensures
        final(result)@ == pointwise_difference(a@, b@),
{
    let mut i: usize = 0;
    while i < DEGREE
        invariant
            i <= DEGREE,
            forall|k: int| 0 <= k < i ==> #[trigger] result@[k] == pointwise_difference(a@, b@)[k],
        decreases DEGREE - i,
    {
        result[i] = sub_mod(a[i], b[i], MOD_Q);
        i = i + 1;
    }
    proof {
        assert(result@ =~= pointwise_difference(a@, b@));
    }
}

/// `result = operand1 + operand2` coefficient-wise modulo `q`.
pub fn addition(result: &mut RingElement, operand1: &RingElement, operand2: &RingElement)
    ensures
        final(result).v@ == pointwise_sum(operand1.v@, operand2.v@),
        final(result).representation == old(result).representation,
{
    pointwise_add_arrays(&mut result.v, &operand1.v, &operand2.v);
}

/// `result_op1 = result_op1 + operand2` coefficient-wise modulo `q`.
pub fn addition_in_place(result_op1: &mut RingElement, operand2: &RingElement)
    ensures
        final(result_op1).v@ == pointwise_sum(old(result_op1).v@, operand2.v@),
        final(result_op1).representation == old(result_op1).representation,
{
    let lhs = result_op1.v;
    pointwise_add_arrays(&mut result_op1.v, &lhs, &operand2.v);
}

/// `result = operand1 - operand2` coefficient-wise modulo `q`.
pub fn subtraction(result: &mut RingElement, operand1: &RingElement, operand2: &RingElement)
    ensures
        final(result).v@ == pointwise_difference(operand1.v@, operand2.v@),
        final(result).representation == old(result).representation,
{
    pointwise_sub_arrays(&mut result.v, &operand1.v, &operand2.v);
}

/// `result_op1 = result_op1 - operand2` coefficient-wise modulo `q`.
pub fn subtraction_in_place(result_op1: &mut RingElement, operand2: &RingElement)
    ensures
        final(result_op1).v@ == pointwise_difference(old(result_op1).v@, operand2.v@),
        final(result_op1).representation == old(result_op1).representation,
{
    let lhs = result_op1.v;
    pointwise_sub_arrays(&mut result_op1.v, &lhs, &operand2.v);
}

/// Ring product of two elements in incomplete-NTT form.
pub fn incomplete_ntt_multiplication(
    result: &mut RingElement,
    operand1: &RingElement,
    operand2: &RingElement,
)
    ensures
        final(result).v@ == ring_product(operand1.v@, operand2.v@, false),
        final(result).representation == old(result).representation,
{
    incomplete_ntt_multiplication_inner(result, operand1, operand2, false);
}

/// `result = result * operand` in incomplete-NTT form.
pub fn incomplete_ntt_multiplication_in_place(result: &mut RingElement, operand: &RingElement)
    ensures
        final(result).v@ == ring_product(old(result).v@, operand.v@, false),
        final(result).representation == old(result).representation,
{
    let lhs = result.copy();
    incomplete_ntt_multiplication_inner(result, &lhs, operand, false);
}

/// Ring product of two elements in homogenized form.
pub fn incomplete_ntt_multiplication_homogenized(
    result: &mut RingElement,
    operand1: &RingElement,
    operand2: &RingElement,
)
    ensures
        final(result).v@ == ring_product(operand1.v@, operand2.v@, true),
        final(result).representation == old(result).representation,
{
    incomplete_ntt_multiplication_inner(result, operand1, operand2, true);
}

/// `result = operand1 * result`, in homogenized form when `homogenized`.
pub fn incomplete_ntt_multiplication_in_place_inner(
    result: &mut RingElement,
    operand1: &RingElement,
    homogenized: bool,
)
    ensures
        final(result).v@ == ring_product(operand1.v@, old(result).v@, homogenized),
        final(result).representation == old(result).representation,
{
    let rhs = result.copy();
    incomplete_ntt_multiplication_inner(result, operand1, &rhs, homogenized);
}

/// Schoolbook product of two elements in coefficient form, modulo `X^128 + 1`.
pub fn naive_polynomial_multiplication(
    result: &mut RingElement,
    operand1: &RingElement,
    operand2: &RingElement,
)
    ensures
        final(result).v@ == negacyclic_product(operand1.v@, operand2.v@, MOD_Q),
        final(result).representation == old(result).representation,
{
    result.v = negacyclic_multiply_mod(&operand1.v, &operand2.v, MOD_Q);
}

impl<'a> core::ops::Add for &'a RingElement {
    type Output = RingElement;

    fn add(self, other: Self) -> (r: RingElement)
        ensures
            r.v@ == pointwise_sum(self.v@, other.v@),
            r.representation == self.representation,
    {
        let mut result = RingElement::new(self.representation);
        addition(&mut result, self, other);
        result
    }
}

impl<'a> vstd::std_specs::ops::AddSpecImpl for &'a RingElement {
    open spec fn obeys_add_spec() -> bool {
        false
    }

    open spec fn add_req(self, rhs: Self) -> bool {
        true
    }

    open spec fn add_spec(self, rhs: Self) -> RingElement {
        arbitrary()
    }
}

impl<'a> core::ops::Sub for &'a RingElement {
    type Output = RingElement;

    fn sub(self, other: Self) -> (r: RingElement)
        ensures
            r.v@ == pointwise_difference(self.v@, other.v@),
            r.representation == self.representation,
    {
        let mut result = RingElement::new(self.representation);
        subtraction(&mut result, self, other);
        result
    }
}

impl<'a> vstd::std_specs::ops::SubSpecImpl for &'a RingElement {
    open spec fn obeys_sub_spec() -> bool {
        false
    }

    open spec fn sub_req(self, rhs: Self) -> bool {
        true
    }

    open spec fn sub_spec(self, rhs: Self) -> RingElement {
        arbitrary()
    }
}

impl<'a> core::ops::Mul for &'a RingElement {
    type Output = RingElement;

    fn mul(self, other: Self) -> (r: RingElement)
        ensures
            r.v@ == ring_product(self.v@, other.v@, false),
            r.representation == self.representation,
    {
        let mut result = RingElement::new(self.representation);
        incomplete_ntt_multiplication(&mut result, self, other);
        result
    }
}

impl<'a> vstd::std_specs::ops::MulSpecImpl for &'a RingElement {
    open spec fn obeys_mul_spec() -> bool {
        false
    }

    open spec fn mul_req(self, rhs: Self) -> bool {
        true
    }

    open spec fn mul_spec(self, rhs: Self) -> RingElement {
        arbitrary()
    }
}

impl<'a> core::ops::AddAssign<&'a RingElement> for RingElement {
    fn add_assign(&mut self, other: &'a RingElement)
        ensures
            final(self).v@ == pointwise_sum(old(self).v@, other.v@),
            final(self).representation == old(self).representation,
    {
        addition_in_place(self, other);
    }
}

impl<'a> core::ops::SubAssign<&'a RingElement> for RingElement {
    fn sub_assign(&mut self, other: &'a RingElement)
        ensures
            final(self).v@ == pointwise_difference(old(self).v@, other.v@),
            final(self).representation == old(self).representation,
    {
        subtraction_in_place(self, other);
    }
}

impl<'a> core::ops::MulAssign<&'a RingElement> for RingElement {
    fn mul_assign(&mut self, other: &'a RingElement)
        ensures
            final(self).v@ == ring_product(old(self).v@, other.v@, false),
            final(self).representation == old(self).representation,
    {
        incomplete_ntt_multiplication_in_place(self, other);
    }
}

impl<'a> core::ops::AddAssign<(&'a RingElement, &'a RingElement)> for RingElement {
    fn add_assign(&mut self, other: (&'a RingElement, &'a RingElement))
        ensures
            final(self).v@ == pointwise_sum(other.0.v@, other.1.v@),
            final(self).representation == old(self).representation,
    {
        let (op1, op2) = other;
        addition(self, op1, op2);
    }
}

impl<'a> core::ops::SubAssign<(&'a RingElement, &'a RingElement)> for RingElement {
    fn sub_assign(&mut self, other: (&'a RingElement, &'a RingElement))
        ensures
            final(self).v@ == pointwise_difference(other.0.v@, other.1.v@),
            final(self).representation == old(self).representation,
    {
        let (op1, op2) = other;
        subtraction(self, op1, op2);
    }
}

impl<'a> core::ops::MulAssign<(&'a RingElement, &'a RingElement)> for RingElement {
    fn mul_assign(&mut self, other: (&'a RingElement, &'a RingElement))
        ensures
            final(self).v@ == ring_product(other.0.v@, other.1.v@, false),
            final(self).representation == old(self).representation,
    {
        let (op1, op2) = other;
        incomplete_ntt_multiplication(self, op1, op2);
    }
}

/// Slot `i` of a homogenized element: its coefficients `v[i]` and `v[64 + i]`.
pub open spec fn slot_of(v: Seq<u64>, i: int) -> Seq<u64> {
    seq![v[i], v[i + HALF_DEGREE]]
}

/// Combining the slots an element was split into gives the element back:
/// an element whose slots hold `extensions` is the element they came from.
pub proof fn lemma_split_combine_roundtrip(v: Seq<u64>, extensions: Seq<QuadraticExtension>, w: Seq<u64>)
    requires
        v.len() == DEGREE,
        w.len() == DEGREE,
        extensions.len() == HALF_DEGREE,
        forall|i: int| 0 <= i < HALF_DEGREE ==> #[trigger] extensions[i].coeffs@ == slot_of(v, i),
        forall|i: int| 0 <= i < HALF_DEGREE ==> #[trigger] slot_of(w, i) == extensions[i].coeffs@,
    ensures
        w == v,
{
    assert forall|k: int| 0 <= k < DEGREE implies #[trigger] w[k] == v[k] by {
        let i = if k < HALF_DEGREE {
            k
        } else {
            k - HALF_DEGREE
        };
        let p: int = if k < HALF_DEGREE {
            0
        } else {
            1
        };
        assert(slot_of(w, i) == extensions[i].coeffs@);
        assert(slot_of(w, i)[p] == slot_of(v, i)[p]);
    }
    assert(w =~= v);
}

/// Slot `j` of `v` holds the coefficients of `e[j]`.
pub open spec fn slot_matches(v: Seq<u64>, e: Seq<QuadraticExtension>, j: int) -> bool {
    v[j] == e[j].coeffs@[0] && v[j + HALF_DEGREE] == e[j].coeffs@[1]
}

impl RingElement {
    /// `0 - self` coefficient-wise.
    pub fn negate(&self) -> (r: RingElement)
        ensures
            r.v@ == pointwise_difference(zero_vector(), self.v@),
            r.representation == self.representation,
    {
        let zero = RingElement::zero(self.representation);
        let mut result = RingElement::new(self.representation);
        subtraction(&mut result, &zero, self);
        result
    }

    /// The slots of a homogenized element as slot-field elements.
    pub fn split_into_quadratic_extensions(&self) -> (r: [QuadraticExtension; HALF_DEGREE])
        ensures
            forall|i: int| 0 <= i < HALF_DEGREE ==> #[trigger] r@[i].coeffs@ == slot_of(self.v@, i),
    {
        let mut result = [QuadraticExtension { coeffs: [0u64; EXTENSION_DEGREE] }; HALF_DEGREE];
        let mut i: usize = 0;
        while i < HALF_DEGREE
            invariant
                i <= HALF_DEGREE,
                forall|j: int| 0 <= j < i ==> #[trigger] result@[j].coeffs@ == slot_of(self.v@, j),
            decreases HALF_DEGREE - i,
        {
            let mut coeffs = [0u64; EXTENSION_DEGREE];
            let mut coefficient: usize = 0;
            while coefficient < EXTENSION_DEGREE
                invariant
                    i < HALF_DEGREE,
                    coefficient <= EXTENSION_DEGREE,
                    forall|c: int|
                        0 <= c < coefficient ==> #[trigger] coeffs@[c] == self.v@[i + c * HALF_DEGREE],
                decreases EXTENSION_DEGREE - coefficient,
            {
                coeffs[coefficient] = self.v[i + coefficient * HALF_DEGREE];
                coefficient = coefficient + 1;
            }
            proof {
                assert(coeffs@ =~= slot_of(self.v@, i as int));
            }
            result[i] = QuadraticExtension { coeffs };
            i = i + 1;
        }
        result
    }

    /// Write the slots of `extensions` into this element.
    pub fn combine_from_quadratic_extensions(
        &mut self,
        extensions: &[QuadraticExtension; HALF_DEGREE],
    )
        ensures
            forall|i: int|
                0 <= i < HALF_DEGREE ==> #[trigger] slot_of(final(self).v@, i) == extensions@[i].coeffs@,
            final(self).representation == old(self).representation,
    {
        let mut i: usize = 0;
        while i < HALF_DEGREE
            invariant
                i <= HALF_DEGREE,
                self.representation == old(self).representation,
                forall|j: int| 0 <= j < i ==> #[trigger] slot_matches(self.v@, extensions@, j),
            decreases HALF_DEGREE - i,
        {
            let mut coefficient: usize = 0;
            while coefficient < EXTENSION_DEGREE
                invariant
                    i < HALF_DEGREE,
                    coefficient <= EXTENSION_DEGREE,
                    self.representation == old(self).representation,
                    forall|j: int| 0 <= j < i ==> #[trigger] slot_matches(self.v@, extensions@, j),
                    coefficient > 0 ==> self.v@[i as int] == extensions@[i as int].coeffs@[0],
                    coefficient > 1 ==> self.v@[i + HALF_DEGREE] == extensions@[i as int].coeffs@[1],
                decreases EXTENSION_DEGREE - coefficient,
            {
                let ghost before = self.v@;
                self.v[i + coefficient * HALF_DEGREE] = extensions[i].coeffs[coefficient];
                proof {
                    assert forall|j: int| 0 <= j < i implies #[trigger] slot_matches(
                        self.v@,
                        extensions@,
                        j,
                    ) by {
                        assert(slot_matches(before, extensions@, j));
                    }
                }
                coefficient = coefficient + 1;
            }
            i = i + 1;
        }
        proof {
            assert forall|j: int| 0 <= j < HALF_DEGREE implies #[trigger] slot_of(self.v@, j)
                == extensions@[j].coeffs@ by {
                assert(slot_matches(self.v@, extensions@, j));
                assert(slot_of(self.v@, j) =~= extensions@[j].coeffs@);
            }
        }
    }
}

/// Norm `a^2 - beta b^2` of slot `i` (`a = v[i]`, `b = v[64 + i]`) of a
/// homogenized element, reduced modulo `q`.
pub open spec fn slot_norm(v: Seq<u64>, i: int) -> int {
    (v[i] * v[i] - field_shift() * (v[i + HALF_DEGREE] * v[i + HALF_DEGREE])) % (MOD_Q as int)
}

/// Product of the slot norms of slots `0..=i`, reduced modulo `q`.
pub open spec fn norm_prefix(v: Seq<u64>, i: int) -> int
    decreases i,
{
    if i <= 0 {
        slot_norm(v, 0)
    } else {
        (norm_prefix(v, i - 1) * slot_norm(v, i)) % (MOD_Q as int)
    }
}

/// `x` has an inverse modulo `q`.
pub open spec fn invertible(x: int) -> bool {
    exists|y: int| is_inverse_of(y, x, MOD_Q as int)
}

/// The canonical inverse of `x` modulo `q` (meaningful when `invertible(x)`).
pub open spec fn inverse_of(x: int) -> int {
    choose|y: int| is_inverse_of(y, x, MOD_Q as int)
}

/// The slot-wise inverse of a homogenized element: slot `(a, b)` maps to
/// `(a N^{-1}, -b N^{-1})` with `N = a^2 - beta b^2`.
pub open spec fn slot_inverse(v: Seq<u64>) -> Seq<u64> {
    Seq::new(
        DEGREE as nat,
        |k: int|
            if k < HALF_DEGREE {
                ((v[k] * inverse_of(slot_norm(v, k))) % (MOD_Q as int)) as u64
            } else {
                ((-(v[k] * inverse_of(slot_norm(v, k - HALF_DEGREE)))) % (MOD_Q as int)) as u64
            },
    )
}

proof fn lemma_mul3_mod(x: int, y: int, z: int, q: int)
    requires
        q > 0,
    ensures
        (((x * y) % q) * z) % q == (x * ((y * z) % q)) % q,
        (((x * y) % q) * z) % q == (x * (y * z)) % q,
{
    lemma_mul_mod_noop_left(x * y, z, q);
    lemma_mul_mod_noop_right(x, y * z, q);
    lemma_mul_is_associative(x, y, z);
}

proof fn lemma_inverse_is_canonical(x: int, f: int)
    requires
        is_inverse_of(x, f, MOD_Q as int),
    ensures
        invertible(f),
        inverse_of(f) == x,
{
    let y = inverse_of(f);
    assert(is_inverse_of(y, f, MOD_Q as int));
    lemma_inverse_unique(x, y, f, MOD_Q as int);
}

impl RingElement {
    /// Product of the slot norms modulo `q`.
    fn slot_norm_product(&self) -> (r: u64)
        ensures
            r as int == norm_prefix(self.v@, HALF_DEGREE - 1),
    {
        let q = MOD_Q;
        let ghost qi = MOD_Q as int;
        let beta = field_shift_factor();
        let ghost v = self.v@;
        let mut total: u64 = 0;
        let mut i: usize = 0;
        while i < HALF_DEGREE
            invariant
                q == MOD_Q,
                qi == MOD_Q as int,
                i <= HALF_DEGREE,
                v == self.v@,
                beta as int == field_shift(),
                beta < MOD_Q,
                i > 0 ==> total as int == norm_prefix(v, i - 1),
            decreases HALF_DEGREE - i,
        {
            let a = self.v[i];
            let b = self.v[HALF_DEGREE + i];
            let aa = mul_mod(a, a, q);
            let bb = mul_mod(b, b, q);
            let t = mul_mod(bb, q - beta, q);
            proof {
                let x = a as int * a as int;
                let y = b as int * b as int;
                lemma_mul_mod_noop_left(y, (q - beta) as int, qi);
                lemma_add_mod_noop(x, y * (q - beta), qi);
                assert(y * (q - beta) == y * q - beta * y) by (nonlinear_arith);
                lemma_mod_multiples_vanish(y, x - beta * y, qi);
                assert(x + (y * q - beta * y) == qi * y + (x - beta * y)) by (nonlinear_arith)
                    requires
                        qi == q as int,
                ;
                lemma_mul_is_commutative(beta as int, y);
            }
            let norm = add_mod(aa, t, q);
            if i == 0 {
                total = norm;
            } else {
                total = mul_mod(total, norm, q);
            }
            i = i + 1;
        }
        total
    }

    /// Slot-wise inverse of a homogenized element, or `None` exactly when the
    /// product of the slot norms has no inverse modulo `q`.
    pub fn try_inverse(&self) -> (r: Option<RingElement>)
        requires
            self.representation == Representation::HomogenizedFieldExtensions,
        ensures
            r is Some <==> invertible(norm_prefix(self.v@, HALF_DEGREE - 1)),
            r matches Some(x) ==> x.representation == Representation::HomogenizedFieldExtensions
                && x.v@ == slot_inverse(self.v@),
    {
        let total = self.slot_norm_product();
        match inv_mod(total, MOD_Q) {
            Some(y) => {
                proof {
                    assert(is_inverse_of(y as int, total as int, MOD_Q as int));
                }
                Some(self.inverse())
            },
            None => {
                proof {
                    if invertible(total as int) {
                        let y = choose|y: int| is_inverse_of(y, total as int, MOD_Q as int);
                        assert((y * total as int) % (MOD_Q as int) == 1);
                    }
                }
                None
            },
        }
    }

    /// Slot-wise inverse of a homogenized element by Montgomery batch
    /// inversion: one base-field inversion for all slot norms, which needs the
    /// product of the slot norms to be invertible modulo `q`.
    pub fn inverse(&self) -> (r: RingElement)
        requires
            self.representation == Representation::HomogenizedFieldExtensions,
            invertible(norm_prefix(self.v@, HALF_DEGREE - 1)),
        ensures
            r.representation == Representation::HomogenizedFieldExtensions,
            r.v@ == slot_inverse(self.v@),
            forall|i: int| 0 <= i < HALF_DEGREE ==> #[trigger] invertible(slot_norm(self.v@, i)),
    {
        let q = MOD_Q;
        let ghost qi = MOD_Q as int;
        let beta = field_shift_factor();
        let ghost v = self.v@;
        let mut norms = [0u64; HALF_DEGREE];
        let mut i: usize = 0;
        while i < HALF_DEGREE
            invariant
                q == MOD_Q,
                qi == MOD_Q as int,
                i <= HALF_DEGREE,
                v == self.v@,
                beta as int == field_shift(),
                beta < MOD_Q,
                forall|j: int| 0 <= j < i ==> #[trigger] norms@[j] as int == slot_norm(v, j),
            decreases HALF_DEGREE - i,
        {
            let a = self.v[i];
            let b = self.v[HALF_DEGREE + i];
            let aa = mul_mod(a, a, q);
            let bb = mul_mod(b, b, q);
            let t = mul_mod(bb, q - beta, q);
            proof {
                let x = a as int * a as int;
                let y = b as int * b as int;
                lemma_mul_mod_noop_left(y, (q - beta) as int, qi);
                lemma_add_mod_noop(x, y * (q - beta), qi);
                assert(y * (q - beta) == y * q - beta * y) by (nonlinear_arith);
                lemma_mod_multiples_vanish(y, x - beta * y, qi);
                assert(x + (y * q - beta * y) == qi * y + (x - beta * y)) by (nonlinear_arith)
                    requires
                        qi == q as int,
                ;
                lemma_mul_is_commutative(beta as int, y);
            }
            norms[i] = add_mod(aa, t, q);
            i = i + 1;
        }
        let mut prefix_products = [0u64; HALF_DEGREE];
        prefix_products[0] = norms[0];
        proof {
            lemma_mod_bound(v[0] * v[0] - field_shift() * (v[HALF_DEGREE as int] * v[HALF_DEGREE as int]), qi);
        }
        let mut i: usize = 1;
        while i < HALF_DEGREE
            invariant
                q == MOD_Q,
                qi == MOD_Q as int,
                1 <= i <= HALF_DEGREE,
                forall|j: int| 0 <= j < HALF_DEGREE ==> #[trigger] norms@[j] as int == slot_norm(v, j),
                forall|j: int| 0 <= j < i ==> #[trigger] prefix_products@[j] as int == norm_prefix(v, j),
            decreases HALF_DEGREE - i,
        {
            prefix_products[i] = mul_mod(prefix_products[i - 1], norms[i], q);
            i = i + 1;
        }
        let total = prefix_products[HALF_DEGREE - 1];
        let mut inv = match inv_mod(total, q) {
            Some(x) => x,
            None => {
                proof {
                    let y = choose|y: int| is_inverse_of(y, total as int, qi);
                    assert((y * total as int) % qi == 1);
                }
                0
            },
        };
        let ghost inv0 = inv;
        proof {
            assert(is_inverse_of(inv as int, total as int, qi));
        }
        let mut norm_inverses = [0u64; HALF_DEGREE];
        let mut i: usize = HALF_DEGREE - 1;
        while i >= 1
            invariant
                q == MOD_Q,
                qi == MOD_Q as int,
                0 <= i < HALF_DEGREE,
                forall|j: int| 0 <= j < HALF_DEGREE ==> #[trigger] norms@[j] as int == slot_norm(v, j),
                forall|j: int|
                    0 <= j < HALF_DEGREE ==> #[trigger] prefix_products@[j] as int == norm_prefix(v, j),
                is_inverse_of(inv as int, prefix_products@[i as int] as int, qi),
                forall|j: int|
                    i < j < HALF_DEGREE ==> #[trigger] is_inverse_of(
                        norm_inverses@[j] as int,
                        norms@[j] as int,
                        qi,
                    ),
            decreases i,
        {
            let ni = mul_mod(inv, prefix_products[i - 1], q);
            let next = mul_mod(inv, norms[i], q);
            proof {
                let p = prefix_products@[i - 1] as int;
                let n = norms@[i as int] as int;
                assert(prefix_products@[i as int] as int == (p * n) % qi);
                lemma_mul3_mod(inv as int, p, n, qi);
                lemma_mul3_mod(inv as int, n, p, qi);
                lemma_mul_is_commutative(n, p);
                lemma_mul_mod_noop_right(inv as int, p * n, qi);
            }
            norm_inverses[i] = ni;
            inv = next;
            i = i - 1;
        }
        norm_inverses[0] = inv;
        let mut result = RingElement::new(Representation::HomogenizedFieldExtensions);
        let mut i: usize = 0;
        while i < HALF_DEGREE
            invariant
                q == MOD_Q,
                qi == MOD_Q as int,
                i <= HALF_DEGREE,
                v == self.v@,
                result.representation == Representation::HomogenizedFieldExtensions,
                forall|j: int| 0 <= j < HALF_DEGREE ==> #[trigger] norms@[j] as int == slot_norm(v, j),
                forall|j: int|
                    0 <= j < HALF_DEGREE ==> #[trigger] is_inverse_of(
                        norm_inverses@[j] as int,
                        norms@[j] as int,
                        qi,
                    ),
                forall|k: int|
                    (0 <= k < i || HALF_DEGREE <= k < HALF_DEGREE + i) ==> #[trigger] result.v@[k]
                        == slot_inverse(v)[k],
            decreases HALF_DEGREE - i,
        {
            proof {
                assert(is_inverse_of(norm_inverses@[i as int] as int, norms@[i as int] as int, qi));
                lemma_inverse_is_canonical(norm_inverses@[i as int] as int, slot_norm(v, i as int));
            }
            result.v[i] = mul_mod(self.v[i], norm_inverses[i], q);
            let odd = mul_mod(self.v[HALF_DEGREE + i], norm_inverses[i], q);
            proof {
                lemma_sub_mod_noop(0, v[HALF_DEGREE + i] * norm_inverses@[i as int] as int, qi);
                lemma_small_mod(0, q as nat);
            }
            result.v[HALF_DEGREE + i] = sub_mod(0, odd, q);
            i = i + 1;
        }
        proof {
            assert(result.v@ =~= slot_inverse(v));
            assert forall|j: int| 0 <= j < HALF_DEGREE implies #[trigger] invertible(
                slot_norm(v, j),
            ) by {
                assert(is_inverse_of(norm_inverses@[j] as int, norms@[j] as int, qi));
                lemma_inverse_is_canonical(norm_inverses@[j] as int, slot_norm(v, j));
            }
        }
        result
    }
}

/// The unit element in homogenized form: `1` in the even block, `0` in the odd one.
pub open spec fn homogenized_one() -> Seq<u64> {
    Seq::new(DEGREE as nat, |k: int| if k < HALF_DEGREE { 1u64 } else { 0u64 })
}

proof fn lemma_inverse_slot(a: int, b: int, w: int, beta: int)
    requires
        is_inverse_of(w, (a * a - beta * (b * b)) % (MOD_Q as int), MOD_Q as int),
    ensures
        (a * ((a * w) % (MOD_Q as int)) + beta * (b * ((-(b * w)) % (MOD_Q as int)))) % (
        MOD_Q as int) == 1,
        (b * ((a * w) % (MOD_Q as int)) + a * ((-(b * w)) % (MOD_Q as int))) % (MOD_Q as int)
            == 0,
{
    let q = MOD_Q as int;
    let x = a * w;
    let y = -(b * w);
    let n = a * a - beta * (b * b);
    lemma_mul_mod_noop_right(a, x, q);
    lemma_mul_mod_noop_right(b, y, q);
    lemma_mul_mod_noop_right(beta, b * (y % q), q);
    lemma_mul_mod_noop_right(beta, b * y, q);
    assert((b * (y % q)) % q == (b * y) % q);
    lemma_add_mod_noop(a * (x % q), beta * (b * (y % q)), q);
    lemma_add_mod_noop(a * x, beta * (b * y), q);
    assert((beta * (b * (y % q))) % q == (beta * (b * y)) % q) by {
        lemma_mul_mod_noop_right(beta, b * (y % q), q);
        lemma_mul_mod_noop_right(beta, b * y, q);
    }
    assert(a * x + beta * (b * y) == w * n) by (nonlinear_arith)
        requires
            x == a * w,
            y == -(b * w),
            n == a * a - beta * (b * b),
    ;
    lemma_mul_mod_noop_right(w, n, q);
    lemma_mul_is_commutative(w, n % q);
    lemma_mul_mod_noop_right(b, x, q);
    lemma_mul_mod_noop_right(a, y, q);
    lemma_add_mod_noop(b * (x % q), a * (y % q), q);
    lemma_add_mod_noop(b * x, a * y, q);
    assert(b * x + a * y == 0) by (nonlinear_arith)
        requires
            x == a * w,
            y == -(b * w),
    ;
    lemma_small_mod(0, q as nat);
}

/// Multiplying an element by its slot-wise inverse in the homogenized
/// presentation gives the unit in every slot.
pub proof fn lemma_inverse_times_self_is_one(v: Seq<u64>)
    requires
        v.len() == DEGREE,
        forall|i: int| 0 <= i < HALF_DEGREE ==> #[trigger] invertible(slot_norm(v, i)),
    ensures
        ring_product(v, slot_inverse(v), true) == homogenized_one(),
{
    let r = slot_inverse(v);
    assert forall|k: int| 0 <= k < DEGREE implies #[trigger] ring_product(v, r, true)[k]
        == homogenized_one()[k] by {
        let i = if k < HALF_DEGREE {
            k
        } else {
            k - HALF_DEGREE
        };
        assert(invertible(slot_norm(v, i)));
        let w = inverse_of(slot_norm(v, i));
        assert(is_inverse_of(w, slot_norm(v, i), MOD_Q as int));
        lemma_inverse_slot(v[i] as int, v[i + HALF_DEGREE] as int, w, field_shift());
    }
    assert(ring_product(v, r, true) =~= homogenized_one());
}

/// Homogenized multiplication is multiplication in the common slot field,
/// slot by slot.
pub proof fn lemma_homogenized_product_is_slot_product(a: Seq<u64>, b: Seq<u64>, i: int)
    requires
        a.len() == DEGREE,
        b.len() == DEGREE,
        0 <= i < HALF_DEGREE,
    ensures
        extension_product(slot_of(a, i), slot_of(b, i), field_shift(), MOD_Q as int) == slot_of(
            ring_product(a, b, true),
            i,
        ),
{
    let x = slot_of(a, i);
    let y = slot_of(b, i);
    reveal_with_fuel(crate::extension::conv_sum, 3);
    assert(crate::extension::conv_sum(x, y, 0, 2) == x[0] * y[0]);
    assert(crate::extension::conv_sum(x, y, 1, 2) == x[0] * y[1] + x[1] * y[0]);
    assert(crate::extension::conv_sum(x, y, 2, 2) == x[1] * y[1]);
    assert(crate::extension::conv_sum(x, y, 3, 2) == 0);
    let e = extension_product(x, y, field_shift(), MOD_Q as int);
    let p = ring_product(a, b, true);
    assert(e[0] == p[i]);
    assert(p[i + HALF_DEGREE] == ((a[i + HALF_DEGREE] * b[i] + a[i] * b[i + HALF_DEGREE]) % (
    MOD_Q as int)) as u64);
    lemma_mul_basics(field_shift());
    assert(e[1] == ((x[0] * y[1] + x[1] * y[0]) % (MOD_Q as int)) as u64);
    assert(e[1] == p[i + HALF_DEGREE]);
    assert(e =~= slot_of(p, i));
}

/// Coming back from the homogenized presentation gives the raw slots back,
/// and the other way round, on canonical residues.
pub proof fn lemma_homogenize_roundtrip(v: Seq<u64>)
    requires
        v.len() == DEGREE,
        is_reduced(v, MOD_Q),
    ensures
        dehomogenize(homogenize(v)) == v,
        homogenize(dehomogenize(v)) == v,
{
    let q = MOD_Q as int;
    assert forall|k: int| 0 <= k < DEGREE implies #[trigger] dehomogenize(homogenize(v))[k] == v[k]
        && homogenize(dehomogenize(v))[k] == v[k] by {
        if k >= HALF_DEGREE {
            let i = k - HALF_DEGREE;
            let f = normalize_factor(i);
            let g = normalize_inverse(i);
            lemma_normalize_factor_invertible(i);
            let x = v[k] as int;
            lemma_mul3_mod(x, f, g, q);
            lemma_mul3_mod(x, g, f, q);
            lemma_mul_mod_noop_right(x, f * g, q);
            lemma_mul_mod_noop_right(x, g * f, q);
            lemma_mul_basics(x);
            lemma_small_mod(x as nat, q as nat);
            lemma_mod_bound(x * f, q);
            lemma_mod_bound(x * g, q);
        }
    }
    assert(dehomogenize(homogenize(v)) =~= v);
    assert(homogenize(dehomogenize(v)) =~= v);
}

/// The constant `1` in homogenized form is `1` in every slot.
pub proof fn lemma_one_is_homogenized_one()
    ensures
        converted(
            constant_vector(1),
            Representation::EvenOddCoefficients,
            Representation::HomogenizedFieldExtensions,
        ) == homogenized_one(),
{
    let c = constant_vector(1);
    let t = ntt_blocks(c);
    assert forall|k: int| 0 <= k < DEGREE implies #[trigger] t[k] == homogenized_one()[k] by {
        let r = k / 64;
        let d = k % 64;
        let blk = block(c, r);
        assert(blk.len() == 64);
        let x = crate::ntt::ntt_point(HALF_DEGREE as nat, MOD_Q, d as nat);
        crate::ntt::lemma_poly_eval_constant(crate::ntt::to_ints(blk), x);
        lemma_small_mod(1, MOD_Q as nat);
        lemma_small_mod(0, MOD_Q as nat);
        assert(t[k] == ntt_spec(blk, MOD_Q)[d]);
    }
    assert forall|k: int| 0 <= k < DEGREE implies #[trigger] homogenize(t)[k]
        == homogenized_one()[k] by {
        if k >= HALF_DEGREE {
            lemma_small_mod(0, MOD_Q as nat);
            lemma_mul_basics(normalize_factor(k - HALF_DEGREE));
        }
    }
    assert(homogenize(t) =~= homogenized_one());
}

proof fn lemma_slot_norm_of_one(i: int)
    requires
        0 <= i < HALF_DEGREE,
    ensures
        slot_norm(homogenized_one(), i) == 1,
{
    let one = homogenized_one();
    assert(one[i] == 1);
    assert(one[i + HALF_DEGREE] == 0);
    lemma_mul_basics(field_shift());
    lemma_small_mod(1, MOD_Q as nat);
}

proof fn lemma_norm_prefix_of_one(i: int)
    requires
        0 <= i < HALF_DEGREE,
    ensures
        norm_prefix(homogenized_one(), i) == 1,
    decreases i,
{
    lemma_small_mod(1, MOD_Q as nat);
    lemma_slot_norm_of_one(i);
    if i > 0 {
        lemma_norm_prefix_of_one(i - 1);
    }
}

/// The unit is invertible and is its own inverse.
pub proof fn lemma_inverse_of_one_is_one()
    ensures
        invertible(norm_prefix(homogenized_one(), HALF_DEGREE - 1)),
        slot_inverse(homogenized_one()) == homogenized_one(),
{
    let one = homogenized_one();
    lemma_small_mod(1, MOD_Q as nat);
    lemma_small_mod(0, MOD_Q as nat);
    assert(is_inverse_of(1, 1, MOD_Q as int));
    lemma_inverse_is_canonical(1, 1);
    lemma_norm_prefix_of_one(HALF_DEGREE - 1);
    assert forall|k: int| 0 <= k < DEGREE implies #[trigger] slot_inverse(one)[k] == one[k] by {
        let i = if k < HALF_DEGREE {
            k
        } else {
            k - HALF_DEGREE
        };
        lemma_slot_norm_of_one(i);
    }
    assert(slot_inverse(one) =~= one);
}

/// Each slot of an invertible element times the same slot of its inverse is
/// the unit of the slot field.
pub proof fn lemma_slot_times_inverse_is_one(v: Seq<u64>, i: int)
    requires
        v.len() == DEGREE,
        forall|j: int| 0 <= j < HALF_DEGREE ==> #[trigger] invertible(slot_norm(v, j)),
        0 <= i < HALF_DEGREE,
    ensures
        extension_product(slot_of(v, i), slot_of(slot_inverse(v), i), field_shift(), MOD_Q as int)
            == seq![1u64, 0u64],
{
    lemma_inverse_times_self_is_one(v);
    lemma_homogenized_product_is_slot_product(v, slot_inverse(v), i);
    assert(slot_of(homogenized_one(), i) =~= seq![1u64, 0u64]);
}

/// Homogenizing and dehomogenizing keep canonical residues canonical.
pub proof fn lemma_homogenize_reduced(v: Seq<u64>)
    requires
        v.len() == DEGREE,
        is_reduced(v, MOD_Q),
    ensures
        is_reduced(homogenize(v), MOD_Q),
        is_reduced(dehomogenize(v), MOD_Q),
{
    assert forall|k: int| 0 <= k < DEGREE implies #[trigger] homogenize(v)[k] < MOD_Q
        && dehomogenize(v)[k] < MOD_Q by {
        if k >= HALF_DEGREE {
            lemma_mod_bound(v[k] * normalize_factor(k - HALF_DEGREE), MOD_Q as int);
            lemma_mod_bound(v[k] * normalize_inverse(k - HALF_DEGREE), MOD_Q as int);
        }
    }
}

/// Converting canonical values from any representation to any other and back
/// gives them back.
pub proof fn lemma_conversion_roundtrip(v: Seq<u64>, from: Representation, to: Representation)
    requires
        v.len() == DEGREE,
        is_reduced(v, MOD_Q),
    ensures
        converted(converted(v, from, to), to, from) == v,
{
    crate::layout::lemma_interleaved_residue_major(v);
    crate::layout::lemma_layouts_reduced(v);
    crate::layout::lemma_layouts_reduced(residue_major(v));
    crate::layout::lemma_layouts_reduced(intt_blocks(v));
    lemma_homogenize_reduced(v);
    let t = ntt_blocks(residue_major(v));
    let d = dehomogenize(v);
    crate::layout::lemma_layouts_reduced(d);
    match (from, to) {
        (Representation::Coefficients, Representation::IncompleteNTT) => {
            crate::product_law::lemma_regrouped_roundtrip(v);
        },
        (Representation::Coefficients, Representation::HomogenizedFieldExtensions) => {
            lemma_homogenize_roundtrip(t);
            crate::product_law::lemma_regrouped_roundtrip(v);
        },
        (Representation::EvenOddCoefficients, Representation::IncompleteNTT) => {
            crate::product_law::lemma_blocks_roundtrip(v);
        },
        (Representation::EvenOddCoefficients, Representation::HomogenizedFieldExtensions) => {
            lemma_homogenize_roundtrip(ntt_blocks(v));
            crate::product_law::lemma_blocks_roundtrip(v);
        },
        (Representation::IncompleteNTT, Representation::Coefficients) => {
            crate::layout::lemma_interleaved_residue_major(intt_blocks(v));
            crate::product_law::lemma_blocks_roundtrip_dual(v);
        },
        (Representation::IncompleteNTT, Representation::EvenOddCoefficients) => {
            crate::product_law::lemma_blocks_roundtrip_dual(v);
        },
        (Representation::IncompleteNTT, Representation::HomogenizedFieldExtensions) => {
            lemma_homogenize_roundtrip(v);
        },
        (Representation::HomogenizedFieldExtensions, Representation::Coefficients) => {
            crate::layout::lemma_interleaved_residue_major(intt_blocks(d));
            crate::product_law::lemma_blocks_roundtrip_dual(d);
            lemma_homogenize_roundtrip(v);
        },
        (Representation::HomogenizedFieldExtensions, Representation::EvenOddCoefficients) => {
            crate::product_law::lemma_blocks_roundtrip_dual(d);
            lemma_homogenize_roundtrip(v);
        },
        (Representation::HomogenizedFieldExtensions, Representation::IncompleteNTT) => {
            lemma_homogenize_roundtrip(v);
        },
        _ => {},
    }
}

} // verus!
