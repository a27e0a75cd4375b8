//! The Galois conjugation `X -> X^{-1}` of `Z_q[X]/(X^128 + 1)`, and the
//! constant coefficient read directly from the incomplete-NTT representation.
use vstd::arithmetic::div_mod::*;
use vstd::arithmetic::mul::*;
use vstd::arithmetic::power::*;
use vstd::prelude::*;

use crate::config::{DEGREE, HALF_DEGREE, MOD_Q};
use crate::layout::{block, interleaved, intt_blocks, lemma_layouts_reduced, ntt_blocks, residue_major};
use crate::modular::{inv_mod, is_reduced, mul_mod};
use crate::ntt::{
    inverse_sum, lemma_poly_eval_constant, ntt_inverse_point, ntt_inverse_spec, ntt_size_inverse, ntt_spec,
    poly_eval, to_ints,
};
use crate::ring_arithmetic::{
    constant_vector, converted, lemma_inverse_unique, pointwise_sum, Representation, RingElement,
};
use crate::ntt_laws::{lemma_ntt_additive, lemma_ntt_inverse_additive, sum_mod};

verus! {

/// `-x mod q` for a canonical residue `x`.
pub open spec fn negate_residue(x: u64) -> u64 {
    if x == 0 {
        0
    } else {
        (MOD_Q - x) as u64
    }
}

/// Coefficients of `f(X^{-1})`: `c_0` stays, `c_k` becomes `-c_{128-k}`.
pub open spec fn conjugate_coefficients(c: Seq<u64>) -> Seq<u64> {
    Seq::new(
        DEGREE as nat,
        |k: int|
            if k == 0 {
                c[0]
            } else {
                negate_residue(c[DEGREE - k])
            },
    )
}

/// Conjugation of an incomplete-NTT vector carried out in coefficient space.
pub open spec fn conjugate_reference(v: Seq<u64>) -> Seq<u64> {
    ntt_blocks(residue_major(conjugate_coefficients(interleaved(intt_blocks(v)))))
}

/// The vector with a single `1` in position `i`.
pub open spec fn basis_vector(i: int) -> Seq<u64> {
    Seq::new(DEGREE as nat, |k: int| if k == i { 1u64 } else { 0u64 })
}

/// First offset `j' >= j` below `HALF_DEGREE` with `s[base + j'] != 0`, or
/// `HALF_DEGREE` when there is none.
pub open spec fn first_nonzero(s: Seq<u64>, base: int, j: int) -> int
    decreases HALF_DEGREE as int - j,
{
    if j >= HALF_DEGREE || j < 0 {
        HALF_DEGREE as int
    } else if s[base + j] != 0 {
        j
    } else {
        first_nonzero(s, base, j + 1)
    }
}

/// A found offset, or `0` when the search found nothing.
pub open spec fn found_or_zero(j: int) -> int {
    if j < HALF_DEGREE {
        j
    } else {
        0
    }
}

/// Where conjugation moves even-block position `i`.
pub open spec fn even_destination(i: int) -> int {
    found_or_zero(first_nonzero(conjugate_reference(basis_vector(i)), 0, 0))
}

/// Where conjugation moves odd-block position `i` (an offset in the odd block).
pub open spec fn odd_destination(i: int) -> int {
    found_or_zero(
        first_nonzero(conjugate_reference(basis_vector(HALF_DEGREE + i)), HALF_DEGREE as int, 0),
    )
}

/// The factor conjugation applies to odd-block position `i`.
pub open spec fn odd_factor(i: int) -> u64 {
    let c = conjugate_reference(basis_vector(HALF_DEGREE + i));
    let j = first_nonzero(c, HALF_DEGREE as int, 0);
    if j < HALF_DEGREE {
        c[HALF_DEGREE + j]
    } else {
        0
    }
}

proof fn lemma_first_nonzero_range(s: Seq<u64>, base: int, j: int)
    requires
        0 <= j <= HALF_DEGREE,
    ensures
        j <= first_nonzero(s, base, j) <= HALF_DEGREE,
    decreases HALF_DEGREE - j,
{
    if j < HALF_DEGREE && s[base + j] == 0 {
        lemma_first_nonzero_range(s, base, j + 1);
    }
}

/// Conjugation as a monomial map on the incomplete-NTT representation, read
/// off the images of the basis vectors.
#[derive(Clone, Debug)]
pub struct ConjugationTransform {
    pub even_permutation: [usize; HALF_DEGREE],
    pub odd_permutation: [usize; HALF_DEGREE],
    pub odd_factors: [u64; HALF_DEGREE],
}

impl ConjugationTransform {
    /// The tables hold the destinations and factors observed on the basis vectors.
    pub open spec fn is_derived(&self) -> bool {
        &&& forall|i: int|
            0 <= i < HALF_DEGREE ==> #[trigger] self.even_permutation@[i] as int == even_destination(i)
        &&& forall|i: int|
            0 <= i < HALF_DEGREE ==> #[trigger] self.odd_permutation@[i] as int == odd_destination(i)
        &&& forall|i: int| 0 <= i < HALF_DEGREE ==> #[trigger] self.odd_factors@[i] == odd_factor(i)
    }
}

/// Offset of the first nonzero value of the block starting at `base`.
fn first_nonzero_in_block(v: &[u64; DEGREE], base: usize) -> (r: usize)
    requires
        base == 0 || base == HALF_DEGREE,
    ensures
        r as int == first_nonzero(v@, base as int, 0),
{
    let mut j: usize = 0;
    while j < HALF_DEGREE
        invariant
            j <= HALF_DEGREE,
            base == 0 || base == HALF_DEGREE,
            first_nonzero(v@, base as int, 0) == first_nonzero(v@, base as int, j as int),
        decreases HALF_DEGREE - j,
    {
        if v[base + j] != 0 {
            return j;
        }
        j = j + 1;
    }
    j
}

impl RingElement {
    /// Conjugate through coefficient space: leave the incomplete-NTT
    /// representation, reverse and negate `c_1, ..., c_127`, and come back.
    pub fn conjugate_in_place_ref(&mut self)
        requires
            old(self).representation == Representation::IncompleteNTT,
        ensures
            final(self).v@ == conjugate_reference(old(self).v@),
            final(self).representation == Representation::IncompleteNTT,
    {
        self.from_incomplete_ntt_to_even_odd_coefficients();
        self.from_even_odd_coefficients_to_coefficients();
        let ghost c = self.v@;
        proof {
            lemma_layouts_reduced(old(self).v@);
            lemma_layouts_reduced(intt_blocks(old(self).v@));
        }
        let mut i: usize = 1;
        while i < HALF_DEGREE + 1
            invariant
                1 <= i <= HALF_DEGREE + 1,
                c.len() == DEGREE,
                is_reduced(c, MOD_Q),
                self.representation == Representation::Coefficients,
                forall|k: int|
                    0 <= k < DEGREE && (k == 0 || (i <= k && k <= DEGREE - i))
                        ==> #[trigger] self.v@[k] == c[k],
                forall|k: int|
                    0 <= k < DEGREE && k != 0 && (k < i || k > DEGREE - i) ==> #[trigger] self.v@[k]
                        == conjugate_coefficients(c)[k],
            decreases HALF_DEGREE + 1 - i,
        {
            let temp = self.v[i];
            let other = self.v[DEGREE - i];
            self.v[i] = if other == 0 {
                0
            } else {
                MOD_Q - other
            };
            self.v[DEGREE - i] = if temp == 0 {
                0
            } else {
                MOD_Q - temp
            };
            i = i + 1;
        }
        proof {
            assert(self.v@ =~= conjugate_coefficients(c));
        }
        self.from_coefficients_to_even_odd_coefficients();
        self.from_even_odd_coefficients_to_incomplete_ntt_representation();
    }
}

/// Build the conjugation tables by conjugating every basis vector through
/// coefficient space and recording where its value lands.
pub fn derive_conjugation_transform() -> (r: ConjugationTransform)
    ensures
        r.is_derived(),
{
    let mut even_permutation = [0usize; HALF_DEGREE];
    let mut odd_permutation = [0usize; HALF_DEGREE];
    let mut odd_factors = [0u64; HALF_DEGREE];
    let mut i: usize = 0;
    while i < HALF_DEGREE
        invariant
            i <= HALF_DEGREE,
            forall|k: int| 0 <= k < i ==> #[trigger] even_permutation@[k] as int == even_destination(k),
        decreases HALF_DEGREE - i,
    {
        let mut test_vec = RingElement::new(Representation::IncompleteNTT);
        test_vec.v[i] = 1;
        proof {
            assert(test_vec.v@ =~= basis_vector(i as int));
        }
        let mut conjugated = test_vec.copy();
        conjugated.conjugate_in_place_ref();
        let j = first_nonzero_in_block(&conjugated.v, 0);
        if j < HALF_DEGREE {
            even_permutation[i] = j;
        } else {
            even_permutation[i] = 0;
        }
        i = i + 1;
    }
    let mut i: usize = 0;
    while i < HALF_DEGREE
        invariant
            i <= HALF_DEGREE,
            forall|k: int| 0 <= k < HALF_DEGREE ==> #[trigger] even_permutation@[k] as int == even_destination(k),
            forall|k: int| 0 <= k < i ==> #[trigger] odd_permutation@[k] as int == odd_destination(k),
            forall|k: int| 0 <= k < i ==> #[trigger] odd_factors@[k] == odd_factor(k),
        decreases HALF_DEGREE - i,
    {
        let mut test_vec = RingElement::new(Representation::IncompleteNTT);
        test_vec.v[HALF_DEGREE + i] = 1;
        proof {
            assert(test_vec.v@ =~= basis_vector(HALF_DEGREE + i as int));
        }
        let mut conjugated = test_vec.copy();
        conjugated.conjugate_in_place_ref();
        let j = first_nonzero_in_block(&conjugated.v, HALF_DEGREE);
        if j < HALF_DEGREE {
            odd_permutation[i] = j;
            odd_factors[i] = conjugated.v[HALF_DEGREE + j];
        } else {
            odd_permutation[i] = 0;
            odd_factors[i] = 0;
        }
        i = i + 1;
    }
    ConjugationTransform { even_permutation, odd_permutation, odd_factors }
}

/// `base` with `values[i]` written at `perm[i]` for `i = 0, 1, ..., n - 1`
/// in turn (a later write to the same place wins).
pub open spec fn scatter(base: Seq<u64>, values: Seq<u64>, perm: Seq<usize>, n: int) -> Seq<u64>
    decreases n,
{
    if n <= 0 {
        base
    } else {
        scatter(base, values, perm, n - 1).update(perm[n - 1] as int, values[n - 1])
    }
}

/// The odd block multiplied slot-wise by `factors`.
pub open spec fn odd_scaled(v: Seq<u64>, factors: Seq<u64>) -> Seq<u64> {
    Seq::new(
        HALF_DEGREE as nat,
        |i: int| ((v[HALF_DEGREE + i] * factors[i]) % (MOD_Q as int)) as u64,
    )
}

/// Destinations of the even block.
pub open spec fn even_destinations() -> Seq<usize> {
    Seq::new(HALF_DEGREE as nat, |i: int| even_destination(i) as usize)
}

/// Destinations of the odd block.
pub open spec fn odd_destinations() -> Seq<usize> {
    Seq::new(HALF_DEGREE as nat, |i: int| odd_destination(i) as usize)
}

/// Factors of the odd block.
pub open spec fn odd_factors() -> Seq<u64> {
    Seq::new(HALF_DEGREE as nat, |i: int| odd_factor(i))
}

/// The image of `v` under the conjugation tables: the even block scattered
/// onto zeros, the scaled odd block scattered onto `odd_base`.
pub open spec fn conjugate_by_tables(v: Seq<u64>, odd_base: Seq<u64>) -> Seq<u64> {
    scatter(
        Seq::new(HALF_DEGREE as nat, |i: int| 0u64),
        v.subrange(0, HALF_DEGREE as int),
        even_destinations(),
        HALF_DEGREE as int,
    ) + scatter(odd_base, odd_scaled(v, odd_factors()), odd_destinations(), HALF_DEGREE as int)
}

proof fn lemma_destinations_in_block(t: &ConjugationTransform)
    requires
        t.is_derived(),
    ensures
        t.even_permutation@ == even_destinations(),
        t.odd_permutation@ == odd_destinations(),
        t.odd_factors@ == odd_factors(),
        forall|i: int| 0 <= i < HALF_DEGREE ==> #[trigger] even_destinations()[i] < HALF_DEGREE,
        forall|i: int| 0 <= i < HALF_DEGREE ==> #[trigger] odd_destinations()[i] < HALF_DEGREE,
{
    assert forall|i: int| 0 <= i < HALF_DEGREE implies #[trigger] even_destinations()[i]
        < HALF_DEGREE && odd_destinations()[i] < HALF_DEGREE by {
        lemma_first_nonzero_range(conjugate_reference(basis_vector(i)), 0, 0);
        lemma_first_nonzero_range(
            conjugate_reference(basis_vector(HALF_DEGREE + i)),
            HALF_DEGREE as int,
            0,
        );
    }
    assert forall|i: int| 0 <= i < HALF_DEGREE implies #[trigger] t.even_permutation@[i]
        == even_destinations()[i] by {
        lemma_first_nonzero_range(conjugate_reference(basis_vector(i)), 0, 0);
    }
    assert forall|i: int| 0 <= i < HALF_DEGREE implies #[trigger] t.odd_permutation@[i]
        == odd_destinations()[i] by {
        lemma_first_nonzero_range(
            conjugate_reference(basis_vector(HALF_DEGREE + i)),
            HALF_DEGREE as int,
            0,
        );
    }
    assert(t.even_permutation@ =~= even_destinations());
    assert(t.odd_permutation@ =~= odd_destinations());
    assert(t.odd_factors@ =~= odd_factors());
}

/// Scatter `values` into `target` along `perm`.
fn scatter_into(target: &mut [u64; HALF_DEGREE], values: &[u64; HALF_DEGREE], perm: &[usize; HALF_DEGREE])
    requires
        forall|i: int| 0 <= i < HALF_DEGREE ==> #[trigger] perm@[i] < HALF_DEGREE,
    ensures
        final(target)@ == scatter(old(target)@, values@, perm@, HALF_DEGREE as int),
{
    let ghost base = target@;
    let mut i: usize = 0;
    while i < HALF_DEGREE
        invariant
            i <= HALF_DEGREE,
            forall|k: int| 0 <= k < HALF_DEGREE ==> #[trigger] perm@[k] < HALF_DEGREE,
            target@ == scatter(base, values@, perm@, i as int),
        decreases HALF_DEGREE - i,
    {
        target[perm[i]] = values[i];
        i = i + 1;
    }
}

/// The values of `v` moved by the conjugation tables; positions of the odd
/// block that no source reaches keep the value of `odd_base`.
fn apply_conjugation(v: &[u64; DEGREE], odd_base: &[u64; DEGREE], t: &ConjugationTransform) -> (r: [u64; DEGREE])
    requires
        t.is_derived(),
    ensures
        r@ == conjugate_by_tables(v@, odd_base@.subrange(HALF_DEGREE as int, DEGREE as int)),
{
    proof {
        lemma_destinations_in_block(t);
    }
    let mut even_source = [0u64; HALF_DEGREE];
    let mut scaled = [0u64; HALF_DEGREE];
    let mut odd = [0u64; HALF_DEGREE];
    let mut i: usize = 0;
    while i < HALF_DEGREE
        invariant
            i <= HALF_DEGREE,
            t.odd_factors@ == odd_factors(),
            forall|k: int| 0 <= k < i ==> #[trigger] even_source@[k] == v@[k],
            forall|k: int| 0 <= k < i ==> #[trigger] scaled@[k] == odd_scaled(v@, odd_factors())[k],
            forall|k: int| 0 <= k < i ==> #[trigger] odd@[k] == odd_base@[HALF_DEGREE + k],
        decreases HALF_DEGREE - i,
    {
        even_source[i] = v[i];
        scaled[i] = mul_mod(v[HALF_DEGREE + i], t.odd_factors[i], MOD_Q);
        odd[i] = odd_base[HALF_DEGREE + i];
        i = i + 1;
    }
    proof {
        assert(even_source@ =~= v@.subrange(0, HALF_DEGREE as int));
        assert(scaled@ =~= odd_scaled(v@, odd_factors()));
        assert(odd@ =~= odd_base@.subrange(HALF_DEGREE as int, DEGREE as int));
    }
    let mut even = [0u64; HALF_DEGREE];
    proof {
        assert(even@ =~= Seq::new(HALF_DEGREE as nat, |i: int| 0u64));
    }
    scatter_into(&mut even, &even_source, &t.even_permutation);
    scatter_into(&mut odd, &scaled, &t.odd_permutation);
    let mut r = [0u64; DEGREE];
    let mut k: usize = 0;
    while k < HALF_DEGREE
        invariant
            k <= HALF_DEGREE,
            forall|j: int| 0 <= j < k ==> #[trigger] r@[j] == even@[j],
            forall|j: int| 0 <= j < k ==> #[trigger] r@[HALF_DEGREE + j] == odd@[j],
        decreases HALF_DEGREE - k,
    {
        r[k] = even[k];
        r[HALF_DEGREE + k] = odd[k];
        k = k + 1;
    }
    proof {
        let expected = conjugate_by_tables(
            v@,
            odd_base@.subrange(HALF_DEGREE as int, DEGREE as int),
        );
        assert forall|j: int| 0 <= j < DEGREE implies #[trigger] r@[j] == expected[j] by {
            if j >= HALF_DEGREE {
                assert(r@[HALF_DEGREE + (j - HALF_DEGREE)] == odd@[j - HALF_DEGREE]);
            }
        }
        assert(r@ =~= expected);
    }
    r
}

impl RingElement {
    /// Conjugate in place by the monomial tables, derived on this call,
    /// without leaving the incomplete-NTT representation.
    pub fn conjugate_in_place(&mut self)
        requires
            old(self).representation == Representation::IncompleteNTT,
        ensures
            final(self).v@ == conjugate_by_tables(
                old(self).v@,
                old(self).v@.subrange(HALF_DEGREE as int, DEGREE as int),
            ),
            final(self).representation == Representation::IncompleteNTT,
    {
        let transform = derive_conjugation_transform();
        self.conjugate_in_place_with(&transform);
    }

    /// Conjugate in place by tables derived once by
    /// `derive_conjugation_transform`.
    pub fn conjugate_in_place_with(&mut self, transform: &ConjugationTransform)
        requires
            old(self).representation == Representation::IncompleteNTT,
            transform.is_derived(),
        ensures
            final(self).v@ == conjugate_by_tables(
                old(self).v@,
                old(self).v@.subrange(HALF_DEGREE as int, DEGREE as int),
            ),
            final(self).representation == Representation::IncompleteNTT,
    {
        self.v = apply_conjugation(&self.v, &self.v, transform);
    }

    /// Write the conjugate of `self` into `result`, by tables derived on this
    /// call; odd-block positions that no source reaches keep their previous
    /// value in `result`.
    pub fn conjugate_into(&self, result: &mut RingElement)
        requires
            self.representation == Representation::IncompleteNTT,
        ensures
            final(result).v@ == conjugate_by_tables(
                self.v@,
                old(result).v@.subrange(HALF_DEGREE as int, DEGREE as int),
            ),
            final(result).representation == self.representation,
    {
        let transform = derive_conjugation_transform();
        self.conjugate_into_with(result, &transform);
    }

    /// `conjugate_into` by tables derived once by
    /// `derive_conjugation_transform`.
    pub fn conjugate_into_with(&self, result: &mut RingElement, transform: &ConjugationTransform)
        requires
            self.representation == Representation::IncompleteNTT,
            transform.is_derived(),
        ensures
            final(result).v@ == conjugate_by_tables(
                self.v@,
                old(result).v@.subrange(HALF_DEGREE as int, DEGREE as int),
            ),
            final(result).representation == self.representation,
    {
        result.representation = self.representation;
        result.v = apply_conjugation(&self.v, &result.v, transform);
    }

    /// The conjugate of `self`, as a new element.
    pub fn conjugate(&self) -> (r: RingElement)
        requires
            self.representation == Representation::IncompleteNTT,
        ensures
            r.v@ == conjugate_by_tables(
                self.v@,
                Seq::new(HALF_DEGREE as nat, |i: int| 0u64),
            ),
            r.representation == self.representation,
    {
        let mut result = RingElement::new(self.representation);
        proof {
            assert(result.v@.subrange(HALF_DEGREE as int, DEGREE as int) =~= Seq::new(
                HALF_DEGREE as nat,
                |i: int| 0u64,
            ));
        }
        self.conjugate_into(&mut result);
        result
    }
}

proof fn lemma_size_inverse_mod_q()
    ensures
        0 <= ntt_size_inverse(HALF_DEGREE as nat, MOD_Q) < MOD_Q,
        (ntt_size_inverse(HALF_DEGREE as nat, MOD_Q) * HALF_DEGREE as int) % (MOD_Q as int) == 1,
{
    lemma_fundamental_div_mod_converse(MOD_Q as int - 1, 64, 17592186044374, 0);
    assert(ntt_size_inverse(HALF_DEGREE as nat, MOD_Q) == 1108307720795563);
    assert((1108307720795563int * 64) % 1125899906839937 == 1) by (nonlinear_arith);
}

/// The scale `64^{-1} mod q` of every slot: the inverse transform of a
/// constant reads `64^{-1}` times the sum of the even block.
pub fn constant_term_factors() -> (r: [u64; HALF_DEGREE])
    ensures
        forall|i: int| 0 <= i < HALF_DEGREE ==> #[trigger] r@[i] as int == ntt_size_inverse(
            HALF_DEGREE as nat,
            MOD_Q,
        ),
{
    let ghost inverse = ntt_size_inverse(HALF_DEGREE as nat, MOD_Q);
    proof {
        lemma_size_inverse_mod_q();
    }
    let scale = match inv_mod(HALF_DEGREE as u64, MOD_Q) {
        Some(s) => s,
        None => {
            proof {
                assert(((inverse * (HALF_DEGREE as u64) as int) % (MOD_Q as int)) != 1);
            }
            0
        },
    };
    proof {
        lemma_inverse_unique(scale as int, inverse, HALF_DEGREE as int, MOD_Q as int);
    }
    let one = RingElement::one(Representation::IncompleteNTT);
    proof {
        let b0 = block(constant_vector(1), 0);
        assert forall|i: int| 0 <= i < HALF_DEGREE implies #[trigger] one.v@[i] == 1 by {
            assert(b0.len() == HALF_DEGREE);
            let x = crate::ntt::ntt_point(HALF_DEGREE as nat, MOD_Q, i as nat);
            lemma_poly_eval_constant(to_ints(b0), x);
            assert(poly_eval(to_ints(b0), x) == 1);
            assert(one.v@[i] == ntt_spec(b0, MOD_Q)[i]);
        }
    }
    let mut factors = [0u64; HALF_DEGREE];
    let mut i: usize = 0;
    while i < HALF_DEGREE
        invariant
            i <= HALF_DEGREE,
            scale as int == inverse,
            0 <= inverse < MOD_Q,
            forall|k: int| 0 <= k < HALF_DEGREE ==> #[trigger] one.v@[k] == 1,
            forall|k: int| 0 <= k < i ==> #[trigger] factors@[k] as int == inverse,
        decreases HALF_DEGREE - i,
    {
        let inv_one = match inv_mod(one.v[i], MOD_Q) {
            Some(x) => x,
            None => {
                proof {
                    assert(((1 * one.v@[i as int] as int) % (MOD_Q as int)) != 1);
                }
                0
            },
        };
        proof {
            lemma_small_mod(inv_one as nat, MOD_Q as nat);
            lemma_small_mod(scale as nat, MOD_Q as nat);
            assert(inv_one as int * one.v@[i as int] as int == inv_one as int);
            assert(inv_one == 1);
            assert(scale as int * inv_one as int == scale as int);
        }
        factors[i] = mul_mod(scale, inv_one, MOD_Q);
        i = i + 1;
    }
    factors
}

proof fn lemma_mod_accumulate(sum: int, t: int, partial: int, v: int, s: int, q: int)
    requires
        q > 0,
        sum % q == (s * partial) % q,
        t == (v * s) % q,
    ensures
        (sum + t) % q == (s * (partial + v)) % q,
{
    lemma_add_mod_noop(sum, t, q);
    lemma_mod_twice(v * s, q);
    lemma_mul_is_commutative(v, s);
    lemma_mul_is_distributive_add(s, partial, v);
    lemma_add_mod_noop(s * partial, s * v, q);
}

impl RingElement {
    /// The constant coefficient `c_0`, read from the incomplete-NTT
    /// representation as `64^{-1}` times the sum of the even block.
    pub fn constant_term_from_incomplete_ntt(&self) -> (r: u64)
        requires
            self.representation == Representation::IncompleteNTT,
        ensures
            r == intt_blocks(self.v@)[0],
            r == converted(self.v@, Representation::IncompleteNTT, Representation::Coefficients)[0],
    {
        let factors = constant_term_factors();
        let ghost s = ntt_size_inverse(HALF_DEGREE as nat, MOD_Q);
        let ghost b0 = block(self.v@, 0);
        let mut buf = self.v;
        let mut i: usize = 0;
        while i < HALF_DEGREE
            invariant
                i <= HALF_DEGREE,
                forall|k: int| 0 <= k < HALF_DEGREE ==> #[trigger] factors@[k] as int == s,
                forall|k: int| 0 <= k < i ==> #[trigger] buf@[k] as int == (self.v@[k] * s) % (
                MOD_Q as int),
                forall|k: int| 0 <= k < i ==> #[trigger] buf@[k] < MOD_Q,
            decreases HALF_DEGREE - i,
        {
            buf[i] = mul_mod(self.v[i], factors[i], MOD_Q);
            i = i + 1;
        }
        let mut sum: u64 = 0;
        let mut i: usize = 0;
        while i < HALF_DEGREE
            invariant
                i <= HALF_DEGREE,
                b0 == block(self.v@, 0),
                b0.len() == HALF_DEGREE,
                forall|k: int| 0 <= k < HALF_DEGREE ==> #[trigger] buf@[k] as int == (self.v@[k]
                    * s) % (MOD_Q as int),
                forall|k: int| 0 <= k < HALF_DEGREE ==> #[trigger] buf@[k] < MOD_Q,
                sum <= i * MOD_Q,
                (sum as int) % (MOD_Q as int) == (s * inverse_sum(b0, MOD_Q, 0, i as int)) % (
                MOD_Q as int),
            decreases HALF_DEGREE - i,
        {
            proof {
                lemma_pow0(ntt_inverse_point(HALF_DEGREE as nat, MOD_Q, i as nat));
                assert(inverse_sum(b0, MOD_Q, 0, i + 1) == inverse_sum(b0, MOD_Q, 0, i as int)
                    + self.v@[i as int]);
                lemma_mod_accumulate(
                    sum as int,
                    buf@[i as int] as int,
                    inverse_sum(b0, MOD_Q, 0, i as int),
                    self.v@[i as int] as int,
                    s,
                    MOD_Q as int,
                );
            }
            sum = sum + buf[i];
            i = i + 1;
        }
        let r = sum % MOD_Q;
        proof {
            assert(ntt_inverse_spec(b0, MOD_Q)[0] == ((s * inverse_sum(b0, MOD_Q, 0, 64)) % (
            MOD_Q as int)) as u64);
            assert(intt_blocks(self.v@)[0] == ntt_inverse_spec(b0, MOD_Q)[0]);
        }
        r
    }
}

pub proof fn lemma_blocks_additive(a: Seq<u64>, b: Seq<u64>)
    requires
        a.len() == DEGREE,
        b.len() == DEGREE,
    ensures
        ntt_blocks(pointwise_sum(a, b)) == pointwise_sum(ntt_blocks(a), ntt_blocks(b)),
        intt_blocks(pointwise_sum(a, b)) == pointwise_sum(intt_blocks(a), intt_blocks(b)),
{
    let c = pointwise_sum(a, b);
    assert forall|r: int| 0 <= r < 2 implies #[trigger] block(c, r) == sum_mod(
        block(a, r),
        block(b, r),
        MOD_Q,
    ) by {
        assert(block(c, r) =~= sum_mod(block(a, r), block(b, r), MOD_Q));
    }
    assert forall|k: int| 0 <= k < DEGREE implies #[trigger] ntt_blocks(c)[k] == pointwise_sum(
        ntt_blocks(a),
        ntt_blocks(b),
    )[k] by {
        let r = k / 64;
        assert(0 <= r < 2);
        assert(block(c, r) == sum_mod(block(a, r), block(b, r), MOD_Q));
        lemma_ntt_additive(block(a, r), block(b, r), MOD_Q);
    }
    assert forall|k: int| 0 <= k < DEGREE implies #[trigger] intt_blocks(c)[k] == pointwise_sum(
        intt_blocks(a),
        intt_blocks(b),
    )[k] by {
        let r = k / 64;
        assert(0 <= r < 2);
        assert(block(c, r) == sum_mod(block(a, r), block(b, r), MOD_Q));
        lemma_ntt_inverse_additive(block(a, r), block(b, r), MOD_Q);
    }
    assert(ntt_blocks(c) =~= pointwise_sum(ntt_blocks(a), ntt_blocks(b)));
    assert(intt_blocks(c) =~= pointwise_sum(intt_blocks(a), intt_blocks(b)));
}

proof fn lemma_negate_residue_additive(x: u64, y: u64)
    requires
        x < MOD_Q,
        y < MOD_Q,
    ensures
        negate_residue(((x + y) % (MOD_Q as int)) as u64) as int == ((negate_residue(x) + negate_residue(
            y,
        )) % (MOD_Q as int)),
{
    let q = MOD_Q as int;
    let s = (x + y) % q;
    lemma_mod_bound(x + y, q);
    assert(negate_residue(x) as int == (-(x as int)) % q) by {
        if x == 0 {
            lemma_small_mod(0, q as nat);
        } else {
            lemma_mod_multiples_vanish(1, -(x as int), q);
            lemma_small_mod((q - x) as nat, q as nat);
        }
    }
    assert(negate_residue(y) as int == (-(y as int)) % q) by {
        if y == 0 {
            lemma_small_mod(0, q as nat);
        } else {
            lemma_mod_multiples_vanish(1, -(y as int), q);
            lemma_small_mod((q - y) as nat, q as nat);
        }
    }
    assert(negate_residue(s as u64) as int == (-s) % q) by {
        if s == 0 {
            lemma_small_mod(0, q as nat);
        } else {
            lemma_mod_multiples_vanish(1, -s, q);
            lemma_small_mod((q - s) as nat, q as nat);
        }
    }
    lemma_add_mod_noop(-(x as int), -(y as int), q);
    lemma_sub_mod_noop(0, x + y, q);
    lemma_small_mod(0, q as nat);
}

/// Conjugation commutes with addition.
pub proof fn lemma_conjugation_additive(a: Seq<u64>, b: Seq<u64>)
    requires
        a.len() == DEGREE,
        b.len() == DEGREE,
    ensures
        conjugate_reference(pointwise_sum(a, b)) == pointwise_sum(
            conjugate_reference(a),
            conjugate_reference(b),
        ),
{
    lemma_blocks_additive(a, b);
    let ca = interleaved(intt_blocks(a));
    let cb = interleaved(intt_blocks(b));
    lemma_layouts_reduced(a);
    lemma_layouts_reduced(b);
    lemma_layouts_reduced(intt_blocks(a));
    lemma_layouts_reduced(intt_blocks(b));
    assert(interleaved(pointwise_sum(intt_blocks(a), intt_blocks(b))) =~= pointwise_sum(ca, cb));
    assert forall|k: int| 0 <= k < DEGREE implies #[trigger] conjugate_coefficients(
        pointwise_sum(ca, cb),
    )[k] == pointwise_sum(conjugate_coefficients(ca), conjugate_coefficients(cb))[k] by {
        if k != 0 {
            lemma_negate_residue_additive(ca[DEGREE - k], cb[DEGREE - k]);
        }
    }
    let na = conjugate_coefficients(ca);
    let nb = conjugate_coefficients(cb);
    assert(conjugate_coefficients(pointwise_sum(ca, cb)) =~= pointwise_sum(na, nb));
    assert(residue_major(pointwise_sum(na, nb)) =~= pointwise_sum(residue_major(na), residue_major(nb)));
    lemma_blocks_additive(residue_major(na), residue_major(nb));
}

} // verus!
