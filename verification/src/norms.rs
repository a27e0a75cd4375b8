//! The infinity norm and the squared Euclidean norm of vectors of ring
//! elements.
use vstd::prelude::*;

use crate::config::{DEGREE, HALF_DEGREE, MOD_Q};
use crate::layout::{interleaved, intt_blocks, lemma_layouts_reduced};
use crate::ntt_laws::{lemma_sum_even_odd, lemma_sum_ext, lemma_sum_split, sum_to};
use crate::ring_arithmetic::{centered_magnitude, converted, Representation, RingElement};

verus! {

/// Largest centered magnitude among the first `k` values of `c`.
pub open spec fn max_centered(c: Seq<u64>, k: int) -> nat
    decreases k,
{
    if k <= 0 {
        0
    } else {
        let rest = max_centered(c, k - 1);
        let here = centered_magnitude(c[k - 1]);
        if rest < here {
            here
        } else {
            rest
        }
    }
}

/// Largest centered coefficient of an element given in incomplete-NTT form.
pub open spec fn element_inf_norm(v: Seq<u64>) -> nat {
    max_centered(intt_blocks(v), DEGREE as int)
}

/// Largest element norm among the first `n` elements.
pub open spec fn inf_norm_prefix(elements: Seq<RingElement>, n: int) -> nat
    decreases n,
{
    if n <= 0 {
        0
    } else {
        let rest = inf_norm_prefix(elements, n - 1);
        let here = element_inf_norm(elements[n - 1].v@);
        if rest < here {
            here
        } else {
            rest
        }
    }
}

/// Largest centered coefficient of one element given in incomplete-NTT form.
fn element_norm(element: &RingElement) -> (r: u64)
    requires
        element.representation == Representation::IncompleteNTT,
    ensures
        r as nat == element_inf_norm(element.v@),
{
    let mut coefficients = element.copy();
    coefficients.from_incomplete_ntt_to_even_odd_coefficients();
    proof {
        lemma_layouts_reduced(element.v@);
    }
    let mut best: u64 = 0;
    let mut i: usize = 0;
    while i < DEGREE
        invariant
            i <= DEGREE,
            coefficients.v@ == intt_blocks(element.v@),
            forall|k: int| 0 <= k < DEGREE ==> #[trigger] coefficients.v@[k] < MOD_Q,
            best as nat == max_centered(coefficients.v@, i as int),
        decreases DEGREE - i,
    {
        let x = coefficients.v[i];
        let centered = if x > MOD_Q / 2 {
            MOD_Q - x
        } else {
            x
        };
        if best < centered {
            best = centered;
        }
        i = i + 1;
    }
    best
}

/// Largest centered coefficient over all elements, each given in
/// incomplete-NTT form; `0` for no elements.
pub fn inf_norm(vec: &[RingElement]) -> (r: u64)
    requires
        forall|i: int| 0 <= i < vec@.len() ==> #[trigger] vec@[i].representation
            == Representation::IncompleteNTT,
    ensures
        r as nat == inf_norm_prefix(vec@, vec@.len() as int),
{
    let mut best: u64 = 0;
    let mut i: usize = 0;
    while i < vec.len()
        invariant
            i <= vec@.len(),
            forall|k: int| 0 <= k < vec@.len() ==> #[trigger] vec@[k].representation
                == Representation::IncompleteNTT,
            best as nat == inf_norm_prefix(vec@, i as int),
        decreases vec@.len() - i,
    {
        let here = element_norm(&vec[i]);
        if best < here {
            best = here;
        }
        i = i + 1;
    }
    best
}


/// The centered magnitude used by the Euclidean norm: `x` below `q / 2`,
/// `q - x` from there on.
pub open spec fn l2_centered(x: u64) -> int {
    if x < MOD_Q / 2 {
        x as int
    } else {
        MOD_Q - x
    }
}

/// Sum of the squared centered magnitudes of the first `k` values of `c`.
pub open spec fn centered_squares(c: Seq<u64>, k: int) -> int
    decreases k,
{
    if k <= 0 {
        0
    } else {
        centered_squares(c, k - 1) + l2_centered(c[k - 1]) * l2_centered(c[k - 1])
    }
}

/// Sum over the first `n` elements of the squared centered coefficients, each
/// element read from incomplete-NTT form (`ntt`) or as stored.
pub open spec fn squares_prefix(elements: Seq<RingElement>, n: int, ntt: bool) -> int
    decreases n,
{
    if n <= 0 {
        0
    } else {
        squares_prefix(elements, n - 1, ntt) + centered_squares(
            if ntt {
                intt_blocks(elements[n - 1].v@)
            } else {
                elements[n - 1].v@
            },
            DEGREE as int,
        )
    }
}

proof fn lemma_centered_squares_bounds(c: Seq<u64>, k: int)
    requires
        0 <= k <= c.len(),
        forall|i: int| 0 <= i < c.len() ==> #[trigger] c[i] <= MOD_Q,
    ensures
        0 <= centered_squares(c, k) <= k * 0x4_0000_0000_0000_0000_0000_0000,
    decreases k,
{
    if k > 0 {
        lemma_centered_squares_bounds(c, k - 1);
        let m = l2_centered(c[k - 1]);
        assert(0 <= m < 0x2_0000_0000_0000);
        assert(0 <= m * m <= 0x4_0000_0000_0000_0000_0000_0000) by (nonlinear_arith)
            requires
                0 <= m < 0x2_0000_0000_0000,
        ;
    }
}

proof fn lemma_squares_prefix_monotone(elements: Seq<RingElement>, i: int, n: int, ntt: bool)
    requires
        0 <= i <= n <= elements.len(),
        forall|k: int| 0 <= k < elements.len() ==> #[trigger] squares_prefix(elements, k + 1, ntt)
            >= squares_prefix(elements, k, ntt),
    ensures
        squares_prefix(elements, i, ntt) <= squares_prefix(elements, n, ntt),
    decreases n - i,
{
    if i < n {
        lemma_squares_prefix_monotone(elements, i, n - 1, ntt);
        let k = n - 1;
        assert(squares_prefix(elements, k + 1, ntt) >= squares_prefix(elements, k, ntt));
    }
}

/// Sum of the squared centered values of one element.
fn element_squares(values: &[u64; DEGREE]) -> (r: u128)
    requires
        forall|i: int| 0 <= i < DEGREE ==> #[trigger] values@[i] <= MOD_Q,
    ensures
        r as int == centered_squares(values@, DEGREE as int),
{
    let mut sum: u128 = 0;
    let mut i: usize = 0;
    proof {
        lemma_centered_squares_bounds(values@, DEGREE as int);
    }
    while i < DEGREE
        invariant
            i <= DEGREE,
            forall|k: int| 0 <= k < DEGREE ==> #[trigger] values@[k] <= MOD_Q,
            sum as int == centered_squares(values@, i as int),
        decreases DEGREE - i,
    {
        proof {
            lemma_centered_squares_bounds(values@, i + 1);
        }
        let x = values[i];
        let centered = if x < MOD_Q / 2 {
            x
        } else {
            MOD_Q - x
        };
        sum = sum + centered as u128 * centered as u128;
        i = i + 1;
    }
    sum
}

/// Sum of the squared centered coefficients over all elements, each given in
/// incomplete-NTT form: the square of the Euclidean norm.
pub fn l2_norm_squared(vec: &[RingElement]) -> (r: u128)
    requires
        forall|i: int| 0 <= i < vec@.len() ==> #[trigger] vec@[i].representation
            == Representation::IncompleteNTT,
        squares_prefix(vec@, vec@.len() as int, true) <= u128::MAX,
    ensures
        r as int == squares_prefix(vec@, vec@.len() as int, true),
{
    let mut sum: u128 = 0;
    let mut i: usize = 0;
    proof {
        assert forall|k: int| 0 <= k < vec@.len() implies #[trigger] squares_prefix(vec@, k + 1, true)
            >= squares_prefix(vec@, k, true) by {
            lemma_layouts_reduced(vec@[k].v@);
            lemma_centered_squares_bounds(intt_blocks(vec@[k].v@), DEGREE as int);
        }
    }
    while i < vec.len()
        invariant
            i <= vec@.len(),
            forall|k: int| 0 <= k < vec@.len() ==> #[trigger] vec@[k].representation
                == Representation::IncompleteNTT,
            forall|k: int| 0 <= k < vec@.len() ==> #[trigger] squares_prefix(vec@, k + 1, true)
                >= squares_prefix(vec@, k, true),
            squares_prefix(vec@, vec@.len() as int, true) <= u128::MAX,
            sum as int == squares_prefix(vec@, i as int, true),
        decreases vec@.len() - i,
    {
        let mut coefficients = vec[i].copy();
        coefficients.from_incomplete_ntt_to_even_odd_coefficients();
        proof {
            lemma_layouts_reduced(vec@[i as int].v@);
            lemma_squares_prefix_monotone(vec@, i + 1, vec@.len() as int, true);
        }
        let here = element_squares(&coefficients.v);
        sum = sum + here;
        i = i + 1;
    }
    sum
}

/// Sum of the squared centered stored values over all elements, read as they
/// are stored. Values above `q` are left out by `requires`.
pub fn l2_norm_coeffs_squared(vec: &[RingElement]) -> (r: u128)
    requires
        forall|i: int, j: int| 0 <= i < vec@.len() && 0 <= j < DEGREE ==> #[trigger] vec@[i].v@[j]
            <= MOD_Q,
        squares_prefix(vec@, vec@.len() as int, false) <= u128::MAX,
    ensures
        r as int == squares_prefix(vec@, vec@.len() as int, false),
{
    let mut sum: u128 = 0;
    let mut i: usize = 0;
    proof {
        assert forall|k: int| 0 <= k < vec@.len() implies #[trigger] squares_prefix(vec@, k + 1, false)
            >= squares_prefix(vec@, k, false) by {
            assert forall|j: int| 0 <= j < vec@[k].v@.len() implies #[trigger] vec@[k].v@[j] <= MOD_Q by {
                assert(vec@[k].v@[j] <= MOD_Q);
            }
            lemma_centered_squares_bounds(vec@[k].v@, DEGREE as int);
        }
    }
    while i < vec.len()
        invariant
            i <= vec@.len(),
            forall|a: int, j: int| 0 <= a < vec@.len() && 0 <= j < DEGREE ==> #[trigger] vec@[a].v@[j]
                <= MOD_Q,
            forall|k: int| 0 <= k < vec@.len() ==> #[trigger] squares_prefix(vec@, k + 1, false)
                >= squares_prefix(vec@, k, false),
            squares_prefix(vec@, vec@.len() as int, false) <= u128::MAX,
            sum as int == squares_prefix(vec@, i as int, false),
        decreases vec@.len() - i,
    {
        proof {
            lemma_squares_prefix_monotone(vec@, i + 1, vec@.len() as int, false);
            assert forall|j: int| 0 <= j < DEGREE implies #[trigger] vec@[i as int].v@[j] <= MOD_Q by {
                assert(vec@[i as int].v@[j] <= MOD_Q);
            }
        }
        let here = element_squares(&vec[i].v);
        sum = sum + here;
        i = i + 1;
    }
    sum
}


/// The largest centered magnitude of a prefix is at least every magnitude in
/// it and is one of them (zero for an empty prefix).
pub proof fn lemma_max_centered_is_maximum(c: Seq<u64>, k: int)
    requires
        0 <= k <= c.len(),
    ensures
        forall|i: int| 0 <= i < k ==> max_centered(c, k) >= #[trigger] centered_magnitude(c[i]),
        k == 0 ==> max_centered(c, k) == 0,
        k > 0 ==> exists|j: int| 0 <= j < k && max_centered(c, k) == #[trigger] centered_magnitude(c[j]),
    decreases k,
{
    if k > 0 {
        lemma_max_centered_is_maximum(c, k - 1);
        if k > 1 {
            let j = choose|j: int| 0 <= j < k - 1 && max_centered(c, k - 1) == #[trigger] centered_magnitude(c[j]);
            if max_centered(c, k - 1) < centered_magnitude(c[k - 1]) {
                assert(max_centered(c, k) == centered_magnitude(c[k - 1]));
            } else {
                assert(max_centered(c, k) == centered_magnitude(c[j]));
            }
        } else {
            assert(max_centered(c, k) == centered_magnitude(c[0]));
        }
    }
}

/// The infinity norm of a vector is at least the norm of every element and is
/// the norm of one of them (zero for no elements), whatever their order.
pub proof fn lemma_inf_norm_is_maximum(elements: Seq<RingElement>, n: int)
    requires
        0 <= n <= elements.len(),
    ensures
        forall|i: int| 0 <= i < n ==> inf_norm_prefix(elements, n) >= #[trigger] element_inf_norm(elements[i].v@),
        n == 0 ==> inf_norm_prefix(elements, n) == 0,
        n > 0 ==> exists|j: int|
            0 <= j < n && inf_norm_prefix(elements, n) == #[trigger] element_inf_norm(elements[j].v@),
    decreases n,
{
    if n > 0 {
        lemma_inf_norm_is_maximum(elements, n - 1);
        if n > 1 {
            let j = choose|j: int|
                0 <= j < n - 1 && inf_norm_prefix(elements, n - 1) == #[trigger] element_inf_norm(elements[j].v@);
            if inf_norm_prefix(elements, n - 1) < element_inf_norm(elements[n - 1].v@) {
                assert(inf_norm_prefix(elements, n) == element_inf_norm(elements[n - 1].v@));
            } else {
                assert(inf_norm_prefix(elements, n) == element_inf_norm(elements[j].v@));
            }
        } else {
            assert(inf_norm_prefix(elements, n) == element_inf_norm(elements[0].v@));
        }
    }
}


/// The square of the Euclidean centered magnitude of each value of `c`.
pub open spec fn centered_square_terms(c: Seq<u64>) -> spec_fn(int) -> int {
    |i: int| l2_centered(c[i]) * l2_centered(c[i])
}

/// The sum of squares is the exact integer sum of the squared centered
/// magnitudes, with no partial sum reduced.
pub proof fn lemma_centered_squares_exact(c: Seq<u64>, k: int)
    requires
        0 <= k,
    ensures
        centered_squares(c, k) == sum_to(centered_square_terms(c), k),
    decreases k,
{
    if k > 0 {
        lemma_centered_squares_exact(c, k - 1);
    }
}

/// Regrouping the values between the even-odd and the coefficient layout does
/// not change the sum of squares.
pub proof fn lemma_centered_squares_interleaved(x: Seq<u64>)
    requires
        x.len() == DEGREE,
    ensures
        centered_squares(interleaved(x), DEGREE as int) == centered_squares(x, DEGREE as int),
{
    let y = interleaved(x);
    let f = centered_square_terms(y);
    let g = centered_square_terms(x);
    lemma_centered_squares_exact(y, DEGREE as int);
    lemma_centered_squares_exact(x, DEGREE as int);
    lemma_sum_even_odd(f, HALF_DEGREE as int);
    lemma_sum_split(g, HALF_DEGREE as int, HALF_DEGREE as int);
    assert forall|i: int| 0 <= i < HALF_DEGREE implies #[trigger] f(2 * i) == g(i) by {
        assert(y[2 * i] == x[i]);
    }
    assert forall|i: int| 0 <= i < HALF_DEGREE implies #[trigger] f(2 * i + 1) == g(HALF_DEGREE + i) by {
        assert(y[2 * i + 1] == x[HALF_DEGREE + i]);
    }
    lemma_sum_ext(|i: int| f(2 * i), g, HALF_DEGREE as int);
    lemma_sum_ext(|i: int| f(2 * i + 1), |t: int| g(HALF_DEGREE + t), HALF_DEGREE as int);
}

/// The squared norm read from incomplete-NTT form is the squared norm of the
/// same elements converted to coefficient form.
pub proof fn lemma_l2_ntt_is_coefficient_norm(
    elements: Seq<RingElement>,
    coefficients: Seq<RingElement>,
    n: int,
)
    requires
        0 <= n <= elements.len(),
        n <= coefficients.len(),
        forall|k: int|
            0 <= k < n ==> (#[trigger] coefficients[k]).v@ == converted(
                elements[k].v@,
                Representation::IncompleteNTT,
                Representation::Coefficients,
            ),
    ensures
        squares_prefix(elements, n, true) == squares_prefix(coefficients, n, false),
    decreases n,
{
    if n > 0 {
        lemma_l2_ntt_is_coefficient_norm(elements, coefficients, n - 1);
        let x = intt_blocks(elements[n - 1].v@);
        assert(coefficients[n - 1].v@ == interleaved(x));
        lemma_centered_squares_interleaved(x);
    }
}


/// The squared norm of a vector is the exact integer sum, over its elements,
/// of the squared centered magnitudes of all their stored values.
pub proof fn lemma_squares_prefix_exact(elements: Seq<RingElement>, n: int)
    requires
        0 <= n <= elements.len(),
    ensures
        squares_prefix(elements, n, false) == sum_to(
            |k: int| sum_to(centered_square_terms(elements[k].v@), DEGREE as int),
            n,
        ),
    decreases n,
{
    if n > 0 {
        lemma_squares_prefix_exact(elements, n - 1);
        lemma_centered_squares_exact(elements[n - 1].v@, DEGREE as int);
    }
}


/// The norm of one element is the largest centered magnitude among all its
/// coefficients, read from incomplete-NTT form.
pub proof fn lemma_element_inf_norm_is_maximum(v: Seq<u64>)
    ensures
        forall|i: int|
            0 <= i < DEGREE ==> element_inf_norm(v) >= #[trigger] centered_magnitude(intt_blocks(v)[i]),
        exists|j: int|
            0 <= j < DEGREE && element_inf_norm(v) == #[trigger] centered_magnitude(intt_blocks(v)[j]),
{
    lemma_max_centered_is_maximum(intt_blocks(v), DEGREE as int);
}

} // verus!
