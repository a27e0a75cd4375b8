//! The squared norm of an element read off the product with its conjugate:
//! the constant coefficient of `c(X) c(X^{-1})` is `sum_i c_i^2`.
use vstd::arithmetic::div_mod::*;
use vstd::arithmetic::mul::*;
use vstd::prelude::*;

use crate::config::{DEGREE, MOD_Q};
use crate::conjugation::{conjugate_coefficients, conjugate_reference, negate_residue};
use crate::conjugation_law::lemma_negate_residue_mod;
use crate::modular::is_reduced;
use crate::negacyclic::{negacyclic_product, negacyclic_term};
use crate::ntt_laws::{lemma_sum_congruent, sum_to};
use crate::product_law::{
    lemma_ntt_multiplication_matches_schoolbook, lemma_partial_as_sum, lemma_regrouped_roundtrip,
};
use crate::conjugation::lemma_blocks_additive;
use crate::layout::{intt_blocks, lemma_layouts_reduced};
use crate::ring_arithmetic::{converted, pointwise_sum, ring_product, zero_vector, Representation};

verus! {

/// The constant coefficient of `c(X) c(X^{-1})` is the sum of the squared
/// coefficients modulo `q`.
pub proof fn lemma_constant_term_of_conjugate_product(c: Seq<u64>)
    requires
        c.len() == DEGREE,
        is_reduced(c, MOD_Q),
    ensures
        negacyclic_product(c, conjugate_coefficients(c), MOD_Q)[0] as int == sum_to(
            |i: int| c[i] * c[i],
            DEGREE as int,
        ) % (MOD_Q as int),
{
    let q = MOD_Q as int;
    let d = conjugate_coefficients(c);
    let terms = |i: int| negacyclic_term(c, d, 0, i);
    let squares = |i: int| c[i] * c[i];
    assert forall|i: int| 0 <= i < DEGREE implies #[trigger] terms(i) % q == squares(i) % q by {
        if i > 0 {
            let x = c[i];
            assert(d[DEGREE - i] == negate_residue(x));
            lemma_negate_residue_mod(x);
            lemma_mul_mod_noop_right(x as int, negate_residue(x) as int, q);
            lemma_mul_mod_noop_right(x as int, -(x as int), q);
            assert(x * (-(x as int)) == -(x * x)) by (nonlinear_arith);
            lemma_neg_mod_negates(x * negate_residue(x), -(x * x), q);
        }
    }
    lemma_partial_as_sum(c, d, 0, DEGREE as int);
    lemma_sum_congruent(terms, squares, DEGREE as int, q);
    lemma_mod_twice(sum_to(squares, DEGREE as int), q);
}

/// `x = y (mod q)` gives `-x = -y (mod q)`.
proof fn lemma_neg_mod_negates(x: int, y: int, q: int)
    requires
        q > 0,
        x % q == y % q,
    ensures
        (-x) % q == (-y) % q,
{
    lemma_fundamental_div_mod(x, q);
    lemma_fundamental_div_mod(y, q);
    let (qx, qy) = (x / q, y / q);
    assert(-x == (-qx) * q - x % q && -y == (-qy) * q - y % q) by (nonlinear_arith)
        requires
            x == q * qx + x % q,
            y == q * qy + y % q,
    ;
    assert(-x == (-qx - 1) * q + (q - x % q) && -y == (-qy - 1) * q + (q - y % q)) by (nonlinear_arith)
        requires
            -x == (-qx) * q - x % q,
            -y == (-qy) * q - y % q,
    ;
    if x % q == 0 {
        lemma_fundamental_div_mod_converse(-x, q, -(x / q), 0);
        lemma_fundamental_div_mod_converse(-y, q, -(y / q), 0);
    } else {
        lemma_fundamental_div_mod_converse(-x, q, -(x / q) - 1, q - x % q);
        lemma_fundamental_div_mod_converse(-y, q, -(y / q) - 1, q - y % q);
    }
}

/// Multiplying an element by its conjugate in the incomplete-NTT
/// representation and reading the constant coefficient gives its squared
/// norm modulo `q`.
pub proof fn lemma_norm_via_conjugation(c: Seq<u64>)
    requires
        c.len() == DEGREE,
        is_reduced(c, MOD_Q),
    ensures
        ({
            let v = converted(c, Representation::Coefficients, Representation::IncompleteNTT);
            converted(
                ring_product(v, conjugate_reference(v), false),
                Representation::IncompleteNTT,
                Representation::Coefficients,
            )[0] as int == sum_to(|i: int| c[i] * c[i], DEGREE as int) % (MOD_Q as int)
        }),
{
    let v = converted(c, Representation::Coefficients, Representation::IncompleteNTT);
    let d = conjugate_coefficients(c);
    lemma_regrouped_roundtrip(c);
    assert(conjugate_reference(v) == converted(
        d,
        Representation::Coefficients,
        Representation::IncompleteNTT,
    ));
    lemma_ntt_multiplication_matches_schoolbook(c, d);
    lemma_constant_term_of_conjugate_product(c);
}


/// `sum_k v_k conj(v_k)` over the first `n` elements, in incomplete-NTT form:
/// slot-wise products, added coefficient-wise modulo `q`.
pub open spec fn conjugate_products_sum(vs: Seq<Seq<u64>>, n: int) -> Seq<u64>
    decreases n,
{
    if n <= 0 {
        zero_vector()
    } else {
        pointwise_sum(
            conjugate_products_sum(vs, n - 1),
            ring_product(vs[n - 1], conjugate_reference(vs[n - 1]), false),
        )
    }
}

/// `sum_k sum_i c_k[i]^2` over the first `n` coefficient vectors.
pub open spec fn squared_norms_sum(cs: Seq<Seq<u64>>, n: int) -> int
    decreases n,
{
    if n <= 0 {
        0
    } else {
        squared_norms_sum(cs, n - 1) + sum_to(|i: int| cs[n - 1][i] * cs[n - 1][i], DEGREE as int)
    }
}

/// For elements `a_1, ..., a_m` given in incomplete-NTT form, the constant
/// coefficient of `sum_k a_k conj(a_k)` is the sum of all their squared
/// coefficients modulo `q`: the inner product of a vector with its conjugate
/// gives its squared Euclidean norm.
pub proof fn lemma_inner_product_with_conjugate(cs: Seq<Seq<u64>>, n: int)
    requires
        0 <= n <= cs.len(),
        forall|k: int| 0 <= k < cs.len() ==> (#[trigger] cs[k]).len() == DEGREE,
        forall|k: int| 0 <= k < cs.len() ==> is_reduced(#[trigger] cs[k], MOD_Q),
    ensures
        ({
            let vs = cs.map_values(
                |c: Seq<u64>| converted(c, Representation::Coefficients, Representation::IncompleteNTT),
            );
            converted(
                conjugate_products_sum(vs, n),
                Representation::IncompleteNTT,
                Representation::Coefficients,
            )[0] as int == squared_norms_sum(cs, n) % (MOD_Q as int)
        }),
    decreases n,
{
    let q = MOD_Q as int;
    let vs = cs.map_values(
        |c: Seq<u64>| converted(c, Representation::Coefficients, Representation::IncompleteNTT),
    );
    if n == 0 {
        assert(intt_blocks(zero_vector())[0] == 0) by {
            lemma_intt_blocks_zero();
        }
        lemma_small_mod(0, MOD_Q as nat);
    } else {
        lemma_inner_product_with_conjugate(cs, n - 1);
        let prev = conjugate_products_sum(vs, n - 1);
        let v = vs[n - 1];
        let here = ring_product(v, conjugate_reference(v), false);
        lemma_conjugate_products_len(vs, n - 1);
        lemma_blocks_additive(prev, here);
        lemma_norm_via_conjugation(cs[n - 1]);
        let total_prev = squared_norms_sum(cs, n - 1);
        let total_here = sum_to(|i: int| cs[n - 1][i] * cs[n - 1][i], DEGREE as int);
        assert(converted(prev, Representation::IncompleteNTT, Representation::Coefficients)[0]
            == intt_blocks(prev)[0]);
        assert(converted(here, Representation::IncompleteNTT, Representation::Coefficients)[0]
            == intt_blocks(here)[0]);
        assert(converted(
            conjugate_products_sum(vs, n),
            Representation::IncompleteNTT,
            Representation::Coefficients,
        )[0] == intt_blocks(conjugate_products_sum(vs, n))[0]);
        lemma_add_mod_noop(total_prev, total_here, q);
    }
}

proof fn lemma_conjugate_products_len(vs: Seq<Seq<u64>>, n: int)
    ensures
        conjugate_products_sum(vs, n).len() == DEGREE,
    decreases n,
{
    if n > 0 {
        lemma_conjugate_products_len(vs, n - 1);
    }
}


/// The inverse transform of zero starts with zero.
proof fn lemma_intt_blocks_zero()
    ensures
        intt_blocks(zero_vector())[0] == 0,
{
    let z = zero_vector();
    lemma_blocks_additive(z, z);
    assert(pointwise_sum(z, z) =~= z) by {
        lemma_small_mod(0, MOD_Q as nat);
    }
    lemma_layouts_reduced(z);
    let x = intt_blocks(z)[0] as int;
    assert(x == (x + x) % (MOD_Q as int));
    if x > 0 {
        if x + x < MOD_Q {
            lemma_small_mod((x + x) as nat, MOD_Q as nat);
        } else {
            lemma_fundamental_div_mod_converse(x + x, MOD_Q as int, 1, x + x - MOD_Q);
        }
    }
}

} // verus!
