//! Multiplication in the incomplete-NTT representation is multiplication in
//! `Z_q[X]/(X^128 + 1)`.
//!
//! Write `a(X) = a_e(X^2) + X a_o(X^2)`. Slot `j` evaluates `a_e` and `a_o` at
//! a root `x` of `Y^64 + 1`; the product's even and odd parts evaluate to
//! `a_e b_e + x a_o b_o` and `a_e b_o + a_o b_e` there, which is the slot
//! product with shift factor `x`.
use vstd::arithmetic::div_mod::*;
use vstd::arithmetic::mul::*;
use vstd::arithmetic::power::*;
use vstd::prelude::*;

use crate::config::{DEGREE, HALF_DEGREE, MOD_Q};
use crate::layout::{block, interleaved, intt_blocks, lemma_layouts_reduced, ntt_blocks, residue_major};
use crate::modular::is_reduced;
use crate::negacyclic::{negacyclic_partial, negacyclic_product, negacyclic_term};
use crate::ntt::{ntt_exponent, ntt_point, ntt_root, ntt_spec, poly_eval, to_ints, NTT_ROOT_MOD_Q};
use crate::ring_arithmetic::{
    converted, dehomogenize, field_shift, homogenize, lemma_normalize_exponent,
    lemma_normalize_factor_invertible, lemma_shift_factor_is_point, normalize_factor,
    normalize_inverse, ring_product, shift_factor, Representation,
};
use crate::roots::lemma_pow_of_reduced_pow;
use crate::ntt_laws::{
    lemma_ntt_roundtrip, lemma_ntt_roundtrip_dual, lemma_odd_power_of_minus_one, lemma_poly_eval_as_sum, lemma_root_facts,
    lemma_sum_add, lemma_sum_congruent,
    lemma_sum_even_odd, lemma_sum_ext, lemma_sum_scale, lemma_sum_split, lemma_sum_swap, sum_to,
};

verus! {

/// `+-h(t) x^m` with `t = (m - s) mod 64`, negative when the index wrapped.
pub open spec fn twisted_term(h: spec_fn(int) -> int, x: int, s: int, m: int) -> int {
    if m >= s {
        h(m - s) * pow(x, m as nat)
    } else {
        -(h(m - s + 64) * pow(x, m as nat))
    }
}

/// `sum_{t < 64} h(t) x^(s + t)`.
pub open spec fn shifted_series(h: spec_fn(int) -> int, x: int, s: int) -> int {
    sum_to(|t: int| h(t) * pow(x, (s + t) as nat), 64)
}

/// When `x^64 = -1`, wrapping an index past `64` is the same as negating:
/// the twisted sum is the plain series shifted by `x^s`.
pub proof fn lemma_twisted_sum(h: spec_fn(int) -> int, x: int, s: int, q: int)
    requires
        q > 1,
        0 <= s <= 64,
        pow(x, 64) % q == q - 1,
    ensures
        sum_to(|m: int| twisted_term(h, x, s, m), 64) % q == shifted_series(h, x, s) % q,
{
    let f = |m: int| twisted_term(h, x, s, m);
    let g = |t: int| h(t) * pow(x, (s + t) as nat);
    lemma_sum_split(f, s, 64 - s);
    lemma_sum_split(g, 64 - s, s);
    let wrapped = |u: int| g(64 - s + u);
    let tail = |u: int| f(s + u);
    assert forall|u: int| 0 <= u < 64 - s implies #[trigger] tail(u) == g(u) by {}
    lemma_sum_ext(tail, g, 64 - s);
    assert forall|m: int| 0 <= m < s implies #[trigger] f(m) % q == wrapped(m) % q by {
        let y = pow(x, m as nat);
        let v = h(m - s + 64);
        lemma_pow_adds(x, m as nat, 64);
        assert((m as nat + 64) as nat == (s + (64 - s + m)) as nat);
        lemma_mul_mod_noop_right(y, pow(x, 64), q);
        assert((y * (q - 1)) % q == (-y) % q) by {
            assert(y * (q - 1) == -y + q * y) by (nonlinear_arith);
            lemma_mod_multiples_vanish(y, -y, q);
            lemma_mul_is_commutative(q, y);
        }
        lemma_mul_mod_noop_right(v, y * pow(x, 64), q);
        lemma_mul_mod_noop_right(v, -y, q);
        assert(v * (-y) == -(v * y)) by (nonlinear_arith);
        assert(wrapped(m) == v * (y * pow(x, 64)));
    }
    lemma_sum_congruent(f, wrapped, s, q);
    lemma_add_mod_noop(sum_to(f, s), sum_to(tail, 64 - s), q);
    lemma_add_mod_noop(sum_to(wrapped, s), sum_to(g, 64 - s), q);
}

/// Integer coefficient `k` of the negacyclic product before reduction.
pub open spec fn raw_product(a: Seq<u64>, b: Seq<u64>, k: int) -> int {
    negacyclic_partial(a, b, k, 128)
}

pub proof fn lemma_partial_as_sum(a: Seq<u64>, b: Seq<u64>, k: int, m: int)
    ensures
        negacyclic_partial(a, b, k, m) == sum_to(|i: int| negacyclic_term(a, b, k, i), m),
    decreases m,
{
    if m > 0 {
        lemma_partial_as_sum(a, b, k, m - 1);
    }
}

proof fn lemma_shifted_series(h: spec_fn(int) -> int, x: int, s: int)
    requires
        s >= 0,
    ensures
        shifted_series(h, x, s) == pow(x, s as nat) * sum_to(|t: int| h(t) * pow(x, t as nat), 64),
{
    let g = |t: int| h(t) * pow(x, (s + t) as nat);
    let plain = |t: int| h(t) * pow(x, t as nat);
    let scaled = |t: int| pow(x, s as nat) * plain(t);
    assert forall|t: int| 0 <= t < 64 implies #[trigger] g(t) == scaled(t) by {
        lemma_pow_adds(x, s as nat, t as nat);
        assert(h(t) * (pow(x, s as nat) * pow(x, t as nat)) == pow(x, s as nat) * (h(t) * pow(
            x,
            t as nat,
        ))) by (nonlinear_arith);
    }
    lemma_sum_ext(g, scaled, 64);
    lemma_sum_scale(plain, pow(x, s as nat), 64);
}

/// One column of a product part: the contribution of `a_i` for one parity class.
proof fn lemma_column(av: int, h: spec_fn(int) -> int, x: int, s: int, q: int, col: spec_fn(int) -> int)
    requires
        q > 1,
        0 <= s <= 64,
        pow(x, 64) % q == q - 1,
        forall|m: int| 0 <= m < 64 ==> #[trigger] col(m) == av * twisted_term(h, x, s, m),
    ensures
        sum_to(col, 64) % q == (av * (pow(x, s as nat) * sum_to(
            |t: int| h(t) * pow(x, t as nat),
            64,
        ))) % q,
{
    let tw = |m: int| twisted_term(h, x, s, m);
    let scaled = |m: int| av * tw(m);
    lemma_sum_ext(col, scaled, 64);
    lemma_sum_scale(tw, av, 64);
    lemma_twisted_sum(h, x, s, q);
    lemma_shifted_series(h, x, s);
    lemma_mul_mod_noop_right(av, sum_to(tw, 64), q);
    lemma_mul_mod_noop_right(av, shifted_series(h, x, s), q);
}

/// `x^m` times the contribution of `a_i` to coefficient `2m + p` of the product.
pub open spec fn weighted_term(a: Seq<u64>, b: Seq<u64>, x: int, p: int, m: int, i: int) -> int {
    pow(x, m as nat) * negacyclic_term(a, b, 2 * m + p, i)
}

/// Column `k` of a product part: the contributions of `a_{2k}` and `a_{2k+1}`.
pub open spec fn part_column(a: Seq<u64>, b: Seq<u64>, x: int, p: int, k: int) -> int {
    sum_to(|m: int| weighted_term(a, b, x, p, m, 2 * k), 64) + sum_to(
        |m: int| weighted_term(a, b, x, p, m, 2 * k + 1),
        64,
    )
}

proof fn lemma_part_as_columns(a: Seq<u64>, b: Seq<u64>, x: int, p: int)
    ensures
        sum_to(|m: int| raw_product(a, b, 2 * m + p) * pow(x, m as nat), 64) == sum_to(
            |k: int| part_column(a, b, x, p, k),
            64,
        ),
{
    let cell = |m: int, k: int| weighted_term(a, b, x, p, m, 2 * k) + weighted_term(a, b, x, p, m, 2 * k + 1);
    let row = |m: int| sum_to(|k: int| cell(m, k), 64);
    let lhs = |m: int| raw_product(a, b, 2 * m + p) * pow(x, m as nat);
    assert forall|m: int| 0 <= m < 64 implies #[trigger] lhs(m) == row(m) by {
        let y = pow(x, m as nat);
        let term = |i: int| negacyclic_term(a, b, 2 * m + p, i);
        lemma_partial_as_sum(a, b, 2 * m + p, 128);
        lemma_sum_even_odd(term, 64);
        let ev = |k: int| term(2 * k);
        let od = |k: int| term(2 * k + 1);
        lemma_sum_scale(ev, y, 64);
        lemma_sum_scale(od, y, 64);
        let yev = |k: int| y * ev(k);
        let yod = |k: int| y * od(k);
        lemma_sum_add(yev, yod, 64);
        let both = |k: int| yev(k) + yod(k);
        assert forall|k: int| 0 <= k < 64 implies #[trigger] both(k) == cell(m, k) by {}
        lemma_sum_ext(both, |k: int| cell(m, k), 64);
        lemma_mul_is_distributive_add(y, sum_to(ev, 64), sum_to(od, 64));
        lemma_mul_is_commutative(y, sum_to(term, 128));
    }
    lemma_sum_ext(lhs, row, 64);
    lemma_sum_swap(cell, 64, 64);
    let col = |k: int| sum_to(|m: int| cell(m, k), 64);
    assert forall|k: int| 0 <= k < 64 implies #[trigger] col(k) == part_column(a, b, x, p, k) by {
        lemma_sum_add(
            |m: int| weighted_term(a, b, x, p, m, 2 * k),
            |m: int| weighted_term(a, b, x, p, m, 2 * k + 1),
            64,
        );
        let split = |m: int| (|m: int| weighted_term(a, b, x, p, m, 2 * k))(m) + (|m: int|
            weighted_term(a, b, x, p, m, 2 * k + 1))(m);
        assert forall|m: int| 0 <= m < 64 implies #[trigger] cell(m, k) == split(m) by {}
        lemma_sum_ext(|m: int| cell(m, k), split, 64);
    }
    lemma_sum_ext(col, |k: int| part_column(a, b, x, p, k), 64);
}

/// `sum_{t < 64} h(t) x^t`.
pub open spec fn series(h: spec_fn(int) -> int, x: int) -> int {
    sum_to(|t: int| h(t) * pow(x, t as nat), 64)
}

/// The even coefficients `b_{2t}`.
pub open spec fn evens(b: Seq<u64>) -> spec_fn(int) -> int {
    |t: int| b[2 * t] as int
}

/// The odd coefficients `b_{2t+1}`.
pub open spec fn odds(b: Seq<u64>) -> spec_fn(int) -> int {
    |t: int| b[2 * t + 1] as int
}

proof fn lemma_column_pair(
    a0: int,
    a1: int,
    h0: spec_fn(int) -> int,
    s0: int,
    h1: spec_fn(int) -> int,
    s1: int,
    x: int,
    q: int,
    col0: spec_fn(int) -> int,
    col1: spec_fn(int) -> int,
)
    requires
        q > 1,
        0 <= s0 <= 64,
        0 <= s1 <= 64,
        pow(x, 64) % q == q - 1,
        forall|m: int| 0 <= m < 64 ==> #[trigger] col0(m) == a0 * twisted_term(h0, x, s0, m),
        forall|m: int| 0 <= m < 64 ==> #[trigger] col1(m) == a1 * twisted_term(h1, x, s1, m),
    ensures
        (sum_to(col0, 64) + sum_to(col1, 64)) % q == (a0 * (pow(x, s0 as nat) * series(h0, x)) + a1
            * (pow(x, s1 as nat) * series(h1, x))) % q,
{
    lemma_column(a0, h0, x, s0, q, col0);
    lemma_column(a1, h1, x, s1, q, col1);
    lemma_add_mod_noop(sum_to(col0, 64), sum_to(col1, 64), q);
    lemma_add_mod_noop(
        a0 * (pow(x, s0 as nat) * series(h0, x)),
        a1 * (pow(x, s1 as nat) * series(h1, x)),
        q,
    );
}

pub proof fn lemma_negacyclic_twist(av: int, bv_in: int, bv_wrap: int, x: int, m: int, k: int, nt: int)
    requires
        nt == (if m >= k {
            av * bv_in
        } else {
            -(av * bv_wrap)
        }),
    ensures
        pow(x, m as nat) * nt == av * (if m >= k {
            bv_in * pow(x, m as nat)
        } else {
            -(bv_wrap * pow(x, m as nat))
        }),
{
    let y = pow(x, m as nat);
    if m >= k {
        assert(y * (av * bv_in) == av * (bv_in * y)) by (nonlinear_arith);
    } else {
        assert(y * (-(av * bv_wrap)) == av * (-(bv_wrap * y))) by (nonlinear_arith);
    }
}

/// Coefficient `2m + p` of the product, taken with `x^m`, is a twisted sum per column.
proof fn lemma_product_columns(a: Seq<u64>, b: Seq<u64>, x: int, q: int, p: int, k: int)
    requires
        q > 1,
        a.len() == DEGREE,
        b.len() == DEGREE,
        pow(x, 64) % q == q - 1,
        p == 0 || p == 1,
        0 <= k < 64,
    ensures
        p == 0 ==> part_column(a, b, x, p, k) % q == (a[2 * k] * (pow(x, k as nat) * series(
            evens(b),
            x,
        )) + a[2 * k + 1] * (pow(x, (k + 1) as nat) * series(odds(b), x))) % q,
        p == 1 ==> part_column(a, b, x, p, k) % q == (a[2 * k] * (pow(x, k as nat) * series(
            odds(b),
            x,
        )) + a[2 * k + 1] * (pow(x, k as nat) * series(evens(b), x))) % q,
{
    let col0 = |m: int| weighted_term(a, b, x, p, m, 2 * k);
    let col1 = |m: int| weighted_term(a, b, x, p, m, 2 * k + 1);
    if p == 0 {
        assert forall|m: int| 0 <= m < 64 implies #[trigger] col0(m) == a[2 * k] * twisted_term(
            evens(b),
            x,
            k,
            m,
        ) by {
            lemma_negacyclic_twist(
                a[2 * k] as int,
                b[2 * (m - k)] as int,
                b[2 * (m - k + 64)] as int,
                x,
                m,
                k,
                negacyclic_term(a, b, 2 * m, 2 * k),
            );
        }
        assert forall|m: int| 0 <= m < 64 implies #[trigger] col1(m) == a[2 * k + 1] * twisted_term(
            odds(b),
            x,
            k + 1,
            m,
        ) by {
            lemma_negacyclic_twist(
                a[2 * k + 1] as int,
                b[2 * (m - (k + 1)) + 1] as int,
                b[2 * (m - (k + 1) + 64) + 1] as int,
                x,
                m,
                k + 1,
                negacyclic_term(a, b, 2 * m, 2 * k + 1),
            );
        }
        lemma_column_pair(a[2 * k] as int, a[2 * k + 1] as int, evens(b), k, odds(b), k + 1, x, q, col0, col1);
    } else {
        assert forall|m: int| 0 <= m < 64 implies #[trigger] col0(m) == a[2 * k] * twisted_term(
            odds(b),
            x,
            k,
            m,
        ) by {
            lemma_negacyclic_twist(
                a[2 * k] as int,
                b[2 * (m - k) + 1] as int,
                b[2 * (m - k + 64) + 1] as int,
                x,
                m,
                k,
                negacyclic_term(a, b, 2 * m + 1, 2 * k),
            );
        }
        assert forall|m: int| 0 <= m < 64 implies #[trigger] col1(m) == a[2 * k + 1] * twisted_term(
            evens(b),
            x,
            k,
            m,
        ) by {
            lemma_negacyclic_twist(
                a[2 * k + 1] as int,
                b[2 * (m - k)] as int,
                b[2 * (m - k + 64)] as int,
                x,
                m,
                k,
                negacyclic_term(a, b, 2 * m + 1, 2 * k + 1),
            );
        }
        lemma_column_pair(a[2 * k] as int, a[2 * k + 1] as int, odds(b), k, evens(b), k, x, q, col0, col1);
    }
}

proof fn lemma_two_series(u: int, hu: spec_fn(int) -> int, v: int, hv: spec_fn(int) -> int, x: int, t: spec_fn(int) -> int)
    requires
        forall|k: int| 0 <= k < 64 ==> #[trigger] t(k) == u * (hu(k) * pow(x, k as nat)) + v * (hv(k)
            * pow(x, k as nat)),
    ensures
        sum_to(t, 64) == u * series(hu, x) + v * series(hv, x),
{
    let fu = |k: int| hu(k) * pow(x, k as nat);
    let fv = |k: int| hv(k) * pow(x, k as nat);
    let su = |k: int| u * fu(k);
    let sv = |k: int| v * fv(k);
    lemma_sum_scale(fu, u, 64);
    lemma_sum_scale(fv, v, 64);
    lemma_sum_add(su, sv, 64);
    let both = |k: int| su(k) + sv(k);
    lemma_sum_ext(t, both, 64);
}

/// The even and odd parts of the product at a root `x` of `Y^64 + 1`.
pub proof fn lemma_product_parts(a: Seq<u64>, b: Seq<u64>, x: int, q: int)
    requires
        q > 1,
        a.len() == DEGREE,
        b.len() == DEGREE,
        pow(x, 64) % q == q - 1,
    ensures
        sum_to(|m: int| raw_product(a, b, 2 * m + 0) * pow(x, m as nat), 64) % q == (series(
            evens(a),
            x,
        ) * series(evens(b), x) + x * (series(odds(a), x) * series(odds(b), x))) % q,
        sum_to(|m: int| raw_product(a, b, 2 * m + 1) * pow(x, m as nat), 64) % q == (series(
            evens(a),
            x,
        ) * series(odds(b), x) + series(odds(a), x) * series(evens(b), x)) % q,
{
    let ea = series(evens(a), x);
    let oa = series(odds(a), x);
    let eb = series(evens(b), x);
    let ob = series(odds(b), x);
    lemma_part_as_columns(a, b, x, 0);
    lemma_part_as_columns(a, b, x, 1);
    let col_e = |k: int| part_column(a, b, x, 0, k);
    let col_o = |k: int| part_column(a, b, x, 1, k);
    let target_e = |k: int| a[2 * k] * (pow(x, k as nat) * eb) + a[2 * k + 1] * (pow(x, (k + 1) as nat) * ob);
    let target_o = |k: int| a[2 * k] * (pow(x, k as nat) * ob) + a[2 * k + 1] * (pow(x, k as nat) * eb);
    assert forall|k: int| 0 <= k < 64 implies #[trigger] col_e(k) % q == target_e(k) % q by {
        lemma_product_columns(a, b, x, q, 0, k);
    }
    assert forall|k: int| 0 <= k < 64 implies #[trigger] col_o(k) % q == target_o(k) % q by {
        lemma_product_columns(a, b, x, q, 1, k);
    }
    lemma_sum_congruent(col_e, target_e, 64, q);
    lemma_sum_congruent(col_o, target_o, 64, q);
    assert forall|k: int| 0 <= k < 64 implies #[trigger] target_e(k) == eb * (evens(a)(k) * pow(
        x,
        k as nat,
    )) + (x * ob) * (odds(a)(k) * pow(x, k as nat)) by {
        let y = pow(x, k as nat);
        lemma_pow_adds(x, k as nat, 1);
        lemma_pow1(x);
        let a0 = a[2 * k] as int;
        let a1 = a[2 * k + 1] as int;
        assert(a0 * (y * eb) + a1 * ((y * x) * ob) == eb * (a0 * y) + (x * ob) * (a1 * y)) by (
        nonlinear_arith);
    }
    lemma_two_series(eb, evens(a), x * ob, odds(a), x, target_e);
    assert forall|k: int| 0 <= k < 64 implies #[trigger] target_o(k) == ob * (evens(a)(k) * pow(
        x,
        k as nat,
    )) + eb * (odds(a)(k) * pow(x, k as nat)) by {
        let y = pow(x, k as nat);
        let a0 = a[2 * k] as int;
        let a1 = a[2 * k + 1] as int;
        assert(a0 * (y * ob) + a1 * (y * eb) == ob * (a0 * y) + eb * (a1 * y)) by (nonlinear_arith);
    }
    lemma_two_series(ob, evens(a), eb, odds(a), x, target_o);
    assert(eb * ea + (x * ob) * oa == ea * eb + x * (oa * ob)) by (nonlinear_arith);
    assert(ob * ea + eb * oa == ea * ob + oa * eb) by (nonlinear_arith);
}

/// The evaluation point of slot `j` is a root of `Y^64 + 1` modulo `q`.
pub proof fn lemma_slot_point_is_root(j: int)
    requires
        0 <= j < HALF_DEGREE,
    ensures
        pow(ntt_point(HALF_DEGREE as nat, MOD_Q, j as nat), 64) % (MOD_Q as int) == MOD_Q - 1,
{
    let n = HALF_DEGREE as nat;
    let q = MOD_Q as int;
    let psi = ntt_root(MOD_Q);
    let e = ntt_exponent(n, j as nat);
    lemma_root_facts(n, MOD_Q);
    crate::ntt::lemma_ntt_exponent_bound(n, j as nat);
    lemma_pow_of_reduced_pow(psi, e, 64, q);
    lemma_pow_multiplies(psi, 64, e);
    lemma_mul_is_commutative(e as int, 64);
    lemma_odd_power_of_minus_one(pow(psi, 64), e, q);
}

/// A block of the forward transform of a regrouped vector is the series of
/// its even (or odd) coefficients at the slot's point.
pub proof fn lemma_block_value(c: Seq<u64>, j: int, p: int)
    requires
        c.len() == DEGREE,
        0 <= j < HALF_DEGREE,
        p == 0 || p == 1,
    ensures
        ntt_blocks(residue_major(c))[p * 64 + j] as int == series(
            if p == 0 {
                evens(c)
            } else {
                odds(c)
            },
            ntt_point(HALF_DEGREE as nat, MOD_Q, j as nat),
        ) % (MOD_Q as int),
{
    let x = ntt_point(HALF_DEGREE as nat, MOD_Q, j as nat);
    let blk = block(residue_major(c), p);
    assert(blk.len() == 64);
    assert((p * 64 + j) / 64 == p && (p * 64 + j) % 64 == j) by {
        lemma_fundamental_div_mod_converse(p * 64 + j, 64, p, j);
    }
    assert(ntt_blocks(residue_major(c))[p * 64 + j] == ntt_spec(blk, MOD_Q)[j]);
    lemma_poly_eval_as_sum(to_ints(blk), x);
    let h = if p == 0 {
        evens(c)
    } else {
        odds(c)
    };
    let f = |k: int| to_ints(blk)[k] * pow(x, k as nat);
    let g = |t: int| h(t) * pow(x, t as nat);
    assert forall|k: int| 0 <= k < 64 implies #[trigger] f(k) == g(k) by {
        assert(0 <= p * 64 + k < 128);
        lemma_fundamental_div_mod_converse(p * 64 + k, 64, p, k);
        assert(blk[k] == residue_major(c)[p * 64 + k]);
    }
    lemma_sum_ext(f, g, 64);
    lemma_mod_bound(poly_eval(to_ints(blk), x), MOD_Q as int);
}

proof fn lemma_slot_mod(e0: int, e1: int, o0: int, o1: int, x: int, q: int)
    requires
        q > 0,
    ensures
        ((e0 % q) * (e1 % q) + x * ((o0 % q) * (o1 % q))) % q == (e0 * e1 + x * (o0 * o1)) % q,
        ((o0 % q) * (e1 % q) + (e0 % q) * (o1 % q)) % q == (e0 * o1 + o0 * e1) % q,
{
    lemma_mul_mod_noop(e0, e1, q);
    lemma_mul_mod_noop(o0, o1, q);
    lemma_mul_mod_noop(o0, e1, q);
    lemma_mul_mod_noop(e0, o1, q);
    lemma_mul_mod_noop_right(x, (o0 % q) * (o1 % q), q);
    lemma_mul_mod_noop_right(x, o0 * o1, q);
    lemma_add_mod_noop(e0 * e1, x * (o0 * o1), q);
    lemma_add_mod_noop((e0 % q) * (e1 % q), x * ((o0 % q) * (o1 % q)), q);
    lemma_add_mod_noop(o0 * e1, e0 * o1, q);
    lemma_add_mod_noop((o0 % q) * (e1 % q), (e0 % q) * (o1 % q), q);
}

/// Multiplying in the incomplete-NTT representation is multiplying in
/// `Z_q[X]/(X^128 + 1)`: the slot product of two transformed operands is the
/// transform of their negacyclic product.
pub proof fn lemma_ntt_multiplication_is_ring_product(a: Seq<u64>, b: Seq<u64>)
    requires
        a.len() == DEGREE,
        b.len() == DEGREE,
    ensures
        ring_product(
            converted(a, Representation::Coefficients, Representation::IncompleteNTT),
            converted(b, Representation::Coefficients, Representation::IncompleteNTT),
            false,
        ) == converted(
            negacyclic_product(a, b, MOD_Q),
            Representation::Coefficients,
            Representation::IncompleteNTT,
        ),
{
    let q = MOD_Q as int;
    let c = negacyclic_product(a, b, MOD_Q);
    let ta = ntt_blocks(residue_major(a));
    let tb = ntt_blocks(residue_major(b));
    let tc = ntt_blocks(residue_major(c));
    let prod = ring_product(ta, tb, false);
    assert forall|k: int| 0 <= k < DEGREE implies #[trigger] prod[k] == tc[k] by {
        let j = if k < 64 {
            k
        } else {
            k - 64
        };
        let x = ntt_point(HALF_DEGREE as nat, MOD_Q, j as nat);
        lemma_slot_point_is_root(j);
        lemma_shift_factor_is_point(j);
        lemma_product_parts(a, b, x, q);
        lemma_block_value(a, j, 0);
        lemma_block_value(a, j, 1);
        lemma_block_value(b, j, 0);
        lemma_block_value(b, j, 1);
        lemma_block_value(c, j, 0);
        lemma_block_value(c, j, 1);
        let ea = series(evens(a), x);
        let oa = series(odds(a), x);
        let eb = series(evens(b), x);
        let ob = series(odds(b), x);
        lemma_slot_mod(ea, eb, oa, ob, x, q);
        let p: int = if k < 64 {
            0
        } else {
            1
        };
        let raw_terms = |m: int| raw_product(a, b, 2 * m + p) * pow(x, m as nat);
        let hc = if p == 0 {
            evens(c)
        } else {
            odds(c)
        };
        let c_terms = |t: int| hc(t) * pow(x, t as nat);
        assert forall|m: int| 0 <= m < 64 implies #[trigger] c_terms(m) % q == raw_terms(m) % q by {
            assert(c[2 * m + p] as int == raw_product(a, b, 2 * m + p) % q);
            lemma_mul_mod_noop_left(raw_product(a, b, 2 * m + p), pow(x, m as nat), q);
        }
        lemma_sum_congruent(c_terms, raw_terms, 64, q);
        assert(0 <= prod[k] < q);
        if k < 64 {
            assert(prod[k] as int == ((ta[k] * tb[k] + shift_factor(k) * (ta[k + 64] * tb[k + 64])) % q));
        } else {
            assert(prod[k] as int == ((ta[k] * tb[k - 64] + ta[k - 64] * tb[k]) % q));
            assert(ea * ob + oa * eb == oa * eb + ea * ob);
        }
    }
    assert(prod =~= tc);
}

/// Coming back from the incomplete-NTT representation after multiplying
/// there gives the schoolbook negacyclic product.
pub proof fn lemma_ntt_multiplication_matches_schoolbook(a: Seq<u64>, b: Seq<u64>)
    requires
        a.len() == DEGREE,
        b.len() == DEGREE,
    ensures
        converted(
            ring_product(
                converted(a, Representation::Coefficients, Representation::IncompleteNTT),
                converted(b, Representation::Coefficients, Representation::IncompleteNTT),
                false,
            ),
            Representation::IncompleteNTT,
            Representation::Coefficients,
        ) == negacyclic_product(a, b, MOD_Q),
{
    let c = negacyclic_product(a, b, MOD_Q);
    lemma_ntt_multiplication_is_ring_product(a, b);
    assert(is_reduced(c, MOD_Q)) by {
        assert forall|k: int| 0 <= k < c.len() implies #[trigger] c[k] < MOD_Q by {
            lemma_mod_bound(negacyclic_partial(a, b, k, 128), MOD_Q as int);
        }
    }
    lemma_regrouped_roundtrip(c);
}

/// Transforming canonical coefficients and transforming back gives them back.
pub proof fn lemma_regrouped_roundtrip(c: Seq<u64>)
    requires
        c.len() == DEGREE,
        is_reduced(c, MOD_Q),
    ensures
        interleaved(intt_blocks(ntt_blocks(residue_major(c)))) == c,
{
    lemma_layouts_reduced(c);
    let r = residue_major(c);
    lemma_blocks_roundtrip(r);
    crate::layout::lemma_interleaved_residue_major(c);
}

/// The per-block inverse transform undoes the per-block forward transform.
pub proof fn lemma_blocks_roundtrip(v: Seq<u64>)
    requires
        v.len() == DEGREE,
        is_reduced(v, MOD_Q),
    ensures
        intt_blocks(ntt_blocks(v)) == v,
{
    let w = ntt_blocks(v);
    assert forall|k: int| 0 <= k < DEGREE implies #[trigger] intt_blocks(w)[k] == v[k] by {
        let r = k / 64;
        let d = k % 64;
        assert(0 <= r < 2);
        let bv = block(v, r);
        assert(block(w, r) =~= ntt_spec(bv, MOD_Q)) by {
            assert forall|t: int| 0 <= t < 64 implies #[trigger] block(w, r)[t] == ntt_spec(bv, MOD_Q)[t] by {
                lemma_fundamental_div_mod_converse(r * 64 + t, 64, r, t);
            }
        }
        assert(is_reduced(bv, MOD_Q));
        lemma_ntt_roundtrip(bv, MOD_Q);
        lemma_fundamental_div_mod(k, 64);
    }
    assert(intt_blocks(w) =~= v);
}

proof fn lemma_congruent_scale(x: int, y: int, c: int, q: int)
    requires
        q > 0,
        x % q == y % q,
    ensures
        (c * x) % q == (c * y) % q,
{
    lemma_mul_mod_noop_right(c, x, q);
    lemma_mul_mod_noop_right(c, y, q);
}

proof fn lemma_homogenized_even(ae: int, be: int, ao: int, bo: int, f: int, beta: int, zeta: int, q: int)
    requires
        q > 0,
        (beta * (f * f)) % q == zeta,
    ensures
        (ae * be + beta * (((ao * f) % q) * ((bo * f) % q))) % q == (ae * be + zeta * (ao * bo)) % q,
{
    lemma_mul_mod_noop(ao * f, bo * f, q);
    assert((ao * f) * (bo * f) == (f * f) * (ao * bo)) by (nonlinear_arith);
    lemma_congruent_scale(((ao * f) % q) * ((bo * f) % q), (f * f) * (ao * bo), beta, q);
    assert(beta * ((f * f) * (ao * bo)) == (beta * (f * f)) * (ao * bo)) by (nonlinear_arith);
    lemma_mul_mod_noop_left(beta * (f * f), ao * bo, q);
    lemma_add_mod_noop(ae * be, beta * (((ao * f) % q) * ((bo * f) % q)), q);
    lemma_add_mod_noop(ae * be, zeta * (ao * bo), q);
}

proof fn lemma_homogenized_odd(ae: int, be: int, ao: int, bo: int, f: int, g: int, q: int)
    requires
        q > 0,
        (f * g) % q == 1,
    ensures
        ((((ao * f) % q) * be + ae * ((bo * f) % q)) % q * g) % q == (ao * be + ae * bo) % q,
{
    let s = ((ao * f) % q) * be + ae * ((bo * f) % q);
    lemma_mul_mod_noop_left(ao * f, be, q);
    lemma_mul_mod_noop_right(ae, bo * f, q);
    lemma_add_mod_noop(((ao * f) % q) * be, ae * ((bo * f) % q), q);
    lemma_add_mod_noop((ao * f) * be, ae * (bo * f), q);
    assert((ao * f) * be + ae * (bo * f) == f * (ao * be + ae * bo)) by (nonlinear_arith);
    lemma_mul_mod_noop_left(s, g, q);
    lemma_mul_mod_noop_left(f * (ao * be + ae * bo), g, q);
    assert((f * (ao * be + ae * bo)) * g == (f * g) * (ao * be + ae * bo)) by (nonlinear_arith);
    lemma_mul_mod_noop_left(f * g, ao * be + ae * bo, q);
    lemma_mul_basics(ao * be + ae * bo);
}

/// Multiplying in the homogenized presentation and returning to the raw slots
/// is multiplying in the raw slots.
pub proof fn lemma_homogenized_multiplication(a: Seq<u64>, b: Seq<u64>)
    requires
        a.len() == DEGREE,
        b.len() == DEGREE,
    ensures
        dehomogenize(ring_product(homogenize(a), homogenize(b), true)) == ring_product(a, b, false),
{
    let q = MOD_Q as int;
    let ha = homogenize(a);
    let hb = homogenize(b);
    let hp = ring_product(ha, hb, true);
    let lhs = dehomogenize(hp);
    let rhs = ring_product(a, b, false);
    assert forall|k: int| 0 <= k < DEGREE implies #[trigger] lhs[k] == rhs[k] by {
        let i = if k < 64 {
            k
        } else {
            k - 64
        };
        let f = normalize_factor(i);
        let g = normalize_inverse(i);
        lemma_normalize_exponent(i);
        lemma_normalize_factor_invertible(i);
        lemma_shift_factor_is_point(i);
        let ae = a[i] as int;
        let ao = a[i + 64] as int;
        let be = b[i] as int;
        let bo = b[i + 64] as int;
        if k < 64 {
            lemma_homogenized_even(ae, be, ao, bo, f, field_shift(), shift_factor(i), q);
        } else {
            lemma_homogenized_odd(ae, be, ao, bo, f, g, q);
            assert(ao * be + ae * bo == ae * bo + ao * be);
        }
    }
    assert(lhs =~= rhs);
}

/// The per-block forward transform undoes the per-block inverse transform.
pub proof fn lemma_blocks_roundtrip_dual(v: Seq<u64>)
    requires
        v.len() == DEGREE,
        is_reduced(v, MOD_Q),
    ensures
        ntt_blocks(intt_blocks(v)) == v,
{
    let w = intt_blocks(v);
    assert forall|k: int| 0 <= k < DEGREE implies #[trigger] ntt_blocks(w)[k] == v[k] by {
        let r = k / 64;
        assert(0 <= r < 2);
        let bv = block(v, r);
        assert(block(w, r) =~= crate::ntt::ntt_inverse_spec(bv, MOD_Q)) by {
            assert forall|t: int| 0 <= t < 64 implies #[trigger] block(w, r)[t]
                == crate::ntt::ntt_inverse_spec(bv, MOD_Q)[t] by {
                lemma_fundamental_div_mod_converse(r * 64 + t, 64, r, t);
            }
        }
        assert(is_reduced(bv, MOD_Q));
        lemma_ntt_roundtrip_dual(bv, MOD_Q);
        lemma_fundamental_div_mod(k, 64);
    }
    assert(ntt_blocks(w) =~= v);
}

} // verus!
