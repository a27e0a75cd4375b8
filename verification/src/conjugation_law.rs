//! Conjugation by the precomputed tables agrees with conjugation through
//! coefficient space.
//!
//! With `f(X) = f_e(X^2) + X f_o(X^2)`, conjugation `X -> X^{-1}` gives
//! `f_e(y^{-1})` and `y^{-1} f_o(y^{-1})` at `X^2 = y`. The inverse of the
//! point `psi^(2 rev(j) + 1)` of slot `j` is the point of the slot `tau(j)`
//! with `rev(tau(j)) = 63 - rev(j)`, so conjugation moves slot `tau(j)` to slot
//! `j`, scaling its odd part by the point of slot `tau(j)`.
use vstd::arithmetic::div_mod::*;
use vstd::arithmetic::mul::*;
use vstd::arithmetic::power::*;
use vstd::prelude::*;

use crate::config::{DEGREE, HALF_DEGREE, MOD_Q};
use crate::conjugation::{
    basis_vector, conjugate_by_tables, conjugate_coefficients, conjugate_reference, even_destination,
    even_destinations, first_nonzero, negate_residue, odd_destination, odd_destinations, odd_factor,
    odd_factors, odd_scaled, scatter,
};
use crate::layout::{interleaved, intt_blocks, lemma_interleaved_residue_major, lemma_layouts_reduced, ntt_blocks, residue_major};
use crate::modular::is_reduced;
use crate::ring_arithmetic::{lemma_shift_factor_is_point, ring_product, shift_factor};
use crate::ntt::{bit_reverse, ntt_exponent, ntt_log2, ntt_point, ntt_root, NTT_ROOT_MOD_Q};
use crate::ntt_laws::{lemma_odd_power_of_minus_one, lemma_root_facts, lemma_sum_add, lemma_sum_scale};
use crate::product_law::{evens, lemma_block_value, lemma_blocks_roundtrip_dual, odds, series};
use crate::roots::{lemma_pow_of_reduced_pow, lemma_pow_periodic};
use crate::ntt_laws::{
    lemma_bit_reverse_bound, lemma_bit_reverse_step, lemma_sum_congruent, lemma_sum_ext,
    lemma_sum_split, sum_to, two_pow,
};

verus! {

/// Reversing `b` bits: the highest bit of `j` becomes the lowest.
pub proof fn lemma_bit_reverse_top(j: nat, b: nat)
    requires
        b >= 1,
        j < two_pow(b),
    ensures
        bit_reverse(j, b) == 2 * bit_reverse(j % two_pow((b - 1) as nat), (b - 1) as nat) + j / two_pow(
            (b - 1) as nat,
        ),
    decreases b,
{
    lemma_bit_reverse_step(j, b);
    if b == 1 {
        assert(two_pow(0) == 1);
        assert(two_pow(1) == 2);
        assert(bit_reverse(0, 0) == 0);
        assert(j / 2 == 0);
        assert(j % 1 == 0);
        assert(j / 1 == j);
        assert((j % 2) * 1 == j % 2);
    } else {
        let h = two_pow((b - 1) as nat);
        let h2 = two_pow((b - 2) as nat);
        assert(h == 2 * h2);
        assert(j / 2 < h) by {
            lemma_fundamental_div_mod(j as int, 2);
        }
        lemma_bit_reverse_top(j / 2, (b - 1) as nat);
        lemma_bit_reverse_step(j % h, (b - 1) as nat);
        lemma_mod_breakdown(j as int, 2, h2 as int);
        lemma_fundamental_div_mod_converse((j % h) as int, 2, ((j / 2) % h2) as int, (j % 2) as int);
        lemma_div_denominator(j as int, 2, h2 as int);
        assert((j % 2) * h == 2 * ((j % 2) * h2)) by (nonlinear_arith)
            requires
                h == 2 * h2,
        ;
        assert((j % h) % 2 == j % 2);
        assert((j % h) / 2 == (j / 2) % h2);
        assert(j / h == (j / 2) / h2);
    }
}

/// Reversing bits twice gives the index back.
pub proof fn lemma_bit_reverse_involution(j: nat, b: nat)
    requires
        j < two_pow(b),
    ensures
        bit_reverse(bit_reverse(j, b), b) == j,
    decreases b,
{
    if b == 0 {
        assert(j == 0);
        assert(bit_reverse(0, 0) == 0);
    } else {
        let h = two_pow((b - 1) as nat);
        lemma_bit_reverse_step(j, b);
        lemma_bit_reverse_bound(j / 2, (b - 1) as nat);
        let inner = bit_reverse(j / 2, (b - 1) as nat);
        let r = (j % 2) * h + inner;
        lemma_bit_reverse_bound(j, b);
        lemma_bit_reverse_top(r, b);
        lemma_fundamental_div_mod_converse(r as int, h as int, (j % 2) as int, inner as int);
        assert(j / 2 < h) by {
            lemma_fundamental_div_mod(j as int, 2);
        }
        lemma_bit_reverse_involution(j / 2, (b - 1) as nat);
        lemma_fundamental_div_mod(j as int, 2);
    }
}

/// The slot whose point is the inverse of the point of slot `j`.
pub open spec fn mirror_slot(j: int) -> int {
    bit_reverse((63 - bit_reverse(j as nat, 6)) as nat, 6) as int
}

/// Mirroring is an involution on the slots, and the exponents of mirrored
/// slots add up to 128.
pub proof fn lemma_mirror_slot(j: int)
    requires
        0 <= j < HALF_DEGREE,
    ensures
        0 <= mirror_slot(j) < HALF_DEGREE,
        mirror_slot(mirror_slot(j)) == j,
        ntt_exponent(HALF_DEGREE as nat, mirror_slot(j) as nat) + ntt_exponent(
            HALF_DEGREE as nat,
            j as nat,
        ) == 128,
{
    reveal_with_fuel(two_pow, 7);
    let r = bit_reverse(j as nat, 6);
    lemma_bit_reverse_bound(j as nat, 6);
    let m = (63 - r) as nat;
    lemma_bit_reverse_bound(m, 6);
    lemma_bit_reverse_involution(m, 6);
    lemma_bit_reverse_involution(j as nat, 6);
    assert(ntt_log2(HALF_DEGREE as nat) == 6);
}

/// Reversing the order of a sum.
pub proof fn lemma_sum_reverse(g: spec_fn(int) -> int, n: int)
    requires
        n >= 0,
    ensures
        sum_to(|t: int| g(n - 1 - t), n) == sum_to(g, n),
    decreases n,
{
    if n > 0 {
        let shifted = |t: int| g(1 + t);
        lemma_sum_reverse(shifted, n - 1);
        let rev = |t: int| g(n - 1 - t);
        let rev_shifted = |t: int| shifted(n - 2 - t);
        assert forall|t: int| 0 <= t < n - 1 implies #[trigger] rev(t) == rev_shifted(t) by {}
        lemma_sum_ext(rev, rev_shifted, n - 1);
        lemma_sum_split(g, 1, n - 1);
        assert(sum_to(g, 1) == g(0)) by {
            assert(sum_to(g, 0) == 0);
        }
        assert(sum_to(rev, n) == sum_to(rev, n - 1) + rev(n - 1));
    }
}

proof fn lemma_neg_congruent(x: int, y: int, q: int)
    requires
        q > 0,
        x % q == y % q,
    ensures
        (-x) % q == (-y) % q,
{
    lemma_sub_mod_noop(0, x, q);
    lemma_sub_mod_noop(0, y, q);
}

/// `-c mod q` as the canonical negation computes it.
pub proof fn lemma_negate_residue_mod(c: u64)
    requires
        c < MOD_Q,
    ensures
        negate_residue(c) as int == (-(c as int)) % (MOD_Q as int),
{
    let q = MOD_Q as int;
    if c == 0 {
        lemma_small_mod(0, q as nat);
    } else {
        lemma_mod_multiples_vanish(1, -(c as int), q);
        lemma_small_mod((q - c) as nat, q as nat);
    }
}

/// The point of the mirrored slot raised to `64 - m` is minus the point of
/// slot `j` raised to `m`.
pub proof fn lemma_mirror_power(j: int, m: int)
    requires
        0 <= j < HALF_DEGREE,
        0 <= m <= 64,
    ensures
        pow(ntt_point(HALF_DEGREE as nat, MOD_Q, mirror_slot(j) as nat), (64 - m) as nat) % (
        MOD_Q as int) == (-pow(ntt_point(HALF_DEGREE as nat, MOD_Q, j as nat), m as nat)) % (
        MOD_Q as int),
{
    let q = MOD_Q as int;
    let n = HALF_DEGREE as nat;
    let psi = ntt_root(MOD_Q);
    lemma_root_facts(n, MOD_Q);
    lemma_mirror_slot(j);
    let e = ntt_exponent(n, j as nat);
    let et = ntt_exponent(n, mirror_slot(j) as nat);
    crate::ntt::lemma_ntt_exponent_bound(n, j as nat);
    let k = (64 - m) as nat;
    lemma_pow_of_reduced_pow(psi, et, k, q);
    lemma_pow_of_reduced_pow(psi, e, m as nat, q);
    let a: nat = et * k;
    let b: nat = 64 * e + e * (m as nat);
    let ei = e as int;
    let mi = m;
    assert(((128 - ei) * (64 - mi)) + 128 * ei == (64 * ei + ei * mi) + 128 * (64 - mi)) by (
    nonlinear_arith);
    assert(a == (128 - ei) * (64 - mi));
    assert(b == 64 * ei + ei * mi);
    assert(a + 128 * e == b + 128 * k);
    lemma_pow_periodic(psi, 128, a, e, q);
    lemma_pow_periodic(psi, 128, b, k, q);
    lemma_mul_is_commutative(128, e as int);
    lemma_mul_is_commutative(128, k as int);
    lemma_pow_adds(psi, 64 * e, e * (m as nat));
    lemma_pow_multiplies(psi, 64, e);
    lemma_odd_power_of_minus_one(pow(psi, 64), e, q);
    let x = pow(psi, e * (m as nat));
    lemma_mul_mod_noop_left(pow(psi, 64 * e), x, q);
    assert((q - 1) * x == -x + q * x) by (nonlinear_arith);
    lemma_mod_multiples_vanish(x, -x, q);
    lemma_mul_is_commutative(q, x);
    lemma_neg_congruent(pow(ntt_point(n, MOD_Q, j as nat), m as nat), x, q);
}

/// A negated coefficient against a point power equals the coefficient against
/// the mirrored point power.
proof fn lemma_mirror_term(c: u64, j: int, m: int)
    requires
        c < MOD_Q,
        0 <= j < HALF_DEGREE,
        0 <= m <= 64,
    ensures
        (negate_residue(c) * pow(ntt_point(HALF_DEGREE as nat, MOD_Q, j as nat), m as nat)) % (
        MOD_Q as int) == (c * pow(
            ntt_point(HALF_DEGREE as nat, MOD_Q, mirror_slot(j) as nat),
            (64 - m) as nat,
        )) % (MOD_Q as int),
{
    let q = MOD_Q as int;
    let x = pow(ntt_point(HALF_DEGREE as nat, MOD_Q, j as nat), m as nat);
    let y = pow(ntt_point(HALF_DEGREE as nat, MOD_Q, mirror_slot(j) as nat), (64 - m) as nat);
    lemma_negate_residue_mod(c);
    lemma_mirror_power(j, m);
    lemma_mul_mod_noop_left(-(c as int), x, q);
    assert((-(c as int)) * x == (c as int) * (-x)) by (nonlinear_arith);
    lemma_mul_mod_noop_right(c as int, -x, q);
    lemma_mul_mod_noop_right(c as int, y, q);
}

/// The even part of the conjugate at the point of slot `j` is the even part at
/// the point of the mirrored slot.
pub proof fn lemma_conjugate_even_series(f: Seq<u64>, j: int)
    requires
        f.len() == DEGREE,
        crate::modular::is_reduced(f, MOD_Q),
        0 <= j < HALF_DEGREE,
    ensures
        series(evens(conjugate_coefficients(f)), ntt_point(HALF_DEGREE as nat, MOD_Q, j as nat)) % (
        MOD_Q as int) == series(
            evens(f),
            ntt_point(HALF_DEGREE as nat, MOD_Q, mirror_slot(j) as nat),
        ) % (MOD_Q as int),
{
    let q = MOD_Q as int;
    let cf = conjugate_coefficients(f);
    let xj = ntt_point(HALF_DEGREE as nat, MOD_Q, j as nat);
    let xt = ntt_point(HALF_DEGREE as nat, MOD_Q, mirror_slot(j) as nat);
    let src = |t: int| evens(cf)(t) * pow(xj, t as nat);
    let dst = |t: int| evens(f)(t) * pow(xt, t as nat);
    lemma_sum_split(src, 1, 63);
    lemma_sum_split(dst, 1, 63);
    let src_tail = |t: int| src(1 + t);
    let dst_tail = |t: int| dst(1 + t);
    let dst_tail_rev = |t: int| dst_tail(63 - 1 - t);
    assert forall|t: int| 0 <= t < 63 implies #[trigger] src_tail(t) % q == dst_tail_rev(t) % q by {
        let m = 1 + t;
        assert(cf[2 * m] == negate_residue(f[128 - 2 * m]));
        assert(128 - 2 * m == 2 * (64 - m));
        lemma_mirror_term(f[128 - 2 * m], j, m);
    }
    lemma_sum_congruent(src_tail, dst_tail_rev, 63, q);
    lemma_sum_reverse(dst_tail, 63);
    assert(sum_to(src, 1) == src(0)) by {
        assert(sum_to(src, 0) == 0);
    }
    assert(sum_to(dst, 1) == dst(0)) by {
        assert(sum_to(dst, 0) == 0);
    }
    lemma_pow0(xj);
    lemma_pow0(xt);
    assert(src(0) == dst(0));
    lemma_add_mod_noop(src(0), sum_to(src_tail, 63), q);
    lemma_add_mod_noop(dst(0), sum_to(dst_tail, 63), q);
}

/// The odd part of the conjugate at the point of slot `j` is the mirrored
/// point times the odd part at the mirrored point.
pub proof fn lemma_conjugate_odd_series(f: Seq<u64>, j: int)
    requires
        f.len() == DEGREE,
        crate::modular::is_reduced(f, MOD_Q),
        0 <= j < HALF_DEGREE,
    ensures
        series(odds(conjugate_coefficients(f)), ntt_point(HALF_DEGREE as nat, MOD_Q, j as nat)) % (
        MOD_Q as int) == (ntt_point(HALF_DEGREE as nat, MOD_Q, mirror_slot(j) as nat) * series(
            odds(f),
            ntt_point(HALF_DEGREE as nat, MOD_Q, mirror_slot(j) as nat),
        )) % (MOD_Q as int),
{
    let q = MOD_Q as int;
    let cf = conjugate_coefficients(f);
    let xj = ntt_point(HALF_DEGREE as nat, MOD_Q, j as nat);
    let xt = ntt_point(HALF_DEGREE as nat, MOD_Q, mirror_slot(j) as nat);
    let src = |t: int| odds(cf)(t) * pow(xj, t as nat);
    let plain = |t: int| odds(f)(t) * pow(xt, t as nat);
    let lifted = |t: int| xt * plain(t);
    lemma_sum_scale(plain, xt, 64);
    let lifted_rev = |t: int| lifted(64 - 1 - t);
    assert forall|m: int| 0 <= m < 64 implies #[trigger] src(m) % q == lifted_rev(m) % q by {
        assert(cf[2 * m + 1] == negate_residue(f[127 - 2 * m]));
        assert(127 - 2 * m == 2 * (63 - m) + 1);
        lemma_mirror_term(f[127 - 2 * m], j, m);
        let k = (63 - m) as nat;
        lemma_pow_adds(xt, 1, k);
        lemma_pow1(xt);
        assert((1 + k) as nat == (64 - m) as nat);
        let c = f[2 * (63 - m) + 1] as int;
        assert(xt * (c * pow(xt, k)) == c * (xt * pow(xt, k))) by (nonlinear_arith);
    }
    lemma_sum_congruent(src, lifted_rev, 64, q);
    lemma_sum_reverse(lifted, 64);
}

/// Conjugation through coefficient space moves slot `mirror(j)` to slot `j`,
/// scaling its odd part by the point of slot `mirror(j)`.
pub proof fn lemma_conjugate_reference_slots(v: Seq<u64>, j: int)
    requires
        v.len() == DEGREE,
        is_reduced(v, MOD_Q),
        0 <= j < HALF_DEGREE,
    ensures
        conjugate_reference(v)[j] == v[mirror_slot(j)],
        conjugate_reference(v)[HALF_DEGREE + j] as int == (ntt_point(
            HALF_DEGREE as nat,
            MOD_Q,
            mirror_slot(j) as nat,
        ) * v[HALF_DEGREE + mirror_slot(j)]) % (MOD_Q as int),
{
    let q = MOD_Q as int;
    let t = mirror_slot(j);
    lemma_mirror_slot(j);
    let f = interleaved(intt_blocks(v));
    lemma_layouts_reduced(v);
    lemma_layouts_reduced(intt_blocks(v));
    lemma_interleaved_residue_major(intt_blocks(v));
    lemma_blocks_roundtrip_dual(v);
    let cf = conjugate_coefficients(f);
    lemma_block_value(f, t, 0);
    lemma_block_value(f, t, 1);
    lemma_block_value(cf, j, 0);
    lemma_block_value(cf, j, 1);
    lemma_conjugate_even_series(f, j);
    lemma_conjugate_odd_series(f, j);
    let xt = ntt_point(HALF_DEGREE as nat, MOD_Q, t as nat);
    lemma_mul_mod_noop_right(xt, series(odds(f), xt), q);
    lemma_mod_bound(series(evens(f), xt), q);
}

proof fn lemma_first_nonzero_is(s: Seq<u64>, base: int, target: int, j: int)
    requires
        0 <= j <= target < HALF_DEGREE,
        forall|t: int| 0 <= t < target ==> #[trigger] s[base + t] == 0,
        s[base + target] != 0,
    ensures
        first_nonzero(s, base, j) == target,
    decreases target - j,
{
    if j < target {
        lemma_first_nonzero_is(s, base, target, j + 1);
    }
}

/// Slot points are nonzero modulo `q`.
pub proof fn lemma_point_nonzero(j: int)
    requires
        0 <= j < HALF_DEGREE,
    ensures
        ntt_point(HALF_DEGREE as nat, MOD_Q, j as nat) != 0,
{
    lemma_mirror_power(j, 64);
    lemma_pow0(ntt_point(HALF_DEGREE as nat, MOD_Q, mirror_slot(j) as nat));
    lemma_small_mod(1, MOD_Q as nat);
    if ntt_point(HALF_DEGREE as nat, MOD_Q, j as nat) == 0 {
        lemma0_pow(64);
        lemma_small_mod(0, MOD_Q as nat);
    }
}

/// The tables read off the basis vectors: slot `i` goes to `mirror(i)`, and
/// the odd factor of slot `i` is its point.
pub proof fn lemma_tables(i: int)
    requires
        0 <= i < HALF_DEGREE,
    ensures
        even_destination(i) == mirror_slot(i),
        odd_destination(i) == mirror_slot(i),
        odd_factor(i) as int == ntt_point(HALF_DEGREE as nat, MOD_Q, i as nat),
{
    let q = MOD_Q as int;
    let t = mirror_slot(i);
    lemma_mirror_slot(i);
    let e = basis_vector(i);
    let o = basis_vector(HALF_DEGREE + i);
    assert(is_reduced(e, MOD_Q));
    assert(is_reduced(o, MOD_Q));
    let ce = conjugate_reference(e);
    let co = conjugate_reference(o);
    assert forall|j: int| 0 <= j < HALF_DEGREE implies #[trigger] ce[j] == (if j == t {
        1u64
    } else {
        0u64
    }) by {
        lemma_conjugate_reference_slots(e, j);
        lemma_mirror_slot(j);
    }
    assert forall|j: int| 0 <= j < HALF_DEGREE implies #[trigger] co[HALF_DEGREE + j] as int == (if j
        == t {
        ntt_point(HALF_DEGREE as nat, MOD_Q, i as nat)
    } else {
        0
    }) by {
        lemma_conjugate_reference_slots(o, j);
        lemma_mirror_slot(j);
        let x = ntt_point(HALF_DEGREE as nat, MOD_Q, mirror_slot(j) as nat);
        lemma_mod_bound(pow(ntt_root(MOD_Q), ntt_exponent(HALF_DEGREE as nat, mirror_slot(j) as nat)), q);
        lemma_mul_basics(x);
        lemma_small_mod(x as nat, MOD_Q as nat);
        lemma_small_mod(0, MOD_Q as nat);
    }
    lemma_point_nonzero(i);
    assert forall|u: int| 0 <= u < t implies #[trigger] ce[0 + u] == 0 by {}
    lemma_first_nonzero_is(ce, 0, t, 0);
    assert forall|u: int| 0 <= u < t implies #[trigger] co[HALF_DEGREE + u] == 0 by {}
    lemma_first_nonzero_is(co, HALF_DEGREE as int, t, 0);
}

proof fn lemma_scatter_injective(base: Seq<u64>, values: Seq<u64>, perm: Seq<usize>, n: int)
    requires
        0 <= n <= perm.len(),
        forall|i: int| 0 <= i < n ==> #[trigger] perm[i] < base.len(),
        forall|i1: int, i2: int| 0 <= i1 < i2 < n ==> #[trigger] perm[i1] != #[trigger] perm[i2],
    ensures
        scatter(base, values, perm, n).len() == base.len(),
        forall|i: int| 0 <= i < n ==> #[trigger] scatter(base, values, perm, n)[perm[i] as int] == values[i],
    decreases n,
{
    if n > 0 {
        lemma_scatter_injective(base, values, perm, n - 1);
    }
}

/// Conjugating canonical values by the tables is conjugating them through
/// coefficient space.
pub proof fn lemma_table_conjugation_is_reference(v: Seq<u64>, odd_base: Seq<u64>)
    requires
        v.len() == DEGREE,
        is_reduced(v, MOD_Q),
        odd_base.len() == HALF_DEGREE,
    ensures
        conjugate_by_tables(v, odd_base) == conjugate_reference(v),
{
    let q = MOD_Q as int;
    let ev = even_destinations();
    let od = odd_destinations();
    assert forall|i: int| 0 <= i < HALF_DEGREE implies #[trigger] ev[i] as int == mirror_slot(i) by {
        lemma_tables(i);
        lemma_mirror_slot(i);
    }
    assert forall|i: int| 0 <= i < HALF_DEGREE implies #[trigger] od[i] as int == mirror_slot(i) by {
        lemma_tables(i);
        lemma_mirror_slot(i);
    }
    assert forall|i: int| 0 <= i < HALF_DEGREE implies #[trigger] odd_factors()[i] as int == ntt_point(
        HALF_DEGREE as nat,
        MOD_Q,
        i as nat,
    ) by {
        lemma_tables(i);
    }
    assert forall|i: int| 0 <= i < HALF_DEGREE implies #[trigger] ev[i] < HALF_DEGREE by {
        lemma_mirror_slot(i);
        assert(ev[i] as int == mirror_slot(i));
    }
    assert forall|i: int| 0 <= i < HALF_DEGREE implies #[trigger] od[i] < HALF_DEGREE by {
        lemma_mirror_slot(i);
        assert(od[i] as int == mirror_slot(i));
    }
    assert forall|i1: int, i2: int| 0 <= i1 < i2 < HALF_DEGREE implies #[trigger] ev[i1] != #[trigger] ev[i2] by {
        lemma_mirror_slot(i1);
        lemma_mirror_slot(i2);
        assert(ev[i1] as int == mirror_slot(i1));
        assert(ev[i2] as int == mirror_slot(i2));
    }
    assert forall|i1: int, i2: int| 0 <= i1 < i2 < HALF_DEGREE implies #[trigger] od[i1] != #[trigger] od[i2] by {
        lemma_mirror_slot(i1);
        lemma_mirror_slot(i2);
        assert(od[i1] as int == mirror_slot(i1));
        assert(od[i2] as int == mirror_slot(i2));
    }
    let zeros = Seq::new(HALF_DEGREE as nat, |i: int| 0u64);
    let evens_in = v.subrange(0, HALF_DEGREE as int);
    let scaled = odd_scaled(v, odd_factors());
    lemma_scatter_injective(zeros, evens_in, ev, HALF_DEGREE as int);
    lemma_scatter_injective(odd_base, scaled, od, HALF_DEGREE as int);
    let lhs = conjugate_by_tables(v, odd_base);
    let rhs = conjugate_reference(v);
    assert forall|k: int| 0 <= k < DEGREE implies #[trigger] lhs[k] == rhs[k] by {
        let j = if k < HALF_DEGREE {
            k
        } else {
            k - HALF_DEGREE
        };
        let t = mirror_slot(j);
        lemma_mirror_slot(j);
        lemma_conjugate_reference_slots(v, j);
        assert(ev[t] as int == j);
        assert(od[t] as int == j);
        if k >= HALF_DEGREE {
            let x = ntt_point(HALF_DEGREE as nat, MOD_Q, t as nat);
            assert(scaled[t] as int == (v[HALF_DEGREE + t] * x) % q);
            lemma_mul_is_commutative(v[HALF_DEGREE + t] as int, x);
        }
    }
    assert(lhs =~= rhs);
}

/// The points of mirrored slots are inverse to each other.
proof fn lemma_mirror_points_inverse(j: int)
    requires
        0 <= j < HALF_DEGREE,
    ensures
        (ntt_point(HALF_DEGREE as nat, MOD_Q, j as nat) * ntt_point(
            HALF_DEGREE as nat,
            MOD_Q,
            mirror_slot(j) as nat,
        )) % (MOD_Q as int) == 1,
{
    let q = MOD_Q as int;
    let n = HALF_DEGREE as nat;
    let psi = ntt_root(MOD_Q);
    lemma_root_facts(n, MOD_Q);
    lemma_mirror_slot(j);
    let e = ntt_exponent(n, j as nat);
    let et = ntt_exponent(n, mirror_slot(j) as nat);
    lemma_mul_mod_noop(pow(psi, e), pow(psi, et), q);
    lemma_pow_adds(psi, e, et);
}

proof fn lemma_conjugate_slot_products(
    a0: int,
    a1: int,
    b0: int,
    b1: int,
    x: int,
    y: int,
    q: int,
)
    requires
        q > 0,
        (x * y) % q == 1,
    ensures
        ((a0 * b0 + x * (((y * a1) % q) * ((y * b1) % q))) % q) == ((a0 * b0 + y * (a1 * b1)) % q),
        (((y * a1) % q) * b0 + a0 * ((y * b1) % q)) % q == (y * ((a1 * b0 + a0 * b1) % q)) % q,
{
    lemma_mul_mod_noop(y * a1, y * b1, q);
    assert(x * ((y * a1) * (y * b1)) == (x * y) * (y * (a1 * b1))) by (nonlinear_arith);
    lemma_mul_mod_noop_right(x, ((y * a1) % q) * ((y * b1) % q), q);
    lemma_mul_mod_noop_right(x, (y * a1) * (y * b1), q);
    lemma_mul_mod_noop_left(x * y, y * (a1 * b1), q);
    lemma_mul_basics(y * (a1 * b1));
    lemma_add_mod_noop(a0 * b0, x * (((y * a1) % q) * ((y * b1) % q)), q);
    lemma_add_mod_noop(a0 * b0, y * (a1 * b1), q);
    lemma_mul_mod_noop_left(y * a1, b0, q);
    lemma_mul_mod_noop_right(a0, y * b1, q);
    lemma_add_mod_noop(((y * a1) % q) * b0, a0 * ((y * b1) % q), q);
    lemma_add_mod_noop((y * a1) * b0, a0 * (y * b1), q);
    assert((y * a1) * b0 + a0 * (y * b1) == y * (a1 * b0 + a0 * b1)) by (nonlinear_arith);
    lemma_mul_mod_noop_right(y, a1 * b0 + a0 * b1, q);
}

/// Conjugation commutes with multiplication in the incomplete-NTT
/// representation.
pub proof fn lemma_conjugation_multiplicative(a: Seq<u64>, b: Seq<u64>)
    requires
        a.len() == DEGREE,
        b.len() == DEGREE,
        is_reduced(a, MOD_Q),
        is_reduced(b, MOD_Q),
    ensures
        conjugate_reference(ring_product(a, b, false)) == ring_product(
            conjugate_reference(a),
            conjugate_reference(b),
            false,
        ),
{
    let q = MOD_Q as int;
    let p = ring_product(a, b, false);
    assert(is_reduced(p, MOD_Q)) by {
        assert forall|k: int| 0 <= k < p.len() implies #[trigger] p[k] < MOD_Q by {
            if k < 64 {
                lemma_mod_bound(a[k] * b[k] + shift_factor(k) * (a[k + 64] * b[k + 64]), q);
            } else {
                lemma_mod_bound(a[k] * b[k - 64] + a[k - 64] * b[k], q);
            }
        }
    }
    let ca = conjugate_reference(a);
    let cb = conjugate_reference(b);
    let lhs = conjugate_reference(p);
    let rhs = ring_product(ca, cb, false);
    assert forall|k: int| 0 <= k < DEGREE implies #[trigger] lhs[k] == rhs[k] by {
        let j = if k < 64 {
            k
        } else {
            k - 64
        };
        let t = mirror_slot(j);
        lemma_mirror_slot(j);
        lemma_conjugate_reference_slots(a, j);
        lemma_conjugate_reference_slots(b, j);
        lemma_conjugate_reference_slots(p, j);
        lemma_shift_factor_is_point(j);
        lemma_shift_factor_is_point(t);
        lemma_mirror_points_inverse(j);
        let x = ntt_point(HALF_DEGREE as nat, MOD_Q, j as nat);
        let y = ntt_point(HALF_DEGREE as nat, MOD_Q, t as nat);
        lemma_conjugate_slot_products(
            a[t] as int,
            a[64 + t] as int,
            b[t] as int,
            b[64 + t] as int,
            x,
            y,
            q,
        );
        if k >= 64 {
            assert(p[64 + t] as int == (a[64 + t] * b[t] + a[t] * b[64 + t]) % q);
        }
    }
    assert(lhs =~= rhs);
}


} // verus!
