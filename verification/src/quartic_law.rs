//! Multiplication through the quartic slot fields is multiplication in
//! `Z_q[X]/(X^128 + 1)` modulo the quartic prime.
//!
//! Write `a(X) = sum_r X^r a_r(X^4)`. Slot `s` evaluates the four parts at a
//! root `z` of `Y^32 + 1`, which makes it an element of `Z_q[X]/(X^4 - z)`;
//! the product's parts are the product there. With `z = beta^e` for odd `e`,
//! `X -> T^e` carries `Z_q[X]/(X^4 - z)` onto `Z_q[T]/(T^4 - beta)` and
//! respects products.
use vstd::arithmetic::div_mod::*;
use vstd::arithmetic::mul::*;
use vstd::arithmetic::power::*;
use vstd::prelude::*;

use crate::extension::{conv_sum, extension_product};
use crate::negacyclic::{negacyclic_partial, negacyclic_product, negacyclic_term};
use crate::ntt::{lemma_ntt_exponent_bound, ntt_exponent, ntt_point, ntt_root, poly_eval, to_ints};
use crate::roots::lemma_pow_of_reduced_pow;
use crate::modular::is_reduced;
use crate::quartic_ring::{
    coefficients_from_slots, lemma_coefficients_from_slots_ext, lemma_quartic_roundtrip,
    QuarticTransform, RING_DEGREE, SLOT_COUNT, homogeneous_slot, lemma_homogeneous_slot_at, lemma_homogeneous_slot_len, quartic_block,
    quartic_transformed, slot_mul, QUARTIC_Q,
};
use crate::ntt_laws::{
    lemma_odd_power_of_minus_one, lemma_poly_eval_as_sum, lemma_root_facts, lemma_sum_add, lemma_sum_congruent, lemma_sum_ext, lemma_sum_scale, lemma_sum_split,
    lemma_sum_swap, sum_to,
};
use crate::product_law::{lemma_negacyclic_twist, lemma_partial_as_sum, raw_product};

verus! {

/// `+-h(t) x^m` with `t = (m - s) mod n`, negative when the index wrapped.
pub open spec fn wrapped_term(h: spec_fn(int) -> int, x: int, s: int, n: int, m: int) -> int {
    if m >= s {
        h(m - s) * pow(x, m as nat)
    } else {
        -(h(m - s + n) * pow(x, m as nat))
    }
}

/// `sum_{t < n} h(t) x^t`.
pub open spec fn power_series(h: spec_fn(int) -> int, x: int, n: int) -> int {
    sum_to(|t: int| h(t) * pow(x, t as nat), n)
}

/// When `x^n = -1`, the wrapped sum is the plain series shifted by `x^s`.
pub proof fn lemma_wrapped_sum(h: spec_fn(int) -> int, x: int, s: int, n: int, q: int)
    requires
        q > 1,
        n >= 1,
        0 <= s <= n,
        pow(x, n as nat) % q == q - 1,
    ensures
        sum_to(|m: int| wrapped_term(h, x, s, n, m), n) % q == (pow(x, s as nat) * power_series(
            h,
            x,
            n,
        )) % q,
{
    let f = |m: int| wrapped_term(h, x, s, n, m);
    let g = |t: int| h(t) * pow(x, (s + t) as nat);
    lemma_sum_split(f, s, n - s);
    lemma_sum_split(g, n - s, s);
    let wrapped = |u: int| g(n - s + u);
    let tail = |u: int| f(s + u);
    assert forall|u: int| 0 <= u < n - s implies #[trigger] tail(u) == g(u) by {}
    lemma_sum_ext(tail, g, n - s);
    assert forall|m: int| 0 <= m < s implies #[trigger] f(m) % q == wrapped(m) % q by {
        let y = pow(x, m as nat);
        let v = h(m - s + n);
        lemma_pow_adds(x, m as nat, n as nat);
        assert((m as nat + n as nat) as nat == (s + (n - s + m)) as nat);
        lemma_mul_mod_noop_right(y, pow(x, n as nat), q);
        assert((y * (q - 1)) % q == (-y) % q) by {
            assert(y * (q - 1) == -y + q * y) by (nonlinear_arith);
            lemma_mod_multiples_vanish(y, -y, q);
            lemma_mul_is_commutative(q, y);
        }
        lemma_mul_mod_noop_right(v, y * pow(x, n as nat), q);
        lemma_mul_mod_noop_right(v, -y, q);
        assert(v * (-y) == -(v * y)) by (nonlinear_arith);
        assert(wrapped(m) == v * (y * pow(x, n as nat)));
    }
    lemma_sum_congruent(f, wrapped, s, q);
    lemma_add_mod_noop(sum_to(f, s), sum_to(tail, n - s), q);
    lemma_add_mod_noop(sum_to(wrapped, s), sum_to(g, n - s), q);
    let plain = |t: int| h(t) * pow(x, t as nat);
    let scaled = |t: int| pow(x, s as nat) * plain(t);
    assert forall|t: int| 0 <= t < n implies #[trigger] g(t) == scaled(t) by {
        lemma_pow_adds(x, s as nat, t as nat);
        assert(h(t) * (pow(x, s as nat) * pow(x, t as nat)) == pow(x, s as nat) * (h(t) * pow(
            x,
            t as nat,
        ))) by (nonlinear_arith);
    }
    lemma_sum_ext(g, scaled, n);
    lemma_sum_scale(plain, pow(x, s as nat), n);
}

/// Splitting a sum into the four residue classes of its index.
pub proof fn lemma_sum_by_four(f: spec_fn(int) -> int, m: int)
    requires
        m >= 0,
    ensures
        sum_to(f, 4 * m) == sum_to(|k: int| f(4 * k) + f(4 * k + 1) + f(4 * k + 2) + f(4 * k + 3), m),
    decreases m,
{
    if m > 0 {
        lemma_sum_by_four(f, m - 1);
        assert(sum_to(f, 4 * m - 3) == sum_to(f, 4 * m - 4) + f(4 * m - 4));
        assert(sum_to(f, 4 * m - 2) == sum_to(f, 4 * m - 3) + f(4 * m - 3));
        assert(sum_to(f, 4 * m - 1) == sum_to(f, 4 * m - 2) + f(4 * m - 2));
        assert(sum_to(f, 4 * m) == sum_to(f, 4 * m - 1) + f(4 * m - 1));
    }
}

/// Coefficients `c_{4t + r}` of residue class `r`.
pub open spec fn quarter(c: Seq<u64>, r: int) -> spec_fn(int) -> int {
    |t: int| c[4 * t + r] as int
}

/// Whether `X^{r1}` times the partner class of output `p` wraps past `X^4`.
pub open spec fn borrow(r1: int, p: int) -> int {
    if r1 > p {
        1
    } else {
        0
    }
}

/// The residue class that meets class `r1` in output class `p`.
pub open spec fn partner(r1: int, p: int) -> int {
    p - r1 + 4 * borrow(r1, p)
}

/// `z^m` times the contribution of `a_i` to coefficient `4m + p` of the product.
pub open spec fn quartic_term(a: Seq<u64>, b: Seq<u64>, z: int, p: int, m: int, i: int) -> int {
    pow(z, m as nat) * negacyclic_term(a, b, 4 * m + p, i)
}

/// Contribution of class `r1` of `a` to output class `p`, over all `m`, from
/// `a_{4k + r1}`.
pub open spec fn quartic_cell(a: Seq<u64>, b: Seq<u64>, z: int, p: int, k: int, r1: int) -> int {
    sum_to(|m: int| quartic_term(a, b, z, p, m, 4 * k + r1), 32)
}

proof fn lemma_quartic_cell(a: Seq<u64>, b: Seq<u64>, z: int, q: int, p: int, k: int, r1: int)
    requires
        q > 1,
        a.len() == 128,
        b.len() == 128,
        pow(z, 32) % q == q - 1,
        0 <= p < 4,
        0 <= r1 < 4,
        0 <= k < 32,
    ensures
        quartic_cell(a, b, z, p, k, r1) % q == (a[4 * k + r1] * (pow(z, (k + borrow(r1, p)) as nat)
            * power_series(quarter(b, partner(r1, p)), z, 32))) % q,
{
    let s = k + borrow(r1, p);
    let r2 = partner(r1, p);
    let h = quarter(b, r2);
    let av = a[4 * k + r1] as int;
    let col = |m: int| quartic_term(a, b, z, p, m, 4 * k + r1);
    let tw = |m: int| wrapped_term(h, z, s, 32, m);
    let scaled = |m: int| av * tw(m);
    assert forall|m: int| 0 <= m < 32 implies #[trigger] col(m) == scaled(m) by {
        let kk = 4 * m + p;
        let i = 4 * k + r1;
        assert((i <= kk) == (m >= s));
        if m >= s {
            assert(kk - i == 4 * (m - s) + r2);
        } else {
            assert(kk + 128 - i == 4 * (m - s + 32) + r2);
        }
        lemma_negacyclic_twist(
            av,
            b[4 * (m - s) + r2] as int,
            b[4 * (m - s + 32) + r2] as int,
            z,
            m,
            s,
            negacyclic_term(a, b, kk, i),
        );
    }
    lemma_sum_ext(col, scaled, 32);
    lemma_sum_scale(tw, av, 32);
    lemma_wrapped_sum(h, z, s, 32, q);
    lemma_mul_mod_noop_right(av, sum_to(tw, 32), q);
    lemma_mul_mod_noop_right(av, pow(z, s as nat) * power_series(h, z, 32), q);
}

/// Output class `p` of the product, evaluated at `z`, as a sum of cells.
proof fn lemma_quartic_part_as_cells(a: Seq<u64>, b: Seq<u64>, z: int, p: int)
    ensures
        sum_to(|m: int| raw_product(a, b, 4 * m + p) * pow(z, m as nat), 32) == sum_to(
            |k: int|
                quartic_cell(a, b, z, p, k, 0) + quartic_cell(a, b, z, p, k, 1) + quartic_cell(
                    a,
                    b,
                    z,
                    p,
                    k,
                    2,
                ) + quartic_cell(a, b, z, p, k, 3),
            32,
        ),
{
    let cell = |m: int, k: int|
        quartic_term(a, b, z, p, m, 4 * k) + quartic_term(a, b, z, p, m, 4 * k + 1) + quartic_term(
            a,
            b,
            z,
            p,
            m,
            4 * k + 2,
        ) + quartic_term(a, b, z, p, m, 4 * k + 3);
    let row = |m: int| sum_to(|k: int| cell(m, k), 32);
    let lhs = |m: int| raw_product(a, b, 4 * m + p) * pow(z, m as nat);
    assert forall|m: int| 0 <= m < 32 implies #[trigger] lhs(m) == row(m) by {
        let y = pow(z, m as nat);
        let term = |i: int| negacyclic_term(a, b, 4 * m + p, i);
        lemma_partial_as_sum(a, b, 4 * m + p, 128);
        lemma_sum_by_four(term, 32);
        let grouped = |k: int| term(4 * k) + term(4 * k + 1) + term(4 * k + 2) + term(4 * k + 3);
        lemma_sum_scale(grouped, y, 32);
        let scaled = |k: int| y * grouped(k);
        assert forall|k: int| 0 <= k < 32 implies #[trigger] scaled(k) == cell(m, k) by {
            assert(y * (term(4 * k) + term(4 * k + 1) + term(4 * k + 2) + term(4 * k + 3)) == y * term(
                4 * k,
            ) + y * term(4 * k + 1) + y * term(4 * k + 2) + y * term(4 * k + 3)) by (nonlinear_arith);
        }
        lemma_sum_ext(scaled, |k: int| cell(m, k), 32);
        lemma_mul_is_commutative(y, sum_to(term, 128));
    }
    lemma_sum_ext(lhs, row, 32);
    lemma_sum_swap(cell, 32, 32);
    let colsum = |k: int| sum_to(|m: int| cell(m, k), 32);
    let cells = |k: int|
        quartic_cell(a, b, z, p, k, 0) + quartic_cell(a, b, z, p, k, 1) + quartic_cell(a, b, z, p, k, 2)
            + quartic_cell(a, b, z, p, k, 3);
    assert forall|k: int| 0 <= k < 32 implies #[trigger] colsum(k) == cells(k) by {
        let c0 = |m: int| quartic_term(a, b, z, p, m, 4 * k);
        let c1 = |m: int| quartic_term(a, b, z, p, m, 4 * k + 1);
        let c2 = |m: int| quartic_term(a, b, z, p, m, 4 * k + 2);
        let c3 = |m: int| quartic_term(a, b, z, p, m, 4 * k + 3);
        let c01 = |m: int| c0(m) + c1(m);
        let c012 = |m: int| c01(m) + c2(m);
        let c0123 = |m: int| c012(m) + c3(m);
        lemma_sum_add(c0, c1, 32);
        lemma_sum_add(c01, c2, 32);
        lemma_sum_add(c012, c3, 32);
        assert forall|m: int| 0 <= m < 32 implies #[trigger] cell(m, k) == c0123(m) by {}
        lemma_sum_ext(|m: int| cell(m, k), c0123, 32);
        assert(quartic_cell(a, b, z, p, k, 0) == sum_to(c0, 32));
        assert(quartic_cell(a, b, z, p, k, 1) == sum_to(c1, 32));
        assert(quartic_cell(a, b, z, p, k, 2) == sum_to(c2, 32));
        assert(quartic_cell(a, b, z, p, k, 3) == sum_to(c3, 32));
    }
    lemma_sum_ext(colsum, cells, 32);
}

proof fn lemma_class_sum(a: Seq<u64>, z: int, r1: int, bw: int, bv: int)
    requires
        bw >= 0,
    ensures
        sum_to(|k: int| a[4 * k + r1] * (pow(z, (k + bw) as nat) * bv), 32) == (pow(z, bw as nat) * bv)
            * power_series(quarter(a, r1), z, 32),
{
    let c = pow(z, bw as nat) * bv;
    let t = |k: int| a[4 * k + r1] * (pow(z, (k + bw) as nat) * bv);
    let plain = |k: int| quarter(a, r1)(k) * pow(z, k as nat);
    let scaled = |k: int| c * plain(k);
    assert forall|k: int| 0 <= k < 32 implies #[trigger] t(k) == scaled(k) by {
        lemma_pow_adds(z, bw as nat, k as nat);
        assert((bw as nat + k as nat) as nat == (k + bw) as nat);
        let av = a[4 * k + r1] as int;
        assert(av * ((pow(z, bw as nat) * pow(z, k as nat)) * bv) == (pow(z, bw as nat) * bv) * (av
            * pow(z, k as nat))) by (nonlinear_arith);
    }
    lemma_sum_ext(t, scaled, 32);
    lemma_sum_scale(plain, c, 32);
}

/// `sum_{r1 < 4} z^{borrow} A_{r1} B_{partner}`: output class `p` of the
/// product in `Z_q[X]/(X^4 - z)` of the evaluated parts.
pub open spec fn quartic_target(a: Seq<u64>, b: Seq<u64>, z: int, p: int) -> int {
    pow(z, borrow(0, p) as nat) * (power_series(quarter(a, 0), z, 32) * power_series(
        quarter(b, partner(0, p)),
        z,
        32,
    )) + pow(z, borrow(1, p) as nat) * (power_series(quarter(a, 1), z, 32) * power_series(
        quarter(b, partner(1, p)),
        z,
        32,
    )) + pow(z, borrow(2, p) as nat) * (power_series(quarter(a, 2), z, 32) * power_series(
        quarter(b, partner(2, p)),
        z,
        32,
    )) + pow(z, borrow(3, p) as nat) * (power_series(quarter(a, 3), z, 32) * power_series(
        quarter(b, partner(3, p)),
        z,
        32,
    ))
}

/// Output class `p` of the negacyclic product, evaluated at a root `z` of
/// `Y^32 + 1`.
pub proof fn lemma_quartic_part(a: Seq<u64>, b: Seq<u64>, z: int, q: int, p: int)
    requires
        q > 1,
        a.len() == 128,
        b.len() == 128,
        pow(z, 32) % q == q - 1,
        0 <= p < 4,
    ensures
        sum_to(|m: int| raw_product(a, b, 4 * m + p) * pow(z, m as nat), 32) % q == quartic_target(
            a,
            b,
            z,
            p,
        ) % q,
{
    lemma_quartic_part_as_cells(a, b, z, p);
    let cells = |k: int|
        quartic_cell(a, b, z, p, k, 0) + quartic_cell(a, b, z, p, k, 1) + quartic_cell(a, b, z, p, k, 2)
            + quartic_cell(a, b, z, p, k, 3);
    let t0 = |k: int| a[4 * k + 0] * (pow(z, (k + borrow(0, p)) as nat) * power_series(quarter(b, partner(0, p)), z, 32));
    let t1 = |k: int| a[4 * k + 1] * (pow(z, (k + borrow(1, p)) as nat) * power_series(quarter(b, partner(1, p)), z, 32));
    let t2 = |k: int| a[4 * k + 2] * (pow(z, (k + borrow(2, p)) as nat) * power_series(quarter(b, partner(2, p)), z, 32));
    let t3 = |k: int| a[4 * k + 3] * (pow(z, (k + borrow(3, p)) as nat) * power_series(quarter(b, partner(3, p)), z, 32));
    let t01 = |k: int| t0(k) + t1(k);
    let t012 = |k: int| t01(k) + t2(k);
    let t0123 = |k: int| t012(k) + t3(k);
    assert forall|k: int| 0 <= k < 32 implies #[trigger] cells(k) % q == t0123(k) % q by {
        lemma_quartic_cell(a, b, z, q, p, k, 0);
        lemma_quartic_cell(a, b, z, q, p, k, 1);
        lemma_quartic_cell(a, b, z, q, p, k, 2);
        lemma_quartic_cell(a, b, z, q, p, k, 3);
        let x0 = quartic_cell(a, b, z, p, k, 0);
        let x1 = quartic_cell(a, b, z, p, k, 1);
        let x2 = quartic_cell(a, b, z, p, k, 2);
        let x3 = quartic_cell(a, b, z, p, k, 3);
        assert(4 * k + 0 == 4 * k);
        lemma_add_mod_noop(x0, x1, q);
        lemma_add_mod_noop(t0(k), t1(k), q);
        lemma_add_mod_noop(x0 + x1, x2, q);
        lemma_add_mod_noop(t0(k) + t1(k), t2(k), q);
        lemma_add_mod_noop(x0 + x1 + x2, x3, q);
        lemma_add_mod_noop(t0(k) + t1(k) + t2(k), t3(k), q);
    }
    lemma_sum_congruent(cells, t0123, 32, q);
    lemma_sum_add(t0, t1, 32);
    lemma_sum_add(t01, t2, 32);
    lemma_sum_add(t012, t3, 32);
    lemma_class_sum(a, z, 0, borrow(0, p), power_series(quarter(b, partner(0, p)), z, 32));
    lemma_class_sum(a, z, 1, borrow(1, p), power_series(quarter(b, partner(1, p)), z, 32));
    lemma_class_sum(a, z, 2, borrow(2, p), power_series(quarter(b, partner(2, p)), z, 32));
    lemma_class_sum(a, z, 3, borrow(3, p), power_series(quarter(b, partner(3, p)), z, 32));
    let ga = |r: int| power_series(quarter(a, r), z, 32);
    let gb = |r: int| power_series(quarter(b, partner(r, p)), z, 32);
    assert forall|r: int| 0 <= r < 4 implies #[trigger] (pow(z, borrow(r, p) as nat) * gb(r)) * ga(r)
        == pow(z, borrow(r, p) as nat) * (ga(r) * gb(r)) by {
        assert((pow(z, borrow(r, p) as nat) * gb(r)) * ga(r) == pow(z, borrow(r, p) as nat) * (ga(r)
            * gb(r))) by (nonlinear_arith);
    }
    assert(sum_to(t0, 32) == pow(z, borrow(0, p) as nat) * (ga(0) * gb(0)));
    assert(sum_to(t1, 32) == pow(z, borrow(1, p) as nat) * (ga(1) * gb(1)));
    assert(sum_to(t2, 32) == pow(z, borrow(2, p) as nat) * (ga(2) * gb(2)));
    assert(sum_to(t3, 32) == pow(z, borrow(3, p) as nat) * (ga(3) * gb(3)));
    assert(sum_to(t0123, 32) == quartic_target(a, b, z, p));
    assert(sum_to(cells, 32) == sum_to(
        |k: int|
            quartic_cell(a, b, z, p, k, 0) + quartic_cell(a, b, z, p, k, 1) + quartic_cell(
                a,
                b,
                z,
                p,
                k,
                2,
            ) + quartic_cell(a, b, z, p, k, 3),
        32,
    ));
}

/// `conv_sum` over integer-valued coefficient functions of four terms.
pub open spec fn conv_int(u: spec_fn(int) -> int, w: spec_fn(int) -> int, idx: int, l: int) -> int
    decreases l,
{
    if l <= 0 {
        0
    } else {
        conv_int(u, w, idx, l - 1) + if 0 <= idx - (l - 1) < 4 {
            u(l - 1) * w(idx - (l - 1))
        } else {
            0
        }
    }
}

/// Coefficient `h` of `u w` in `Z[X]/(X^4 - z)`, without reduction.
pub open spec fn ext_int(u: spec_fn(int) -> int, w: spec_fn(int) -> int, z: int, h: int) -> int {
    conv_int(u, w, h, 4) + z * conv_int(u, w, h + 4, 4)
}

proof fn lemma_conv_congruent(
    us: Seq<u64>,
    ws: Seq<u64>,
    u: spec_fn(int) -> int,
    w: spec_fn(int) -> int,
    idx: int,
    l: int,
    q: int,
)
    requires
        q > 0,
        us.len() == 4,
        ws.len() == 4,
        0 <= l <= 4,
        forall|i: int| 0 <= i < 4 ==> #[trigger] (us[i] as int) % q == u(i) % q,
        forall|i: int| 0 <= i < 4 ==> #[trigger] (ws[i] as int) % q == w(i) % q,
    ensures
        conv_sum(us, ws, idx, l) % q == conv_int(u, w, idx, l) % q,
    decreases l,
{
    if l > 0 {
        lemma_conv_congruent(us, ws, u, w, idx, l - 1, q);
        if 0 <= idx - (l - 1) < 4 {
            let i = l - 1;
            let j = idx - (l - 1);
            lemma_mul_mod_noop(us[i] as int, ws[j] as int, q);
            lemma_mul_mod_noop(u(i), w(j), q);
            lemma_add_mod_noop(conv_sum(us, ws, idx, l - 1), us[i] * ws[j], q);
            lemma_add_mod_noop(conv_int(u, w, idx, l - 1), u(i) * w(j), q);
        }
    }
}

/// A slot product is congruent to the unreduced product of any congruent
/// integer coefficients.
pub proof fn lemma_extension_product_congruent(
    us: Seq<u64>,
    ws: Seq<u64>,
    u: spec_fn(int) -> int,
    w: spec_fn(int) -> int,
    beta: int,
    beta_int: int,
    q: int,
    h: int,
)
    requires
        0 < q <= u64::MAX,
        us.len() == 4,
        ws.len() == 4,
        0 <= h < 4,
        beta % q == beta_int % q,
        forall|i: int| 0 <= i < 4 ==> #[trigger] (us[i] as int) % q == u(i) % q,
        forall|i: int| 0 <= i < 4 ==> #[trigger] (ws[i] as int) % q == w(i) % q,
    ensures
        extension_product(us, ws, beta, q)[h] as int == ext_int(u, w, beta_int, h) % q,
{
    lemma_conv_congruent(us, ws, u, w, h, 4, q);
    lemma_conv_congruent(us, ws, u, w, h + 4, 4, q);
    let c0 = conv_sum(us, ws, h, 4);
    let c1 = conv_sum(us, ws, h + 4, 4);
    let d0 = conv_int(u, w, h, 4);
    let d1 = conv_int(u, w, h + 4, 4);
    lemma_mul_mod_noop(beta, c1, q);
    lemma_mul_mod_noop(beta_int, d1, q);
    lemma_add_mod_noop(c0, beta * c1, q);
    lemma_add_mod_noop(d0, beta_int * d1, q);
    lemma_mod_bound(c0 + beta * c1, q);
}

/// The four evaluated parts of slot `s`: `a_r(z_s)` for `r = 0, 1, 2, 3`.
pub open spec fn raw_slot(c: Seq<u64>, s: int) -> Seq<u64> {
    Seq::new(4, |r: int| quartic_transformed(c, r)[s])
}

/// The point of quartic slot `s`.
pub open spec fn quartic_point(s: int) -> int {
    ntt_point(32, QUARTIC_Q, s as nat)
}

/// The point of every quartic slot is a root of `Y^32 + 1`.
pub proof fn lemma_quartic_point_root(s: int)
    requires
        0 <= s < 32,
    ensures
        pow(quartic_point(s), 32) % (QUARTIC_Q as int) == QUARTIC_Q - 1,
{
    let q = QUARTIC_Q as int;
    let psi = ntt_root(QUARTIC_Q);
    let e = ntt_exponent(32, s as nat);
    lemma_root_facts(32, QUARTIC_Q);
    lemma_ntt_exponent_bound(32, s as nat);
    lemma_pow_of_reduced_pow(psi, e, 32, q);
    lemma_pow_multiplies(psi, 32, e);
    lemma_mul_is_commutative(e as int, 32);
    lemma_odd_power_of_minus_one(pow(psi, 32), e, q);
}

proof fn lemma_transformed_series(c: Seq<u64>, r: int, s: int)
    requires
        c.len() == 128,
        0 <= r < 4,
        0 <= s < 32,
    ensures
        quartic_transformed(c, r)[s] as int == power_series(quarter(c, r), quartic_point(s), 32) % (
        QUARTIC_Q as int),
{
    let blk = quartic_block(c, r);
    let z = quartic_point(s);
    lemma_poly_eval_as_sum(to_ints(blk), z);
    let f = |k: int| to_ints(blk)[k] * pow(z, k as nat);
    let g = |t: int| quarter(c, r)(t) * pow(z, t as nat);
    assert forall|k: int| 0 <= k < 32 implies #[trigger] f(k) == g(k) by {}
    lemma_sum_ext(f, g, 32);
    lemma_mod_bound(poly_eval(to_ints(blk), z), QUARTIC_Q as int);
}

/// The evaluated parts as integer functions.
pub open spec fn parts(c: Seq<u64>, z: int) -> spec_fn(int) -> int {
    |r: int| power_series(quarter(c, r), z, 32)
}

proof fn lemma_target_is_ext(a: Seq<u64>, b: Seq<u64>, z: int, p: int)
    requires
        0 <= p < 4,
    ensures
        quartic_target(a, b, z, p) == ext_int(parts(a, z), parts(b, z), z, p),
{
    reveal_with_fuel(conv_int, 5);
    lemma_pow0(z);
    lemma_pow1(z);
    let u = parts(a, z);
    let w = parts(b, z);
    assert(quartic_target(a, b, z, p) == pow(z, borrow(0, p) as nat) * (u(0) * w(partner(0, p)))
        + pow(z, borrow(1, p) as nat) * (u(1) * w(partner(1, p))) + pow(z, borrow(2, p) as nat) * (
    u(2) * w(partner(2, p))) + pow(z, borrow(3, p) as nat) * (u(3) * w(partner(3, p))));
    if p == 0 {
        assert(z * (u(1) * w(3) + u(2) * w(2) + u(3) * w(1)) == z * (u(1) * w(3)) + z * (u(2) * w(
            2,
        )) + z * (u(3) * w(1))) by (nonlinear_arith);
    } else if p == 1 {
        assert(z * (u(2) * w(3) + u(3) * w(2)) == z * (u(2) * w(3)) + z * (u(3) * w(2))) by (
        nonlinear_arith);
    } else if p == 2 {
    } else {
    }
    lemma_mul_basics(z);
}

/// Slot `s` of the product's evaluated parts is the product of the operands'
/// evaluated parts in `Z_q[X]/(X^4 - z_s)`.
pub proof fn lemma_raw_slot_product(a: Seq<u64>, b: Seq<u64>, s: int)
    requires
        a.len() == 128,
        b.len() == 128,
        0 <= s < 32,
    ensures
        raw_slot(negacyclic_product(a, b, QUARTIC_Q), s) == extension_product(
            raw_slot(a, s),
            raw_slot(b, s),
            quartic_point(s),
            QUARTIC_Q as int,
        ),
{
    let q = QUARTIC_Q as int;
    let z = quartic_point(s);
    let c = negacyclic_product(a, b, QUARTIC_Q);
    let ra = raw_slot(a, s);
    let rb = raw_slot(b, s);
    lemma_quartic_point_root(s);
    assert forall|r: int| 0 <= r < 4 implies #[trigger] (ra[r] as int) % q == parts(a, z)(r) % q by {
        lemma_transformed_series(a, r, s);
        lemma_mod_twice(parts(a, z)(r), q);
    }
    assert forall|r: int| 0 <= r < 4 implies #[trigger] (rb[r] as int) % q == parts(b, z)(r) % q by {
        lemma_transformed_series(b, r, s);
        lemma_mod_twice(parts(b, z)(r), q);
    }
    let lhs = raw_slot(c, s);
    let rhs = extension_product(ra, rb, z, q);
    assert forall|p: int| 0 <= p < 4 implies #[trigger] lhs[p] == rhs[p] by {
        lemma_transformed_series(c, p, s);
        lemma_quartic_part(a, b, z, q, p);
        lemma_target_is_ext(a, b, z, p);
        lemma_extension_product_congruent(ra, rb, parts(a, z), parts(b, z), z, z, q, p);
        let cs = |t: int| quarter(c, p)(t) * pow(z, t as nat);
        let rs = |m: int| raw_product(a, b, 4 * m + p) * pow(z, m as nat);
        assert forall|m: int| 0 <= m < 32 implies #[trigger] cs(m) % q == rs(m) % q by {
            assert(c[4 * m + p] as int == raw_product(a, b, 4 * m + p) % q);
            lemma_mul_mod_noop_left(raw_product(a, b, 4 * m + p), pow(z, m as nat), q);
        }
        lemma_sum_congruent(cs, rs, 32, q);
    }
    assert(lhs =~= rhs);
}

proof fn lemma_mul_rearrange(x: int, mx: int, y: int, my: int)
    ensures
        (x * mx) * (y * my) == (x * y) * (mx * my),
{
    assert((x * mx) * (y * my) == (x * y) * (mx * my)) by (nonlinear_arith);
}

/// The four coefficients of a product in `Z[X]/(X^4 - z)`, spelled out.
pub proof fn lemma_ext_int_expanded(u: spec_fn(int) -> int, w: spec_fn(int) -> int, z: int)
    ensures
        ext_int(u, w, z, 0) == u(0) * w(0) + z * (u(1) * w(3) + u(2) * w(2) + u(3) * w(1)),
        ext_int(u, w, z, 1) == u(0) * w(1) + u(1) * w(0) + z * (u(2) * w(3) + u(3) * w(2)),
        ext_int(u, w, z, 2) == u(0) * w(2) + u(1) * w(1) + u(2) * w(0) + z * (u(3) * w(3)),
        ext_int(u, w, z, 3) == u(0) * w(3) + u(1) * w(2) + u(2) * w(1) + u(3) * w(0) + z * 0,
{
    reveal_with_fuel(conv_int, 5);
}

/// Products of the lifted slot coefficients when `e = 1 (mod 4)`: the map
/// `X^r -> beta^(k r) T^r` respects products, `z = beta^(4k+1)`.
proof fn lemma_homomorphism_one_mod_four(
    a: spec_fn(int) -> int,
    b: spec_fn(int) -> int,
    u: spec_fn(int) -> int,
    w: spec_fn(int) -> int,
    m: spec_fn(int) -> int,
    bt: int,
    z: int,
)
    requires
        m(0) == 1,
        m(2) == m(1) * m(1),
        m(3) == m(2) * m(1),
        z == (m(3) * m(1)) * bt,
        forall|i: int| 0 <= i < 4 ==> #[trigger] u(i) == a(i) * m(i),
        forall|i: int| 0 <= i < 4 ==> #[trigger] w(i) == b(i) * m(i),
    ensures
        forall|r: int| 0 <= r < 4 ==> #[trigger] ext_int(u, w, bt, r) == ext_int(a, b, z, r) * m(r),
{
    lemma_ext_int_expanded(u, w, bt);
    lemma_ext_int_expanded(a, b, z);
    let m1 = m(1);
    let m2 = m(2);
    let m3 = m(3);
    let m4 = m3 * m1;
    assert(m1 * m3 == m4 && m2 * m2 == m4 && m2 * m1 == m3 && m1 * m2 == m3) by (nonlinear_arith)
        requires
            m2 == m1 * m1,
            m3 == m2 * m1,
            m4 == m3 * m1,
    ;
    let m5 = m4 * m1;
    let m6 = m4 * m2;
    assert(m2 * m3 == m5 && m3 * m2 == m5 && m3 * m3 == m6) by (nonlinear_arith)
        requires
            m2 == m1 * m1,
            m3 == m2 * m1,
            m4 == m3 * m1,
            m5 == m4 * m1,
            m6 == m4 * m2,
    ;
    assert forall|i: int, j: int| 0 <= i < 4 && 0 <= j < 4 implies #[trigger] (u(i) * w(j)) == (a(i)
        * b(j)) * (m(i) * m(j)) by {
        lemma_mul_rearrange(a(i), m(i), b(j), m(j));
    }
    let c = |i: int, j: int| a(i) * b(j);
    assert(u(0) * w(0) == c(0, 0) * (m(0) * m(0)));
    lemma_mul_basics(c(0, 0));
    lemma_mul_basics(m(0));
    let r0 = c(0, 0) + bt * (c(1, 3) * m4 + c(2, 2) * m4 + c(3, 1) * m4);
    assert(ext_int(u, w, bt, 0) == r0);
    assert(r0 == (c(0, 0) + z * (c(1, 3) + c(2, 2) + c(3, 1))) * 1) by (nonlinear_arith)
        requires
            z == m4 * bt,
            r0 == c(0, 0) + bt * (c(1, 3) * m4 + c(2, 2) * m4 + c(3, 1) * m4),
    ;
    assert(u(0) * w(1) == c(0, 1) * m1);
    assert(u(1) * w(0) == c(1, 0) * m1);
    let r1 = c(0, 1) * m1 + c(1, 0) * m1 + bt * (c(2, 3) * m5 + c(3, 2) * m5);
    assert(ext_int(u, w, bt, 1) == r1);
    assert(r1 == (c(0, 1) + c(1, 0) + z * (c(2, 3) + c(3, 2))) * m1) by (nonlinear_arith)
        requires
            z == m4 * bt,
            m5 == m4 * m1,
            r1 == c(0, 1) * m1 + c(1, 0) * m1 + bt * (c(2, 3) * m5 + c(3, 2) * m5),
    ;
    assert(u(0) * w(2) == c(0, 2) * m2);
    assert(u(2) * w(0) == c(2, 0) * m2);
    assert(u(1) * w(1) == c(1, 1) * m2);
    let r2 = c(0, 2) * m2 + c(1, 1) * m2 + c(2, 0) * m2 + bt * (c(3, 3) * m6);
    assert(ext_int(u, w, bt, 2) == r2);
    assert(r2 == (c(0, 2) + c(1, 1) + c(2, 0) + z * c(3, 3)) * m2) by (nonlinear_arith)
        requires
            z == m4 * bt,
            m6 == m4 * m2,
            r2 == c(0, 2) * m2 + c(1, 1) * m2 + c(2, 0) * m2 + bt * (c(3, 3) * m6),
    ;
    assert(u(0) * w(3) == c(0, 3) * m3);
    assert(u(3) * w(0) == c(3, 0) * m3);
    assert(u(1) * w(2) == c(1, 2) * m3);
    assert(u(2) * w(1) == c(2, 1) * m3);
    let r3 = c(0, 3) * m3 + c(1, 2) * m3 + c(2, 1) * m3 + c(3, 0) * m3 + bt * 0;
    assert(ext_int(u, w, bt, 3) == r3);
    assert(r3 == (c(0, 3) + c(1, 2) + c(2, 1) + c(3, 0) + z * 0) * m3) by (nonlinear_arith)
        requires
            r3 == c(0, 3) * m3 + c(1, 2) * m3 + c(2, 1) * m3 + c(3, 0) * m3 + bt * 0,
    ;
}


/// Products of the lifted slot coefficients when `e = 3 (mod 4)`: raw degree
/// `r` lands on degree `3 r mod 4` with the factor `n_r`, `z = beta^e`.
proof fn lemma_homomorphism_three_mod_four(
    a: spec_fn(int) -> int,
    b: spec_fn(int) -> int,
    u: spec_fn(int) -> int,
    w: spec_fn(int) -> int,
    n: spec_fn(int) -> int,
    bt: int,
    z: int,
)
    requires
        n(0) == 1,
        n(2) == (n(1) * n(1)) * bt,
        n(3) == (n(2) * n(1)) * bt,
        z == (n(3) * n(1)) * bt,
        u(0) == a(0) * n(0),
        u(3) == a(1) * n(1),
        u(2) == a(2) * n(2),
        u(1) == a(3) * n(3),
        w(0) == b(0) * n(0),
        w(3) == b(1) * n(1),
        w(2) == b(2) * n(2),
        w(1) == b(3) * n(3),
    ensures
        ext_int(u, w, bt, 0) == ext_int(a, b, z, 0) * n(0),
        ext_int(u, w, bt, 3) == ext_int(a, b, z, 1) * n(1),
        ext_int(u, w, bt, 2) == ext_int(a, b, z, 2) * n(2),
        ext_int(u, w, bt, 1) == ext_int(a, b, z, 3) * n(3),
{
    lemma_ext_int_expanded(u, w, bt);
    lemma_ext_int_expanded(a, b, z);
    let n1 = n(1);
    let n2 = n(2);
    let n3 = n(3);
    let c = |i: int, j: int| a(i) * b(j);
    let d = n1 * n3;
    assert(n2 * n2 == d && n3 * n1 == d && bt * d == z) by (nonlinear_arith)
        requires
            d == n1 * n3,
            n2 == (n1 * n1) * bt,
            n3 == (n2 * n1) * bt,
            z == (n3 * n1) * bt,
    ;
    assert(n2 * n3 == n1 * z && n3 * n2 == n1 * z && n3 * n3 == n2 * z && bt * (n1 * n1) == n2
        && bt * (n2 * n1) == n3 && bt * (n1 * n2) == n3) by (nonlinear_arith)
        requires
            n2 == (n1 * n1) * bt,
            n3 == (n2 * n1) * bt,
            z == (n3 * n1) * bt,
    ;
    // Each product of lifted coefficients, as the product of raw coefficients
    // times the product of the factors.
    lemma_mul_rearrange(a(0), 1, b(0), 1);
    lemma_mul_rearrange(a(3), n3, b(1), n1);
    lemma_mul_rearrange(a(2), n2, b(2), n2);
    lemma_mul_rearrange(a(1), n1, b(3), n3);
    lemma_mul_rearrange(a(0), 1, b(1), n1);
    lemma_mul_rearrange(a(3), n3, b(2), n2);
    lemma_mul_rearrange(a(2), n2, b(3), n3);
    lemma_mul_rearrange(a(1), n1, b(0), 1);
    lemma_mul_rearrange(a(0), 1, b(2), n2);
    lemma_mul_rearrange(a(3), n3, b(3), n3);
    lemma_mul_rearrange(a(2), n2, b(0), 1);
    lemma_mul_rearrange(a(1), n1, b(1), n1);
    lemma_mul_rearrange(a(0), 1, b(3), n3);
    lemma_mul_rearrange(a(3), n3, b(0), 1);
    lemma_mul_rearrange(a(2), n2, b(1), n1);
    lemma_mul_rearrange(a(1), n1, b(2), n2);
    lemma_mul_basics(n1);
    lemma_mul_basics(n2);
    lemma_mul_basics(n3);
    lemma_mul_basics(c(0, 0));
    let r0 = c(0, 0) + bt * (c(3, 1) * d + c(2, 2) * d + c(1, 3) * d);
    assert(ext_int(u, w, bt, 0) == r0);
    assert(r0 == (c(0, 0) + z * (c(1, 3) + c(2, 2) + c(3, 1))) * 1) by (nonlinear_arith)
        requires
            z == bt * d,
            r0 == c(0, 0) + bt * (c(3, 1) * d + c(2, 2) * d + c(1, 3) * d),
    ;
    let r3 = c(0, 1) * n1 + c(3, 2) * (n1 * z) + c(2, 3) * (n1 * z) + c(1, 0) * n1 + bt * 0;
    assert(ext_int(u, w, bt, 3) == r3);
    assert(r3 == (c(0, 1) + c(1, 0) + z * (c(2, 3) + c(3, 2))) * n1) by (nonlinear_arith)
        requires
            r3 == c(0, 1) * n1 + c(3, 2) * (n1 * z) + c(2, 3) * (n1 * z) + c(1, 0) * n1 + bt * 0,
    ;
    let r2 = c(0, 2) * n2 + c(3, 3) * (n2 * z) + c(2, 0) * n2 + bt * (c(1, 1) * (n1 * n1));
    assert(ext_int(u, w, bt, 2) == r2);
    assert(r2 == (c(0, 2) + c(1, 1) + c(2, 0) + z * c(3, 3)) * n2) by (nonlinear_arith)
        requires
            bt * (n1 * n1) == n2,
            r2 == c(0, 2) * n2 + c(3, 3) * (n2 * z) + c(2, 0) * n2 + bt * (c(1, 1) * (n1 * n1)),
    ;
    let r1 = c(0, 3) * n3 + c(3, 0) * n3 + bt * (c(2, 1) * (n2 * n1) + c(1, 2) * (n1 * n2));
    assert(ext_int(u, w, bt, 1) == r1);
    assert(r1 == (c(0, 3) + c(1, 2) + c(2, 1) + c(3, 0) + z * 0) * n3) by (nonlinear_arith)
        requires
            bt * (n2 * n1) == n3,
            bt * (n1 * n2) == n3,
            r1 == c(0, 3) * n3 + c(3, 0) * n3 + bt * (c(2, 1) * (n2 * n1) + c(1, 2) * (n1 * n2)),
    ;
}


/// Where raw degree `r` lands in slot coordinates for an odd exponent `e`.
proof fn lemma_landing(e: int, r: int)
    requires
        e >= 0,
        e % 2 == 1,
        0 <= r < 4,
    ensures
        e % 4 == 1 ==> (e * r) % 4 == r && (e * r) / 4 == (e / 4) * r,
        e % 4 == 3 ==> (e * r) % 4 == (4 - r) % 4 && (e * r) / 4 == (e / 4) * r + (3 * r) / 4,
{
    let k = e / 4;
    lemma_fundamental_div_mod(e, 4);
    assert(e % 4 == 1 || e % 4 == 3) by {
        lemma_fundamental_div_mod(e, 2);
    }
    if e % 4 == 1 {
        assert(e * r == 4 * (k * r) + r) by (nonlinear_arith)
            requires
                e == 4 * k + 1,
        ;
        lemma_fundamental_div_mod_converse(e * r, 4, k * r, r);
    } else {
        assert(e * r == 4 * (k * r) + 3 * r) by (nonlinear_arith)
            requires
                e == 4 * k + 3,
        ;
        lemma_fundamental_div_mod_converse(e * r, 4, k * r + (3 * r) / 4, (4 - r) % 4);
    }
}

/// Slot `s` of a product, in the common field, is the product of the
/// operands' slots there.
pub proof fn lemma_homogeneous_slot_product(a: Seq<u64>, b: Seq<u64>, s: int)
    requires
        a.len() == 128,
        b.len() == 128,
        0 <= s < 32,
    ensures
        slot_mul(
            homogeneous_slot(a, 3, ntt_exponent(32, s as nat) as int, s, 4),
            homogeneous_slot(b, 3, ntt_exponent(32, s as nat) as int, s, 4),
            3,
        ) == homogeneous_slot(
            negacyclic_product(a, b, QUARTIC_Q),
            3,
            ntt_exponent(32, s as nat) as int,
            s,
            4,
        ),
{
    let q = QUARTIC_Q as int;
    let beta = 3int;
    let e = ntt_exponent(32, s as nat) as int;
    lemma_ntt_exponent_bound(32, s as nat);
    let k = e / 4;
    let c = negacyclic_product(a, b, QUARTIC_Q);
    let ra = raw_slot(a, s);
    let rb = raw_slot(b, s);
    let rc = raw_slot(c, s);
    let ha = homogeneous_slot(a, beta, e, s, 4);
    let hb = homogeneous_slot(b, beta, e, s, 4);
    let hc = homogeneous_slot(c, beta, e, s, 4);
    lemma_homogeneous_slot_len(a, beta, e, s, 4);
    lemma_homogeneous_slot_len(b, beta, e, s, 4);
    lemma_homogeneous_slot_len(c, beta, e, s, 4);
    let n = |r: int| pow(beta, ((e * r) / 4) as nat);
    let av = |r: int| ra[r] as int;
    let bv = |r: int| rb[r] as int;
    let z = pow(beta, e as nat);
    lemma_landing(e, 0);
    lemma_landing(e, 1);
    lemma_landing(e, 2);
    lemma_landing(e, 3);
    lemma_pow0(beta);
    lemma_pow1(beta);
    // `pos(r)` is where raw degree `r` lands; `src` undoes it.
    let pos = |r: int| (e * r) % 4;
    let src = |j: int|
        if e % 4 == 1 {
            j
        } else {
            (4 - j) % 4
        };
    let u = |j: int| av(src(j)) * n(src(j));
    let w = |j: int| bv(src(j)) * n(src(j));
    if e % 4 == 1 {
        lemma_pow_adds(beta, k as nat, k as nat);
        lemma_pow_adds(beta, (2 * k) as nat, k as nat);
        lemma_pow_adds(beta, (3 * k) as nat, k as nat);
        lemma_pow_adds(beta, (4 * k) as nat, 1);
        assert(n(2) == n(1) * n(1));
        assert(n(3) == n(2) * n(1));
        assert(z == (n(3) * n(1)) * beta);
        lemma_homomorphism_one_mod_four(av, bv, u, w, n, beta, z);
    } else {
        lemma_pow_adds(beta, k as nat, k as nat);
        lemma_pow_adds(beta, (2 * k) as nat, 1);
        lemma_pow_adds(beta, (2 * k + 1) as nat, k as nat);
        lemma_pow_adds(beta, (3 * k + 1) as nat, 1);
        lemma_pow_adds(beta, (3 * k + 2) as nat, k as nat);
        lemma_pow_adds(beta, (4 * k + 2) as nat, 1);
        assert(n(2) == (n(1) * n(1)) * beta);
        assert(n(3) == (n(2) * n(1)) * beta);
        assert(z == (n(3) * n(1)) * beta);
        lemma_homomorphism_three_mod_four(av, bv, u, w, n, beta, z);
    }
    assert forall|r: int| 0 <= r < 4 implies #[trigger] ext_int(u, w, beta, pos(r)) == ext_int(
        av,
        bv,
        z,
        r,
    ) * n(r) by {
        lemma_landing(e, r);
    }
    assert forall|r: int| 0 <= r < 4 implies #[trigger] src(pos(r)) == r by {
        lemma_landing(e, r);
    }
    assert forall|j: int| 0 <= j < 4 implies 0 <= #[trigger] src(j) < 4 && pos(src(j)) == j by {
        lemma_landing(e, src(j));
    }
    // The operands' slot coefficients are the lifted raw coefficients.
    assert forall|j: int| 0 <= j < 4 implies #[trigger] (ha[j] as int) % q == u(j) % q by {
        let r = src(j);
        lemma_homogeneous_slot_at(a, beta, e, s, 4, r);
        lemma_mod_twice(av(r) * n(r), q);
    }
    assert forall|j: int| 0 <= j < 4 implies #[trigger] (hb[j] as int) % q == w(j) % q by {
        let r = src(j);
        lemma_homogeneous_slot_at(b, beta, e, s, 4, r);
        lemma_mod_twice(bv(r) * n(r), q);
    }
    // The product's raw slot is the unreduced product of the raw slots.
    lemma_raw_slot_product(a, b, s);
    let zq = quartic_point(s);
    lemma_mod_twice(z, q);
    assert forall|r: int| 0 <= r < 4 implies #[trigger] (ra[r] as int) % q == av(r) % q by {}
    assert forall|r: int| 0 <= r < 4 implies #[trigger] (rb[r] as int) % q == bv(r) % q by {}
    let lhs = slot_mul(ha, hb, beta);
    assert forall|j: int| 0 <= j < 4 implies #[trigger] lhs[j] == hc[j] by {
        let r = src(j);
        lemma_extension_product_congruent(ha, hb, u, w, beta, beta, q, j);
        lemma_extension_product_congruent(ra, rb, av, bv, zq, z, q, r);
        lemma_homogeneous_slot_at(c, beta, e, s, 4, r);
        lemma_mul_mod_noop_left(ext_int(av, bv, z, r), n(r), q);
    }
    assert(lhs =~= hc);
}


/// Multiplying through the slot fields is multiplication in
/// `Z_q[X]/(X^128 + 1)`: the slot-wise products, carried back to
/// coefficients, are the negacyclic product of the operands.
pub proof fn lemma_slot_multiplication_is_ring_product(
    t: QuarticTransform,
    a: Seq<u64>,
    b: Seq<u64>,
)
    requires
        t.well_formed(),
        a.len() == RING_DEGREE,
        b.len() == RING_DEGREE,
    ensures
        coefficients_from_slots(
            |s: int|
                slot_mul(
                    homogeneous_slot(a, t.beta as int, t.slot_exponents@[s] as int, s, 4),
                    homogeneous_slot(b, t.beta as int, t.slot_exponents@[s] as int, s, 4),
                    t.beta as int,
                ),
            t.slot_exponents@,
            t.beta as int,
        ) == negacyclic_product(a, b, QUARTIC_Q),
{
    let q = QUARTIC_Q as int;
    let beta = t.beta as int;
    let c = negacyclic_product(a, b, QUARTIC_Q);
    let products = |s: int|
        slot_mul(
            homogeneous_slot(a, beta, t.slot_exponents@[s] as int, s, 4),
            homogeneous_slot(b, beta, t.slot_exponents@[s] as int, s, 4),
            beta,
        );
    let slots = |s: int| homogeneous_slot(c, beta, t.slot_exponents@[s] as int, s, 4);
    assert forall|s: int| 0 <= s < SLOT_COUNT implies #[trigger] products(s) == slots(s) by {
        assert(t.slot_exponents@[s] as nat == ntt_exponent(32, s as nat));
        lemma_homogeneous_slot_product(a, b, s);
    }
    lemma_coefficients_from_slots_ext(products, slots, t.slot_exponents@, beta);
    assert(is_reduced(c, QUARTIC_Q)) by {
        assert forall|i: int| 0 <= i < c.len() implies #[trigger] c[i] < QUARTIC_Q by {
            lemma_mod_bound(negacyclic_partial(a, b, i, 128), q);
        }
    }
    lemma_quartic_roundtrip(t, c);
}

} // verus!
