//! Laws of the slot ring `F_q[T]/(T^4 - beta)`: its product is commutative and
//! associative with unit `1`, and binary exponentiation computes powers.
//!
//! The integer layer works in `Z[T]/(T^4 - beta)` on unreduced coefficient
//! functions; a product there is `sum_i u_i T^i w`, and multiplying by `T`
//! commutes with multiplication, which gives associativity.
use vstd::arithmetic::div_mod::*;
use vstd::arithmetic::mul::*;
use vstd::prelude::*;

use crate::modular::is_reduced;
use crate::ntt_laws::{lemma_sum_ext, lemma_sum_scale, lemma_sum_swap, sum_to};
use crate::quartic_law::{ext_int, lemma_ext_int_expanded, lemma_extension_product_congruent};
use crate::quartic_ring::{binary_power, slot_mul, unit_slot, QUARTIC_Q};

verus! {

/// Coefficient `h` of `T^i w` in `Z[T]/(T^4 - beta)`, for `0 <= i, h < 4`.
pub open spec fn shifted(w: spec_fn(int) -> int, beta: int, i: int, h: int) -> int {
    if h >= i {
        w(h - i)
    } else {
        beta * w(h - i + 4)
    }
}

/// `T^i w` as a coefficient function.
pub open spec fn shifted_fn(w: spec_fn(int) -> int, beta: int, i: int) -> spec_fn(int) -> int {
    |h: int| shifted(w, beta, i, h)
}

/// `T w` as a coefficient function.
pub open spec fn times_t(w: spec_fn(int) -> int, beta: int) -> spec_fn(int) -> int {
    |h: int|
        if h == 0 {
            beta * w(3)
        } else {
            w(h - 1)
        }
}

/// `u w` in `Z[T]/(T^4 - beta)` as a coefficient function.
pub open spec fn product_fn(u: spec_fn(int) -> int, w: spec_fn(int) -> int, beta: int) -> spec_fn(
    int,
) -> int {
    |h: int| ext_int(u, w, beta, h)
}

/// A product reads its factors on degrees `0..4` only.
pub proof fn lemma_ext_int_local(
    u: spec_fn(int) -> int,
    u2: spec_fn(int) -> int,
    w: spec_fn(int) -> int,
    w2: spec_fn(int) -> int,
    beta: int,
    h: int,
)
    requires
        0 <= h < 4,
        forall|i: int| 0 <= i < 4 ==> #[trigger] u(i) == u2(i),
        forall|i: int| 0 <= i < 4 ==> #[trigger] w(i) == w2(i),
    ensures
        ext_int(u, w, beta, h) == ext_int(u2, w2, beta, h),
{
    lemma_ext_int_expanded(u, w, beta);
    lemma_ext_int_expanded(u2, w2, beta);
    assert(u(0) == u2(0) && u(1) == u2(1) && u(2) == u2(2) && u(3) == u2(3));
    assert(w(0) == w2(0) && w(1) == w2(1) && w(2) == w2(2) && w(3) == w2(3));
}

/// `x (y z) = y (x z)`.
proof fn lemma_mul_swap(x: int, y: int, z: int)
    ensures
        x * (y * z) == y * (x * z),
{
    assert(x * (y * z) == y * (x * z)) by (nonlinear_arith);
}

/// `b (p + q + r) = b p + b q + b r`.
proof fn lemma_distribute3(b: int, p: int, q: int, r: int)
    ensures
        b * (p + q + r) == b * p + b * q + b * r,
{
    assert(b * (p + q + r) == b * p + b * q + b * r) by (nonlinear_arith);
}

/// A product as the sum `sum_i u_i (T^i w)_h`.
pub proof fn lemma_product_as_sum(u: spec_fn(int) -> int, w: spec_fn(int) -> int, beta: int, h: int)
    requires
        0 <= h < 4,
    ensures
        ext_int(u, w, beta, h) == sum_to(|i: int| u(i) * shifted(w, beta, i, h), 4),
{
    lemma_ext_int_expanded(u, w, beta);
    reveal_with_fuel(sum_to, 5);
    let (u0, u1, u2, u3) = (u(0), u(1), u(2), u(3));
    let (w0, w1, w2, w3) = (w(0), w(1), w(2), w(3));
    if h == 0 {
        lemma_mul_swap(u1, beta, w3);
        lemma_mul_swap(u2, beta, w2);
        lemma_mul_swap(u3, beta, w1);
        lemma_distribute3(beta, u1 * w3, u2 * w2, u3 * w1);
    } else if h == 1 {
        lemma_mul_swap(u2, beta, w3);
        lemma_mul_swap(u3, beta, w2);
        lemma_mul_is_distributive_add(beta, u2 * w3, u3 * w2);
    } else if h == 2 {
        lemma_mul_swap(u3, beta, w3);
    } else {
        lemma_mul_basics(beta);
    }
}

/// Multiplying by `T` commutes with multiplication: `T (b c) = (T b) c`.
pub proof fn lemma_times_t_product(b: spec_fn(int) -> int, c: spec_fn(int) -> int, beta: int, h: int)
    requires
        0 <= h < 4,
    ensures
        times_t(product_fn(b, c, beta), beta)(h) == ext_int(times_t(b, beta), c, beta, h),
{
    let tb = times_t(b, beta);
    lemma_ext_int_expanded(b, c, beta);
    lemma_ext_int_expanded(tb, c, beta);
    let (b0, b1, b2, b3) = (b(0), b(1), b(2), b(3));
    let (c0, c1, c2, c3) = (c(0), c(1), c(2), c(3));
    assert(tb(0) == beta * b3 && tb(1) == b0 && tb(2) == b1 && tb(3) == b2);
    if h == 0 {
        assert(beta * (b0 * c3 + b1 * c2 + b2 * c1 + b3 * c0 + beta * 0) == (beta * b3) * c0 + beta * (
        b0 * c3 + b1 * c2 + b2 * c1)) by (nonlinear_arith);
    } else if h == 1 {
        assert(b0 * c0 + beta * (b1 * c3 + b2 * c2 + b3 * c1) == (beta * b3) * c1 + b0 * c0 + beta * (
        b1 * c3 + b2 * c2)) by (nonlinear_arith);
    } else if h == 2 {
        assert(b0 * c1 + b1 * c0 + beta * (b2 * c3 + b3 * c2) == (beta * b3) * c2 + b0 * c1 + b1 * c0
            + beta * (b2 * c3)) by (nonlinear_arith);
    } else {
        assert(b0 * c2 + b1 * c1 + b2 * c0 + beta * (b3 * c3) == (beta * b3) * c3 + b0 * c2 + b1 * c1
            + b2 * c0 + beta * 0) by (nonlinear_arith);
    }
}

/// `T^(i+1) b = T (T^i b)` on degrees `0..4`.
proof fn lemma_shift_step(b: spec_fn(int) -> int, beta: int, i: int, h: int)
    requires
        0 <= i < 3,
        0 <= h < 4,
    ensures
        shifted(b, beta, i + 1, h) == times_t(shifted_fn(b, beta, i), beta)(h),
{
}

/// `T^i (b c) = (T^i b) c`.
pub proof fn lemma_shifted_product(b: spec_fn(int) -> int, c: spec_fn(int) -> int, beta: int, i: int, h: int)
    requires
        0 <= i < 4,
        0 <= h < 4,
    ensures
        shifted(product_fn(b, c, beta), beta, i, h) == ext_int(shifted_fn(b, beta, i), c, beta, h),
    decreases i,
{
    if i == 0 {
        lemma_ext_int_local(b, shifted_fn(b, beta, 0), c, c, beta, h);
    } else {
        let prev = shifted_fn(b, beta, i - 1);
        assert forall|j: int| 0 <= j < 4 implies #[trigger] shifted_fn(b, beta, i)(j) == times_t(
            prev,
            beta,
        )(j) by {
            lemma_shift_step(b, beta, i - 1, j);
        }
        lemma_ext_int_local(shifted_fn(b, beta, i), times_t(prev, beta), c, c, beta, h);
        lemma_times_t_product(prev, c, beta, h);
        if h == 0 {
            lemma_shifted_product(b, c, beta, i - 1, 3);
        } else {
            lemma_shifted_product(b, c, beta, i - 1, h - 1);
        }
    }
}

/// Multiplication in `Z[T]/(T^4 - beta)` is associative.
pub proof fn lemma_ext_int_associative(
    a: spec_fn(int) -> int,
    b: spec_fn(int) -> int,
    c: spec_fn(int) -> int,
    beta: int,
    h: int,
)
    requires
        0 <= h < 4,
    ensures
        ext_int(product_fn(a, b, beta), c, beta, h) == ext_int(a, product_fn(b, c, beta), beta, h),
{
    let ab = product_fn(a, b, beta);
    let bc = product_fn(b, c, beta);
    let y = |k: int| shifted(c, beta, k, h);
    let x = |i: int, k: int| shifted(b, beta, i, k);
    // Left: sum_k (sum_i a_i x_ik) y_k.
    lemma_product_as_sum(ab, c, beta, h);
    let left_terms = |k: int| ab(k) * y(k);
    let grid = |i: int, k: int| a(i) * (x(i, k) * y(k));
    assert forall|k: int| 0 <= k < 4 implies #[trigger] left_terms(k) == sum_to(|i: int| grid(i, k), 4) by {
        lemma_product_as_sum(a, b, beta, k);
        let inner = |i: int| a(i) * x(i, k);
        lemma_sum_scale(inner, y(k), 4);
        let scaled = |i: int| y(k) * inner(i);
        assert forall|i: int| 0 <= i < 4 implies #[trigger] scaled(i) == grid(i, k) by {
            lemma_mul_is_commutative(y(k), a(i) * x(i, k));
            lemma_mul_is_associative(a(i), x(i, k), y(k));
        }
        lemma_sum_ext(scaled, |i: int| grid(i, k), 4);
        lemma_mul_is_commutative(ab(k), y(k));
        lemma_sum_ext(|i: int| a(i) * shifted(b, beta, i, k), inner, 4);
        assert(ab(k) == sum_to(inner, 4));
    }
    lemma_sum_ext(|k: int| ab(k) * shifted(c, beta, k, h), left_terms, 4);
    lemma_sum_ext(left_terms, |k: int| sum_to(|i: int| grid(i, k), 4), 4);
    lemma_sum_swap(grid, 4, 4);
    // Right: sum_i a_i (T^i b c)_h = sum_i a_i sum_k x_ik y_k.
    lemma_product_as_sum(a, bc, beta, h);
    let right_terms = |i: int| a(i) * shifted(bc, beta, i, h);
    assert forall|i: int| 0 <= i < 4 implies #[trigger] right_terms(i) == sum_to(|k: int| grid(i, k), 4) by {
        lemma_shifted_product(b, c, beta, i, h);
        lemma_product_as_sum(shifted_fn(b, beta, i), c, beta, h);
        let inner = |k: int| x(i, k) * y(k);
        assert(sum_to(|k: int| shifted_fn(b, beta, i)(k) * shifted(c, beta, k, h), 4) == sum_to(inner, 4))
            by {
            lemma_sum_ext(|k: int| shifted_fn(b, beta, i)(k) * shifted(c, beta, k, h), inner, 4);
        }
        lemma_sum_scale(inner, a(i), 4);
        lemma_sum_ext(|k: int| a(i) * inner(k), |k: int| grid(i, k), 4);
    }
    lemma_sum_ext(|i: int| a(i) * shifted(bc, beta, i, h), right_terms, 4);
    lemma_sum_ext(right_terms, |i: int| sum_to(|k: int| grid(i, k), 4), 4);
}

/// Multiplication in `Z[T]/(T^4 - beta)` is commutative.
pub proof fn lemma_ext_int_commutative(u: spec_fn(int) -> int, w: spec_fn(int) -> int, beta: int, h: int)
    requires
        0 <= h < 4,
    ensures
        ext_int(u, w, beta, h) == ext_int(w, u, beta, h),
{
    lemma_ext_int_expanded(u, w, beta);
    lemma_ext_int_expanded(w, u, beta);
    let (u0, u1, u2, u3) = (u(0), u(1), u(2), u(3));
    let (w0, w1, w2, w3) = (w(0), w(1), w(2), w(3));
    lemma_mul_is_commutative(u0, w0);
    lemma_mul_is_commutative(u0, w1);
    lemma_mul_is_commutative(u0, w2);
    lemma_mul_is_commutative(u0, w3);
    lemma_mul_is_commutative(u1, w0);
    lemma_mul_is_commutative(u1, w1);
    lemma_mul_is_commutative(u1, w2);
    lemma_mul_is_commutative(u1, w3);
    lemma_mul_is_commutative(u2, w0);
    lemma_mul_is_commutative(u2, w1);
    lemma_mul_is_commutative(u2, w2);
    lemma_mul_is_commutative(u2, w3);
    lemma_mul_is_commutative(u3, w0);
    lemma_mul_is_commutative(u3, w1);
    lemma_mul_is_commutative(u3, w2);
    lemma_mul_is_commutative(u3, w3);
}


/// The coefficients of a slot element as an integer function.
pub open spec fn slot_values(s: Seq<u64>) -> spec_fn(int) -> int {
    |i: int| s[i] as int
}

/// A slot product is the reduced integer product of its factors.
pub proof fn lemma_slot_mul_value(a: Seq<u64>, b: Seq<u64>, beta: int, h: int)
    requires
        a.len() == 4,
        b.len() == 4,
        0 <= h < 4,
    ensures
        slot_mul(a, b, beta).len() == 4,
        slot_mul(a, b, beta)[h] as int == ext_int(slot_values(a), slot_values(b), beta, h) % (
        QUARTIC_Q as int),
{
    lemma_extension_product_congruent(a, b, slot_values(a), slot_values(b), beta, beta, QUARTIC_Q as int, h);
}

/// Slot products are canonical residues.
pub proof fn lemma_slot_mul_reduced(a: Seq<u64>, b: Seq<u64>, beta: int)
    requires
        a.len() == 4,
        b.len() == 4,
    ensures
        slot_mul(a, b, beta).len() == 4,
        is_reduced(slot_mul(a, b, beta), QUARTIC_Q),
{
    assert forall|h: int| 0 <= h < 4 implies #[trigger] slot_mul(a, b, beta)[h] < QUARTIC_Q by {
        lemma_slot_mul_value(a, b, beta, h);
        lemma_mod_bound(ext_int(slot_values(a), slot_values(b), beta, h), QUARTIC_Q as int);
    }
}

/// The slot product is commutative.
pub proof fn lemma_slot_mul_commutative(a: Seq<u64>, b: Seq<u64>, beta: int)
    requires
        a.len() == 4,
        b.len() == 4,
    ensures
        slot_mul(a, b, beta) == slot_mul(b, a, beta),
{
    assert forall|h: int| 0 <= h < 4 implies #[trigger] slot_mul(a, b, beta)[h] == slot_mul(b, a, beta)[h] by {
        lemma_slot_mul_value(a, b, beta, h);
        lemma_slot_mul_value(b, a, beta, h);
        lemma_ext_int_commutative(slot_values(a), slot_values(b), beta, h);
    }
    assert(slot_mul(a, b, beta) =~= slot_mul(b, a, beta));
}

/// The slot product is associative.
pub proof fn lemma_slot_mul_associative(a: Seq<u64>, b: Seq<u64>, c: Seq<u64>, beta: int)
    requires
        a.len() == 4,
        b.len() == 4,
        c.len() == 4,
    ensures
        slot_mul(slot_mul(a, b, beta), c, beta) == slot_mul(a, slot_mul(b, c, beta), beta),
{
    let q = QUARTIC_Q as int;
    let ab = slot_mul(a, b, beta);
    let bc = slot_mul(b, c, beta);
    let (va, vb, vc) = (slot_values(a), slot_values(b), slot_values(c));
    lemma_slot_mul_reduced(a, b, beta);
    lemma_slot_mul_reduced(b, c, beta);
    assert forall|i: int| 0 <= i < 4 implies #[trigger] (ab[i] as int) % q == product_fn(va, vb, beta)(i) % q by {
        lemma_slot_mul_value(a, b, beta, i);
        lemma_mod_twice(ext_int(va, vb, beta, i), q);
    }
    assert forall|i: int| 0 <= i < 4 implies #[trigger] (bc[i] as int) % q == product_fn(vb, vc, beta)(i) % q by {
        lemma_slot_mul_value(b, c, beta, i);
        lemma_mod_twice(ext_int(vb, vc, beta, i), q);
    }
    assert forall|i: int| 0 <= i < 4 implies #[trigger] (c[i] as int) % q == vc(i) % q by {}
    assert forall|i: int| 0 <= i < 4 implies #[trigger] (a[i] as int) % q == va(i) % q by {}
    let lhs = slot_mul(ab, c, beta);
    let rhs = slot_mul(a, bc, beta);
    assert forall|h: int| 0 <= h < 4 implies #[trigger] lhs[h] == rhs[h] by {
        lemma_extension_product_congruent(ab, c, product_fn(va, vb, beta), vc, beta, beta, q, h);
        lemma_extension_product_congruent(a, bc, va, product_fn(vb, vc, beta), beta, beta, q, h);
        lemma_ext_int_associative(va, vb, vc, beta, h);
    }
    assert(lhs =~= rhs);
}

/// `1` is a unit of the slot product on canonical residues.
pub proof fn lemma_slot_mul_unit(a: Seq<u64>, beta: int)
    requires
        a.len() == 4,
        is_reduced(a, QUARTIC_Q),
    ensures
        slot_mul(unit_slot(), a, beta) == a,
        slot_mul(a, unit_slot(), beta) == a,
{
    let u = unit_slot();
    assert forall|h: int| 0 <= h < 4 implies #[trigger] slot_mul(u, a, beta)[h] == a[h] by {
        lemma_slot_mul_value(u, a, beta, h);
        lemma_ext_int_expanded(slot_values(u), slot_values(a), beta);
        let (a0, a1, a2, a3) = (a[0] as int, a[1] as int, a[2] as int, a[3] as int);
        lemma_mul_basics(beta);
        lemma_mul_basics(a0);
        lemma_mul_basics(a1);
        lemma_mul_basics(a2);
        lemma_mul_basics(a3);
        lemma_small_mod(a[h] as nat, QUARTIC_Q as nat);
    }
    assert(slot_mul(u, a, beta) =~= a);
    lemma_slot_mul_commutative(u, a, beta);
}

/// `x^n` in the slot ring: `n` factors `x`.
pub open spec fn slot_pow(x: Seq<u64>, n: nat, beta: int) -> Seq<u64>
    decreases n,
{
    if n == 0 {
        unit_slot()
    } else {
        slot_mul(x, slot_pow(x, (n - 1) as nat, beta), beta)
    }
}

/// Powers are canonical slot elements.
pub proof fn lemma_slot_pow_reduced(x: Seq<u64>, n: nat, beta: int)
    requires
        x.len() == 4,
    ensures
        slot_pow(x, n, beta).len() == 4,
        is_reduced(slot_pow(x, n, beta), QUARTIC_Q),
    decreases n,
{
    if n > 0 {
        lemma_slot_pow_reduced(x, (n - 1) as nat, beta);
        lemma_slot_mul_reduced(x, slot_pow(x, (n - 1) as nat, beta), beta);
    }
}

/// `x^(2k) = (x^2)^k`.
pub proof fn lemma_slot_pow_square(x: Seq<u64>, k: nat, beta: int)
    requires
        x.len() == 4,
    ensures
        slot_pow(slot_mul(x, x, beta), k, beta) == slot_pow(x, 2 * k, beta),
    decreases k,
{
    if k > 0 {
        let sq = slot_mul(x, x, beta);
        lemma_slot_mul_reduced(x, x, beta);
        lemma_slot_pow_square(x, (k - 1) as nat, beta);
        let rest = slot_pow(x, (2 * k - 2) as nat, beta);
        lemma_slot_pow_reduced(x, (2 * k - 2) as nat, beta);
        assert(slot_pow(x, (2 * k - 1) as nat, beta) == slot_mul(x, rest, beta));
        lemma_slot_mul_associative(x, x, rest, beta);
    }
}

/// Binary exponentiation multiplies its accumulator by the power.
pub proof fn lemma_binary_power(acc: Seq<u64>, base: Seq<u64>, e: nat, beta: int)
    requires
        acc.len() == 4,
        base.len() == 4,
        is_reduced(acc, QUARTIC_Q),
    ensures
        binary_power(acc, base, e, beta) == slot_mul(acc, slot_pow(base, e, beta), beta),
    decreases e,
{
    lemma_slot_pow_reduced(base, e, beta);
    if e == 0 {
        lemma_slot_mul_unit(acc, beta);
    } else {
        let sq = slot_mul(base, base, beta);
        lemma_slot_mul_reduced(base, base, beta);
        lemma_slot_pow_square(base, e / 2, beta);
        lemma_slot_pow_reduced(base, 2 * (e / 2), beta);
        if e % 2 == 1 {
            let next = slot_mul(acc, base, beta);
            lemma_slot_mul_reduced(acc, base, beta);
            lemma_binary_power(next, sq, e / 2, beta);
            assert(slot_pow(base, e, beta) == slot_mul(base, slot_pow(base, 2 * (e / 2), beta), beta));
            lemma_slot_mul_associative(acc, base, slot_pow(base, 2 * (e / 2), beta), beta);
        } else {
            lemma_binary_power(acc, sq, e / 2, beta);
            assert(2 * (e / 2) == e);
        }
    }
}

/// `x^e` by binary exponentiation from `1` is the power.
pub proof fn lemma_binary_power_is_power(x: Seq<u64>, e: nat, beta: int)
    requires
        x.len() == 4,
    ensures
        binary_power(unit_slot(), x, e, beta) == slot_pow(x, e, beta),
{
    assert(is_reduced(unit_slot(), QUARTIC_Q));
    lemma_binary_power(unit_slot(), x, e, beta);
    lemma_slot_pow_reduced(x, e, beta);
    lemma_slot_mul_unit(slot_pow(x, e, beta), beta);
}

} // verus!
