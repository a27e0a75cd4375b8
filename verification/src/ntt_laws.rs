//! The inverse transform undoes the forward transform.
//!
//! The proof rests on three facts: finite sums may be reindexed by bit
//! reversal, a root `psi` with `psi^n = -1` has no power `psi^d = 1` for
//! `0 < d < 2n`, and geometric sums of the powers `psi^(2 delta)`,
//! `0 < delta < n`, vanish modulo `q`.
use vstd::arithmetic::div_mod::*;
use vstd::arithmetic::mul::*;
use vstd::arithmetic::power::*;
use vstd::prelude::*;

use crate::config::MOD_Q;
use crate::modular::is_reduced;
use crate::ntt::{
    bit_reverse, bit_reverse_acc, inverse_sum, ntt_exponent, ntt_inverse_point, ntt_inverse_spec,
    ntt_log2, ntt_point, ntt_root, ntt_size_inverse, ntt_spec, poly_eval, to_ints, valid_ntt_params,
    NTT_ROOT_MOD_Q, NTT_ROOT_QUARTIC_Q,
};
use crate::roots::{lemma_pow_of_one_mod, lemma_pow_of_reduced_pow, lemma_pow_periodic, lemma_root_order_mod_q, lemma_root_order_quartic_q};
use crate::quartic_ring::QUARTIC_Q;

verus! {

/// `sum_{t < n} f(t)`.
pub open spec fn sum_to(f: spec_fn(int) -> int, n: int) -> int
    decreases n,
{
    if n <= 0 {
        0
    } else {
        sum_to(f, n - 1) + f(n - 1)
    }
}

/// `2^b`.
pub open spec fn two_pow(b: nat) -> nat
    decreases b,
{
    if b == 0 {
        1
    } else {
        2 * two_pow((b - 1) as nat)
    }
}

/// Sums of functions that agree on the range agree.
pub proof fn lemma_sum_ext(f: spec_fn(int) -> int, g: spec_fn(int) -> int, n: int)
    requires
        forall|t: int| 0 <= t < n ==> #[trigger] f(t) == g(t),
    ensures
        sum_to(f, n) == sum_to(g, n),
    decreases n,
{
    if n > 0 {
        lemma_sum_ext(f, g, n - 1);
    }
}

/// Splitting a sum after its first `m` terms.
pub proof fn lemma_sum_split(f: spec_fn(int) -> int, m: int, k: int)
    requires
        m >= 0,
        k >= 0,
    ensures
        sum_to(f, m + k) == sum_to(f, m) + sum_to(|t: int| f(m + t), k),
    decreases k,
{
    if k > 0 {
        lemma_sum_split(f, m, k - 1);
    }
}

/// Splitting a sum into its even and odd terms.
pub proof fn lemma_sum_even_odd(f: spec_fn(int) -> int, m: int)
    requires
        m >= 0,
    ensures
        sum_to(f, 2 * m) == sum_to(|i: int| f(2 * i), m) + sum_to(|i: int| f(2 * i + 1), m),
    decreases m,
{
    if m > 0 {
        lemma_sum_even_odd(f, m - 1);
        assert(sum_to(f, 2 * m - 1) == sum_to(f, 2 * m - 2) + f(2 * m - 2));
        assert(sum_to(f, 2 * m) == sum_to(f, 2 * m - 1) + f(2 * m - 1));
    }
}

/// A constant factor moves out of a sum.
pub proof fn lemma_sum_scale(f: spec_fn(int) -> int, c: int, n: int)
    ensures
        sum_to(|t: int| c * f(t), n) == c * sum_to(f, n),
    decreases n,
{
    if n > 0 {
        lemma_sum_scale(f, c, n - 1);
        lemma_mul_is_distributive_add(c, sum_to(f, n - 1), f(n - 1));
    }
}

/// Sums add termwise.
pub proof fn lemma_sum_add(f: spec_fn(int) -> int, g: spec_fn(int) -> int, n: int)
    ensures
        sum_to(|t: int| f(t) + g(t), n) == sum_to(f, n) + sum_to(g, n),
    decreases n,
{
    if n > 0 {
        lemma_sum_add(f, g, n - 1);
    }
}

/// Termwise congruent sums are congruent.
pub proof fn lemma_sum_congruent(f: spec_fn(int) -> int, g: spec_fn(int) -> int, n: int, q: int)
    requires
        q > 0,
        forall|t: int| 0 <= t < n ==> #[trigger] f(t) % q == g(t) % q,
    ensures
        sum_to(f, n) % q == sum_to(g, n) % q,
    decreases n,
{
    if n > 0 {
        lemma_sum_congruent(f, g, n - 1, q);
        lemma_add_mod_noop(sum_to(f, n - 1), f(n - 1), q);
        lemma_add_mod_noop(sum_to(g, n - 1), g(n - 1), q);
    }
}

/// Exchanging the order of a double sum.
pub proof fn lemma_sum_swap(f: spec_fn(int, int) -> int, n: int, m: int)
    ensures
        sum_to(|j: int| sum_to(|k: int| f(j, k), m), n) == sum_to(
            |k: int| sum_to(|j: int| f(j, k), n),
            m,
        ),
    decreases n,
{
    if n > 0 {
        lemma_sum_swap(f, n - 1, m);
        let g = |k: int| sum_to(|j: int| f(j, k), n - 1);
        let h = |k: int| f(n - 1, k);
        lemma_sum_add(g, h, m);
        let whole = |k: int| sum_to(|j: int| f(j, k), n);
        let parts = |t: int| g(t) + h(t);
        assert forall|k: int| 0 <= k < m implies #[trigger] whole(k) == parts(k) by {
            assert(sum_to(|j: int| f(j, k), n) == sum_to(|j: int| f(j, k), n - 1) + f(n - 1, k));
        }
        lemma_sum_ext(whole, parts, m);
        let rows = |j: int| sum_to(|k: int| f(j, k), m);
        assert(sum_to(rows, n) == sum_to(rows, n - 1) + rows(n - 1));
        assert(rows(n - 1) == sum_to(h, m)) by {
            assert((|k: int| f(n - 1, k)) =~= h);
        }
        assert(sum_to(g, m) == sum_to(rows, n - 1));
        assert(sum_to(whole, m) == sum_to(parts, m));
        assert(sum_to(rows, n) == sum_to(whole, m));
    } else {
        let cols = |k: int| sum_to(|j: int| f(j, k), n);
        let zero = |t: int| 0int;
        assert forall|k: int| 0 <= k < m implies #[trigger] cols(k) == zero(k) by {}
        lemma_sum_ext(cols, zero, m);
        lemma_sum_zero(m);
    }
}

/// Only the term at `i` of an indicator-weighted sum survives.
pub proof fn lemma_sum_indicator(f: spec_fn(int) -> int, i: int, n: int)
    requires
        0 <= i < n,
    ensures
        sum_to(|k: int| if k == i { f(k) } else { 0 }, n) == f(i),
    decreases n,
{
    let g = |k: int| if k == i { f(k) } else { 0 };
    if n - 1 > i {
        lemma_sum_indicator(f, i, n - 1);
    } else {
        let zero = |t: int| 0int;
        assert forall|k: int| 0 <= k < n - 1 implies #[trigger] g(k) == zero(k) by {}
        lemma_sum_ext(g, zero, n - 1);
        lemma_sum_zero(n - 1);
    }
}

/// A sum of zeros is zero.
pub proof fn lemma_sum_zero(n: int)
    ensures
        sum_to(|t: int| 0int, n) == 0,
    decreases n,
{
    if n > 0 {
        lemma_sum_zero(n - 1);
    }
}

proof fn lemma_bit_reverse_acc_shift(j: nat, b: nat, acc: nat)
    ensures
        bit_reverse_acc(j, b, acc) == acc * two_pow(b) + bit_reverse_acc(j, b, 0),
    decreases b,
{
    if b > 0 {
        lemma_bit_reverse_acc_shift(j / 2, (b - 1) as nat, 2 * acc + j % 2);
        lemma_bit_reverse_acc_shift(j / 2, (b - 1) as nat, j % 2);
        let p = two_pow((b - 1) as nat);
        assert((2 * acc + j % 2) * p == acc * (2 * p) + (j % 2) * p) by (nonlinear_arith);
    } else {
        assert(acc * 1 == acc);
    }
}

/// Reversing `b` bits: the lowest bit of `j` becomes the highest.
pub proof fn lemma_bit_reverse_step(j: nat, b: nat)
    requires
        b > 0,
    ensures
        bit_reverse(j, b) == (j % 2) * two_pow((b - 1) as nat) + bit_reverse(j / 2, (b - 1) as nat),
{
    lemma_bit_reverse_acc_shift(j / 2, (b - 1) as nat, j % 2);
}

/// Reversing `b` bits stays below `2^b`.
pub proof fn lemma_bit_reverse_bound(j: nat, b: nat)
    ensures
        bit_reverse(j, b) < two_pow(b),
    decreases b,
{
    if b > 0 {
        lemma_bit_reverse_step(j, b);
        lemma_bit_reverse_bound(j / 2, (b - 1) as nat);
        let p = two_pow((b - 1) as nat);
        assert((j % 2) * p <= p) by (nonlinear_arith)
            requires
                j % 2 <= 1,
        ;
    }
}

/// A sum over `j < 2^b` may be taken over the bit reversals of `j` instead.
pub proof fn lemma_sum_bit_reversed(f: spec_fn(int) -> int, b: nat)
    ensures
        sum_to(|j: int| f(bit_reverse(j as nat, b) as int), two_pow(b) as int) == sum_to(
            f,
            two_pow(b) as int,
        ),
    decreases b,
{
    if b == 0 {
        let c = |j: int| f(bit_reverse(j as nat, b) as int);
        assert(bit_reverse(0, 0) == 0);
        assert(two_pow(0) == 1);
        assert(sum_to(c, 0) == 0);
        assert(sum_to(f, 0) == 0);
        assert(sum_to(c, 1) == c(0));
    } else {
        let m = two_pow((b - 1) as nat) as int;
        let g = |t: int| f(m + t);
        let lhs = |j: int| f(bit_reverse(j as nat, b) as int);
        lemma_sum_even_odd(lhs, m);
        let evens = |i: int| lhs(2 * i);
        let odds = |i: int| lhs(2 * i + 1);
        let low = |i: int| f(bit_reverse(i as nat, (b - 1) as nat) as int);
        let high = |i: int| g(bit_reverse(i as nat, (b - 1) as nat) as int);
        assert forall|i: int| 0 <= i < m implies #[trigger] evens(i) == low(i) by {
            lemma_bit_reverse_step((2 * i) as nat, b);
            assert((2 * i) as nat % 2 == 0);
            assert((2 * i) as nat / 2 == i);
        }
        assert forall|i: int| 0 <= i < m implies #[trigger] odds(i) == high(i) by {
            lemma_bit_reverse_step((2 * i + 1) as nat, b);
            assert((2 * i + 1) as nat % 2 == 1);
            assert((2 * i + 1) as nat / 2 == i);
        }
        lemma_sum_ext(evens, low, m);
        lemma_sum_ext(odds, high, m);
        lemma_sum_bit_reversed(f, (b - 1) as nat);
        lemma_sum_bit_reversed(g, (b - 1) as nat);
        lemma_sum_split(f, m, m);
    }
}

/// The root facts the transforms rely on.
pub proof fn lemma_root_facts(n: nat, q: u64)
    requires
        valid_ntt_params(n, q),
    ensures
        q > 2,
        n == two_pow(ntt_log2(n)),
        ntt_log2(n) >= 1,
        pow(ntt_root(q), n) % (q as int) == q - 1,
        pow(ntt_root(q), 2 * n) % (q as int) == 1,
        0 <= ntt_size_inverse(n, q) < q,
        (ntt_size_inverse(n, q) * n) % (q as int) == 1,
{
    reveal_with_fuel(two_pow, 7);
    if q == MOD_Q {
        lemma_root_order_mod_q();
        lemma_fundamental_div_mod_converse(MOD_Q as int - 1, 64, 17592186044374, 0);
        assert(ntt_size_inverse(n, q) == 1108307720795563);
        assert((1108307720795563int * 64) % 1125899906839937 == 1) by (nonlinear_arith);
    } else {
        lemma_root_order_quartic_q();
        lemma_fundamental_div_mod_converse(QUARTIC_Q as int - 1, 32, 28953440450810, 0);
        assert(ntt_size_inverse(n, q) == 897556653975111);
        assert((897556653975111int * 32) % 926510094425921 == 1) by (nonlinear_arith);
    }
}

/// An odd power of a residue congruent to `-1` is congruent to `-1`.
pub proof fn lemma_odd_power_of_minus_one(x: int, m: nat, q: int)
    requires
        q > 1,
        x % q == q - 1,
        m % 2 == 1,
    ensures
        pow(x, m) % q == q - 1,
    decreases m,
{
    if m == 1 {
        lemma_pow1(x);
    } else {
        lemma_odd_power_of_minus_one(x, (m - 2) as nat, q);
        lemma_pow_adds(x, (m - 2) as nat, 2);
        assert(pow(x, 2) == x * x) by {
            lemma_pow1(x);
            lemma_pow_adds(x, 1, 1);
        }
        lemma_mul_mod_noop(x, x, q);
        assert(((q - 1) * (q - 1)) % q == 1) by {
            assert((q - 1) * (q - 1) == q * (q - 2) + 1) by (nonlinear_arith);
            lemma_mod_multiples_vanish(q - 2, 1, q);
            lemma_small_mod(1, q as nat);
        }
        lemma_mul_mod_noop(pow(x, (m - 2) as nat), pow(x, 2), q);
        assert(((q - 1) * 1) % q == q - 1) by {
            lemma_small_mod((q - 1) as nat, q as nat);
        }
    }
}

/// A root with `psi^(2^L) = -1` has no power `psi^d = 1` for `0 < d < 2^(L+1)`.
pub proof fn lemma_no_small_order(psi: int, l: nat, q: int, d: nat)
    requires
        q > 2,
        pow(psi, two_pow(l)) % q == q - 1,
        0 < d < 2 * two_pow(l),
    ensures
        pow(psi, d) % q != 1,
    decreases l,
{
    if d % 2 == 1 {
        if pow(psi, d) % q == 1 {
            lemma_pow_of_one_mod(pow(psi, d), two_pow(l), q);
            lemma_pow_multiplies(psi, d, two_pow(l));
            lemma_pow_multiplies(psi, two_pow(l), d);
            lemma_mul_is_commutative(d as int, two_pow(l) as int);
            lemma_odd_power_of_minus_one(pow(psi, two_pow(l)), d, q);
        }
    } else {
        assert(l > 0);
        let psi2 = pow(psi, 2);
        let h = two_pow((l - 1) as nat);
        lemma_pow_multiplies(psi, 2, h);
        lemma_pow_multiplies(psi, 2, d / 2);
        assert(2 * (d / 2) == d);
        lemma_no_small_order(psi2, (l - 1) as nat, q, d / 2);
    }
}

/// Powers of a residue whose `h`-th power is `-1` cancel in blocks of `2h`.
pub proof fn lemma_geometric_block(w: int, h: nat, q: int, base: nat)
    requires
        q > 1,
        h >= 1,
        pow(w, h) % q == q - 1,
    ensures
        sum_to(|t: int| pow(w, (base + t) as nat), 2 * h as int) % q == 0,
{
    let f = |t: int| pow(w, (base + t) as nat);
    lemma_sum_split(f, h as int, h as int);
    let shifted = |t: int| f(h + t);
    lemma_sum_add(f, shifted, h as int);
    let pairs = |t: int| f(t) + shifted(t);
    let zero = |t: int| 0int;
    assert forall|t: int| 0 <= t < h implies #[trigger] pairs(t) % q == zero(t) % q by {
        let a = pow(w, (base + t) as nat);
        lemma_pow_adds(w, (base + t) as nat, h);
        assert((base + t) as nat + h == (base + (h + t)) as nat);
        assert(pairs(t) == a + a * pow(w, h));
        assert(a + a * pow(w, h) == a * (1 + pow(w, h))) by (nonlinear_arith);
        lemma_mul_mod_noop_right(a, 1 + pow(w, h), q);
        lemma_add_mod_noop(1, pow(w, h), q);
        lemma_small_mod(1, q as nat);
        lemma_mod_self_0(q);
        lemma_mul_basics(a);
        lemma_small_mod(0, q as nat);
    }
    lemma_sum_congruent(pairs, zero, h as int, q);
    lemma_sum_zero(h as int);
    lemma_small_mod(0, q as nat);
}

/// `sum_{t < 2^L} (psi^(2 delta))^t = 0` for `0 < delta < 2^L` when `psi^(2^L) = -1`.
pub proof fn lemma_root_sum_vanishes(psi: int, l: nat, q: int, delta: nat)
    requires
        q > 2,
        pow(psi, two_pow(l)) % q == q - 1,
        0 < delta < two_pow(l),
    ensures
        sum_to(|t: int| pow(pow(psi, 2 * delta), t as nat), two_pow(l) as int) % q == 0,
    decreases l,
{
    assert(l > 0);
    let w = pow(psi, 2 * delta);
    let h = two_pow((l - 1) as nat);
    let f = |t: int| pow(w, t as nat);
    if delta % 2 == 1 {
        lemma_pow_multiplies(psi, 2 * delta, h);
        assert((2 * delta) * h == delta * two_pow(l)) by (nonlinear_arith)
            requires
                two_pow(l) == 2 * h,
        ;
        lemma_pow_multiplies(psi, two_pow(l), delta);
        lemma_mul_is_commutative(delta as int, two_pow(l) as int);
        lemma_odd_power_of_minus_one(pow(psi, two_pow(l)), delta, q);
        lemma_geometric_block(w, h, q, 0);
        let from_zero = |t: int| pow(w, (0 + t) as nat);
        assert forall|t: int| 0 <= t < 2 * h implies #[trigger] from_zero(t) == f(t) by {}
        lemma_sum_ext(from_zero, f, 2 * h as int);
    } else {
        let psi2 = pow(psi, 2);
        lemma_pow_multiplies(psi, 2, h);
        lemma_pow_multiplies(psi, 2, 2 * (delta / 2));
        assert(2 * (2 * (delta / 2)) == 2 * delta);
        lemma_root_sum_vanishes(psi2, (l - 1) as nat, q, delta / 2);
        assert(pow(psi2, 2 * (delta / 2)) == w);
        lemma_sum_split(f, h as int, h as int);
        let shifted = |t: int| f(h + t);
        let scaled = |t: int| pow(w, h) * f(t);
        assert forall|t: int| 0 <= t < h implies #[trigger] shifted(t) == scaled(t) by {
            lemma_pow_adds(w, h, t as nat);
        }
        lemma_sum_ext(shifted, scaled, h as int);
        lemma_sum_scale(f, pow(w, h), h as int);
        lemma_mul_mod_noop_right(pow(w, h), sum_to(f, h as int), q);
        lemma_add_mod_noop(sum_to(f, h as int), pow(w, h) * sum_to(f, h as int), q);
        lemma_mul_basics(pow(w, h));
        lemma_small_mod(0, q as nat);
    }
}

/// A sum of a constant.
pub proof fn lemma_sum_const(c: int, n: int)
    requires
        n >= 0,
    ensures
        sum_to(|t: int| c, n) == c * n,
    decreases n,
{
    if n > 0 {
        lemma_sum_const(c, n - 1);
        lemma_mul_is_distributive_add(c, n - 1, 1);
        lemma_mul_basics(c);
    } else {
        lemma_mul_basics(c);
    }
}

/// Weight of input `k` in output `i` of a forward-then-inverse transform,
/// through position `j`: `p_j^k u_j^i`.
pub open spec fn roundtrip_weight(n: nat, q: u64, i: int, k: int, j: int) -> int {
    pow(ntt_point(n, q, j as nat), k as nat) * pow(ntt_inverse_point(n, q, j as nat), i as nat)
}

/// `psi^((2t + 1) k + (4n - 2t - 1) i)`: the weight through the position
/// whose evaluation point is `psi^(2t + 1)`.
pub open spec fn point_weight(n: nat, q: u64, i: int, k: int, t: int) -> int {
    pow(ntt_root(q), ((2 * t + 1) * k + (4 * n - 2 * t - 1) * i) as nat)
}

proof fn lemma_weight_through_point(n: nat, q: u64, i: int, k: int, j: int)
    requires
        valid_ntt_params(n, q),
        0 <= i < n,
        0 <= k < n,
        0 <= j < n,
    ensures
        roundtrip_weight(n, q, i, k, j) % (q as int) == point_weight(
            n,
            q,
            i,
            k,
            bit_reverse(j as nat, ntt_log2(n)) as int,
        ) % (q as int),
{
    let psi = ntt_root(q);
    let qi = q as int;
    let e = ntt_exponent(n, j as nat);
    let t = bit_reverse(j as nat, ntt_log2(n)) as int;
    crate::ntt::lemma_ntt_exponent_bound(n, j as nat);
    assert(e == 2 * t + 1);
    lemma_pow_of_reduced_pow(psi, e, k as nat, qi);
    lemma_pow_of_reduced_pow(psi, (4 * n - e) as nat, i as nat, qi);
    let a = pow(ntt_point(n, q, j as nat), k as nat);
    let b = pow(ntt_inverse_point(n, q, j as nat), i as nat);
    lemma_mul_mod_noop(a, b, qi);
    lemma_mul_mod_noop(pow(psi, e * (k as nat)), pow(psi, (4 * n - e) as nat * (i as nat)), qi);
    lemma_pow_adds(psi, e * (k as nat), (4 * n - e) as nat * (i as nat));
    assert(e * (k as nat) + (4 * n - e) as nat * (i as nat) == ((2 * t + 1) * k + (4 * n - 2 * t
        - 1) * i) as nat) by (nonlinear_arith)
        requires
            e == 2 * t + 1,
            e < 2 * n,
            k >= 0,
            i >= 0,
    ;
}

/// The transform's points are orthogonal: `sum_j p_j^k u_j^i = n [i = k] (mod q)`.
pub proof fn lemma_orthogonality(n: nat, q: u64, i: int, k: int)
    requires
        valid_ntt_params(n, q),
        0 <= i < n,
        0 <= k < n,
    ensures
        sum_to(|j: int| roundtrip_weight(n, q, i, k, j), n as int) % (q as int) == (if i == k {
            n as int
        } else {
            0
        }) % (q as int),
{
    let psi = ntt_root(q);
    let qi = q as int;
    let l = ntt_log2(n);
    lemma_root_facts(n, q);
    let weight = |j: int| roundtrip_weight(n, q, i, k, j);
    let g = |t: int| point_weight(n, q, i, k, t);
    let reversed = |j: int| g(bit_reverse(j as nat, l) as int);
    assert forall|j: int| 0 <= j < n implies #[trigger] weight(j) % qi == reversed(j) % qi by {
        lemma_weight_through_point(n, q, i, k, j);
    }
    lemma_sum_congruent(weight, reversed, n as int, qi);
    lemma_sum_bit_reversed(g, l);
    if i == k {
        let one = |t: int| 1int;
        assert forall|t: int| 0 <= t < n implies #[trigger] g(t) % qi == one(t) % qi by {
            assert(((2 * t + 1) * k + (4 * n - 2 * t - 1) * i) == (2 * n) * (2 * i)) by (
            nonlinear_arith)
                requires
                    i == k,
            ;
            lemma_pow_multiplies(psi, 2 * n, (2 * i) as nat);
            lemma_pow_of_one_mod(pow(psi, 2 * n), (2 * i) as nat, qi);
            lemma_small_mod(1, q as nat);
        }
        lemma_sum_congruent(g, one, n as int, qi);
        lemma_sum_const(1, n as int);
    } else {
        let delta: nat = if k > i {
            (k - i) as nat
        } else {
            (k - i + n) as nat
        };
        let base: nat = (k + (4 * n - 1) * i) as nat;
        let c = pow(psi, base);
        let w = pow(psi, 2 * delta);
        let geometric = |t: int| pow(pow(psi, 2 * delta), t as nat);
        let scaled = |t: int| c * geometric(t);
        assert forall|t: int| 0 <= t < n implies #[trigger] g(t) % qi == scaled(t) % qi by {
            let e: nat = ((2 * t + 1) * k + (4 * n - 2 * t - 1) * i) as nat;
            lemma_pow_multiplies(psi, 2 * delta, t as nat);
            lemma_pow_adds(psi, base, (2 * delta) * (t as nat));
            if k > i {
                assert(e == base + (2 * delta) * (t as nat)) by (nonlinear_arith)
                    requires
                        delta == k - i,
                        base == k + (4 * n - 1) * i,
                        e == (2 * t + 1) * k + (4 * n - 2 * t - 1) * i,
                        t >= 0,
                ;
            } else {
                assert(e + (2 * n) * (t as nat) == base + (2 * delta) * (t as nat)) by (
                nonlinear_arith)
                    requires
                        delta == k - i + n,
                        base == k + (4 * n - 1) * i,
                        e == (2 * t + 1) * k + (4 * n - 2 * t - 1) * i,
                        t >= 0,
                ;
                lemma_pow_periodic(psi, 2 * n, e, t as nat, qi);
            }
        }
        lemma_sum_congruent(g, scaled, n as int, qi);
        lemma_sum_scale(geometric, c, n as int);
        lemma_root_sum_vanishes(psi, l, qi, delta);
        lemma_mul_mod_noop_right(c, sum_to(geometric, n as int), qi);
        lemma_mul_basics(c);
        lemma_small_mod(0, q as nat);
    }
}

/// Horner-free reading of `poly_eval`: `sum_k a_k x^k`.
pub proof fn lemma_poly_eval_as_sum(a: Seq<int>, x: int)
    ensures
        poly_eval(a, x) == sum_to(|k: int| a[k] * pow(x, k as nat), a.len() as int),
    decreases a.len(),
{
    if a.len() > 0 {
        let b = a.drop_last();
        lemma_poly_eval_as_sum(b, x);
        let fa = |k: int| a[k] * pow(x, k as nat);
        let fb = |k: int| b[k] * pow(x, k as nat);
        assert forall|k: int| 0 <= k < b.len() implies #[trigger] fb(k) == fa(k) by {}
        lemma_sum_ext(fb, fa, b.len() as int);
    }
}

/// `inverse_sum` as a sum over positions.
pub proof fn lemma_inverse_sum_as_sum(y: Seq<u64>, q: u64, i: nat, k: int)
    ensures
        inverse_sum(y, q, i, k) == sum_to(
            |j: int| y[j] * pow(ntt_inverse_point(y.len(), q, j as nat), i),
            k,
        ),
    decreases k,
{
    if k > 0 {
        lemma_inverse_sum_as_sum(y, q, i, k - 1);
    }
}

/// Term `u_j^i a_k p_j^k` of the double sum behind one output of a roundtrip.
pub open spec fn roundtrip_term(a: Seq<u64>, q: u64, i: int, j: int, k: int) -> int {
    pow(ntt_inverse_point(a.len(), q, j as nat), i as nat) * (a[k] * pow(
        ntt_point(a.len(), q, j as nat),
        k as nat,
    ))
}

proof fn lemma_roundtrip_at(a: Seq<u64>, q: u64, i: int)
    requires
        valid_ntt_params(a.len(), q),
        is_reduced(a, q),
        0 <= i < a.len(),
    ensures
        ntt_inverse_spec(ntt_spec(a, q), q)[i] == a[i],
{
    let n = a.len();
    let qi = q as int;
    let y = ntt_spec(a, q);
    lemma_root_facts(n, q);
    lemma_inverse_sum_as_sum(y, q, i as nat, n as int);
    let s1 = |j: int| y[j] * pow(ntt_inverse_point(y.len(), q, j as nat), i as nat);
    let term = |j: int, k: int| roundtrip_term(a, q, i, j, k);
    let s2 = |j: int| sum_to(|k: int| term(j, k), n as int);
    assert forall|j: int| 0 <= j < n implies #[trigger] s1(j) % qi == s2(j) % qi by {
        let x = ntt_point(n, q, j as nat);
        let u = pow(ntt_inverse_point(n, q, j as nat), i as nat);
        let pe = poly_eval(to_ints(a), x);
        lemma_poly_eval_as_sum(to_ints(a), x);
        let f = |k: int| to_ints(a)[k] * pow(x, k as nat);
        lemma_sum_scale(f, u, n as int);
        let scaled = |k: int| u * f(k);
        assert forall|k: int| 0 <= k < n implies #[trigger] scaled(k) == term(j, k) by {}
        lemma_sum_ext(scaled, |k: int| term(j, k), n as int);
        lemma_mod_bound(pe, qi);
        assert(y[j] as int == pe % qi);
        lemma_mul_mod_noop_left(pe, u, qi);
        lemma_mul_is_commutative(pe, u);
    }
    lemma_sum_congruent(s1, s2, n as int, qi);
    lemma_sum_swap(term, n as int, n as int);
    let col = |k: int| sum_to(|j: int| term(j, k), n as int);
    let ind = |k: int| if k == i {
        a[k] * n
    } else {
        0
    };
    assert forall|k: int| 0 <= k < n implies #[trigger] col(k) % qi == ind(k) % qi by {
        let weights = |j: int| roundtrip_weight(n, q, i, k, j);
        let scaled = |j: int| a[k] * weights(j);
        assert forall|j: int| 0 <= j < n implies #[trigger] term(j, k) == scaled(j) by {
            let u = pow(ntt_inverse_point(n, q, j as nat), i as nat);
            let p = pow(ntt_point(n, q, j as nat), k as nat);
            assert(u * (a[k] * p) == a[k] * (p * u)) by (nonlinear_arith);
        }
        lemma_sum_ext(|j: int| term(j, k), scaled, n as int);
        lemma_sum_scale(weights, a[k] as int, n as int);
        lemma_orthogonality(n, q, i, k);
        lemma_mul_mod_noop_right(a[k] as int, sum_to(weights, n as int), qi);
        let o: int = if i == k {
            n as int
        } else {
            0
        };
        lemma_mul_mod_noop_right(a[k] as int, o, qi);
        lemma_mul_basics(a[k] as int);
    }
    lemma_sum_congruent(col, ind, n as int, qi);
    let weighted = |k: int| a[k] * n;
    lemma_sum_indicator(weighted, i, n as int);
    let picked = |k: int| if k == i {
        weighted(k)
    } else {
        0
    };
    assert forall|k: int| 0 <= k < n implies #[trigger] ind(k) == picked(k) by {}
    lemma_sum_ext(ind, picked, n as int);
    let total = inverse_sum(y, q, i as nat, n as int);
    assert(total == sum_to(s1, n as int));
    assert(sum_to(s2, n as int) == sum_to(col, n as int));
    assert(sum_to(ind, n as int) == a[i] * n);
    let ninv = ntt_size_inverse(n, q);
    assert(total % qi == (a[i] * n) % qi);
    lemma_mul_mod_noop_right(ninv, total, qi);
    lemma_mul_mod_noop_right(ninv, a[i] * n, qi);
    assert(ninv * (a[i] * n) == (ninv * n) * a[i]) by (nonlinear_arith);
    lemma_mul_mod_noop_left(ninv * n, a[i] as int, qi);
    lemma_small_mod(a[i] as nat, q as nat);
}

/// The inverse transform undoes the forward transform on canonical residues.
pub proof fn lemma_ntt_roundtrip(a: Seq<u64>, q: u64)
    requires
        valid_ntt_params(a.len(), q),
        is_reduced(a, q),
    ensures
        ntt_inverse_spec(ntt_spec(a, q), q) == a,
{
    assert forall|i: int| 0 <= i < a.len() implies #[trigger] ntt_inverse_spec(ntt_spec(a, q), q)[i]
        == a[i] by {
        lemma_roundtrip_at(a, q, i);
    }
    assert(ntt_inverse_spec(ntt_spec(a, q), q) =~= a);
}

/// Distinct exponents below `2^(L+1)` give distinct powers of a root `psi`
/// with `psi^(2^L) = -1`.
pub proof fn lemma_powers_distinct(psi: int, l: nat, q: int, e1: nat, e2: nat)
    requires
        q > 2,
        pow(psi, two_pow(l)) % q == q - 1,
        e1 < e2 < 2 * two_pow(l),
    ensures
        pow(psi, e1) % q != pow(psi, e2) % q,
{
    let n = two_pow(l);
    let d = (e2 - e1) as nat;
    lemma_no_small_order(psi, l, q, d);
    lemma_pow_multiplies(psi, n, 2);
    lemma_odd_power_of_minus_one(pow(psi, n), 1, q);
    assert(pow(pow(psi, n), 2) % q == 1) by {
        lemma_pow_adds(pow(psi, n), 1, 1);
        lemma_pow1(pow(psi, n));
        lemma_mul_mod_noop(pow(psi, n), pow(psi, n), q);
        assert((q - 1) * (q - 1) == q * (q - 2) + 1) by (nonlinear_arith);
        lemma_mod_multiples_vanish(q - 2, 1, q);
        lemma_small_mod(1, q as nat);
    }
    if pow(psi, e1) % q == pow(psi, e2) % q {
        let a = pow(psi, e1);
        let b = pow(psi, d);
        let c = pow(psi, (2 * n - e1) as nat);
        lemma_pow_adds(psi, e1, d);
        lemma_pow_adds(psi, (2 * n - e1) as nat, e1);
        assert(((2 * n - e1) as nat + e1) as nat == n * 2);
        lemma_mul_mod_noop_right(c, a, q);
        lemma_mul_mod_noop_right(c, a * b, q);
        lemma_mul_is_associative(c, a, b);
        lemma_mul_mod_noop_left(c * a, b, q);
        lemma_mul_basics(b);
    }
}

/// Bit reversal is injective on `[0, 2^b)`.
pub proof fn lemma_bit_reverse_injective(j1: nat, j2: nat, b: nat)
    requires
        j1 < two_pow(b),
        j2 < two_pow(b),
        bit_reverse(j1, b) == bit_reverse(j2, b),
    ensures
        j1 == j2,
    decreases b,
{
    if b > 0 {
        let h = two_pow((b - 1) as nat);
        lemma_bit_reverse_step(j1, b);
        lemma_bit_reverse_step(j2, b);
        lemma_bit_reverse_bound(j1 / 2, (b - 1) as nat);
        lemma_bit_reverse_bound(j2 / 2, (b - 1) as nat);
        let r1 = bit_reverse(j1 / 2, (b - 1) as nat);
        let r2 = bit_reverse(j2 / 2, (b - 1) as nat);
        lemma_fundamental_div_mod_converse(((j1 % 2) * h + r1) as int, h as int, (j1 % 2) as int, r1 as int);
        lemma_fundamental_div_mod_converse(((j2 % 2) * h + r2) as int, h as int, (j2 % 2) as int, r2 as int);
        lemma_bit_reverse_injective(j1 / 2, j2 / 2, (b - 1) as nat);
    }
}

/// Weight of position `j` in output `l` of an inverse-then-forward transform
/// at input power `i`: `p_l^i u_j^i`.
pub open spec fn dual_weight(n: nat, q: u64, l: int, j: int, i: int) -> int {
    pow(ntt_point(n, q, l as nat), i as nat) * pow(ntt_inverse_point(n, q, j as nat), i as nat)
}

/// The dual orthogonality: `sum_i p_l^i u_j^i = n [l = j] (mod q)`.
pub proof fn lemma_dual_orthogonality(n: nat, q: u64, l: int, j: int)
    requires
        valid_ntt_params(n, q),
        0 <= l < n,
        0 <= j < n,
    ensures
        sum_to(|i: int| dual_weight(n, q, l, j, i), n as int) % (q as int) == (if l == j {
            n as int
        } else {
            0
        }) % (q as int),
{
    let psi = ntt_root(q);
    let qi = q as int;
    let lg = ntt_log2(n);
    lemma_root_facts(n, q);
    let el = ntt_exponent(n, l as nat);
    let ej = ntt_exponent(n, j as nat);
    crate::ntt::lemma_ntt_exponent_bound(n, l as nat);
    crate::ntt::lemma_ntt_exponent_bound(n, j as nat);
    let big: nat = (el + 4 * n - ej) as nat;
    let weight = |i: int| dual_weight(n, q, l, j, i);
    let powers = |i: int| pow(psi, (i * big) as nat);
    assert forall|i: int| 0 <= i < n implies #[trigger] weight(i) % qi == powers(i) % qi by {
        lemma_pow_of_reduced_pow(psi, el, i as nat, qi);
        lemma_pow_of_reduced_pow(psi, (4 * n - ej) as nat, i as nat, qi);
        let a = pow(ntt_point(n, q, l as nat), i as nat);
        let b = pow(ntt_inverse_point(n, q, j as nat), i as nat);
        lemma_mul_mod_noop(a, b, qi);
        lemma_mul_mod_noop(pow(psi, el * (i as nat)), pow(psi, (4 * n - ej) as nat * (i as nat)), qi);
        lemma_pow_adds(psi, el * (i as nat), (4 * n - ej) as nat * (i as nat));
        assert(el * (i as nat) + (4 * n - ej) as nat * (i as nat) == (i * big) as nat) by (
        nonlinear_arith)
            requires
                big == el + 4 * n - ej,
                ej < 2 * n,
                i >= 0,
        ;
    }
    lemma_sum_congruent(weight, powers, n as int, qi);
    if l == j {
        let one = |t: int| 1int;
        assert forall|i: int| 0 <= i < n implies #[trigger] powers(i) % qi == one(i) % qi by {
            assert((i * big) as nat == (2 * n) * ((2 * i) as nat)) by (nonlinear_arith)
                requires
                    big == 4 * n,
                    i >= 0,
            ;
            lemma_pow_multiplies(psi, 2 * n, (2 * i) as nat);
            lemma_pow_of_one_mod(pow(psi, 2 * n), (2 * i) as nat, qi);
            lemma_small_mod(1, q as nat);
        }
        lemma_sum_congruent(powers, one, n as int, qi);
        lemma_sum_const(1, n as int);
    } else {
        let rl = bit_reverse(l as nat, lg);
        let rj = bit_reverse(j as nat, lg);
        if rl == rj {
            lemma_bit_reverse_injective(l as nat, j as nat, lg);
        }
        let delta: nat = if rl > rj {
            (rl - rj) as nat
        } else {
            (rl - rj + n) as nat
        };
        let k: nat = if rl > rj {
            2
        } else {
            1
        };
        lemma_bit_reverse_bound(l as nat, lg);
        lemma_bit_reverse_bound(j as nat, lg);
        assert(big == 2 * delta + (2 * n) * k);
        let w = pow(psi, 2 * delta);
        let geometric = |t: int| pow(pow(psi, 2 * delta), t as nat);
        assert forall|i: int| 0 <= i < n implies #[trigger] powers(i) % qi == geometric(i) % qi by {
            assert((i * big) as nat == (2 * delta) * (i as nat) + (2 * n) * ((i * k) as nat)) by (
            nonlinear_arith)
                requires
                    big == 2 * delta + (2 * n) * k,
                    i >= 0,
            ;
            crate::roots::lemma_pow_periodic(psi, 2 * n, (2 * delta) * (i as nat), (i * k) as nat, qi);
            lemma_pow_multiplies(psi, 2 * delta, i as nat);
        }
        lemma_sum_congruent(powers, geometric, n as int, qi);
        lemma_root_sum_vanishes(psi, lg, qi, delta);
        lemma_small_mod(0, q as nat);
    }
}

/// Term `ninv y_j p_l^i u_j^i` of the double sum behind one output of an
/// inverse-then-forward transform.
pub open spec fn dual_term(y: Seq<u64>, q: u64, l: int, i: int, j: int) -> int {
    ntt_size_inverse(y.len(), q) * (y[j] * dual_weight(y.len(), q, l, j, i))
}

proof fn lemma_dual_roundtrip_at(y: Seq<u64>, q: u64, l: int)
    requires
        valid_ntt_params(y.len(), q),
        is_reduced(y, q),
        0 <= l < y.len(),
    ensures
        ntt_spec(ntt_inverse_spec(y, q), q)[l] == y[l],
{
    let n = y.len();
    let qi = q as int;
    let x = ntt_inverse_spec(y, q);
    let ninv = ntt_size_inverse(n, q);
    lemma_root_facts(n, q);
    let p = ntt_point(n, q, l as nat);
    lemma_poly_eval_as_sum(to_ints(x), p);
    let outer = |i: int| to_ints(x)[i] * pow(p, i as nat);
    let term = |i: int, j: int| dual_term(y, q, l, i, j);
    let rows = |i: int| sum_to(|j: int| term(i, j), n as int);
    assert forall|i: int| 0 <= i < n implies #[trigger] outer(i) % qi == rows(i) % qi by {
        let pi = pow(p, i as nat);
        lemma_inverse_sum_as_sum(y, q, i as nat, n as int);
        let inner = |j: int| y[j] * pow(ntt_inverse_point(n, q, j as nat), i as nat);
        let total = sum_to(inner, n as int);
        assert(x[i] as int == (ninv * total) % qi);
        lemma_mul_mod_noop_left(ninv * total, pi, qi);
        lemma_sum_scale(inner, ninv * pi, n as int);
        let scaled = |j: int| (ninv * pi) * inner(j);
        assert forall|j: int| 0 <= j < n implies #[trigger] scaled(j) == term(i, j) by {
            let u = pow(ntt_inverse_point(n, q, j as nat), i as nat);
            assert((ninv * pi) * (y[j] * u) == ninv * (y[j] * (pi * u))) by (nonlinear_arith);
        }
        lemma_sum_ext(scaled, |j: int| term(i, j), n as int);
        assert((ninv * total) * pi == (ninv * pi) * total) by (nonlinear_arith);
    }
    lemma_sum_congruent(outer, rows, n as int, qi);
    lemma_sum_swap(term, n as int, n as int);
    let cols = |j: int| sum_to(|i: int| term(i, j), n as int);
    let ind = |j: int| if j == l {
        ninv * (y[j] * n)
    } else {
        0
    };
    assert forall|j: int| 0 <= j < n implies #[trigger] cols(j) % qi == ind(j) % qi by {
        let weights = |i: int| dual_weight(n, q, l, j, i);
        let c = ninv * y[j];
        let scaled = |i: int| c * weights(i);
        assert forall|i: int| 0 <= i < n implies #[trigger] term(i, j) == scaled(i) by {
            assert(ninv * (y[j] * weights(i)) == (ninv * y[j]) * weights(i)) by (nonlinear_arith);
        }
        lemma_sum_ext(|i: int| term(i, j), scaled, n as int);
        lemma_sum_scale(weights, c, n as int);
        lemma_dual_orthogonality(n, q, l, j);
        lemma_mul_mod_noop_right(c, sum_to(weights, n as int), qi);
        let o: int = if l == j {
            n as int
        } else {
            0
        };
        lemma_mul_mod_noop_right(c, o, qi);
        lemma_mul_basics(c);
        assert(c * (n as int) == ninv * (y[j] * n)) by (nonlinear_arith)
            requires
                c == ninv * y[j],
        ;
    }
    lemma_sum_congruent(cols, ind, n as int, qi);
    let weighted = |j: int| ninv * (y[j] * n);
    lemma_sum_indicator(weighted, l, n as int);
    let picked = |j: int| if j == l {
        weighted(j)
    } else {
        0
    };
    assert forall|j: int| 0 <= j < n implies #[trigger] ind(j) == picked(j) by {}
    lemma_sum_ext(ind, picked, n as int);
    assert(sum_to(rows, n as int) == sum_to(cols, n as int));
    let value = poly_eval(to_ints(x), p);
    assert(value % qi == (ninv * (y[l] * n)) % qi);
    assert(ninv * (y[l] * n) == (ninv * n) * y[l]) by (nonlinear_arith);
    lemma_mul_mod_noop_left(ninv * n, y[l] as int, qi);
    lemma_small_mod(y[l] as nat, q as nat);
}

/// The forward transform undoes the inverse transform on canonical residues.
pub proof fn lemma_ntt_roundtrip_dual(y: Seq<u64>, q: u64)
    requires
        valid_ntt_params(y.len(), q),
        is_reduced(y, q),
    ensures
        ntt_spec(ntt_inverse_spec(y, q), q) == y,
{
    assert forall|l: int| 0 <= l < y.len() implies #[trigger] ntt_spec(ntt_inverse_spec(y, q), q)[l]
        == y[l] by {
        lemma_dual_roundtrip_at(y, q, l);
    }
    assert(ntt_spec(ntt_inverse_spec(y, q), q) =~= y);
}

/// Termwise sum modulo `q`.
pub open spec fn sum_mod(a: Seq<u64>, b: Seq<u64>, q: u64) -> Seq<u64> {
    Seq::new(a.len(), |k: int| ((a[k] + b[k]) % (q as int)) as u64)
}

proof fn lemma_mod_of_sum(x: int, y: int, q: int)
    requires
        q > 0,
    ensures
        (x + y) % q == ((x % q) + (y % q)) % q,
{
    lemma_add_mod_noop(x, y, q);
}

/// The forward transform is additive modulo `q`.
pub proof fn lemma_ntt_additive(a: Seq<u64>, b: Seq<u64>, q: u64)
    requires
        valid_ntt_params(a.len(), q),
        b.len() == a.len(),
    ensures
        ntt_spec(sum_mod(a, b, q), q) == sum_mod(ntt_spec(a, q), ntt_spec(b, q), q),
{
    let n = a.len();
    let qi = q as int;
    let c = sum_mod(a, b, q);
    lemma_root_facts(n, q);
    assert forall|j: int| 0 <= j < n implies #[trigger] ntt_spec(c, q)[j] == sum_mod(
        ntt_spec(a, q),
        ntt_spec(b, q),
        q,
    )[j] by {
        let x = ntt_point(n, q, j as nat);
        lemma_poly_eval_as_sum(to_ints(a), x);
        lemma_poly_eval_as_sum(to_ints(b), x);
        lemma_poly_eval_as_sum(to_ints(c), x);
        let fa = |k: int| to_ints(a)[k] * pow(x, k as nat);
        let fb = |k: int| to_ints(b)[k] * pow(x, k as nat);
        let fc = |k: int| to_ints(c)[k] * pow(x, k as nat);
        let fab = |k: int| fa(k) + fb(k);
        assert forall|k: int| 0 <= k < n implies #[trigger] fc(k) % qi == fab(k) % qi by {
            let y = pow(x, k as nat);
            lemma_mul_mod_noop_left(a[k] + b[k], y, qi);
            assert((a[k] + b[k]) * y == a[k] * y + b[k] * y) by (nonlinear_arith);
        }
        lemma_sum_congruent(fc, fab, n as int, qi);
        lemma_sum_add(fa, fb, n as int);
        lemma_mod_of_sum(sum_to(fa, n as int), sum_to(fb, n as int), qi);
        lemma_mod_bound(sum_to(fa, n as int), qi);
        lemma_mod_bound(sum_to(fb, n as int), qi);
    }
    assert(ntt_spec(c, q) =~= sum_mod(ntt_spec(a, q), ntt_spec(b, q), q));
}

/// The inverse transform is additive modulo `q`.
pub proof fn lemma_ntt_inverse_additive(a: Seq<u64>, b: Seq<u64>, q: u64)
    requires
        valid_ntt_params(a.len(), q),
        b.len() == a.len(),
    ensures
        ntt_inverse_spec(sum_mod(a, b, q), q) == sum_mod(
            ntt_inverse_spec(a, q),
            ntt_inverse_spec(b, q),
            q,
        ),
{
    let n = a.len();
    let qi = q as int;
    let c = sum_mod(a, b, q);
    let ninv = ntt_size_inverse(n, q);
    lemma_root_facts(n, q);
    assert forall|i: int| 0 <= i < n implies #[trigger] ntt_inverse_spec(c, q)[i] == sum_mod(
        ntt_inverse_spec(a, q),
        ntt_inverse_spec(b, q),
        q,
    )[i] by {
        lemma_inverse_sum_as_sum(a, q, i as nat, n as int);
        lemma_inverse_sum_as_sum(b, q, i as nat, n as int);
        lemma_inverse_sum_as_sum(c, q, i as nat, n as int);
        let fa = |j: int| a[j] * pow(ntt_inverse_point(a.len(), q, j as nat), i as nat);
        let fb = |j: int| b[j] * pow(ntt_inverse_point(b.len(), q, j as nat), i as nat);
        let fc = |j: int| c[j] * pow(ntt_inverse_point(c.len(), q, j as nat), i as nat);
        let fab = |j: int| fa(j) + fb(j);
        assert forall|j: int| 0 <= j < n implies #[trigger] fc(j) % qi == fab(j) % qi by {
            let y = pow(ntt_inverse_point(n, q, j as nat), i as nat);
            lemma_mul_mod_noop_left(a[j] + b[j], y, qi);
            assert((a[j] + b[j]) * y == a[j] * y + b[j] * y) by (nonlinear_arith);
        }
        lemma_sum_congruent(fc, fab, n as int, qi);
        lemma_sum_add(fa, fb, n as int);
        let sa = sum_to(fa, n as int);
        let sb = sum_to(fb, n as int);
        let sc = sum_to(fc, n as int);
        lemma_mul_mod_noop_right(ninv, sc, qi);
        lemma_mul_mod_noop_right(ninv, sa + sb, qi);
        lemma_mul_is_distributive_add(ninv, sa, sb);
        lemma_mod_of_sum(ninv * sa, ninv * sb, qi);
        lemma_mod_bound(ninv * sa, qi);
        lemma_mod_bound(ninv * sb, qi);
    }
    assert(ntt_inverse_spec(c, q) =~= sum_mod(ntt_inverse_spec(a, q), ntt_inverse_spec(b, q), q));
}

} // verus!
