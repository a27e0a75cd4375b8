//! Negacyclic number-theoretic transforms of the two sizes used by the
//! library: size 64 modulo `MOD_Q` and size 32 modulo `QUARTIC_Q`.
//!
//! The forward transform of `a` evaluates the polynomial `sum_i a_i Y^i` at
//! the roots of `Y^n + 1`, output position `j` holding the value at
//! `psi^(2 rev(j) + 1)`, where `psi` is the minimal primitive `2n`-th root of
//! unity modulo `q` and `rev` reverses the `log2 n` low bits of `j`.
use vstd::arithmetic::div_mod::*;
use vstd::arithmetic::mul::*;
use vstd::arithmetic::power::*;
use vstd::prelude::*;

use crate::config::MOD_Q;
use crate::modular::{add_mod, is_reduced, mul_mod, pow_mod};
use crate::quartic_ring::QUARTIC_Q;

verus! {

/// Minimal primitive 128-th root of unity modulo `MOD_Q`.
pub const NTT_ROOT_MOD_Q: u64 = 17254385253701;

/// Minimal primitive 64-th root of unity modulo `QUARTIC_Q`.
pub const NTT_ROOT_QUARTIC_Q: u64 = 3;

/// Integer view of a vector of residues.
pub open spec fn to_ints(s: Seq<u64>) -> Seq<int> {
    s.map_values(|v: u64| v as int)
}

/// `sum_i a_i x^i` over the integers.
pub open spec fn poly_eval(a: Seq<int>, x: int) -> int
    decreases a.len(),
{
    if a.len() == 0 {
        0
    } else {
        poly_eval(a.drop_last(), x) + a.last() * pow(x, (a.len() - 1) as nat)
    }
}

/// Reverse the `bits` low bits of `j`, appending them to `acc`.
pub open spec fn bit_reverse_acc(j: nat, bits: nat, acc: nat) -> nat
    decreases bits,
{
    if bits == 0 {
        acc
    } else {
        bit_reverse_acc(j / 2, (bits - 1) as nat, 2 * acc + j % 2)
    }
}

/// Reverse the `bits` low bits of `j`.
pub open spec fn bit_reverse(j: nat, bits: nat) -> nat {
    bit_reverse_acc(j, bits, 0)
}

/// The two transform sizes and moduli of this library.
pub open spec fn valid_ntt_params(n: nat, q: u64) -> bool {
    (n == 64 && q == MOD_Q) || (n == 32 && q == QUARTIC_Q)
}

/// `log2 n` for the supported sizes.
pub open spec fn ntt_log2(n: nat) -> nat {
    if n == 64 {
        6
    } else {
        5
    }
}

/// The primitive `2n`-th root of unity used modulo `q`.
pub open spec fn ntt_root(q: u64) -> int {
    if q == MOD_Q {
        NTT_ROOT_MOD_Q as int
    } else {
        NTT_ROOT_QUARTIC_Q as int
    }
}

/// Exponent `2 rev(j) + 1` of the evaluation point of output position `j`.
pub open spec fn ntt_exponent(n: nat, j: nat) -> nat {
    2 * bit_reverse(j, ntt_log2(n)) + 1
}

/// Evaluation point of output position `j`, reduced modulo `q`.
pub open spec fn ntt_point(n: nat, q: u64, j: nat) -> int {
    pow(ntt_root(q), ntt_exponent(n, j)) % (q as int)
}

/// Inverse of the evaluation point of position `j`, reduced modulo `q`.
pub open spec fn ntt_inverse_point(n: nat, q: u64, j: nat) -> int {
    pow(ntt_root(q), (4 * n - ntt_exponent(n, j)) as nat) % (q as int)
}

/// Forward negacyclic transform of `a` (of a supported length `n`).
pub open spec fn ntt_spec(a: Seq<u64>, q: u64) -> Seq<u64> {
    Seq::new(
        a.len(),
        |j: int| (poly_eval(to_ints(a), ntt_point(a.len(), q, j as nat)) % (q as int)) as u64,
    )
}

/// `sum_{j < k} y_j u_j^i` where `u_j` is the inverse point of position `j`.
pub open spec fn inverse_sum(y: Seq<u64>, q: u64, i: nat, k: int) -> int
    decreases k,
{
    if k <= 0 {
        0
    } else {
        inverse_sum(y, q, i, k - 1) + y[k - 1] * pow(
            ntt_inverse_point(y.len(), q, (k - 1) as nat),
            i,
        )
    }
}

/// `n^{-1} mod q`.
pub open spec fn ntt_size_inverse(n: nat, q: u64) -> int {
    q - (q - 1) / (n as int)
}

/// Inverse negacyclic transform: `a_i = n^{-1} sum_j y_j u_j^i`.
pub open spec fn ntt_inverse_spec(y: Seq<u64>, q: u64) -> Seq<u64> {
    Seq::new(
        y.len(),
        |i: int|
            ((ntt_size_inverse(y.len(), q) * inverse_sum(y, q, i as nat, y.len() as int)) % (
            q as int)) as u64,
    )
}

/// Reverse the `bits` low bits of `j`.
pub fn bit_reverse_exec(j: usize, bits: usize) -> (r: usize)
    requires
        bits <= 6,
    ensures
        r as nat == bit_reverse(j as nat, bits as nat),
        r < 64,
{
    proof {
        lemma_bit_reverse_lt(j as nat, bits as nat);
        lemma_pow2_bound_le(bits as nat);
    }
    let mut x = j;
    let mut acc: usize = 0;
    let mut b = bits;
    while b > 0
        invariant
            bit_reverse_acc(x as nat, b as nat, acc as nat) == bit_reverse(j as nat, bits as nat),
            bit_reverse(j as nat, bits as nat) < 64,
            b <= bits,
        decreases b,
    {
        proof {
            lemma_bit_reverse_acc_ge(x as nat / 2, (b - 1) as nat, 2 * acc as nat + x as nat % 2);
        }
        acc = 2 * acc + x % 2;
        x = x / 2;
        b = b - 1;
    }
    acc
}

spec fn pow2_bound(k: nat) -> nat
    decreases k,
{
    if k == 0 {
        1
    } else {
        2 * pow2_bound((k - 1) as nat)
    }
}

proof fn lemma_pow2_bound_le(k: nat)
    requires
        k <= 6,
    ensures
        pow2_bound(k) <= 64,
{
    reveal_with_fuel(pow2_bound, 7);
}

proof fn lemma_bit_reverse_lt(j: nat, bits: nat)
    ensures
        bit_reverse(j, bits) < pow2_bound(bits),
{
    lemma_bit_reverse_bound(j, bits, 0);
    let p = pow2_bound(bits);
    assert((0nat + 1) * p == p) by (nonlinear_arith);
}

proof fn lemma_bit_reverse_acc_ge(j: nat, bits: nat, acc: nat)
    ensures
        acc <= bit_reverse_acc(j, bits, acc),
    decreases bits,
{
    if bits > 0 {
        lemma_bit_reverse_acc_ge(j / 2, (bits - 1) as nat, 2 * acc + j % 2);
    }
}

/// `log2 n` of a supported size.
fn log2_size(n: usize) -> (r: usize)
    requires
        n == 64 || n == 32,
    ensures
        r as nat == ntt_log2(n as nat),
{
    if n == 64 {
        6
    } else {
        5
    }
}

/// The root of unity used modulo `q`.
fn root_for(q: u64) -> (r: u64)
    ensures
        r as int == ntt_root(q),
{
    if q == MOD_Q {
        NTT_ROOT_MOD_Q
    } else {
        NTT_ROOT_QUARTIC_Q
    }
}

proof fn lemma_bit_reverse_bound(j: nat, bits: nat, acc: nat)
    ensures
        bit_reverse_acc(j, bits, acc) < (acc + 1) * pow2_bound(bits),
    decreases bits,
{
    if bits > 0 {
        let p = pow2_bound((bits - 1) as nat);
        assert(pow2_bound(bits) == 2 * p);
        lemma_bit_reverse_bound(j / 2, (bits - 1) as nat, 2 * acc + j % 2);
        assert((2 * acc + j % 2 + 1) * p <= (acc + 1) * (2 * p)) by (nonlinear_arith)
            requires
                j % 2 <= 1,
                p >= 0,
        ;
        assert((acc + 1) * pow2_bound(bits) == (acc + 1) * (2 * p));
        assert(bit_reverse_acc(j, bits, acc) == bit_reverse_acc(
            j / 2,
            (bits - 1) as nat,
            2 * acc + j % 2,
        ));
    } else {
        assert(pow2_bound(bits) == 1);
        assert((acc + 1) * pow2_bound(bits) == acc + 1) by (nonlinear_arith)
            requires
                pow2_bound(bits) == 1,
        ;
    }
}

/// Exponent of the evaluation point of output position `j`.
fn ntt_exponent_exec(n: usize, j: usize) -> (r: u64)
    requires
        n == 64 || n == 32,
        j < n,
    ensures
        r as nat == ntt_exponent(n as nat, j as nat),
        r < 128,
{
    let bits = log2_size(n);
    let rev = bit_reverse_exec(j, bits);
    (2 * rev + 1) as u64
}

/// Evaluation point of output position `j`.
pub fn ntt_point_exec(n: usize, q: u64, j: usize) -> (r: u64)
    requires
        valid_ntt_params(n as nat, q),
        j < n,
    ensures
        r as int == ntt_point(n as nat, q, j as nat),
        r < q,
{
    let e = ntt_exponent_exec(n, j);
    pow_mod(root_for(q), e, q)
}

/// Inverse of the evaluation point of output position `j`.
fn ntt_inverse_point_exec(n: usize, q: u64, j: usize) -> (r: u64)
    requires
        valid_ntt_params(n as nat, q),
        j < n,
    ensures
        r as int == ntt_inverse_point(n as nat, q, j as nat),
        r < q,
{
    let e = ntt_exponent_exec(n, j);
    pow_mod(root_for(q), 4 * (n as u64) - e, q)
}

proof fn lemma_poly_eval_take_step(a: Seq<int>, x: int, i: int)
    requires
        0 <= i < a.len(),
    ensures
        poly_eval(a.take(i + 1), x) == poly_eval(a.take(i), x) + a[i] * pow(x, i as nat),
{
    assert(a.take(i + 1).drop_last() =~= a.take(i));
}

/// `sum_i a_i x^i mod q`.
pub fn poly_eval_mod(a: &Vec<u64>, x: u64, q: u64) -> (r: u64)
    requires
        q > 1,
        q <= 0x8000_0000_0000_0000,
        x < q,
    ensures
        r < q,
        r as int == poly_eval(to_ints(a@), x as int) % (q as int),
{
    let mut acc: u64 = 0;
    let mut xp: u64 = 1 % q;
    let ghost s = to_ints(a@);
    let mut i: usize = 0;
    proof {
        assert(s.take(0) =~= Seq::<int>::empty());
        lemma_pow0(x as int);
        lemma_small_mod(0, q as nat);
    }
    while i < a.len()
        invariant
            q > 1,
            q <= 0x8000_0000_0000_0000,
            x < q,
            i <= a.len(),
            s == to_ints(a@),
            acc < q,
            xp < q,
            acc as int == poly_eval(s.take(i as int), x as int) % (q as int),
            xp as int == pow(x as int, i as nat) % (q as int),
        decreases a.len() - i,
    {
        let term = mul_mod(a[i], xp, q);
        let new_acc = add_mod(acc, term, q);
        proof {
            lemma_poly_eval_take_step(s, x as int, i as int);
            let p = pow(x as int, i as nat);
            let e = poly_eval(s.take(i as int), x as int);
            lemma_mul_mod_noop_right(a[i as int] as int, p, q as int);
            lemma_add_mod_noop(e, a[i as int] as int * p, q as int);
            lemma_mod_twice(e, q as int);
            lemma_mod_twice(a[i as int] as int * p, q as int);
            lemma_pow_adds(x as int, i as nat, 1);
            lemma_pow1(x as int);
            lemma_mul_mod_noop_left(p, x as int, q as int);
        }
        acc = new_acc;
        xp = mul_mod(xp, x, q);
        i = i + 1;
    }
    proof {
        assert(s.take(a.len() as int) =~= s);
    }
    acc
}

/// Forward negacyclic transform, computed by direct evaluation.
pub fn ntt_forward(a: &Vec<u64>, n: usize, q: u64) -> (r: Vec<u64>)
    requires
        valid_ntt_params(n as nat, q),
        a.len() == n,
    ensures
        r@ == ntt_spec(a@, q),
        is_reduced(r@, q),
{
    let mut r: Vec<u64> = Vec::new();
    let mut j: usize = 0;
    while j < n
        invariant
            valid_ntt_params(n as nat, q),
            a.len() == n,
            j <= n,
            r.len() == j,
            forall|k: int| 0 <= k < j ==> #[trigger] r@[k] == ntt_spec(a@, q)[k],
            is_reduced(r@, q),
        decreases n - j,
    {
        let x = ntt_point_exec(n, q, j);
        let v = poly_eval_mod(a, x, q);
        r.push(v);
        j = j + 1;
    }
    proof {
        assert(r@ =~= ntt_spec(a@, q));
    }
    r
}

/// Forward negacyclic transform in place.
pub fn ntt_forward_in_place(data: &mut Vec<u64>, n: usize, q: u64)
    requires
        valid_ntt_params(n as nat, q),
        old(data).len() == n,
    ensures
        final(data)@ == ntt_spec(old(data)@, q),
        is_reduced(final(data)@, q),
{
    let r = ntt_forward(data, n, q);
    *data = r;
}

/// `n^{-1} mod q` for a supported size.
fn ntt_size_inverse_exec(n: usize, q: u64) -> (r: u64)
    requires
        valid_ntt_params(n as nat, q),
    ensures
        r as int == ntt_size_inverse(n as nat, q),
        r < q,
        (r as int * n as int) % (q as int) == 1,
{
    proof {
        assert((64 * (MOD_Q - (MOD_Q - 1) / 64)) % (MOD_Q as int) == 1);
        assert((32 * (QUARTIC_Q - (QUARTIC_Q - 1) / 32)) % (QUARTIC_Q as int) == 1);
    }
    q - (q - 1) / (n as u64)
}

/// Inverse negacyclic transform, computed by direct interpolation.
pub fn ntt_inverse(y: &Vec<u64>, n: usize, q: u64) -> (r: Vec<u64>)
    requires
        valid_ntt_params(n as nat, q),
        y.len() == n,
    ensures
        r@ == ntt_inverse_spec(y@, q),
        is_reduced(r@, q),
{
    let ninv = ntt_size_inverse_exec(n, q);
    let mut points: Vec<u64> = Vec::new();
    let mut j: usize = 0;
    while j < n
        invariant
            valid_ntt_params(n as nat, q),
            j <= n,
            points.len() == j,
            forall|k: int|
                0 <= k < j ==> #[trigger] points@[k] as int == ntt_inverse_point(
                    n as nat,
                    q,
                    k as nat,
                ),
            is_reduced(points@, q),
        decreases n - j,
    {
        let u = ntt_inverse_point_exec(n, q, j);
        points.push(u);
        j = j + 1;
    }
    let mut r: Vec<u64> = Vec::new();
    let mut i: usize = 0;
    while i < n
        invariant
            valid_ntt_params(n as nat, q),
            y.len() == n,
            points.len() == n,
            forall|k: int|
                0 <= k < n ==> #[trigger] points@[k] as int == ntt_inverse_point(
                    n as nat,
                    q,
                    k as nat,
                ),
            ninv as int == ntt_size_inverse(n as nat, q),
            ninv < q,
            i <= n,
            r.len() == i,
            forall|k: int| 0 <= k < i ==> #[trigger] r@[k] == ntt_inverse_spec(y@, q)[k],
            is_reduced(r@, q),
        decreases n - i,
    {
        let mut acc: u64 = 0;
        let mut k: usize = 0;
        proof {
            lemma_small_mod(0, q as nat);
        }
        while k < n
            invariant
                valid_ntt_params(n as nat, q),
                y.len() == n,
                points.len() == n,
                forall|m: int|
                    0 <= m < n ==> #[trigger] points@[m] as int == ntt_inverse_point(
                        n as nat,
                        q,
                        m as nat,
                    ),
                i < n,
                k <= n,
                acc < q,
                acc as int == inverse_sum(y@, q, i as nat, k as int) % (q as int),
            decreases n - k,
        {
            let p = pow_mod(points[k], i as u64, q);
            let term = mul_mod(y[k], p, q);
            proof {
                let u = ntt_inverse_point(n as nat, q, k as nat);
                let prev = inverse_sum(y@, q, i as nat, k as int);
                lemma_pow_mod_noop(u, i as nat, q as int);
                lemma_small_mod(points@[k as int] as nat, q as nat);
                lemma_mul_mod_noop_right(y@[k as int] as int, pow(u, i as nat), q as int);
                lemma_add_mod_noop(prev, y@[k as int] as int * pow(u, i as nat), q as int);
                lemma_mod_twice(prev, q as int);
                lemma_mod_twice(y@[k as int] as int * pow(u, i as nat), q as int);
            }
            acc = add_mod(acc, term, q);
            k = k + 1;
        }
        let v = mul_mod(ninv, acc, q);
        proof {
            lemma_mul_mod_noop_right(
                ninv as int,
                inverse_sum(y@, q, i as nat, n as int),
                q as int,
            );
        }
        r.push(v);
        i = i + 1;
    }
    proof {
        assert(r@ =~= ntt_inverse_spec(y@, q));
    }
    r
}

/// Inverse negacyclic transform in place.
pub fn ntt_inverse_in_place(data: &mut Vec<u64>, n: usize, q: u64)
    requires
        valid_ntt_params(n as nat, q),
        old(data).len() == n,
    ensures
        final(data)@ == ntt_inverse_spec(old(data)@, q),
        is_reduced(final(data)@, q),
{
    let r = ntt_inverse(data, n, q);
    *data = r;
}

/// The exponent of every evaluation point is odd and below `2n`.
pub proof fn lemma_ntt_exponent_bound(n: nat, j: nat)
    requires
        n == 64 || n == 32,
    ensures
        ntt_exponent(n, j) % 2 == 1,
        ntt_exponent(n, j) < 2 * n,
{
    lemma_bit_reverse_lt(j, ntt_log2(n));
    reveal_with_fuel(pow2_bound, 7);
}

proof fn lemma_bit_reverse_zero(bits: nat)
    ensures
        bit_reverse_acc(0, bits, 0) == 0,
    decreases bits,
{
    if bits > 0 {
        lemma_bit_reverse_zero((bits - 1) as nat);
    }
}

/// Position 0 is evaluated at `psi` itself.
pub proof fn lemma_ntt_exponent_zero(n: nat)
    ensures
        ntt_exponent(n, 0) == 1,
{
    lemma_bit_reverse_zero(ntt_log2(n));
}

/// The vector `(0, 1, 0, ..., 0)` of length `n`.
pub open spec fn unit_vector(n: nat) -> Seq<u64> {
    Seq::new(n, |i: int| if i == 1 { 1u64 } else { 0u64 })
}

proof fn lemma_poly_eval_unit_prefix(n: nat, x: int)
    requires
        n >= 2,
    ensures
        poly_eval(to_ints(unit_vector(n)), x) == x,
    decreases n,
{
    let s = to_ints(unit_vector(n));
    if n == 2 {
        let s1 = s.drop_last();
        assert(s1.drop_last() =~= Seq::<int>::empty());
        lemma_pow0(x);
        lemma_pow1(x);
        assert(poly_eval(s1.drop_last(), x) == 0);
        assert(s1.last() == 0);
        assert(poly_eval(s1, x) == 0 + 0 * pow(x, 0));
        assert(poly_eval(s, x) == poly_eval(s1, x) + 1 * pow(x, 1));
    } else {
        assert(s.drop_last() =~= to_ints(unit_vector((n - 1) as nat)));
        lemma_poly_eval_unit_prefix((n - 1) as nat, x);
        assert(s.last() == 0);
        assert(poly_eval(s, x) == poly_eval(s.drop_last(), x) + 0 * pow(x, (n - 1) as nat));
    }
}

/// The forward transform of `Y` holds the evaluation points.
pub proof fn lemma_ntt_of_unit(n: nat, q: u64, j: nat)
    requires
        valid_ntt_params(n, q),
        j < n,
    ensures
        ntt_spec(unit_vector(n), q)[j as int] as int == ntt_point(n, q, j),
{
    lemma_poly_eval_unit_prefix(n, ntt_point(n, q, j));
    let x = ntt_point(n, q, j);
    lemma_mod_bound(pow(ntt_root(q), ntt_exponent(n, j)), q as int);
    lemma_small_mod(x as nat, q as nat);
}

/// A polynomial whose only nonzero coefficient is the constant one
/// evaluates to that constant.
pub proof fn lemma_poly_eval_constant(s: Seq<int>, x: int)
    requires
        s.len() >= 1,
        forall|i: int| 1 <= i < s.len() ==> #[trigger] s[i] == 0,
    ensures
        poly_eval(s, x) == s[0],
    decreases s.len(),
{
    if s.len() == 1 {
        assert(s.drop_last() =~= Seq::<int>::empty());
        assert(poly_eval(s.drop_last(), x) == 0);
        lemma_pow0(x);
        lemma_mul_basics(s[0]);
        assert(poly_eval(s, x) == poly_eval(s.drop_last(), x) + s.last() * pow(x, 0));
    } else {
        assert(s.drop_last()[0] == s[0]);
        lemma_poly_eval_constant(s.drop_last(), x);
        assert(s.last() == 0);
        lemma_mul_basics(pow(x, (s.len() - 1) as nat));
    }
}

} // verus!
