//! Arithmetic in `Z_q` on canonical representatives `0 <= x < q`.
use vstd::arithmetic::div_mod::*;
use vstd::arithmetic::mul::*;
use vstd::arithmetic::power::*;
use vstd::prelude::*;


verus! {

/// Every entry of `s` is a canonical representative modulo `q`.
pub open spec fn is_reduced(s: Seq<u64>, q: u64) -> bool {
    forall|i: int| 0 <= i < s.len() ==> #[trigger] s[i] < q
}

/// `x` is the canonical inverse of `f` modulo `q`.
pub open spec fn is_inverse_of(x: int, f: int, q: int) -> bool {
    0 <= x < q && (x * f) % q == 1
}

/// `a * b mod q`.
pub fn mul_mod(a: u64, b: u64, q: u64) -> (r: u64)
    requires
        q > 0,
    ensures
        r < q,
        r as int == (a as int * b as int) % (q as int),
{
    assert(a as int * b as int <= u64::MAX as int * u64::MAX as int) by (nonlinear_arith);
    let p: u128 = (a as u128) * (b as u128);
    let r = p % (q as u128);
    r as u64
}

/// `a + b mod q`.
pub fn add_mod(a: u64, b: u64, q: u64) -> (r: u64)
    requires
        q > 0,
    ensures
        r < q,
        r as int == (a as int + b as int) % (q as int),
{
    let s: u128 = (a as u128) + (b as u128);
    (s % (q as u128)) as u64
}

/// `a - b mod q`.
pub fn sub_mod(a: u64, b: u64, q: u64) -> (r: u64)
    requires
        q > 0,
    ensures
        r < q,
        r as int == (a as int - b as int) % (q as int),
{
    let a1 = a % q;
    let b1 = b % q;
    proof {
        lemma_sub_mod_noop(a as int, b as int, q as int);
    }
    if a1 >= b1 {
        proof {
            lemma_small_mod((a1 - b1) as nat, q as nat);
        }
        a1 - b1
    } else {
        proof {
            lemma_fundamental_div_mod_converse(a1 as int - b1 as int, q as int, -1, a1 + q - b1);
        }
        a1 + (q - b1)
    }
}

proof fn lemma_pow_square_step(result: int, b: int, e: nat, q: int)
    requires
        q > 0,
    ensures
        (result * pow(b, e)) % q == ((if e % 2 == 1 {
            (result * b) % q
        } else {
            result
        }) * pow((b * b) % q, e / 2)) % q,
{
    let k = e / 2;
    lemma_pow_adds(b, e % 2, 2 * k);
    lemma_pow_multiplies(b, 2, k);
    lemma_square_is_pow2(b);
    lemma_pow_mod_noop(b * b, k, q);
    let pk = pow(b * b, k);
    let pkm = pow((b * b) % q, k);
    if e % 2 == 1 {
        lemma_pow1(b);
        assert(pow(b, e) == b * pk);
        lemma_mul_is_associative(result, b, pk);
        lemma_mul_mod_noop_left(result * b, pk, q);
        lemma_mul_mod_noop_right((result * b) % q, pk, q);
        lemma_mul_mod_noop_right((result * b) % q, pkm, q);
    } else {
        lemma_pow0(b);
        assert(pow(b, e) == pk);
        lemma_mul_mod_noop_right(result, pk, q);
        lemma_mul_mod_noop_right(result, pkm, q);
    }
}

/// `base^exp mod q` by square-and-multiply.
pub fn pow_mod(base: u64, exp: u64, q: u64) -> (r: u64)
    requires
        q > 1,
    ensures
        r < q,
        r as int == pow(base as int, exp as nat) % (q as int),
{
    let mut b = base % q;
    let mut e = exp;
    let mut result: u64 = 1;
    proof {
        lemma_pow_mod_noop(base as int, exp as nat, q as int);
        lemma_small_mod(1, q as nat);
    }
    while e > 0
        invariant
            q > 1,
            b < q,
            result < q,
            (result as int * pow(b as int, e as nat)) % (q as int) == pow(base as int, exp as nat)
                % (q as int),
        decreases e,
    {
        proof {
            lemma_pow_square_step(result as int, b as int, e as nat, q as int);
        }
        if e % 2 == 1 {
            result = mul_mod(result, b, q);
        }
        b = mul_mod(b, b, q);
        e = e / 2;
    }
    proof {
        lemma_pow0(b as int);
        lemma_small_mod(result as nat, q as nat);
    }
    result
}

/// `d` divides `x`.
pub open spec fn divides(d: int, x: int) -> bool {
    x % d == 0
}

proof fn lemma_divides_combination(x: int, y: int, k: int, d: int)
    requires
        d > 0,
        y % d == 0,
    ensures
        (x - k * y) % d == 0 <==> x % d == 0,
{
    lemma_fundamental_div_mod(y, d);
    let m = y / d;
    assert(y == d * m);
    assert(k * y == (k * m) * d) by (nonlinear_arith)
        requires
            y == d * m,
    ;
    lemma_mod_multiples_vanish(-(k * m), x, d);
    assert(x - k * y == d * (-(k * m)) + x) by (nonlinear_arith)
        requires
            k * y == (k * m) * d,
    ;
}

proof fn lemma_no_inverse_when_common_factor(a: int, q: int, g: int, y: int)
    requires
        q > 0,
        g > 1,
        a % g == 0,
        q % g == 0,
    ensures
        (y * a) % q != 1,
{
    if (y * a) % q == 1 {
        lemma_fundamental_div_mod(y * a, q);
        let k = (y * a) / q;
        assert(y * a - k * q == 1);
        lemma_fundamental_div_mod(a, g);
        assert((y * a) % g == 0) by {
            assert(y * a == (y * (a / g)) * g) by (nonlinear_arith)
                requires
                    a == g * (a / g),
            ;
            lemma_mod_multiples_basic(y * (a / g), g);
        }
        lemma_divides_combination(y * a, q, k, g);
        lemma_small_mod(1, g as nat);
    }
}

proof fn lemma_inverse_step(old_s: int, s: int, quo: int, a: int, old_r: int, r: int, q: int)
    requires
        q > 0,
        (old_s * a) % q == old_r % q,
        (s * a) % q == r % q,
    ensures
        ((old_s - quo * s) * a) % q == (old_r - quo * r) % q,
{
    assert((old_s - quo * s) * a == old_s * a - quo * (s * a)) by (nonlinear_arith);
    lemma_sub_mod_noop(old_s * a, quo * (s * a), q);
    lemma_mul_mod_noop_right(quo, s * a, q);
    lemma_mul_mod_noop_right(quo, r, q);
    lemma_sub_mod_noop(old_r, quo * r, q);
}

/// Modular inverse by the extended Euclidean algorithm. Returns the inverse
/// of `a` in `[0, q)` when it exists, and `None` exactly when `a` has no
/// inverse modulo `q`.
pub fn inv_mod(a: u64, q: u64) -> (r: Option<u64>)
    requires
        q > 1,
        q <= 0x8000_0000_0000_0000,
    ensures
        match r {
            Some(x) => x < q && (x as int * a as int) % (q as int) == 1,
            None => forall|y: int| #[trigger] ((y * a as int) % (q as int)) != 1,
        },
{
    let a0 = a % q;
    let mut old_r: u64 = a0;
    let mut r: u64 = q;
    let mut old_s: u64 = 1;
    let mut s: u64 = 0;
    proof {
        lemma_small_mod(1, q as nat);
        lemma_mod_self_0(q as int);
        lemma_mul_mod_noop_right(1, a as int, q as int);
        lemma_mod_twice(a as int, q as int);
        lemma_small_mod(0, q as nat);
    }
    while r != 0
        invariant
            q > 1,
            q <= 0x8000_0000_0000_0000,
            a0 == a % q,
            old_r <= q,
            r <= q,
            old_r > 0 || r > 0,
            old_s < q,
            s < q,
            (old_s as int * a as int) % (q as int) == (old_r as int) % (q as int),
            (s as int * a as int) % (q as int) == (r as int) % (q as int),
            forall|d: int|
                d > 0 ==> ((#[trigger] divides(d, old_r as int) && divides(d, r as int)) <==> (
                divides(d, a0 as int) && divides(d, q as int))),
        decreases r,
    {
        let quo = old_r / r;
        let new_r = old_r % r;
        let t = mul_mod(quo % q, s, q);
        let new_s = sub_mod(old_s, t, q);
        proof {
            lemma_fundamental_div_mod(old_r as int, r as int);
            lemma_mul_is_commutative(r as int, quo as int);
            assert(new_r as int == old_r as int - quo as int * r as int);
            lemma_inverse_step(
                old_s as int,
                s as int,
                quo as int,
                a as int,
                old_r as int,
                r as int,
                q as int,
            );
            lemma_mul_mod_noop_left(quo as int, s as int, q as int);
            assert(t as int == (quo as int * s as int) % (q as int));
            lemma_small_mod(old_s as nat, q as nat);
            lemma_sub_mod_noop(old_s as int, quo as int * s as int, q as int);
            assert(new_s as int == (old_s as int - quo as int * s as int) % (q as int));
            assert((new_s as int * a as int) % (q as int) == (new_r as int) % (q as int)) by {
                lemma_mul_mod_noop_left(old_s as int - quo as int * s as int, a as int, q as int);
            }
            assert forall|d: int| d > 0 implies ((#[trigger] divides(d, r as int) && divides(
                d,
                new_r as int,
            )) <==> (divides(d, old_r as int) && divides(d, r as int))) by {
                if (r as int) % d == 0 {
                    lemma_divides_combination(old_r as int, r as int, quo as int, d);
                }
            }
            assert forall|d: int| d > 0 implies ((#[trigger] divides(d, r as int) && divides(
                d,
                new_r as int,
            )) <==> (divides(d, a0 as int) && divides(d, q as int))) by {
                assert((divides(d, r as int) && divides(d, new_r as int)) <==> (divides(
                    d,
                    old_r as int,
                ) && divides(d, r as int)));
                assert((divides(d, old_r as int) && divides(d, r as int)) <==> (divides(
                    d,
                    a0 as int,
                ) && divides(d, q as int)));
            }
        }
        old_r = r;
        r = new_r;
        old_s = s;
        s = new_s;
    }
    if old_r == 1 {
        proof {
            lemma_small_mod(1, q as nat);
        }
        Some(old_s)
    } else {
        proof {
            assert(divides(old_r as int, old_r as int)) by {
                lemma_mod_self_0(old_r as int);
            }
            assert(divides(old_r as int, 0)) by {
                lemma_small_mod(0, old_r as nat);
            }
            assert((a as int) % (old_r as int) == 0) by {
                lemma_fundamental_div_mod(a as int, q as int);
                assert(a as int - (a / q) as int * q as int == a0 as int);
                lemma_divides_combination(a as int, q as int, (a / q) as int, old_r as int);
            }
            assert forall|y: int| #[trigger] ((y * a as int) % (q as int)) != 1 by {
                lemma_no_inverse_when_common_factor(a as int, q as int, old_r as int, y);
            }
        }
        None
    }
}

} // verus!
