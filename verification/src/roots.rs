//! Facts about the roots of unity of the two moduli.
use vstd::arithmetic::div_mod::*;
use vstd::arithmetic::mul::*;
use vstd::arithmetic::power::*;
use vstd::prelude::*;

use crate::config::MOD_Q;
use crate::ntt::{NTT_ROOT_MOD_Q, NTT_ROOT_QUARTIC_Q};
use crate::quartic_ring::QUARTIC_Q;

verus! {

/// `b^(2k) mod q` from `b^k mod q`.
pub proof fn lemma_pow_double(b: int, k: nat, q: int)
    requires
        q > 0,
    ensures
        pow(b, 2 * k) % q == ((pow(b, k) % q) * (pow(b, k) % q)) % q,
{
    lemma_pow_adds(b, k, k);
    lemma_mul_mod_noop(pow(b, k), pow(b, k), q);
}

/// `psi^64 = -1` and `psi^128 = 1` modulo `MOD_Q`.
pub proof fn lemma_root_order_mod_q()
    ensures
        pow(NTT_ROOT_MOD_Q as int, 64) % (MOD_Q as int) == MOD_Q - 1,
        pow(NTT_ROOT_MOD_Q as int, 128) % (MOD_Q as int) == 1,
{
    lemma_pow1(NTT_ROOT_MOD_Q as int);
    assert(pow(NTT_ROOT_MOD_Q as int, 1) % (MOD_Q as int) == NTT_ROOT_MOD_Q);
    lemma_pow_double(NTT_ROOT_MOD_Q as int, 1, MOD_Q as int);
    assert((17254385253701int * 17254385253701int) % (MOD_Q as int) == 499957630925635int);
    lemma_pow_double(NTT_ROOT_MOD_Q as int, 2, MOD_Q as int);
    assert((499957630925635int * 499957630925635int) % (MOD_Q as int) == 805709781167575int);
    lemma_pow_double(NTT_ROOT_MOD_Q as int, 4, MOD_Q as int);
    assert((805709781167575int * 805709781167575int) % (MOD_Q as int) == 198264268514473int);
    lemma_pow_double(NTT_ROOT_MOD_Q as int, 8, MOD_Q as int);
    assert((198264268514473int * 198264268514473int) % (MOD_Q as int) == 541157078433971int);
    lemma_pow_double(NTT_ROOT_MOD_Q as int, 16, MOD_Q as int);
    assert((541157078433971int * 541157078433971int) % (MOD_Q as int) == 938163895978259int);
    lemma_pow_double(NTT_ROOT_MOD_Q as int, 32, MOD_Q as int);
    assert((938163895978259int * 938163895978259int) % (MOD_Q as int) == 1125899906839936int);
    lemma_pow_double(NTT_ROOT_MOD_Q as int, 64, MOD_Q as int);
    assert((1125899906839936int * 1125899906839936int) % (MOD_Q as int) == 1int);
}

/// `psi^32 = -1` and `psi^64 = 1` modulo `QUARTIC_Q`.
pub proof fn lemma_root_order_quartic_q()
    ensures
        pow(NTT_ROOT_QUARTIC_Q as int, 32) % (QUARTIC_Q as int) == QUARTIC_Q - 1,
        pow(NTT_ROOT_QUARTIC_Q as int, 64) % (QUARTIC_Q as int) == 1,
{
    lemma_pow1(NTT_ROOT_QUARTIC_Q as int);
    assert(pow(NTT_ROOT_QUARTIC_Q as int, 1) % (QUARTIC_Q as int) == NTT_ROOT_QUARTIC_Q);
    lemma_pow_double(NTT_ROOT_QUARTIC_Q as int, 1, QUARTIC_Q as int);
    assert((3int * 3int) % (QUARTIC_Q as int) == 9int);
    lemma_pow_double(NTT_ROOT_QUARTIC_Q as int, 2, QUARTIC_Q as int);
    assert((9int * 9int) % (QUARTIC_Q as int) == 81int);
    lemma_pow_double(NTT_ROOT_QUARTIC_Q as int, 4, QUARTIC_Q as int);
    assert((81int * 81int) % (QUARTIC_Q as int) == 6561int);
    lemma_pow_double(NTT_ROOT_QUARTIC_Q as int, 8, QUARTIC_Q as int);
    assert((6561int * 6561int) % (QUARTIC_Q as int) == 43046721int);
    lemma_pow_double(NTT_ROOT_QUARTIC_Q as int, 16, QUARTIC_Q as int);
    assert((43046721int * 43046721int) % (QUARTIC_Q as int) == 926510094425920int);
    lemma_pow_double(NTT_ROOT_QUARTIC_Q as int, 32, QUARTIC_Q as int);
    assert((926510094425920int * 926510094425920int) % (QUARTIC_Q as int) == 1int);
}

/// A power of a residue congruent to 1 is congruent to 1.
pub proof fn lemma_pow_of_one_mod(x: int, m: nat, q: int)
    requires
        q > 1,
        x % q == 1,
    ensures
        pow(x, m) % q == 1,
{
    lemma_pow_mod_noop(x, m, q);
    lemma1_pow(m);
    lemma_small_mod(1, q as nat);
}

/// Exponents of `b` only matter modulo the order `period` of `b`.
pub proof fn lemma_pow_periodic(b: int, period: nat, e: nat, m: nat, q: int)
    requires
        q > 1,
        pow(b, period) % q == 1,
    ensures
        pow(b, e + period * m) % q == pow(b, e) % q,
{
    lemma_pow_adds(b, e, period * m);
    lemma_pow_multiplies(b, period, m);
    lemma_pow_of_one_mod(pow(b, period), m, q);
    lemma_mul_mod_noop_right(pow(b, e), pow(pow(b, period), m), q);
    lemma_mul_basics(pow(b, e));
}

/// `(b^e mod q)^k mod q = b^(e k) mod q`.
pub proof fn lemma_pow_of_reduced_pow(b: int, e: nat, k: nat, q: int)
    requires
        q > 0,
    ensures
        pow(pow(b, e) % q, k) % q == pow(b, e * k) % q,
{
    lemma_pow_mod_noop(pow(b, e), k, q);
    lemma_pow_multiplies(b, e, k);
}

/// A witness `t` with `2 e t + 1 = e (mod 128)` for odd `e < 128`.
pub open spec fn normalize_witness(e: nat) -> nat {
    if e == 1 {
        0
    } else if e == 3 {
        43
    } else if e == 5 {
        26
    } else if e == 7 {
        37
    } else if e == 9 {
        36
    } else if e == 11 {
        47
    } else if e == 13 {
        30
    } else if e == 15 {
        9
    } else if e == 17 {
        8
    } else if e == 19 {
        51
    } else if e == 21 {
        34
    } else if e == 23 {
        45
    } else if e == 25 {
        44
    } else if e == 27 {
        55
    } else if e == 29 {
        38
    } else if e == 31 {
        17
    } else if e == 33 {
        16
    } else if e == 35 {
        59
    } else if e == 37 {
        42
    } else if e == 39 {
        53
    } else if e == 41 {
        52
    } else if e == 43 {
        63
    } else if e == 45 {
        46
    } else if e == 47 {
        25
    } else if e == 49 {
        24
    } else if e == 51 {
        3
    } else if e == 53 {
        50
    } else if e == 55 {
        61
    } else if e == 57 {
        60
    } else if e == 59 {
        7
    } else if e == 61 {
        54
    } else if e == 63 {
        33
    } else if e == 65 {
        32
    } else if e == 67 {
        11
    } else if e == 69 {
        58
    } else if e == 71 {
        5
    } else if e == 73 {
        4
    } else if e == 75 {
        15
    } else if e == 77 {
        62
    } else if e == 79 {
        41
    } else if e == 81 {
        40
    } else if e == 83 {
        19
    } else if e == 85 {
        2
    } else if e == 87 {
        13
    } else if e == 89 {
        12
    } else if e == 91 {
        23
    } else if e == 93 {
        6
    } else if e == 95 {
        49
    } else if e == 97 {
        48
    } else if e == 99 {
        27
    } else if e == 101 {
        10
    } else if e == 103 {
        21
    } else if e == 105 {
        20
    } else if e == 107 {
        31
    } else if e == 109 {
        14
    } else if e == 111 {
        57
    } else if e == 113 {
        56
    } else if e == 115 {
        35
    } else if e == 117 {
        18
    } else if e == 119 {
        29
    } else if e == 121 {
        28
    } else if e == 123 {
        39
    } else if e == 125 {
        22
    } else if e == 127 {
        1
    } else {
        0
    }
}

/// The witness satisfies its congruence.
pub proof fn lemma_normalize_witness(e: nat)
    requires
        e % 2 == 1,
        e < 128,
    ensures
        normalize_witness(e) < 64,
        (2 * e * normalize_witness(e) + 1) % 128 == e,
{
}

} // verus!
