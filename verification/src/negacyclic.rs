//! Schoolbook multiplication in `Z_q[X]/(X^128 + 1)`.
use vstd::arithmetic::div_mod::*;
use vstd::prelude::*;

use crate::modular::{add_mod, mul_mod};

verus! {

/// Contribution of `a_i X^i` times `b` to coefficient `k` of the product
/// modulo `X^128 + 1` (`X^128 = -1`).
pub open spec fn negacyclic_term(a: Seq<u64>, b: Seq<u64>, k: int, i: int) -> int {
    if i <= k {
        a[i] * b[k - i]
    } else {
        -(a[i] * b[k + 128 - i])
    }
}

/// `sum_{i < m} negacyclic_term(a, b, k, i)`.
pub open spec fn negacyclic_partial(a: Seq<u64>, b: Seq<u64>, k: int, m: int) -> int
    decreases m,
{
    if m <= 0 {
        0
    } else {
        negacyclic_partial(a, b, k, m - 1) + negacyclic_term(a, b, k, m - 1)
    }
}

/// Coefficients of `a * b` in `Z_q[X]/(X^128 + 1)`.
pub open spec fn negacyclic_product(a: Seq<u64>, b: Seq<u64>, q: u64) -> Seq<u64> {
    Seq::new(128, |k: int| (negacyclic_partial(a, b, k, 128) % (q as int)) as u64)
}

/// Index `j` of `b` that meets `a_i` in coefficient `k`.
spec fn partner(k: int, i: int) -> int {
    if k >= i {
        k - i
    } else {
        k + 128 - i
    }
}

/// Schoolbook negacyclic product modulo `q`.
pub fn negacyclic_multiply_mod(lhs: &[u64; 128], rhs: &[u64; 128], q: u64) -> (r: [u64; 128])
    requires
        q > 1,
        q <= 0x8000_0000_0000_0000,
    ensures
        r@ == negacyclic_product(lhs@, rhs@, q),
{
    let mut result = [0u64; 128];
    let ghost a = lhs@;
    let ghost b = rhs@;
    let ghost qi = q as int;
    proof {
        lemma_small_mod(0, q as nat);
    }
    let mut i: usize = 0;
    while i < 128
        invariant
            q > 1,
            q <= 0x8000_0000_0000_0000,
            a == lhs@,
            b == rhs@,
            qi == q as int,
            i <= 128,
            forall|k: int|
                0 <= k < 128 ==> #[trigger] result@[k] as int == negacyclic_partial(a, b, k, i as int)
                    % qi,
        decreases 128 - i,
    {
        let mut j: usize = 0;
        while j < 128
            invariant
                q > 1,
                q <= 0x8000_0000_0000_0000,
                a == lhs@,
                b == rhs@,
                qi == q as int,
                i < 128,
                j <= 128,
                forall|k: int|
                    0 <= k < 128 ==> #[trigger] result@[k] as int == (negacyclic_partial(
                        a,
                        b,
                        k,
                        i as int,
                    ) + if partner(k, i as int) < j {
                        negacyclic_term(a, b, k, i as int)
                    } else {
                        0
                    }) % qi,
            decreases 128 - j,
        {
            let index = (i + j) % 128;
            let product = mul_mod(lhs[i], rhs[j], q);
            let signed = if i + j >= 128 {
                if product == 0 {
                    0
                } else {
                    q - product
                }
            } else {
                product
            };
            let ghost k0 = index as int;
            proof {
                let p = negacyclic_partial(a, b, k0, i as int);
                let t = negacyclic_term(a, b, k0, i as int);
                assert(partner(k0, i as int) == j);
                assert(result@[k0] < q) by {
                    lemma_mod_bound(p, qi);
                }
                assert(signed as int == t % qi) by {
                    if i + j >= 128 {
                        let pp = a[i as int] * b[j as int];
                        assert(t == -pp);
                        lemma_fundamental_div_mod(pp, qi);
                        assert(pp >= 0) by (nonlinear_arith)
                            requires
                                pp == a[i as int] * b[j as int],
                                a[i as int] >= 0,
                                b[j as int] >= 0,
                        ;
                        let m = pp / qi;
                        assert(pp == qi * m + product);
                        if product == 0 {
                            assert(-pp == (-m) * qi + 0) by (nonlinear_arith)
                                requires
                                    pp == qi * m + product,
                                    product == 0,
                            ;
                            lemma_fundamental_div_mod_converse(-pp, qi, -(pp / qi), 0);
                        } else {
                            assert(-pp == (-m - 1) * qi + (qi - product)) by (nonlinear_arith)
                                requires
                                    pp == qi * m + product,
                            ;
                            lemma_fundamental_div_mod_converse(
                                -pp,
                                qi,
                                -(pp / qi) - 1,
                                qi - product,
                            );
                        }
                    } else {
                        lemma_mod_twice(t, qi);
                    }
                }
                lemma_add_mod_noop(p, t, qi);
                lemma_mod_twice(p, qi);
                lemma_mod_twice(t, qi);
            }
            result[index] = add_mod(result[index], signed, q);
            j = j + 1;
        }
        i = i + 1;
    }
    proof {
        assert(result@ =~= negacyclic_product(a, b, q));
    }
    result
}

} // verus!
