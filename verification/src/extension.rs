//! Multiplication in `Z_q[X]/(X^d - beta)` on coefficient vectors of length `d`.
use vstd::arithmetic::div_mod::*;
use vstd::arithmetic::mul::*;
use vstd::prelude::*;

use crate::modular::{add_mod, mul_mod};

verus! {

/// `sum_{i < l, 0 <= idx - i < d} a_i b_{idx - i}` where `d = a.len()`.
pub open spec fn conv_sum(a: Seq<u64>, b: Seq<u64>, idx: int, l: int) -> int
    decreases l,
{
    if l <= 0 {
        0
    } else {
        conv_sum(a, b, idx, l - 1) + if 0 <= idx - (l - 1) < a.len() {
            a[l - 1] * b[idx - (l - 1)]
        } else {
            0
        }
    }
}

/// Coefficients of `a * b` in `Z_q[X]/(X^d - beta)`, `d = a.len()`.
pub open spec fn extension_product(a: Seq<u64>, b: Seq<u64>, beta: int, q: int) -> Seq<u64> {
    Seq::new(
        a.len(),
        |k: int|
            ((conv_sum(a, b, k, a.len() as int) + beta * conv_sum(a, b, k + a.len(), a.len() as int))
                % q) as u64,
    )
}

proof fn lemma_conv_sum_top(a: Seq<u64>, b: Seq<u64>, l: int)
    requires
        0 <= l <= a.len(),
    ensures
        conv_sum(a, b, 2 * a.len() - 1, l) == 0,
    decreases l,
{
    if l > 0 {
        lemma_conv_sum_top(a, b, l - 1);
    }
}

/// Schoolbook product followed by the reduction `X^d = beta`.
pub fn reduced_convolution(a: &[u64], b: &[u64], beta: u64, q: u64) -> (r: Vec<u64>)
    requires
        1 <= a.len() <= 8,
        b.len() == a.len(),
        q > 1,
        q <= 0x8000_0000_0000_0000,
    ensures
        r@ == extension_product(a@, b@, beta as int, q as int),
{
    let d = a.len();
    let ghost qi = q as int;
    let mut conv: Vec<u64> = Vec::new();
    let mut i: usize = 0;
    while i < 2 * d - 1
        invariant
            1 <= d <= 8,
            i <= 2 * d - 1,
            conv.len() == i,
            forall|k: int| 0 <= k < i ==> #[trigger] conv@[k] == 0,
        decreases 2 * d - 1 - i,
    {
        conv.push(0);
        i = i + 1;
    }
    proof {
        lemma_small_mod(0, q as nat);
    }
    let mut l: usize = 0;
    while l < d
        invariant
            d == a.len(),
            b.len() == d,
            1 <= d <= 8,
            q > 1,
            q <= 0x8000_0000_0000_0000,
            qi == q as int,
            l <= d,
            conv.len() == 2 * d - 1,
            forall|k: int|
                0 <= k < 2 * d - 1 ==> #[trigger] conv@[k] as int == conv_sum(a@, b@, k, l as int)
                    % qi,
        decreases d - l,
    {
        let mut r: usize = 0;
        while r < d
            invariant
                d == a.len(),
                b.len() == d,
                1 <= d <= 8,
                q > 1,
                q <= 0x8000_0000_0000_0000,
                qi == q as int,
                l < d,
                r <= d,
                conv.len() == 2 * d - 1,
                forall|k: int|
                    0 <= k < 2 * d - 1 ==> #[trigger] conv@[k] as int == (conv_sum(a@, b@, k, l as int)
                        + if 0 <= k - l < r {
                        a@[l as int] * b@[k - l]
                    } else {
                        0
                    }) % qi,
            decreases d - r,
        {
            let index = l + r;
            let product = mul_mod(a[l], b[r], q);
            proof {
                let p = conv_sum(a@, b@, index as int, l as int);
                let t = a@[l as int] * b@[r as int];
                lemma_mod_bound(p, qi);
                lemma_add_mod_noop(p, t, qi);
                lemma_mod_twice(p, qi);
            }
            conv.set(index, add_mod(conv[index], product, q));
            r = r + 1;
        }
        l = l + 1;
    }
    let mut index: usize = 2 * d - 2;
    proof {
        lemma_conv_sum_top(a@, b@, d as int);
    }
    while index >= d
        invariant
            d == a.len(),
            b.len() == d,
            1 <= d <= 8,
            q > 1,
            q <= 0x8000_0000_0000_0000,
            qi == q as int,
            d - 1 <= index <= 2 * d - 2,
            conv.len() == 2 * d - 1,
            conv_sum(a@, b@, 2 * d - 1, d as int) == 0,
            forall|k: int|
                d <= k < 2 * d - 1 ==> #[trigger] conv@[k] as int == conv_sum(a@, b@, k, d as int)
                    % qi,
            forall|k: int|
                0 <= k < d ==> #[trigger] conv@[k] as int == (conv_sum(a@, b@, k, d as int) + if k
                    + d > index {
                    beta * conv_sum(a@, b@, k + d, d as int)
                } else {
                    0
                }) % qi,
        decreases index,
    {
        let reduced = mul_mod(conv[index], beta, q);
        let k = index - d;
        proof {
            let p = conv_sum(a@, b@, k as int, d as int);
            let h = conv_sum(a@, b@, index as int, d as int);
            lemma_mod_bound(p, qi);
            lemma_mod_bound(h, qi);
            lemma_mul_mod_noop_left(h, beta as int, qi);
            lemma_mul_is_commutative(h, beta as int);
            lemma_add_mod_noop(p, beta * h, qi);
            lemma_mod_twice(p, qi);
            lemma_mod_twice(beta * h, qi);
        }
        conv.set(k, add_mod(conv[k], reduced, q));
        index = index - 1;
    }
    let mut r: Vec<u64> = Vec::new();
    let mut k: usize = 0;
    while k < d
        invariant
            d == a.len(),
            1 <= d <= 8,
            conv.len() == 2 * d - 1,
            k <= d,
            r.len() == k,
            forall|j: int| 0 <= j < k ==> #[trigger] r@[j] == conv@[j],
        decreases d - k,
    {
        r.push(conv[k]);
        k = k + 1;
    }
    proof {
        assert forall|j: int| 0 <= j < d implies #[trigger] r@[j] == extension_product(
            a@,
            b@,
            beta as int,
            qi,
        )[j] by {
            assert(j + d > d - 1);
        }
        assert(r@ =~= extension_product(a@, b@, beta as int, qi));
    }
    r
}

} // verus!
