//! Conjugation as a monomial map over every position of the incomplete-NTT
//! representation, read off the conjugated basis vectors.
use vstd::arithmetic::div_mod::*;
use vstd::prelude::*;

use crate::config::{DEGREE, HALF_DEGREE, MOD_Q};
use crate::conjugation::{basis_vector, conjugate_reference};
use crate::conjugation_law::{lemma_conjugate_reference_slots, lemma_mirror_slot, lemma_point_nonzero, mirror_slot};
use crate::modular::is_reduced;
use crate::ntt::{ntt_exponent, ntt_point, ntt_root};
use crate::ring_arithmetic::{Representation, RingElement};

verus! {

/// Where conjugation moves position `i`: slot `j` of either block goes to
/// slot `mirror(j)` of the same block.
pub open spec fn conjugation_destination(i: int) -> int {
    if i < HALF_DEGREE {
        mirror_slot(i)
    } else {
        HALF_DEGREE + mirror_slot(i - HALF_DEGREE)
    }
}

/// The factor conjugation applies to position `i`: `1` on the even block, the
/// point of the slot on the odd block.
pub open spec fn conjugation_factor(i: int) -> u64 {
    if i < HALF_DEGREE {
        1u64
    } else {
        ntt_point(HALF_DEGREE as nat, MOD_Q, (i - HALF_DEGREE) as nat) as u64
    }
}

/// The vector with `factor` at `destination` and zeros elsewhere.
pub open spec fn monomial(destination: int, factor: u64) -> Seq<u64> {
    Seq::new(DEGREE as nat, |k: int| if k == destination { factor } else { 0u64 })
}

/// The conjugation of every basis vector, as a destination and a factor.
#[derive(Clone, Debug)]
pub struct QuarticConjugationTransform {
    pub permutation: [usize; DEGREE],
    pub factors: [u64; DEGREE],
}

impl QuarticConjugationTransform {
    /// Each basis vector is conjugated to its factor at its destination, the
    /// factors are nonzero and no two positions share a destination.
    pub open spec fn is_derived(&self) -> bool {
        &&& forall|i: int| 0 <= i < DEGREE ==> #[trigger] self.permutation@[i] < DEGREE
        &&& forall|i: int|
            0 <= i < DEGREE ==> conjugate_reference(basis_vector(i)) == monomial(
                self.permutation@[i] as int,
                #[trigger] self.factors@[i],
            )
        &&& forall|i: int| 0 <= i < DEGREE ==> #[trigger] self.factors@[i] != 0
        &&& forall|i: int, j: int|
            0 <= i < j < DEGREE ==> #[trigger] self.permutation@[i] != #[trigger] self.permutation@[j]
    }
}

/// Conjugating basis vector `i` gives its factor at its destination.
pub proof fn lemma_conjugate_basis_vector(i: int)
    requires
        0 <= i < DEGREE,
    ensures
        0 <= conjugation_destination(i) < DEGREE,
        conjugation_factor(i) != 0,
        conjugate_reference(basis_vector(i)) == monomial(conjugation_destination(i), conjugation_factor(i)),
{
    let v = basis_vector(i);
    let c = conjugate_reference(v);
    let d = conjugation_destination(i);
    let f = conjugation_factor(i);
    let q = MOD_Q as int;
    assert(is_reduced(v, MOD_Q));
    if i < HALF_DEGREE {
        lemma_mirror_slot(i);
    } else {
        lemma_mirror_slot(i - HALF_DEGREE);
        lemma_point_nonzero(i - HALF_DEGREE);
        lemma_mod_bound(
            vstd::arithmetic::power::pow(ntt_root(MOD_Q), ntt_exponent(HALF_DEGREE as nat, (i - HALF_DEGREE) as nat)),
            q,
        );
    }
    assert(c.len() == DEGREE) by {
        lemma_conjugate_reference_slots(v, 0);
    }
    assert forall|k: int| 0 <= k < DEGREE implies #[trigger] c[k] == monomial(d, f)[k] by {
        if k < HALF_DEGREE {
            lemma_conjugate_reference_slots(v, k);
            lemma_mirror_slot(k);
        } else {
            let j = k - HALF_DEGREE;
            lemma_conjugate_reference_slots(v, j);
            lemma_mirror_slot(j);
            let x = ntt_point(HALF_DEGREE as nat, MOD_Q, mirror_slot(j) as nat);
            lemma_mod_bound(
                vstd::arithmetic::power::pow(ntt_root(MOD_Q), ntt_exponent(HALF_DEGREE as nat, mirror_slot(j) as nat)),
                q,
            );
            lemma_small_mod(x as nat, MOD_Q as nat);
            lemma_small_mod(0, MOD_Q as nat);
        }
    }
    assert(c =~= monomial(d, f));
}

/// Position of the first nonzero value, or `DEGREE` when there is none.
fn first_nonzero_position(v: &[u64; DEGREE]) -> (r: usize)
    ensures
        r <= DEGREE,
        forall|k: int| 0 <= k < r ==> v@[k] == 0,
        r < DEGREE ==> v@[r as int] != 0,
{
    let mut k: usize = 0;
    while k < DEGREE
        invariant
            k <= DEGREE,
            forall|t: int| 0 <= t < k ==> v@[t] == 0,
        decreases DEGREE - k,
    {
        if v[k] != 0 {
            return k;
        }
        k = k + 1;
    }
    k
}

/// Conjugate every basis vector through coefficient space and record where
/// its single nonzero value lands and what it is.
pub fn derive_quartic_conjugation_transform() -> (r: QuarticConjugationTransform)
    ensures
        r.is_derived(),
        forall|i: int| 0 <= i < DEGREE ==> #[trigger] r.permutation@[i] as int == conjugation_destination(i),
        forall|i: int| 0 <= i < DEGREE ==> #[trigger] r.factors@[i] == conjugation_factor(i),
{
    let mut permutation = [0usize; DEGREE];
    let mut factors = [0u64; DEGREE];
    let mut source: usize = 0;
    while source < DEGREE
        invariant
            source <= DEGREE,
            forall|i: int| 0 <= i < source ==> #[trigger] permutation@[i] as int == conjugation_destination(i),
            forall|i: int| 0 <= i < source ==> #[trigger] factors@[i] == conjugation_factor(i),
        decreases DEGREE - source,
    {
        let mut basis = RingElement::new(Representation::IncompleteNTT);
        basis.v[source] = 1;
        proof {
            assert(basis.v@ =~= basis_vector(source as int));
            lemma_conjugate_basis_vector(source as int);
        }
        basis.conjugate_in_place_ref();
        let destination = first_nonzero_position(&basis.v);
        proof {
            let d = conjugation_destination(source as int);
            assert(basis.v@[d] != 0);
            assert(destination == d);
        }
        permutation[source] = destination;
        factors[source] = basis.v[destination];
        source = source + 1;
    }
    let r = QuarticConjugationTransform { permutation, factors };
    proof {
        assert forall|i: int| 0 <= i < DEGREE implies #[trigger] r.permutation@[i] < DEGREE by {
            lemma_conjugate_basis_vector(i);
        }
        assert forall|i: int| 0 <= i < DEGREE implies #[trigger] r.factors@[i] != 0 by {
            lemma_conjugate_basis_vector(i);
        }
        assert forall|i: int|
            0 <= i < DEGREE implies conjugate_reference(basis_vector(i)) == monomial(
            r.permutation@[i] as int,
            #[trigger] r.factors@[i],
        ) by {
            lemma_conjugate_basis_vector(i);
        }
        assert forall|i: int, j: int| 0 <= i < j < DEGREE implies #[trigger] r.permutation@[i]
            != #[trigger] r.permutation@[j] by {
            if i < HALF_DEGREE {
                lemma_mirror_slot(i);
            } else {
                lemma_mirror_slot(i - HALF_DEGREE);
            }
            if j < HALF_DEGREE {
                lemma_mirror_slot(j);
            } else {
                lemma_mirror_slot(j - HALF_DEGREE);
            }
            if i < HALF_DEGREE && j < HALF_DEGREE {
                if mirror_slot(i) == mirror_slot(j) {
                    assert(mirror_slot(mirror_slot(i)) == mirror_slot(mirror_slot(j)));
                }
            } else if i >= HALF_DEGREE && j >= HALF_DEGREE {
                if mirror_slot(i - HALF_DEGREE) == mirror_slot(j - HALF_DEGREE) {
                    assert(mirror_slot(mirror_slot(i - HALF_DEGREE)) == mirror_slot(
                        mirror_slot(j - HALF_DEGREE),
                    ));
                }
            }
        }
    }
    r
}

} // verus!
