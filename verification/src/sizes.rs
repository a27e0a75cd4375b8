//! Bit sizes of ring elements as they would be sent in a proof.
use vstd::prelude::*;

use crate::config::{DEGREE, MOD_Q};
use crate::layout::{interleaved, intt_blocks, lemma_layouts_reduced, ntt_blocks, residue_major};
use crate::ring_arithmetic::{centered_magnitude, converted, ilog2, ilog2_exec, Representation, RingElement};

verus! {

/// Bits needed for one coefficient `v <= q`: nothing for zero, otherwise the
/// smaller of its plain bit length and its centered bit length plus a sign bit.
pub open spec fn coefficient_size_in_bits(v: u64) -> int {
    if v % MOD_Q == 0 {
        0
    } else {
        let plain = ilog2(v as nat) as int + 1;
        let centered = ilog2(centered_magnitude(v)) as int + 2;
        if plain < centered {
            plain
        } else {
            centered
        }
    }
}

/// Sum of the coefficient sizes of the first `k` values.
pub open spec fn size_sum(c: Seq<u64>, k: int) -> int
    decreases k,
{
    if k <= 0 {
        0
    } else {
        size_sum(c, k - 1) + coefficient_size_in_bits(c[k - 1])
    }
}

/// Bit size of the stored values of a ring element.
pub open spec fn ring_size_in_bits(c: Seq<u64>) -> int {
    size_sum(c, DEGREE as int)
}

/// The smaller of the sizes in the stored representation and in the other of
/// the coefficient and incomplete-NTT representations.
pub open spec fn compact_size(c: Seq<u64>, representation: Representation) -> int {
    let resident = ring_size_in_bits(c);
    let other = match representation {
        Representation::IncompleteNTT => ring_size_in_bits(
            converted(c, Representation::IncompleteNTT, Representation::Coefficients),
        ),
        Representation::Coefficients => ring_size_in_bits(
            converted(c, Representation::Coefficients, Representation::IncompleteNTT),
        ),
        _ => resident,
    };
    if resident < other {
        resident
    } else {
        other
    }
}

impl RingElement {
    /// Bits needed to send the stored values.
    pub fn size_in_bits(&self) -> (r: usize)
        requires
            forall|i: int| 0 <= i < DEGREE ==> #[trigger] self.v@[i] <= MOD_Q,
        ensures
            r as int == ring_size_in_bits(self.v@),
    {
        let mut size: usize = 0;
        let mut i: usize = 0;
        while i < DEGREE
            invariant
                i <= DEGREE,
                forall|k: int| 0 <= k < DEGREE ==> #[trigger] self.v@[k] <= MOD_Q,
                size as int == size_sum(self.v@, i as int),
                size <= 66 * i,
            decreases DEGREE - i,
        {
            let v = self.v[i];
            if v % MOD_Q != 0 {
                let size_0 = ilog2_exec(v) as usize + 1;
                let centered = if v > MOD_Q / 2 {
                    MOD_Q - v
                } else {
                    v
                };
                let size_1 = ilog2_exec(centered) as usize + 2;
                size = size + if size_0 < size_1 {
                    size_0
                } else {
                    size_1
                };
            }
            i = i + 1;
        }
        size
    }

    /// The smaller of the sizes in the coefficient and incomplete-NTT
    /// representations; other representations report their resident size.
    pub fn compact_size_in_bits(&self) -> (r: usize)
        requires
            forall|i: int| 0 <= i < DEGREE ==> #[trigger] self.v@[i] <= MOD_Q,
        ensures
            r as int == compact_size(self.v@, self.representation),
    {
        let resident = self.size_in_bits();
        let mut other = self.copy();
        match self.representation {
            Representation::IncompleteNTT => {
                other.from_incomplete_ntt_to_even_odd_coefficients();
                other.from_even_odd_coefficients_to_coefficients();
                proof {
                    lemma_layouts_reduced(self.v@);
                    lemma_layouts_reduced(intt_blocks(self.v@));
                }
            },
            Representation::Coefficients => {
                other.from_coefficients_to_even_odd_coefficients();
                other.from_even_odd_coefficients_to_incomplete_ntt_representation();
                proof {
                    lemma_layouts_reduced(residue_major(self.v@));
                }
            },
            _ => {
                return resident;
            },
        }
        let other_size = other.size_in_bits();
        if resident < other_size {
            resident
        } else {
            other_size
        }
    }
}


/// Changing one value changes the size sum by the difference of its sizes.
proof fn lemma_size_sum_update(c: Seq<u64>, k: int, x: u64, n: int)
    requires
        0 <= k < c.len(),
        0 <= n <= c.len(),
    ensures
        size_sum(c.update(k, x), n) == size_sum(c, n) + if k < n {
            coefficient_size_in_bits(x) - coefficient_size_in_bits(c[k])
        } else {
            0
        },
    decreases n,
{
    if n > 0 {
        lemma_size_sum_update(c, k, x, n - 1);
    }
}

/// Values of size zero add nothing.
proof fn lemma_size_sum_zero(c: Seq<u64>, n: int)
    requires
        0 <= n <= c.len(),
        forall|j: int| 0 <= j < n ==> #[trigger] c[j] == 0,
    ensures
        size_sum(c, n) == 0,
    decreases n,
{
    if n > 0 {
        lemma_size_sum_zero(c, n - 1);
    }
}

/// The size of an element counts every one of its stored values: it is the
/// size with value `k` cleared plus the size of value `k`, for every position.
pub proof fn lemma_size_counts_every_value(c: Seq<u64>, k: int)
    requires
        c.len() == DEGREE,
        0 <= k < DEGREE,
    ensures
        ring_size_in_bits(c) == ring_size_in_bits(c.update(k, 0)) + coefficient_size_in_bits(c[k]),
        coefficient_size_in_bits(0) == 0,
{
    lemma_size_sum_update(c, k, 0, DEGREE as int);
    assert(0u64 % MOD_Q == 0);
}

/// An element with a single nonzero value, at any position, has the size of
/// that value.
pub proof fn lemma_size_of_single_value(c: Seq<u64>, k: int)
    requires
        c.len() == DEGREE,
        0 <= k < DEGREE,
        forall|j: int| 0 <= j < DEGREE && j != k ==> #[trigger] c[j] == 0,
    ensures
        ring_size_in_bits(c) == coefficient_size_in_bits(c[k]),
{
    lemma_size_counts_every_value(c, k);
    let z = c.update(k, 0);
    assert forall|j: int| 0 <= j < DEGREE implies #[trigger] z[j] == 0 by {}
    lemma_size_sum_zero(z, DEGREE as int);
}

} // verus!
