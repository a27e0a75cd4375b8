//! Converting between representations does not depend on the path taken:
//! every conversion goes through the coefficient form, and converting in two
//! steps is converting in one.
use vstd::prelude::*;

use crate::config::{DEGREE, MOD_Q};
use crate::layout::{
    interleaved, intt_blocks, lemma_interleaved_residue_major, lemma_layouts_reduced, ntt_blocks,
    residue_major,
};
use crate::modular::is_reduced;
use crate::product_law::{lemma_blocks_roundtrip, lemma_blocks_roundtrip_dual};
use crate::ring_arithmetic::{
    converted, dehomogenize, homogenize, lemma_conversion_roundtrip, lemma_homogenize_reduced,
    Representation,
};

verus! {

/// Conversions keep canonical vectors canonical.
pub proof fn lemma_converted_reduced(v: Seq<u64>, from: Representation, to: Representation)
    requires
        v.len() == DEGREE,
        is_reduced(v, MOD_Q),
    ensures
        converted(v, from, to).len() == DEGREE,
        is_reduced(converted(v, from, to), MOD_Q),
{
    lemma_layouts_reduced(v);
    lemma_layouts_reduced(residue_major(v));
    lemma_homogenize_reduced(v);
    lemma_homogenize_reduced(ntt_blocks(v));
    lemma_homogenize_reduced(ntt_blocks(residue_major(v)));
    lemma_layouts_reduced(dehomogenize(v));
    lemma_layouts_reduced(intt_blocks(v));
    lemma_layouts_reduced(intt_blocks(dehomogenize(v)));
}

/// Every conversion goes through the coefficient form.
pub proof fn lemma_conversion_via_coefficients(v: Seq<u64>, from: Representation, to: Representation)
    requires
        v.len() == DEGREE,
        is_reduced(v, MOD_Q),
    ensures
        converted(v, from, to) == converted(
            converted(v, from, Representation::Coefficients),
            Representation::Coefficients,
            to,
        ),
{
    lemma_conversion_roundtrip(v, from, Representation::Coefficients);
    lemma_layouts_reduced(v);
    lemma_homogenize_reduced(v);
    let d = dehomogenize(v);
    lemma_layouts_reduced(d);
    lemma_interleaved_residue_major(v);
    lemma_interleaved_residue_major(intt_blocks(v));
    lemma_interleaved_residue_major(intt_blocks(d));
    lemma_blocks_roundtrip_dual(v);
    lemma_blocks_roundtrip_dual(d);
}

/// Converting in two steps, through any representation, is converting in one.
pub proof fn lemma_conversion_path_independent(
    v: Seq<u64>,
    from: Representation,
    via: Representation,
    to: Representation,
)
    requires
        v.len() == DEGREE,
        is_reduced(v, MOD_Q),
    ensures
        converted(converted(v, from, via), via, to) == converted(v, from, to),
{
    let c = converted(v, from, Representation::Coefficients);
    lemma_converted_reduced(v, from, Representation::Coefficients);
    lemma_converted_reduced(v, from, via);
    lemma_conversion_via_coefficients(v, from, via);
    lemma_conversion_via_coefficients(v, from, to);
    let w = converted(v, from, via);
    lemma_conversion_via_coefficients(w, via, to);
    lemma_conversion_roundtrip(c, Representation::Coefficients, via);
}

} // verus!
