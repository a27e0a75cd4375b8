//! Mathematical description of the coefficient layouts of a ring element.
use vstd::arithmetic::div_mod::*;
use vstd::prelude::*;

use crate::config::{DEGREE, EXTENSION_DEGREE, HALF_DEGREE, MOD_Q};
use crate::modular::is_reduced;
use crate::ntt::{ntt_inverse_spec, ntt_spec};

verus! {

/// Coefficient vector `c` regrouped by residue modulo `EXTENSION_DEGREE`:
/// position `residue * HALF_DEGREE + digit` holds `c[EXTENSION_DEGREE * digit + residue]`.
pub open spec fn residue_major(c: Seq<u64>) -> Seq<u64> {
    Seq::new(
        DEGREE as nat,
        |k: int| c[EXTENSION_DEGREE * (k % HALF_DEGREE as int) + k / HALF_DEGREE as int],
    )
}

/// Inverse regrouping: position `EXTENSION_DEGREE * digit + residue` holds
/// `v[residue * HALF_DEGREE + digit]`.
pub open spec fn interleaved(v: Seq<u64>) -> Seq<u64> {
    Seq::new(
        DEGREE as nat,
        |k: int| v[(k % EXTENSION_DEGREE as int) * HALF_DEGREE as int + k / EXTENSION_DEGREE as int],
    )
}

/// Residue block `r` of a residue-major vector.
pub open spec fn block(v: Seq<u64>, r: int) -> Seq<u64> {
    v.subrange(r * HALF_DEGREE as int, r * HALF_DEGREE as int + HALF_DEGREE as int)
}

/// Forward transform applied to every residue block.
pub open spec fn ntt_blocks(v: Seq<u64>) -> Seq<u64> {
    Seq::new(
        DEGREE as nat,
        |k: int| ntt_spec(block(v, k / HALF_DEGREE as int), MOD_Q)[k % HALF_DEGREE as int],
    )
}

/// Inverse transform applied to every residue block.
pub open spec fn intt_blocks(v: Seq<u64>) -> Seq<u64> {
    Seq::new(
        DEGREE as nat,
        |k: int| ntt_inverse_spec(block(v, k / HALF_DEGREE as int), MOD_Q)[k % HALF_DEGREE as int],
    )
}

/// Regrouping and its inverse undo each other.
pub proof fn lemma_interleaved_residue_major(c: Seq<u64>)
    requires
        c.len() == DEGREE,
    ensures
        interleaved(residue_major(c)) == c,
        residue_major(interleaved(c)) == c,
{
    assert forall|k: int| 0 <= k < DEGREE implies #[trigger] interleaved(residue_major(c))[k]
        == c[k] by {
        let j = (k % EXTENSION_DEGREE as int) * HALF_DEGREE as int + k / EXTENSION_DEGREE as int;
        assert(k % 2 == 0 || k % 2 == 1);
        assert(0 <= k / 2 < 64);
        assert(0 <= j < DEGREE);
        lemma_fundamental_div_mod_converse(j, 64, k % 2, k / 2);
        lemma_fundamental_div_mod(k, 2);
        assert(EXTENSION_DEGREE * (j % HALF_DEGREE as int) + j / HALF_DEGREE as int == k);
    }
    assert forall|k: int| 0 <= k < DEGREE implies #[trigger] residue_major(interleaved(c))[k]
        == c[k] by {
        let j = EXTENSION_DEGREE * (k % HALF_DEGREE as int) + k / HALF_DEGREE as int;
        assert(0 <= k % 64 < 64);
        assert(k / 64 == 0 || k / 64 == 1);
        assert(0 <= j < DEGREE);
        lemma_fundamental_div_mod_converse(j, 2, k % 64, k / 64);
        lemma_fundamental_div_mod(k, 64);
        assert((j % EXTENSION_DEGREE as int) * HALF_DEGREE as int + j / EXTENSION_DEGREE as int
            == k);
    }
    assert(interleaved(residue_major(c)) =~= c);
    assert(residue_major(interleaved(c)) =~= c);
}

/// The per-block transforms produce canonical residues, and regrouping keeps
/// them canonical.
pub proof fn lemma_layouts_reduced(v: Seq<u64>)
    requires
        v.len() == DEGREE,
    ensures
        is_reduced(ntt_blocks(v), MOD_Q),
        is_reduced(intt_blocks(v), MOD_Q),
        is_reduced(v, MOD_Q) ==> is_reduced(interleaved(v), MOD_Q),
        is_reduced(v, MOD_Q) ==> is_reduced(residue_major(v), MOD_Q),
{
    assert forall|k: int| 0 <= k < DEGREE implies #[trigger] ntt_blocks(v)[k] < MOD_Q
        && intt_blocks(v)[k] < MOD_Q by {
        assert(0 <= k / (HALF_DEGREE as int) <= 1);
        assert(0 <= k % (HALF_DEGREE as int) < HALF_DEGREE);
        let b = block(v, k / HALF_DEGREE as int);
        assert(b.len() == HALF_DEGREE);
    }
    if is_reduced(v, MOD_Q) {
        assert forall|k: int| 0 <= k < DEGREE implies #[trigger] interleaved(v)[k] < MOD_Q by {
            assert(0 <= k % 2 < 2);
            assert(0 <= k / 2 < 64);
        }
        assert forall|k: int| 0 <= k < DEGREE implies #[trigger] residue_major(v)[k] < MOD_Q by {
            assert(0 <= k % 64 < 64);
            assert(0 <= k / 64 < 2);
        }
    }
}

} // verus!
