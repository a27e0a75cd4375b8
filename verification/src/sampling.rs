//! Uniform sampling: from `rand`'s thread-local generator, or from a seeded
//! `StdRng` whose seed is the BLAKE3 digest of a seed string.
use rand::rngs::StdRng;
use rand::Rng;
use vstd::prelude::*;

verus! {

#[verifier::external_type_specification]
#[verifier::external_body]
pub struct ExStdRng(StdRng);

/// The BLAKE3 digest (32 bytes) of `data`.
pub uninterp spec fn blake3_digest(data: Seq<u8>) -> Seq<u8>;

/// `blake3::hash(data)`, its 32 bytes. The contract names the digest and
/// claims nothing more of it: the hash is a function of its input alone.
#[verifier::external_body]
fn blake3_hash(data: &[u8]) -> (r: [u8; 32])
    ensures
        r@ == blake3_digest(data@),
{
    *blake3::hash(data).as_bytes()
}

/// The generator seed derived from a seed string: its BLAKE3 digest.
pub fn rng_seed(seed: &[u8]) -> (r: [u8; 32])
    ensures
        r@ == blake3_digest(seed@),
{
    blake3_hash(seed)
}

/// A value drawn by `rand::random_range(0..bound)` from `rand`'s thread-local
/// generator. The outside function panics on an empty range, which `requires`
/// leaves out; of the outcome the contract states only that it lies in the
/// range, since it depends on the generator's state.
#[verifier::external_body]
pub(crate) fn random_below(bound: u64) -> (r: u64)
    requires
        bound > 0,
    ensures
        r < bound,
{
    rand::random_range(0..bound)
}

/// A byte drawn by `rand::random::<u8>()` from `rand`'s thread-local
/// generator; any byte may come back.
#[verifier::external_body]
pub(crate) fn random_byte() -> (r: u8) {
    rand::random::<u8>()
}

/// A value drawn by `Rng::random_range(0..bound)` from `rng`. The outside
/// method panics on an empty range, which `requires` leaves out; of the
/// outcome the contract states only that it lies in the range, since it
/// depends on the generator's state.
#[verifier::external_body]
pub(crate) fn random_below_with(rng: &mut StdRng, bound: u64) -> (r: u64)
    requires
        bound > 0,
    ensures
        r < bound,
{
    rng.random_range(0..bound)
}

/// A byte drawn by `Rng::random::<u8>()` from `rng`; any byte may come back.
#[verifier::external_body]
pub(crate) fn random_byte_with(rng: &mut StdRng) -> (r: u8) {
    rng.random::<u8>()
}

} // verus!
