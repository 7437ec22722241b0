//! The random number generator that refreshes masks, declared for verified code.
//! Nothing is stated of the values it produces: every property proved of the
//! masked operations holds whatever they are.
use rand_chacha::rand_core::impls::fill_bytes_via_next;
use rand_chacha::rand_core::{RngCore, SeedableRng};
use rand_chacha::ChaCha20Rng;
use vstd::prelude::*;

verus! {

#[verifier::external_type_specification]
#[verifier::external_body]
pub struct ExChaCha20Rng(ChaCha20Rng);

/// Calls `RngCore::next_u64` on `ChaCha20Rng`, which returns the next 64 bits of the
/// key stream and advances the generator. Nothing is claimed of the value.
#[verifier::external_body]
pub(crate) fn rng_next_u64(rng: &mut ChaCha20Rng) -> u64 {
    rng.next_u64()
}

/// Calls `SeedableRng::seed_from_u64` for `ChaCha20Rng`. Nothing is claimed of the
/// generator it returns.
#[verifier::external_body]
pub(crate) fn rng_seed_from_u64(seed: u64) -> ChaCha20Rng {
    ChaCha20Rng::seed_from_u64(seed)
}

/// Calls `rand_core::impls::fill_bytes_via_next` on `row[start..]`, which overwrites
/// those bytes with key-stream bytes. The contract claims only that the bytes before
/// `start` are left as they were; nothing is claimed of the new bytes.
#[verifier::external_body]
pub(crate) fn rng_fill_row<const N: usize>(rng: &mut ChaCha20Rng, row: &mut [u8; N], start: usize)
    requires
        start <= N,
    ensures
        forall|j: int| 0 <= j < start ==> #[trigger] final(row)@[j] == old(row)@[j],
{
    fill_bytes_via_next(rng, &mut row[start..]);
}

} // verus!
