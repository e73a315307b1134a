//! The symmetric primitives that the signature scheme is built from.

use vstd::prelude::*;

pub mod message_hash;
pub mod tweak_hash;

verus! {

/// The thread-local random number generator of `rand`, the source of all
/// randomness in this library. Nothing is known of what it holds.
#[verifier::external_type_specification]
#[verifier::external_body]
pub struct ExThreadRng(rand::rngs::ThreadRng);

/// Calls `rand::RngCore::fill_bytes` on a fresh array of `N` bytes and returns
/// the array. The bytes are random: nothing is claimed of them. The call
/// comes back for every `N`, unless the operating system denies the
/// generator the entropy to reseed itself, in which case `rand` panics.
#[verifier::external_body]
pub(crate) fn random_bytes<const N: usize>(rng: &mut rand::rngs::ThreadRng) -> (bytes: [u8; N]) {
    let mut bytes = [0u8; N];
    rand::RngCore::fill_bytes(rng, &mut bytes);
    bytes
}

/// Calls `rand::Rng::gen_range` with the range from zero up to, and without,
/// `bound`. The number is random: it is claimed only that it lies in that
/// range, as `gen_range` documents. An empty range makes `gen_range` panic,
/// so `bound` is not zero.
#[verifier::external_body]
pub(crate) fn random_below(rng: &mut rand::rngs::ThreadRng, bound: u32) -> (number: u32)
    requires
        bound > 0,
    ensures
        number < bound,
{
    rand::Rng::gen_range(rng, 0..bound)
}

/// Appends `bytes` to `buffer`.
pub fn push_bytes(buffer: &mut Vec<u8>, bytes: &[u8])
    ensures
        final(buffer)@ == old(buffer)@ + bytes@,
{
    let mut i: usize = 0;
    while i < bytes.len()
        invariant
            i <= bytes@.len(),
            buffer@ == old(buffer)@ + bytes@.subrange(0, i as int),
        decreases bytes@.len() - i,
    {
        buffer.push(bytes[i]);
        i += 1;
        assert(buffer@ =~= old(buffer)@ + bytes@.subrange(0, i as int));
    }
    assert(bytes@.subrange(0, i as int) =~= bytes@);
}

/// The first `count` bytes of `bytes`.
pub open spec fn spec_leading_bytes(bytes: Seq<u8>, count: nat) -> Seq<u8> {
    Seq::new(count, |i: int| bytes[i])
}

/// The array whose bytes are `bytes`.
pub open spec fn spec_array_of<const N: usize>(bytes: Seq<u8>) -> [u8; N] {
    choose|array: [u8; N]| array@ == bytes
}

/// Tells whether two arrays hold the same bytes.
pub fn arrays_equal<const N: usize>(a: &[u8; N], b: &[u8; N]) -> (same: bool)
    ensures
        same == (a@ == b@),
        same == (*a == *b),
{
    let mut i: usize = 0;
    while i < N
        invariant
            i <= N,
            forall|j: int| 0 <= j < i ==> a@[j] == b@[j],
        decreases N - i,
    {
        if a[i] != b[i] {
            return false;
        }
        i += 1;
    }
    assert(a@ =~= b@);
    assert(*a =~= *b);
    true
}

} // verus!
