//! Hash-based one-time signatures of the Winternitz family.
//!
//! The scheme is built from two symmetric primitives: a tweakable hash
//! function, which advances the hash chains, and a message hash, which turns
//! a message into the chunks that say how far each chain is walked.
//! Every executable function carries a contract that Verus proves; the hash
//! functions themselves and the random number generator are trusted.

use vstd::prelude::*;

pub mod symmetric;
pub mod onetimesig;

verus! {

/// Length in bytes of every message that can be signed.
pub const MESSAGE_LENGTH: usize = 32;

/// First byte of every input that a message hash feeds to its hash function.
pub const TWEAK_SEPARATOR_FOR_MESSAGE_HASH: u8 = 0x02;

/// First byte of the encoding of a tree tweak.
pub const TWEAK_SEPARATOR_FOR_TREE_HASH: u8 = 0x00;

/// First byte of the encoding of a chain tweak.
pub const TWEAK_SEPARATOR_FOR_CHAIN_HASH: u8 = 0x01;

/// The three domain separators are pairwise distinct, so that an input of
/// the message hash never starts like the encoding of a tweak, and the
/// encoding of a tree tweak never starts like that of a chain tweak.
pub proof fn lemma_separators_distinct()
    ensures
        TWEAK_SEPARATOR_FOR_MESSAGE_HASH != TWEAK_SEPARATOR_FOR_TREE_HASH,
        TWEAK_SEPARATOR_FOR_MESSAGE_HASH != TWEAK_SEPARATOR_FOR_CHAIN_HASH,
        TWEAK_SEPARATOR_FOR_TREE_HASH != TWEAK_SEPARATOR_FOR_CHAIN_HASH,
{
}

} // verus!
