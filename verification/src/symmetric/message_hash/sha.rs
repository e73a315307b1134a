//! The message hash built on SHA-256.

use vstd::prelude::*;
use vstd::arithmetic::power2::pow2;
use vstd::slice::slice_subrange;
use crate::symmetric::message_hash::bytes_to_chunks;
use crate::symmetric::message_hash::lemma_bytes_to_chunks_shape;
use crate::symmetric::message_hash::lemma_chunk_base;
use crate::symmetric::message_hash::lemma_bytes_hold_chunks;
use crate::symmetric::message_hash::lemma_chunk_bit;
use crate::symmetric::message_hash::spec_bytes_to_chunks;
use crate::symmetric::message_hash::spec_bit;
use crate::symmetric::message_hash::spec_bytes_for_chunks;
use crate::symmetric::message_hash::spec_chunk_bit;
use crate::symmetric::message_hash::spec_chunk_of_byte;
use crate::symmetric::message_hash::spec_chunks_per_byte;
use crate::symmetric::message_hash::spec_valid_chunk_size;
use crate::symmetric::message_hash::MessageHash;
use crate::symmetric::push_bytes;
use crate::symmetric::random_bytes;
use crate::symmetric::spec_leading_bytes;
use crate::symmetric::tweak_hash::sha::lemma_to_bytes_shape;
use crate::symmetric::tweak_hash::sha::ShaTweak;
use crate::MESSAGE_LENGTH;
use crate::TWEAK_SEPARATOR_FOR_MESSAGE_HASH;

verus! {

/// Length in bytes of a SHA-256 digest.
pub const SHA256_OUTPUT_LEN: usize = 32;

/// Stands for the SHA-256 digest of `data`. The library does not compute
/// it: it is what `sha2` returns.
pub uninterp spec fn sha256_digest(data: Seq<u8>) -> Seq<u8>;

/// Hashes `data` with the SHA-256 of `sha2`, through `Digest::digest`, and
/// returns the 32 bytes of the digest. It is taken on trust that the digest
/// depends on `data` alone.
#[verifier::external_body]
pub(crate) fn sha256(data: &[u8]) -> (digest: [u8; 32])
    ensures
        digest@ == sha256_digest(data@),
{
    <sha2::Sha256 as sha2::Digest>::digest(data).into()
}

/// The four bytes of `value`, least significant first.
pub open spec fn spec_u32_le_bytes(value: u32) -> Seq<u8> {
    seq![
        (value % 0x100) as u8,
        (value / 0x100 % 0x100) as u8,
        (value / 0x1_0000 % 0x100) as u8,
        (value / 0x100_0000) as u8,
    ]
}

/// Appends the four bytes of `value` to `buffer`, least significant first.
pub fn push_u32_le(buffer: &mut Vec<u8>, value: u32)
    ensures
        final(buffer)@ == old(buffer)@ + spec_u32_le_bytes(value),
{
    buffer.push((value % 0x100) as u8);
    buffer.push((value / 0x100 % 0x100) as u8);
    buffer.push((value / 0x1_0000 % 0x100) as u8);
    buffer.push((value / 0x100_0000) as u8);
    assert(buffer@ =~= old(buffer)@ + spec_u32_le_bytes(value));
}

/// What the message hash feeds to SHA-256: the parameter, the separator of
/// the message hash, the epoch, the randomness and the message.
pub open spec fn spec_hash_input<const PARAMETER_LEN: usize, const RAND_LEN: usize>(
    parameter: [u8; PARAMETER_LEN],
    epoch: u32,
    randomness: [u8; RAND_LEN],
    message: [u8; MESSAGE_LENGTH],
) -> Seq<u8> {
    parameter@ + seq![TWEAK_SEPARATOR_FOR_MESSAGE_HASH] + spec_u32_le_bytes(epoch) + randomness@
        + message@
}

/// A message hash built on SHA-256, with parameters of `PARAMETER_LEN`
/// bytes and randomness of `RAND_LEN` bytes, that turns a message into
/// `NUM_CHUNKS` chunks of `CHUNK_SIZE` bits. Both lengths must be below the
/// 32 bytes of a SHA-256 digest, the randomness must not be empty, a chunk
/// must have 1, 2, 4 or 8 bits, and the chunks together must have fewer
/// bits than the 256 of a SHA-256 digest.
pub struct Sha256MessageHash<
    const PARAMETER_LEN: usize,
    const RAND_LEN: usize,
    const NUM_CHUNKS: usize,
    const CHUNK_SIZE: usize,
>;

impl<
    const PARAMETER_LEN: usize,
    const RAND_LEN: usize,
    const NUM_CHUNKS: usize,
    const CHUNK_SIZE: usize,
> MessageHash for Sha256MessageHash<PARAMETER_LEN, RAND_LEN, NUM_CHUNKS, CHUNK_SIZE> {
    type Parameter = [u8; PARAMETER_LEN];

    type Randomness = [u8; RAND_LEN];

    const NUM_CHUNKS: usize = NUM_CHUNKS;

    const CHUNK_SIZE: usize = CHUNK_SIZE;

    open spec fn consistent() -> bool {
        &&& PARAMETER_LEN < SHA256_OUTPUT_LEN
        &&& 0 < RAND_LEN < SHA256_OUTPUT_LEN
        &&& spec_valid_chunk_size(CHUNK_SIZE as nat)
        &&& NUM_CHUNKS * CHUNK_SIZE < 8 * SHA256_OUTPUT_LEN
    }

    /// The first `NUM_CHUNKS` chunks of the SHA-256 digest of the hash
    /// input: chunk `i` is made of the bits `i * CHUNK_SIZE` to
    /// `(i + 1) * CHUNK_SIZE - 1` of the digest.
    open spec fn spec_apply(
        parameter: [u8; PARAMETER_LEN],
        epoch: u32,
        randomness: [u8; RAND_LEN],
        message: [u8; MESSAGE_LENGTH],
    ) -> Seq<u8> {
        spec_bytes_to_chunks(
            spec_leading_bytes(
                sha256_digest(spec_hash_input(parameter, epoch, randomness, message)),
                spec_bytes_for_chunks(NUM_CHUNKS as nat, CHUNK_SIZE as nat),
            ),
            CHUNK_SIZE as nat,
        ).subrange(0, NUM_CHUNKS as int)
    }

    proof fn lemma_chunk_size() {
    }

    proof fn lemma_apply_chunks(
        parameter: [u8; PARAMETER_LEN],
        epoch: u32,
        randomness: [u8; RAND_LEN],
        message: [u8; MESSAGE_LENGTH],
    ) {
        let bytes = spec_leading_bytes(
            sha256_digest(spec_hash_input(parameter, epoch, randomness, message)),
            spec_bytes_for_chunks(NUM_CHUNKS as nat, CHUNK_SIZE as nat),
        );
        lemma_bytes_hold_chunks(bytes, NUM_CHUNKS as nat, CHUNK_SIZE as nat);
        lemma_bytes_to_chunks_shape(bytes, CHUNK_SIZE as nat);
        let all = spec_bytes_to_chunks(bytes, CHUNK_SIZE as nat);
        let chunks = all.subrange(0, NUM_CHUNKS as int);
        assert forall|i: int| 0 <= i < NUM_CHUNKS implies (#[trigger] chunks[i]) < pow2(
            CHUNK_SIZE as nat,
        ) by {
            assert(chunks[i] == all[i]);
        }
    }

    fn rand(rng: &mut rand::rngs::ThreadRng) -> [u8; RAND_LEN] {
        random_bytes::<RAND_LEN>(rng)
    }

    fn apply(
        parameter: &[u8; PARAMETER_LEN],
        epoch: u32,
        randomness: &[u8; RAND_LEN],
        message: &[u8; MESSAGE_LENGTH],
    ) -> (chunks: Vec<u8>)
        ensures
            chunks@.len() == NUM_CHUNKS,
            forall|i: int| 0 <= i < NUM_CHUNKS ==> (#[trigger] chunks@[i]) < pow2(CHUNK_SIZE as nat),
    {
        let mut input: Vec<u8> = Vec::new();
        push_bytes(&mut input, parameter.as_slice());
        input.push(TWEAK_SEPARATOR_FOR_MESSAGE_HASH);
        push_u32_le(&mut input, epoch);
        push_bytes(&mut input, randomness.as_slice());
        push_bytes(&mut input, message.as_slice());
        assert(input@ =~= spec_hash_input(*parameter, epoch, *randomness, *message));
        let digest = sha256(input.as_slice());
        let hash_len = (NUM_CHUNKS * CHUNK_SIZE + 7) / 8;
        let hash = slice_subrange(digest.as_slice(), 0, hash_len);
        assert(hash@ =~= spec_leading_bytes(digest@, hash_len as nat));
        proof {
            lemma_bytes_hold_chunks(hash@, NUM_CHUNKS as nat, CHUNK_SIZE as nat);
            Self::lemma_apply_chunks(*parameter, epoch, *randomness, *message);
        }
        let mut chunks = bytes_to_chunks(hash, CHUNK_SIZE);
        chunks.truncate(NUM_CHUNKS);
        chunks
    }

    fn internal_consistency_check() {
    }

    fn is_consistent() -> (ok: bool) {
        if !(CHUNK_SIZE == 1 || CHUNK_SIZE == 2 || CHUNK_SIZE == 4 || CHUNK_SIZE == 8) {
            return false;
        }
        if NUM_CHUNKS >= 8 * SHA256_OUTPUT_LEN {
            assert(NUM_CHUNKS * CHUNK_SIZE >= 8 * SHA256_OUTPUT_LEN) by (nonlinear_arith)
                requires
                    NUM_CHUNKS >= 8 * SHA256_OUTPUT_LEN,
                    CHUNK_SIZE >= 1,
            ;
            return false;
        }
        assert(NUM_CHUNKS * CHUNK_SIZE <= 255 * 8) by (nonlinear_arith)
            requires
                NUM_CHUNKS < 256,
                CHUNK_SIZE <= 8,
        ;
        let hash_bits = NUM_CHUNKS * CHUNK_SIZE;
        PARAMETER_LEN < SHA256_OUTPUT_LEN && 0 < RAND_LEN && RAND_LEN < SHA256_OUTPUT_LEN
            && hash_bits < 8 * SHA256_OUTPUT_LEN
    }
}

impl<
    const PARAMETER_LEN: usize,
    const RAND_LEN: usize,
    const NUM_CHUNKS: usize,
    const CHUNK_SIZE: usize,
> Sha256MessageHash<PARAMETER_LEN, RAND_LEN, NUM_CHUNKS, CHUNK_SIZE> {
    /// The number and the size of the chunks are those that the type names.
    pub proof fn lemma_constants()
        ensures
            <Self as MessageHash>::NUM_CHUNKS == NUM_CHUNKS,
            <Self as MessageHash>::CHUNK_SIZE == CHUNK_SIZE,
    {
    }

    /// Chunk `i` of a message is chunk `i % (8 / CHUNK_SIZE)` of byte
    /// `i / (8 / CHUNK_SIZE)` of the digest.
    pub proof fn lemma_chunk_of_digest(
        parameter: [u8; PARAMETER_LEN],
        epoch: u32,
        randomness: [u8; RAND_LEN],
        message: [u8; MESSAGE_LENGTH],
        i: nat,
    )
        requires
            <Self as MessageHash>::consistent(),
            i < NUM_CHUNKS,
        ensures
            <Self as MessageHash>::spec_apply(parameter, epoch, randomness, message)[i as int]
                == spec_chunk_of_byte(
                sha256_digest(spec_hash_input(parameter, epoch, randomness, message))[(i
                    / spec_chunks_per_byte(CHUNK_SIZE as nat)) as int],
                CHUNK_SIZE as nat,
                i % spec_chunks_per_byte(CHUNK_SIZE as nat),
            ),
    {
        let digest = sha256_digest(spec_hash_input(parameter, epoch, randomness, message));
        let bytes = spec_leading_bytes(
            digest,
            spec_bytes_for_chunks(NUM_CHUNKS as nat, CHUNK_SIZE as nat),
        );
        lemma_bytes_hold_chunks(bytes, NUM_CHUNKS as nat, CHUNK_SIZE as nat);
        lemma_chunk_base(CHUNK_SIZE as nat);
        let all = spec_bytes_to_chunks(bytes, CHUNK_SIZE as nat);
        let per_byte = spec_chunks_per_byte(CHUNK_SIZE as nat);
        assert(all.subrange(0, NUM_CHUNKS as int)[i as int] == all[i as int]);
        assert(all.len() == bytes.len() * per_byte);
        assert(i / per_byte < bytes.len()) by {
            if CHUNK_SIZE == 1 {
                assert(all.len() == bytes.len() * 8);
            } else if CHUNK_SIZE == 2 {
                assert(all.len() == bytes.len() * 4);
            } else if CHUNK_SIZE == 4 {
                assert(all.len() == bytes.len() * 2);
            } else {
                assert(all.len() == bytes.len() * 1);
            }
        }
        assert(bytes[(i / per_byte) as int] == digest[(i / per_byte) as int]);
    }

    /// The chunks of a message lose nothing of the digest that they were
    /// unpacked from, and add nothing to it: bit `j` of chunk `i` is bit
    /// `i * CHUNK_SIZE + j` of the digest, so that the chunks together are
    /// the first `NUM_CHUNKS * CHUNK_SIZE` bits of the digest.
    pub proof fn lemma_chunks_cover_digest(
        parameter: [u8; PARAMETER_LEN],
        epoch: u32,
        randomness: [u8; RAND_LEN],
        message: [u8; MESSAGE_LENGTH],
    )
        requires
            <Self as MessageHash>::consistent(),
        ensures
            forall|i: nat, j: nat|
                i < NUM_CHUNKS && j < CHUNK_SIZE ==> #[trigger] spec_chunk_bit(
                    <Self as MessageHash>::spec_apply(parameter, epoch, randomness, message)[i as int],
                    CHUNK_SIZE as nat,
                    j,
                ) == spec_bit(
                    sha256_digest(spec_hash_input(parameter, epoch, randomness, message)),
                    i * (CHUNK_SIZE as nat) + j,
                ),
    {
        let digest = sha256_digest(spec_hash_input(parameter, epoch, randomness, message));
        let bytes = spec_leading_bytes(
            digest,
            spec_bytes_for_chunks(NUM_CHUNKS as nat, CHUNK_SIZE as nat),
        );
        let all = spec_bytes_to_chunks(bytes, CHUNK_SIZE as nat);
        let chunks = <Self as MessageHash>::spec_apply(parameter, epoch, randomness, message);
        lemma_bytes_hold_chunks(bytes, NUM_CHUNKS as nat, CHUNK_SIZE as nat);
        assert forall|i: nat, j: nat| i < NUM_CHUNKS && j < CHUNK_SIZE implies #[trigger] spec_chunk_bit(
            chunks[i as int],
            CHUNK_SIZE as nat,
            j,
        ) == spec_bit(digest, i * (CHUNK_SIZE as nat) + j) by {
            assert(chunks[i as int] == all[i as int]);
            lemma_chunk_bit(bytes, CHUNK_SIZE as nat, i, j);
            let place = i * (CHUNK_SIZE as nat) + j;
            assert(place / 8 < bytes.len());
            assert(bytes[(place / 8) as int] == digest[(place / 8) as int]);
        }
    }
}

/// No input of the message hash is an input of the tweakable hash built on
/// SHA3-256 with parameters of the same length: behind the parameter the
/// one holds the separator of the message hash, the other the separator of
/// a tweak.
pub proof fn lemma_hash_input_is_no_tweak_hash_input<
    const PARAMETER_LEN: usize,
    const RAND_LEN: usize,
    const HASH_LEN: usize,
>(
    parameter: [u8; PARAMETER_LEN],
    epoch: u32,
    randomness: [u8; RAND_LEN],
    message: [u8; MESSAGE_LENGTH],
    tweak_parameter: [u8; PARAMETER_LEN],
    tweak: ShaTweak,
    tweak_message: Seq<[u8; HASH_LEN]>,
)
    ensures
        spec_hash_input(parameter, epoch, randomness, message)
            != crate::symmetric::tweak_hash::sha::spec_hash_input(
            tweak_parameter,
            tweak,
            tweak_message,
        ),
{
    let ours = spec_hash_input(parameter, epoch, randomness, message);
    let theirs = crate::symmetric::tweak_hash::sha::spec_hash_input(
        tweak_parameter,
        tweak,
        tweak_message,
    );
    lemma_to_bytes_shape(tweak);
    assert(parameter@.len() == PARAMETER_LEN);
    assert(tweak_parameter@.len() == PARAMETER_LEN);
    assert(ours[PARAMETER_LEN as int] == TWEAK_SEPARATOR_FOR_MESSAGE_HASH);
    assert(theirs[PARAMETER_LEN as int] == tweak.spec_to_bytes()[0]);
}

/// Parameters and randomness of 128 bits, 16 chunks of 8 bits.
pub type Sha256MessageHash128x3 = Sha256MessageHash<16, 16, 16, 8>;

/// Parameters and randomness of 192 bits, 48 chunks of 4 bits.
pub type Sha256MessageHash192x3 = Sha256MessageHash<24, 24, 48, 4>;

} // verus!
