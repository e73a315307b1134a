//! Message hashes, and the unpacking of bytes into chunks.

use vstd::prelude::*;
use vstd::arithmetic::div_mod::lemma_basic_div;
use vstd::arithmetic::div_mod::lemma_breakdown;
use vstd::arithmetic::div_mod::lemma_div_denominator;
use vstd::arithmetic::div_mod::lemma_div_multiples_vanish_fancy;
use vstd::arithmetic::div_mod::lemma_fundamental_div_mod;
use vstd::arithmetic::div_mod::lemma_mod_bound;
use vstd::arithmetic::div_mod::lemma_mod_mod;
use vstd::arithmetic::power2::lemma2_to64;
use vstd::arithmetic::power2::lemma_pow2_adds;
use vstd::arithmetic::power2::lemma_pow2_pos;
use vstd::arithmetic::power2::pow2;
use crate::MESSAGE_LENGTH;

pub mod poseidon;
pub mod radix;
pub mod sha;

verus! {

/// Turns a message, with the randomness of its signature, into the chunks
/// that say how far each hash chain is walked.
pub trait MessageHash {
    /// Public parameter, sampled once for an instance of the scheme.
    type Parameter: Copy;

    /// Sampled anew for every signature.
    type Randomness: Copy;

    /// Number of chunks that a message is turned into.
    const NUM_CHUNKS: usize;

    /// Number of bits in a chunk: 1, 2, 4 or 8.
    const CHUNK_SIZE: usize;

    /// Whether the lengths of this instantiation fit the hash underneath.
    spec fn consistent() -> bool;

    /// The chunks of `message` at `epoch` under `parameter` and `randomness`.
    spec fn spec_apply(
        parameter: Self::Parameter,
        epoch: u32,
        randomness: Self::Randomness,
        message: [u8; MESSAGE_LENGTH],
    ) -> Seq<u8>;

    /// In a consistent instantiation a chunk has 1, 2, 4 or 8 bits.
    proof fn lemma_chunk_size()
        requires
            Self::consistent(),
        ensures
            spec_valid_chunk_size(Self::CHUNK_SIZE as nat),
    ;

    /// In a consistent instantiation every message has `NUM_CHUNKS` chunks,
    /// each below `2^CHUNK_SIZE`.
    proof fn lemma_apply_chunks(
        parameter: Self::Parameter,
        epoch: u32,
        randomness: Self::Randomness,
        message: [u8; MESSAGE_LENGTH],
    )
        requires
            Self::consistent(),
        ensures
            Self::spec_apply(parameter, epoch, randomness, message).len() == Self::NUM_CHUNKS,
            forall|i: int|
                0 <= i < Self::NUM_CHUNKS ==> (#[trigger] Self::spec_apply(
                    parameter,
                    epoch,
                    randomness,
                    message,
                )[i]) < pow2(Self::CHUNK_SIZE as nat),
    ;

    /// Samples the randomness of one signature from `rng`.
    fn rand(rng: &mut rand::rngs::ThreadRng) -> Self::Randomness;

    /// Hashes `message` at `epoch` under `parameter` and `randomness` to
    /// `NUM_CHUNKS` chunks.
    fn apply(
        parameter: &Self::Parameter,
        epoch: u32,
        randomness: &Self::Randomness,
        message: &[u8; MESSAGE_LENGTH],
    ) -> (chunks: Vec<u8>)
        requires
            Self::consistent(),
        ensures
            chunks@ == Self::spec_apply(*parameter, epoch, *randomness, *message),
            chunks@.len() == Self::NUM_CHUNKS,
            forall|i: int|
                0 <= i < Self::NUM_CHUNKS ==> (#[trigger] chunks@[i]) < pow2(
                    Self::CHUNK_SIZE as nat,
                ),
    ;

    /// Tests at run time what `consistent` states.
    fn is_consistent() -> (ok: bool)
        ensures
            ok == Self::consistent(),
    ;

    /// Stands where the instantiation has to be consistent: a call of it is
    /// accepted for a consistent instantiation, and for no other.
    fn internal_consistency_check()
        requires
            Self::consistent(),
    ;
}

/// A chunk has 1, 2, 4 or 8 bits, so that chunks never straddle bytes.
pub open spec fn spec_valid_chunk_size(chunk_size: nat) -> bool {
    chunk_size == 1 || chunk_size == 2 || chunk_size == 4 || chunk_size == 8
}

/// Number of chunks in a byte.
pub open spec fn spec_chunks_per_byte(chunk_size: nat) -> nat {
    8nat / chunk_size
}

/// The chunk at place `index` of `byte`, place 0 being the one of the most
/// significant bits.
pub open spec fn spec_chunk_of_byte(byte: u8, chunk_size: nat, index: nat) -> u8 {
    (byte as nat / pow2((8 - chunk_size * (index + 1)) as nat) % pow2(chunk_size)) as u8
}

/// The chunks of `bytes`: every byte gives `8 / chunk_size` chunks, those
/// of its most significant bits first.
pub open spec fn spec_bytes_to_chunks(bytes: Seq<u8>, chunk_size: nat) -> Seq<u8> {
    let per_byte = spec_chunks_per_byte(chunk_size);
    Seq::new(
        bytes.len() * per_byte,
        |i: int|
            spec_chunk_of_byte(bytes[i / per_byte as int], chunk_size, (i % per_byte as int) as nat),
    )
}

/// The number that the chunks `chunks` are the digits of, in base
/// `2^chunk_size` and most significant digit first.
pub open spec fn spec_chunks_value(chunks: Seq<u8>, chunk_size: nat) -> nat
    decreases chunks.len(),
{
    if chunks.len() == 0 {
        0
    } else {
        spec_chunks_value(chunks.drop_last(), chunk_size) * pow2(chunk_size) + chunks.last() as nat
    }
}

/// The bytes that `chunks` were unpacked from: every `8 / chunk_size`
/// chunks in a row are the digits of one byte.
pub open spec fn spec_chunks_to_bytes(chunks: Seq<u8>, chunk_size: nat) -> Seq<u8> {
    let per_byte = spec_chunks_per_byte(chunk_size);
    Seq::new(
        chunks.len() / per_byte,
        |b: int|
            spec_chunks_value(chunks.subrange(b * per_byte, (b + 1) * per_byte), chunk_size) as u8,
    )
}

/// `2^chunk_size`, and the number of chunks in a byte, for each of the four
/// chunk sizes.
pub proof fn lemma_chunk_base(chunk_size: nat)
    requires
        spec_valid_chunk_size(chunk_size),
    ensures
        chunk_size == 1 ==> spec_chunks_per_byte(chunk_size) == 8,
        chunk_size == 2 ==> spec_chunks_per_byte(chunk_size) == 4,
        chunk_size == 4 ==> spec_chunks_per_byte(chunk_size) == 2,
        chunk_size == 8 ==> spec_chunks_per_byte(chunk_size) == 1,
        chunk_size == 1 ==> pow2(chunk_size) == 2,
        chunk_size == 2 ==> pow2(chunk_size) == 4,
        chunk_size == 4 ==> pow2(chunk_size) == 16,
        chunk_size == 8 ==> pow2(chunk_size) == 256,
        2 <= pow2(chunk_size) <= 256,
{
    lemma2_to64();
}

/// Every chunk of a byte is below `2^chunk_size`.
pub proof fn lemma_chunk_of_byte_bound(byte: u8, chunk_size: nat, index: nat)
    requires
        spec_valid_chunk_size(chunk_size),
    ensures
        spec_chunk_of_byte(byte, chunk_size, index) < pow2(chunk_size),
{
    lemma_chunk_base(chunk_size);
    let shifted = byte as nat / pow2((8 - chunk_size * (index + 1)) as nat);
    if chunk_size == 1 {
        assert(shifted % 2 < 2);
    } else if chunk_size == 2 {
        assert(shifted % 4 < 4);
    } else if chunk_size == 4 {
        assert(shifted % 16 < 16);
    } else {
        assert(shifted % 256 < 256);
    }
}

/// Unpacking gives `8 / chunk_size` chunks for every byte, each below
/// `2^chunk_size`.
pub proof fn lemma_bytes_to_chunks_shape(bytes: Seq<u8>, chunk_size: nat)
    requires
        spec_valid_chunk_size(chunk_size),
    ensures
        spec_bytes_to_chunks(bytes, chunk_size).len() * chunk_size == 8 * bytes.len(),
        forall|i: int|
            0 <= i < spec_bytes_to_chunks(bytes, chunk_size).len() ==> (
            #[trigger] spec_bytes_to_chunks(bytes, chunk_size)[i]) < pow2(chunk_size),
{
    let chunks = spec_bytes_to_chunks(bytes, chunk_size);
    assert forall|i: int| 0 <= i < chunks.len() implies (#[trigger] chunks[i]) < pow2(
        chunk_size,
    ) by {
        let per_byte = spec_chunks_per_byte(chunk_size);
        lemma_chunk_of_byte_bound(
            bytes[i / per_byte as int],
            chunk_size,
            (i % per_byte as int) as nat,
        );
    }
    lemma_chunk_base(chunk_size);
    let per_byte = spec_chunks_per_byte(chunk_size);
    assert(chunks.len() == bytes.len() * per_byte);
    if chunk_size == 1 {
        assert(chunks.len() == bytes.len() * 8);
    } else if chunk_size == 2 {
        assert(chunks.len() == bytes.len() * 4);
    } else if chunk_size == 4 {
        assert(chunks.len() == bytes.len() * 2);
    } else {
        assert(chunks.len() == bytes.len() * 1);
    }
}

/// The first `count` chunks of `byte`.
pub open spec fn spec_leading_chunks(byte: u8, chunk_size: nat, count: nat) -> Seq<u8> {
    Seq::new(count, |j: int| spec_chunk_of_byte(byte, chunk_size, j as nat))
}

/// The first `count` chunks of a byte are the digits of what is left of the
/// byte when the bits of the other chunks are dropped.
pub proof fn lemma_leading_chunks_value(byte: u8, chunk_size: nat, count: nat)
    requires
        spec_valid_chunk_size(chunk_size),
        count <= spec_chunks_per_byte(chunk_size),
    ensures
        spec_chunks_value(spec_leading_chunks(byte, chunk_size, count), chunk_size) == byte as nat
            / pow2((8 - chunk_size * count) as nat),
    decreases count,
{
    lemma_chunk_base(chunk_size);
    lemma2_to64();
    let chunks = spec_leading_chunks(byte, chunk_size, count);
    if count == 0 {
        assert(chunk_size * count == 0) by (nonlinear_arith)
            requires
                count == 0,
        ;
        lemma_basic_div(byte as int, pow2(8) as int);
    } else {
        let before = (count - 1) as nat;
        lemma_leading_chunks_value(byte, chunk_size, before);
        assert(chunks.drop_last() =~= spec_leading_chunks(byte, chunk_size, before));
        assert(chunk_size * count == chunk_size * before + chunk_size) by (nonlinear_arith)
            requires
                before == count - 1,
        ;
        assert(chunk_size * count <= 8) by (nonlinear_arith)
            requires
                count <= 8nat / chunk_size,
                chunk_size > 0,
        ;
        let exponent = (8 - chunk_size * count) as nat;
        let exponent_before = (8 - chunk_size * before) as nat;
        assert(exponent_before == exponent + chunk_size);
        assert(chunks.last() == spec_chunk_of_byte(byte, chunk_size, before));
        let divisor = pow2(exponent);
        let base = pow2(chunk_size);
        let rest = byte as nat / divisor;
        lemma_pow2_pos(exponent);
        lemma_pow2_adds(exponent, chunk_size);
        lemma_div_denominator(byte as int, divisor as int, base as int);
        assert(byte as nat / pow2(exponent_before) == rest / base);
        assert(rest % base < 256) by {
            lemma_mod_bound(rest as int, base as int);
        }
        assert(chunks.last() as nat == rest % base);
        lemma_fundamental_div_mod(rest as int, base as int);
        assert((rest / base) * base == base * (rest / base)) by (nonlinear_arith);
    }
}

/// Unpacking loses nothing: the chunks of a byte string are the digits of
/// its bytes, so that packing them gives the byte string back.
pub proof fn lemma_chunks_cover_bytes(bytes: Seq<u8>, chunk_size: nat)
    requires
        spec_valid_chunk_size(chunk_size),
    ensures
        spec_chunks_to_bytes(spec_bytes_to_chunks(bytes, chunk_size), chunk_size) == bytes,
{
    lemma_chunk_base(chunk_size);
    lemma2_to64();
    let per_byte = spec_chunks_per_byte(chunk_size);
    let chunks = spec_bytes_to_chunks(bytes, chunk_size);
    let packed = spec_chunks_to_bytes(chunks, chunk_size);
    assert(chunks.len() == bytes.len() * per_byte);
    assert(packed.len() == bytes.len()) by {
        if chunk_size == 1 {
            assert(chunks.len() / 8 == bytes.len());
        } else if chunk_size == 2 {
            assert(chunks.len() / 4 == bytes.len());
        } else if chunk_size == 4 {
            assert(chunks.len() / 2 == bytes.len());
        } else {
            assert(chunks.len() / 1 == bytes.len());
        }
    }
    assert forall|b: int| 0 <= b < bytes.len() implies packed[b] == bytes[b] by {
        let first = b * per_byte;
        let of_byte = chunks.subrange(first, (b + 1) * per_byte);
        assert((b + 1) * per_byte == first + per_byte) by (nonlinear_arith)
            requires
                first == b * per_byte,
        ;
        assert(0 <= first && first + per_byte <= bytes.len() * per_byte) by (nonlinear_arith)
            requires
                first == b * per_byte,
                0 <= b < bytes.len(),
        ;
        assert(of_byte =~= spec_leading_chunks(bytes[b], chunk_size, per_byte)) by {
            assert forall|j: int| 0 <= j < per_byte implies of_byte[j] == spec_chunk_of_byte(
                bytes[b],
                chunk_size,
                j as nat,
            ) by {
                let k = first + j;
                assert(of_byte[j] == chunks[k]);
                if chunk_size == 1 {
                    assert(k == b * 8 + j);
                    assert(k / 8 == b && k % 8 == j);
                } else if chunk_size == 2 {
                    assert(k == b * 4 + j);
                    assert(k / 4 == b && k % 4 == j);
                } else if chunk_size == 4 {
                    assert(k == b * 2 + j);
                    assert(k / 2 == b && k % 2 == j);
                } else {
                    assert(k == b * 1 + j);
                    assert(k / 1 == b && k % 1 == j);
                }
            }
        }
        lemma_leading_chunks_value(bytes[b], chunk_size, per_byte);
        assert(chunk_size * per_byte == 8);
        assert(pow2((8 - chunk_size * per_byte) as nat) == 1);
        assert(spec_chunks_value(of_byte, chunk_size) == bytes[b] as nat / 1);
        assert(packed[b] == spec_chunks_value(of_byte, chunk_size) as u8);
    }
    assert(packed =~= bytes);
}

/// Number of bytes that hold the bits of `num_chunks` chunks of
/// `chunk_size` bits.
pub open spec fn spec_bytes_for_chunks(num_chunks: nat, chunk_size: nat) -> nat {
    (num_chunks * chunk_size + 7) / 8
}

/// The bit at place `index` of `bytes`, place 0 being that of the most
/// significant bit of the first byte.
pub open spec fn spec_bit(bytes: Seq<u8>, index: nat) -> nat {
    bytes[(index / 8) as int] as nat / pow2((7 - index % 8) as nat) % 2
}

/// The bit at place `index` of a chunk of `chunk_size` bits, place 0 being
/// that of the most significant bit of the chunk.
pub open spec fn spec_chunk_bit(chunk: u8, chunk_size: nat, index: nat) -> nat {
    chunk as nat / pow2((chunk_size - 1 - index) as nat) % 2
}

/// As many bytes as `num_chunks` chunks need unpack to no fewer chunks.
pub proof fn lemma_bytes_hold_chunks(bytes: Seq<u8>, num_chunks: nat, chunk_size: nat)
    requires
        spec_valid_chunk_size(chunk_size),
        bytes.len() == spec_bytes_for_chunks(num_chunks, chunk_size),
    ensures
        num_chunks <= spec_bytes_to_chunks(bytes, chunk_size).len(),
        spec_bytes_to_chunks(bytes, chunk_size).subrange(0, num_chunks as int).len()
            == num_chunks,
{
    lemma_chunk_base(chunk_size);
    let per_byte = spec_chunks_per_byte(chunk_size);
    let bits = num_chunks * chunk_size;
    assert(spec_bytes_to_chunks(bytes, chunk_size).len() == bytes.len() * per_byte);
    if chunk_size == 1 {
        assert(bits == num_chunks * 1);
    } else if chunk_size == 2 {
        assert(bits == num_chunks * 2);
    } else if chunk_size == 4 {
        assert(bits == num_chunks * 4);
    } else {
        assert(bits == num_chunks * 8);
    }
}

/// A bit of a group of bits of a number is the bit of the number at the
/// place where the group puts it.
pub proof fn lemma_bit_of_group(value: nat, shift: nat, size: nat, place: nat)
    requires
        place < size,
    ensures
        value / pow2(shift) % pow2(size) / pow2(place) % 2 == value / pow2(shift + place) % 2,
{
    let shifted = value / pow2(shift);
    let low = pow2(place);
    let high = pow2((size - place) as nat);
    let rest = pow2((size - place - 1) as nat);
    lemma_pow2_pos(shift);
    lemma_pow2_pos(place);
    lemma_pow2_pos((size - place) as nat);
    lemma_pow2_pos((size - place - 1) as nat);
    lemma_pow2_adds(place, (size - place) as nat);
    lemma_pow2_adds(1, (size - place - 1) as nat);
    lemma_pow2_adds(shift, place);
    lemma2_to64();
    assert(pow2(size) == low * high);
    assert(high == 2 * rest);
    lemma_div_denominator(value as int, pow2(shift) as int, low as int);
    lemma_breakdown(shifted as int, low as int, high as int);
    let quotient = shifted / low;
    lemma_mod_bound(shifted as int, low as int);
    lemma_div_multiples_vanish_fancy(
        (quotient % high) as int,
        (shifted % low) as int,
        low as int,
    );
    assert(shifted % pow2(size) / low == quotient % high);
    lemma_mod_mod(quotient as int, 2, rest as int);
}

/// Bit `index` of chunk `chunk` of a byte string is bit
/// `chunk * chunk_size + index` of the byte string.
pub proof fn lemma_chunk_bit(bytes: Seq<u8>, chunk_size: nat, chunk: nat, index: nat)
    requires
        spec_valid_chunk_size(chunk_size),
        chunk < spec_bytes_to_chunks(bytes, chunk_size).len(),
        index < chunk_size,
    ensures
        (chunk * chunk_size + index) / 8 < bytes.len(),
        spec_chunk_bit(spec_bytes_to_chunks(bytes, chunk_size)[chunk as int], chunk_size, index)
            == spec_bit(bytes, chunk * chunk_size + index),
{
    lemma_chunk_base(chunk_size);
    let per_byte = spec_chunks_per_byte(chunk_size);
    let byte_index = chunk / per_byte;
    let within = chunk % per_byte;
    let place = chunk * chunk_size + index;
    assert(spec_bytes_to_chunks(bytes, chunk_size).len() == bytes.len() * per_byte);
    let offset = within * chunk_size + index;
    assert(place == byte_index * 8 + offset && offset < 8 && byte_index < bytes.len()) by {
        if chunk_size == 1 {
            assert(per_byte == 8 && byte_index == chunk / 8 && within == chunk % 8);
            assert(place == chunk * 1 + index && offset == within * 1 + index);
            assert(bytes.len() * per_byte == bytes.len() * 8);
        } else if chunk_size == 2 {
            assert(per_byte == 4 && byte_index == chunk / 4 && within == chunk % 4);
            assert(place == chunk * 2 + index && offset == within * 2 + index);
            assert(bytes.len() * per_byte == bytes.len() * 4);
        } else if chunk_size == 4 {
            assert(per_byte == 2 && byte_index == chunk / 2 && within == chunk % 2);
            assert(place == chunk * 4 + index && offset == within * 4 + index);
            assert(bytes.len() * per_byte == bytes.len() * 2);
        } else {
            assert(per_byte == 1 && byte_index == chunk / 1 && within == chunk % 1);
            assert(place == chunk * 8 + index && offset == within * 8 + index);
            assert(bytes.len() * per_byte == bytes.len() * 1);
        }
    }
    assert(place / 8 == byte_index && place % 8 == offset);
    let shift = (8 - chunk_size * (within + 1)) as nat;
    assert(chunk_size * (within + 1) == within * chunk_size + chunk_size) by (nonlinear_arith);
    let byte = bytes[byte_index as int];
    lemma_bit_of_group(byte as nat, shift, chunk_size, (chunk_size - 1 - index) as nat);
    lemma_mod_bound(byte as int / pow2(shift) as int, pow2(chunk_size) as int);
    assert(shift + (chunk_size - 1 - index) == 7 - place % 8);
}

/// Computes `2^exponent` for an exponent of at most 8.
pub fn small_power_of_two(exponent: usize) -> (power: usize)
    requires
        exponent <= 8,
    ensures
        power == pow2(exponent as nat),
{
    let mut power: usize = 1;
    let mut i: usize = 0;
    proof {
        lemma2_to64();
    }
    while i < exponent
        invariant
            i <= exponent <= 8,
            power == pow2(i as nat),
            power <= 256,
        decreases exponent - i,
    {
        proof {
            lemma2_to64();
            assert(i == 0 || i == 1 || i == 2 || i == 3 || i == 4 || i == 5 || i == 6 || i == 7);
        }
        power = power * 2;
        i += 1;
    }
    power
}

/// Isolates the chunk at place `index` of `byte`.
pub fn chunk_of_byte(byte: u8, chunk_size: usize, index: usize) -> (chunk: u8)
    requires
        spec_valid_chunk_size(chunk_size as nat),
        index < spec_chunks_per_byte(chunk_size as nat),
    ensures
        chunk == spec_chunk_of_byte(byte, chunk_size as nat, index as nat),
{
    proof {
        lemma_chunk_base(chunk_size as nat);
    }
    let shift = 8 - chunk_size * (index + 1);
    let divisor = small_power_of_two(shift);
    let base = small_power_of_two(chunk_size);
    proof {
        lemma2_to64();
        assert(divisor >= 1) by {
            assert(shift == 0 || shift == 1 || shift == 2 || shift == 3 || shift == 4 || shift
                == 5 || shift == 6 || shift == 7 || shift == 8);
        }
    }
    let chunk = (byte as usize / divisor) % base;
    chunk as u8
}

/// Unpacks `bytes` into chunks of `chunk_size` bits: every byte gives
/// `8 / chunk_size` chunks, those of its most significant bits first.
pub fn bytes_to_chunks(bytes: &[u8], chunk_size: usize) -> (chunks: Vec<u8>)
    requires
        spec_valid_chunk_size(chunk_size as nat),
    ensures
        chunks@ == spec_bytes_to_chunks(bytes@, chunk_size as nat),
{
    let per_byte: usize = 8 / chunk_size;
    let mut chunks: Vec<u8> = Vec::new();
    let mut i: usize = 0;
    while i < bytes.len()
        invariant
            spec_valid_chunk_size(chunk_size as nat),
            per_byte == spec_chunks_per_byte(chunk_size as nat),
            i <= bytes@.len(),
            chunks@.len() == i * per_byte,
            forall|k: int|
                0 <= k < chunks@.len() ==> chunks@[k] == spec_chunk_of_byte(
                    bytes@[k / per_byte as int],
                    chunk_size as nat,
                    (k % per_byte as int) as nat,
                ),
        decreases bytes@.len() - i,
    {
        let byte = bytes[i];
        let mut j: usize = 0;
        while j < per_byte
            invariant
                spec_valid_chunk_size(chunk_size as nat),
                per_byte == spec_chunks_per_byte(chunk_size as nat),
                i < bytes@.len(),
                byte == bytes@[i as int],
                j <= per_byte,
                chunks@.len() == i * per_byte + j,
                forall|k: int|
                    0 <= k < chunks@.len() ==> chunks@[k] == spec_chunk_of_byte(
                        bytes@[k / per_byte as int],
                        chunk_size as nat,
                        (k % per_byte as int) as nat,
                    ),
            decreases per_byte - j,
        {
            let ghost before = chunks@;
            let chunk = chunk_of_byte(byte, chunk_size, j);
            chunks.push(chunk);
            proof {
                let k = before.len() as int;
                assert(k == i * per_byte + j);
                assert(k / per_byte as int == i && k % per_byte as int == j) by {
                    lemma_chunk_base(chunk_size as nat);
                }
            }
            j += 1;
        }
        i += 1;
        assert(chunks@.len() == i * per_byte) by {
            lemma_chunk_base(chunk_size as nat);
        }
    }
    assert(chunks@ =~= spec_bytes_to_chunks(bytes@, chunk_size as nat));
    chunks
}

} // verus!
