//! The message hash over a prime field: what it does before and after the
//! compression of field elements, which its user brings.

use vstd::prelude::*;
use vstd::arithmetic::div_mod::lemma_fundamental_div_mod_converse;
use vstd::arithmetic::div_mod::lemma_mod_bound;
use vstd::arithmetic::power2::lemma2_to64;
use vstd::arithmetic::power2::lemma_pow2;
use vstd::arithmetic::power2::lemma_pow2_adds;
use vstd::arithmetic::power2::lemma_pow2_strictly_increases;
use vstd::arithmetic::power2::lemma_pow2_unfold;
use vstd::arithmetic::power2::pow2;
use vstd::arithmetic::power::lemma_pow0;
use vstd::arithmetic::power::lemma_pow1;
use vstd::arithmetic::power::lemma_pow_adds;
use vstd::arithmetic::power::lemma_pow_multiplies;
use vstd::arithmetic::power::lemma_pow_positive;
use vstd::arithmetic::power::pow;
use vstd::slice::slice_to_vec;
use crate::MESSAGE_LENGTH;
use crate::TWEAK_SEPARATOR_FOR_MESSAGE_HASH;
use crate::symmetric::message_hash::lemma_chunk_base;
use crate::symmetric::message_hash::radix::digits;
use crate::symmetric::message_hash::radix::lemma_digits_determine;
use crate::symmetric::message_hash::radix::lemma_le_value_bound;
use crate::symmetric::message_hash::radix::lemma_le_value_injective;
use crate::symmetric::message_hash::radix::mul_small_add;
use crate::symmetric::message_hash::radix::power;
use crate::symmetric::message_hash::radix::power_minus_one;
use crate::symmetric::message_hash::radix::reaches_power_of_two;
use crate::symmetric::message_hash::radix::spec_digit;
use crate::symmetric::message_hash::radix::spec_le_value;
use crate::symmetric::message_hash::small_power_of_two;
use crate::symmetric::message_hash::spec_valid_chunk_size;
use crate::symmetric::random_below;

verus! {

/// The modulus of the field, the prime `2^31 - 2^27 + 1`. A field element
/// is held as a `u32` below it.
pub const FIELD_MODULUS: u32 = 2013265921;

/// The `count` least significant digits of `value` in the base of the
/// field, least significant digit first.
pub open spec fn spec_field_digits(value: nat, count: nat) -> Seq<u32> {
    Seq::new(count, |i: int| spec_digit(value, FIELD_MODULUS as nat, i as nat) as u32)
}

/// The number that `digits` are the digits of in base `base`, most
/// significant digit first.
pub open spec fn spec_be_value(digits: Seq<u32>, base: nat) -> nat
    decreases digits.len(),
{
    if digits.len() == 0 {
        0
    } else {
        spec_be_value(digits.drop_last(), base) * base + digits.last() as nat
    }
}

/// The number that stands for an epoch in the input of the hash: the epoch
/// in front of the separator of the message hash.
pub open spec fn spec_epoch_value(epoch: u32) -> nat {
    (epoch * 256 + TWEAK_SEPARATOR_FOR_MESSAGE_HASH) as nat
}

/// The chunks of the number `value`: its `num_chunks` least significant
/// digits in base `2^chunk_size`, least significant digit first.
pub open spec fn spec_value_chunks(value: nat, num_chunks: nat, chunk_size: nat) -> Seq<u8> {
    Seq::new(num_chunks, |i: int| spec_digit(value, pow2(chunk_size), i as nat) as u8)
}

/// Writes the digits of `number` in the base of the field into an array of
/// `N` field elements, least significant digit first.
pub fn field_digits<const N: usize>(number: Vec<u8>) -> (elements: [u32; N])
    ensures
        elements@ == spec_field_digits(spec_le_value(number@), N as nat),
{
    let ghost value = spec_le_value(number@);
    let found = digits(number, FIELD_MODULUS, N);
    let mut elements = [0u32; N];
    let mut i: usize = 0;
    while i < N
        invariant
            i <= N,
            found@.len() == N,
            forall|k: int| 0 <= k < i ==> elements@[k] == found@[k],
        decreases N - i,
    {
        elements[i] = found[i];
        i += 1;
    }
    assert forall|k: int| 0 <= k < N implies elements@[k] == spec_field_digits(
        value,
        N as nat,
    )[k] by {
        assert(elements@[k] == found@[k]);
        assert(found@[k] == spec_digit(value, FIELD_MODULUS as nat, k as nat));
    }
    assert(elements@ =~= spec_field_digits(value, N as nat));
    elements
}

/// Encodes a message as field elements: takes the message for a number,
/// least significant byte first, and writes its digits in the base of the
/// field, least significant digit first.
pub fn encode_message<const MSG_LEN_FE: usize>(message: &[u8; MESSAGE_LENGTH]) -> (elements: [u32;
    MSG_LEN_FE])
    ensures
        elements@ == spec_field_digits(spec_le_value(message@), MSG_LEN_FE as nat),
{
    field_digits::<MSG_LEN_FE>(slice_to_vec(message.as_slice()))
}

/// Encodes an epoch as field elements: writes the digits of the epoch in
/// front of the separator of the message hash, in the base of the field and
/// least significant digit first.
pub fn encode_epoch<const TWEAK_LEN_FE: usize>(epoch: u32) -> (elements: [u32; TWEAK_LEN_FE])
    ensures
        elements@ == spec_field_digits(spec_epoch_value(epoch), TWEAK_LEN_FE as nat),
{
    let mut number: Vec<u8> = Vec::new();
    mul_small_add(&mut number, 0, epoch);
    mul_small_add(&mut number, 256, TWEAK_SEPARATOR_FOR_MESSAGE_HASH as u32);
    field_digits::<TWEAK_LEN_FE>(number)
}

/// Decodes field elements into chunks: takes the field elements for the
/// digits of a number in the base of the field, most significant first, and
/// writes the `NUM_CHUNKS` least significant digits of that number in base
/// `2^CHUNK_SIZE`, least significant first.
pub fn decode_to_chunks<
    const NUM_CHUNKS: usize,
    const CHUNK_SIZE: usize,
    const HASH_LEN_FE: usize,
>(field_elements: &[u32; HASH_LEN_FE]) -> (chunks: Vec<u8>)
    requires
        spec_valid_chunk_size(CHUNK_SIZE as nat),
    ensures
        chunks@ == spec_value_chunks(
            spec_be_value(field_elements@, FIELD_MODULUS as nat),
            NUM_CHUNKS as nat,
            CHUNK_SIZE as nat,
        ),
        chunks@.len() == NUM_CHUNKS,
        forall|i: int| 0 <= i < NUM_CHUNKS ==> (#[trigger] chunks@[i]) < pow2(CHUNK_SIZE as nat),
{
    let mut number: Vec<u8> = Vec::new();
    let mut i: usize = 0;
    assert(field_elements@.subrange(0, 0) =~= Seq::<u32>::empty());
    while i < HASH_LEN_FE
        invariant
            i <= HASH_LEN_FE,
            spec_le_value(number@) == spec_be_value(
                field_elements@.subrange(0, i as int),
                FIELD_MODULUS as nat,
            ),
        decreases HASH_LEN_FE - i,
    {
        mul_small_add(&mut number, FIELD_MODULUS, field_elements[i]);
        i += 1;
        assert(field_elements@.subrange(0, i as int).drop_last() =~= field_elements@.subrange(
            0,
            i as int - 1,
        ));
    }
    assert(field_elements@.subrange(0, HASH_LEN_FE as int) =~= field_elements@);
    proof {
        lemma_chunk_base(CHUNK_SIZE as nat);
    }
    let base = small_power_of_two(CHUNK_SIZE);
    let found = digits(number, base as u32, NUM_CHUNKS);
    let mut chunks: Vec<u8> = Vec::new();
    let mut k: usize = 0;
    while k < NUM_CHUNKS
        invariant
            k <= NUM_CHUNKS,
            found@.len() == NUM_CHUNKS,
            2 <= base <= 256,
            forall|j: int|
                0 <= j < NUM_CHUNKS ==> found@[j] == spec_digit(
                    spec_le_value(number@),
                    base as nat,
                    j as nat,
                ),
            base == pow2(CHUNK_SIZE as nat),
            chunks@.len() == k,
            forall|j: int| 0 <= j < k ==> chunks@[j] == found@[j] as u8,
            forall|j: int| 0 <= j < k ==> (#[trigger] chunks@[j]) < pow2(CHUNK_SIZE as nat),
        decreases NUM_CHUNKS - k,
    {
        proof {
            lemma_pow_positive(base as int, k as nat);
            lemma_mod_bound(
                spec_le_value(number@) as int / pow(base as int, k as nat),
                base as int,
            );
        }
        chunks.push(found[k] as u8);
        k += 1;
    }
    assert(chunks@ =~= spec_value_chunks(
        spec_be_value(field_elements@, FIELD_MODULUS as nat),
        NUM_CHUNKS as nat,
        CHUNK_SIZE as nat,
    ));
    chunks
}

/// Number of field elements that the compression takes.
pub const COMPRESSION_WIDTH: usize = 24;

/// A power of the modulus of the field is at least the same power of two.
pub proof fn lemma_field_power_lower_bound(exponent: nat)
    ensures
        pow(FIELD_MODULUS as int, exponent) >= pow2(exponent),
    decreases exponent,
{
    if exponent == 0 {
        lemma_pow0(FIELD_MODULUS as int);
        lemma2_to64();
    } else {
        let before = (exponent - 1) as nat;
        lemma_field_power_lower_bound(before);
        lemma_pow_adds(FIELD_MODULUS as int, before, 1);
        lemma_pow1(FIELD_MODULUS as int);
        lemma_pow2_unfold(exponent);
        let power = pow(FIELD_MODULUS as int, before);
        assert(power * FIELD_MODULUS >= 2 * pow2(before)) by (nonlinear_arith)
            requires
                power >= pow2(before),
                FIELD_MODULUS >= 2,
        ;
    }
}

/// Appends `elements` to `buffer`.
pub fn push_elements(buffer: &mut Vec<u32>, elements: &[u32])
    ensures
        final(buffer)@ == old(buffer)@ + elements@,
{
    let mut i: usize = 0;
    while i < elements.len()
        invariant
            i <= elements@.len(),
            buffer@ == old(buffer)@ + elements@.subrange(0, i as int),
        decreases elements@.len() - i,
    {
        buffer.push(elements[i]);
        i += 1;
        assert(buffer@ =~= old(buffer)@ + elements@.subrange(0, i as int));
    }
    assert(elements@.subrange(0, i as int) =~= elements@);
}

/// A message hash over the field, with parameters of `PARAMETER_LEN` and
/// randomness of `RAND_LEN` field elements, that encodes the epoch in
/// `TWEAK_LEN_FE` and the message in `MSG_LEN_FE` field elements and gets
/// `NUM_CHUNKS` chunks of `CHUNK_SIZE` bits out of a hash of `HASH_LEN_FE`
/// field elements. The compression that turns the input into the hash is
/// not part of it.
pub struct PoseidonMessageHash<
    const PARAMETER_LEN: usize,
    const RAND_LEN: usize,
    const HASH_LEN_FE: usize,
    const NUM_CHUNKS: usize,
    const CHUNK_SIZE: usize,
    const TWEAK_LEN_FE: usize,
    const MSG_LEN_FE: usize,
>;

impl<
    const PARAMETER_LEN: usize,
    const RAND_LEN: usize,
    const HASH_LEN_FE: usize,
    const NUM_CHUNKS: usize,
    const CHUNK_SIZE: usize,
    const TWEAK_LEN_FE: usize,
    const MSG_LEN_FE: usize,
> PoseidonMessageHash<
    PARAMETER_LEN,
    RAND_LEN,
    HASH_LEN_FE,
    NUM_CHUNKS,
    CHUNK_SIZE,
    TWEAK_LEN_FE,
    MSG_LEN_FE,
> {
    /// Whether the lengths fit: a chunk has 1, 2, 4 or 8 bits, the chunks
    /// have at most `2^32 - 1` bits together, the input fits the
    /// compression, the field elements of a message can tell all messages
    /// apart, those of an epoch all epochs with their separator, and the
    /// chunks all hashes.
    pub open spec fn consistent() -> bool {
        &&& spec_valid_chunk_size(CHUNK_SIZE as nat)
        &&& NUM_CHUNKS * CHUNK_SIZE <= u32::MAX
        &&& PARAMETER_LEN + TWEAK_LEN_FE + RAND_LEN + MSG_LEN_FE <= COMPRESSION_WIDTH
        &&& pow(FIELD_MODULUS as int, MSG_LEN_FE as nat) >= pow2((8 * MESSAGE_LENGTH) as nat)
        &&& pow(FIELD_MODULUS as int, TWEAK_LEN_FE as nat) >= pow2(40)
        &&& pow(FIELD_MODULUS as int, HASH_LEN_FE as nat) <= pow2(
            (NUM_CHUNKS * CHUNK_SIZE) as nat,
        )
    }

    /// The input of the compression: the randomness, the parameter, the
    /// field elements of the epoch and those of the message.
    pub open spec fn spec_hash_input(
        parameter: [u32; PARAMETER_LEN],
        epoch: u32,
        randomness: [u32; RAND_LEN],
        message: [u8; MESSAGE_LENGTH],
    ) -> Seq<u32> {
        randomness@ + parameter@ + spec_field_digits(
            spec_epoch_value(epoch),
            TWEAK_LEN_FE as nat,
        ) + spec_field_digits(spec_le_value(message@), MSG_LEN_FE as nat)
    }

    /// The chunks of the hash `hash`.
    pub open spec fn spec_decode(hash: [u32; HASH_LEN_FE]) -> Seq<u8> {
        spec_value_chunks(
            spec_be_value(hash@, FIELD_MODULUS as nat),
            NUM_CHUNKS as nat,
            CHUNK_SIZE as nat,
        )
    }

    /// Stands where the instantiation has to be consistent: a call of it is
    /// accepted for a consistent instantiation, and for no other.
    pub fn internal_consistency_check()
        requires
            Self::consistent(),
    {
    }

    /// Tests at run time what `consistent` states.
    pub fn is_consistent() -> (ok: bool)
        ensures
            ok == Self::consistent(),
    {
        if !(CHUNK_SIZE == 1 || CHUNK_SIZE == 2 || CHUNK_SIZE == 4 || CHUNK_SIZE == 8) {
            return false;
        }
        if NUM_CHUNKS > 0xFFFF_FFFF / CHUNK_SIZE {
            assert(NUM_CHUNKS * CHUNK_SIZE > 0xFFFF_FFFF) by (nonlinear_arith)
                requires
                    NUM_CHUNKS > 0xFFFF_FFFFusize / CHUNK_SIZE,
                    CHUNK_SIZE > 0,
            ;
            return false;
        }
        assert(NUM_CHUNKS * CHUNK_SIZE <= 0xFFFF_FFFF) by (nonlinear_arith)
            requires
                NUM_CHUNKS <= 0xFFFF_FFFFusize / CHUNK_SIZE,
                CHUNK_SIZE > 0,
        ;
        let bits = NUM_CHUNKS * CHUNK_SIZE;
        if PARAMETER_LEN > COMPRESSION_WIDTH || TWEAK_LEN_FE > COMPRESSION_WIDTH || RAND_LEN
            > COMPRESSION_WIDTH || MSG_LEN_FE > COMPRESSION_WIDTH {
            return false;
        }
        if PARAMETER_LEN + TWEAK_LEN_FE + RAND_LEN + MSG_LEN_FE > COMPRESSION_WIDTH {
            return false;
        }
        if !reaches_power_of_two(power(FIELD_MODULUS, MSG_LEN_FE), 8 * MESSAGE_LENGTH) {
            return false;
        }
        if !reaches_power_of_two(power(FIELD_MODULUS, TWEAK_LEN_FE), 40) {
            return false;
        }
        if HASH_LEN_FE > bits {
            proof {
                lemma_field_power_lower_bound(HASH_LEN_FE as nat);
                lemma_pow2_strictly_increases(bits as nat, HASH_LEN_FE as nat);
            }
            return false;
        }
        !reaches_power_of_two(power_minus_one(FIELD_MODULUS, HASH_LEN_FE), bits)
    }

    /// Samples the randomness of one signature from `rng`: `RAND_LEN` field
    /// elements.
    pub fn rand(rng: &mut rand::rngs::ThreadRng) -> (randomness: [u32; RAND_LEN])
        ensures
            forall|i: int| 0 <= i < RAND_LEN ==> randomness@[i] < FIELD_MODULUS,
    {
        let mut randomness = [0u32; RAND_LEN];
        let mut i: usize = 0;
        while i < RAND_LEN
            invariant
                i <= RAND_LEN,
                forall|k: int| 0 <= k < RAND_LEN ==> randomness@[k] < FIELD_MODULUS,
            decreases RAND_LEN - i,
        {
            randomness[i] = random_below(rng, FIELD_MODULUS);
            i += 1;
        }
        randomness
    }

    /// Puts together the input of the compression.
    pub fn hash_input(
        parameter: &[u32; PARAMETER_LEN],
        epoch: u32,
        randomness: &[u32; RAND_LEN],
        message: &[u8; MESSAGE_LENGTH],
    ) -> (input: Vec<u32>)
        requires
            Self::consistent(),
        ensures
            input@ == Self::spec_hash_input(*parameter, epoch, *randomness, *message),
            input@.len() == PARAMETER_LEN + TWEAK_LEN_FE + RAND_LEN + MSG_LEN_FE,
            input@.len() <= COMPRESSION_WIDTH,
    {
        let message_fe = encode_message::<MSG_LEN_FE>(message);
        let epoch_fe = encode_epoch::<TWEAK_LEN_FE>(epoch);
        let mut input: Vec<u32> = Vec::new();
        push_elements(&mut input, randomness.as_slice());
        push_elements(&mut input, parameter.as_slice());
        push_elements(&mut input, epoch_fe.as_slice());
        push_elements(&mut input, message_fe.as_slice());
        assert(input@ =~= Self::spec_hash_input(*parameter, epoch, *randomness, *message));
        input
    }

    /// Turns the hash that the compression made of the input into chunks.
    pub fn decode(hash: &[u32; HASH_LEN_FE]) -> (chunks: Vec<u8>)
        requires
            Self::consistent(),
        ensures
            chunks@ == Self::spec_decode(*hash),
            chunks@.len() == NUM_CHUNKS,
            forall|i: int|
                0 <= i < NUM_CHUNKS ==> (#[trigger] chunks@[i]) < pow2(CHUNK_SIZE as nat),
    {
        decode_to_chunks::<NUM_CHUNKS, CHUNK_SIZE, HASH_LEN_FE>(hash)
    }
}

/// Digits below the base, most significant first, are the digits of a
/// number below the power of the base that their count names.
pub proof fn lemma_be_value_bound(digits: Seq<u32>, base: nat)
    requires
        base > 0,
        forall|i: int| 0 <= i < digits.len() ==> digits[i] < base,
    ensures
        spec_be_value(digits, base) < pow(base as int, digits.len()),
    decreases digits.len(),
{
    if digits.len() == 0 {
        lemma_pow0(base as int);
    } else {
        let front = digits.drop_last();
        lemma_be_value_bound(front, base);
        lemma_pow_adds(base as int, front.len(), 1);
        lemma_pow1(base as int);
        let limit = pow(base as int, front.len());
        let high = spec_be_value(front, base);
        assert(high * base + digits.last() < limit * base) by (nonlinear_arith)
            requires
                high < limit,
                digits.last() < base,
        ;
    }
}

/// Two strings of as many digits below the base, most significant first,
/// that are the digits of one number are the same.
pub proof fn lemma_be_value_injective(first: Seq<u32>, second: Seq<u32>, base: nat)
    requires
        base > 0,
        first.len() == second.len(),
        forall|i: int| 0 <= i < first.len() ==> first[i] < base,
        forall|i: int| 0 <= i < second.len() ==> second[i] < base,
        spec_be_value(first, base) == spec_be_value(second, base),
    ensures
        first == second,
    decreases first.len(),
{
    if first.len() > 0 {
        let first_front = first.drop_last();
        let second_front = second.drop_last();
        let value = spec_be_value(first, base);
        lemma_fundamental_div_mod_converse(
            value as int,
            base as int,
            spec_be_value(first_front, base) as int,
            first.last() as int,
        );
        lemma_fundamental_div_mod_converse(
            value as int,
            base as int,
            spec_be_value(second_front, base) as int,
            second.last() as int,
        );
        lemma_be_value_injective(first_front, second_front, base);
        assert forall|i: int| 0 <= i < first.len() implies first[i] == second[i] by {
            if i < first.len() - 1 {
                assert(first[i] == first_front[i]);
                assert(second[i] == second_front[i]);
            }
        }
    }
    assert(first =~= second);
}

impl<
    const PARAMETER_LEN: usize,
    const RAND_LEN: usize,
    const HASH_LEN_FE: usize,
    const NUM_CHUNKS: usize,
    const CHUNK_SIZE: usize,
    const TWEAK_LEN_FE: usize,
    const MSG_LEN_FE: usize,
> PoseidonMessageHash<
    PARAMETER_LEN,
    RAND_LEN,
    HASH_LEN_FE,
    NUM_CHUNKS,
    CHUNK_SIZE,
    TWEAK_LEN_FE,
    MSG_LEN_FE,
> {
    /// In a consistent instantiation the field elements of a message tell
    /// it from every other message.
    pub proof fn lemma_message_encoding_injective(
        first: [u8; MESSAGE_LENGTH],
        second: [u8; MESSAGE_LENGTH],
    )
        requires
            Self::consistent(),
            spec_field_digits(spec_le_value(first@), MSG_LEN_FE as nat) == spec_field_digits(
                spec_le_value(second@),
                MSG_LEN_FE as nat,
            ),
        ensures
            first == second,
    {
        let first_value = spec_le_value(first@);
        let second_value = spec_le_value(second@);
        let first_digits = spec_field_digits(first_value, MSG_LEN_FE as nat);
        let second_digits = spec_field_digits(second_value, MSG_LEN_FE as nat);
        lemma_le_value_bound(first@);
        lemma_le_value_bound(second@);
        assert forall|i: nat| i < MSG_LEN_FE implies #[trigger] spec_digit(
            first_value,
            FIELD_MODULUS as nat,
            i,
        ) == spec_digit(second_value, FIELD_MODULUS as nat, i) by {
            lemma_field_digit_bound(first_value, i);
            lemma_field_digit_bound(second_value, i);
            assert(first_digits[i as int] == second_digits[i as int]);
        }
        lemma_digits_determine(
            first_value,
            second_value,
            FIELD_MODULUS as nat,
            MSG_LEN_FE as nat,
        );
        lemma_le_value_injective(first@, second@);
        assert(first =~= second);
    }

    /// In a consistent instantiation the field elements of an epoch tell it
    /// from every other epoch.
    pub proof fn lemma_epoch_encoding_injective(first: u32, second: u32)
        requires
            Self::consistent(),
            spec_field_digits(spec_epoch_value(first), TWEAK_LEN_FE as nat) == spec_field_digits(
                spec_epoch_value(second),
                TWEAK_LEN_FE as nat,
            ),
        ensures
            first == second,
    {
        let first_value = spec_epoch_value(first);
        let second_value = spec_epoch_value(second);
        let first_digits = spec_field_digits(first_value, TWEAK_LEN_FE as nat);
        let second_digits = spec_field_digits(second_value, TWEAK_LEN_FE as nat);
        lemma2_to64();
        assert(pow2(40) == 0x100_0000_0000) by {
            lemma_pow2_adds(32, 8);
        }
        assert forall|i: nat| i < TWEAK_LEN_FE implies #[trigger] spec_digit(
            first_value,
            FIELD_MODULUS as nat,
            i,
        ) == spec_digit(second_value, FIELD_MODULUS as nat, i) by {
            lemma_field_digit_bound(first_value, i);
            lemma_field_digit_bound(second_value, i);
            assert(first_digits[i as int] == second_digits[i as int]);
        }
        lemma_digits_determine(
            first_value,
            second_value,
            FIELD_MODULUS as nat,
            TWEAK_LEN_FE as nat,
        );
    }

    /// In a consistent instantiation the chunks lose nothing of the hash:
    /// two hashes of field elements with the same chunks are the same.
    pub proof fn lemma_decoding_injective(first: [u32; HASH_LEN_FE], second: [u32; HASH_LEN_FE])
        requires
            Self::consistent(),
            forall|i: int| 0 <= i < HASH_LEN_FE ==> first@[i] < FIELD_MODULUS,
            forall|i: int| 0 <= i < HASH_LEN_FE ==> second@[i] < FIELD_MODULUS,
            Self::spec_decode(first) == Self::spec_decode(second),
        ensures
            first == second,
    {
        let base = pow2(CHUNK_SIZE as nat);
        let first_value = spec_be_value(first@, FIELD_MODULUS as nat);
        let second_value = spec_be_value(second@, FIELD_MODULUS as nat);
        let first_chunks = Self::spec_decode(first);
        let second_chunks = Self::spec_decode(second);
        lemma_chunk_base(CHUNK_SIZE as nat);
        lemma_be_value_bound(first@, FIELD_MODULUS as nat);
        lemma_be_value_bound(second@, FIELD_MODULUS as nat);
        assert(pow(base as int, NUM_CHUNKS as nat) == pow2((NUM_CHUNKS * CHUNK_SIZE) as nat)) by {
            lemma_pow2(CHUNK_SIZE as nat);
            lemma_pow2((NUM_CHUNKS * CHUNK_SIZE) as nat);
            lemma_pow_multiplies(2, CHUNK_SIZE as nat, NUM_CHUNKS as nat);
            assert(CHUNK_SIZE * NUM_CHUNKS == NUM_CHUNKS * CHUNK_SIZE) by (nonlinear_arith);
        }
        assert forall|i: nat| i < NUM_CHUNKS implies #[trigger] spec_digit(first_value, base, i)
            == spec_digit(second_value, base, i) by {
            lemma_pow_positive(base as int, i);
            lemma_mod_bound(
                first_value as int / pow(base as int, i),
                base as int,
            );
            lemma_mod_bound(
                second_value as int / pow(base as int, i),
                base as int,
            );
            assert(first_chunks[i as int] == second_chunks[i as int]);
        }
        lemma_digits_determine(first_value, second_value, base, NUM_CHUNKS as nat);
        lemma_be_value_injective(first@, second@, FIELD_MODULUS as nat);
        assert(first =~= second);
    }
}

/// A digit in the base of the field is a field element.
pub proof fn lemma_field_digit_bound(value: nat, index: nat)
    ensures
        spec_digit(value, FIELD_MODULUS as nat, index) < FIELD_MODULUS,
{
    lemma_pow_positive(FIELD_MODULUS as int, index);
    lemma_mod_bound(
        value as int / pow(FIELD_MODULUS as int, index),
        FIELD_MODULUS as int,
    );
}

/// 128 chunks of 2 bits.
pub type PoseidonMessageHash445 = PoseidonMessageHash<4, 4, 5, 128, 2, 2, 9>;

/// 163 chunks of 1 bit.
pub type PoseidonMessageHashW1 = PoseidonMessageHash<5, 5, 5, 163, 1, 2, 9>;

} // verus!
