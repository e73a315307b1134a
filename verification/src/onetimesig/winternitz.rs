//! The Winternitz one-time signature scheme.

use vstd::prelude::*;
use vstd::arithmetic::div_mod::lemma_breakdown;
use vstd::arithmetic::div_mod::lemma_div_denominator;
use vstd::arithmetic::div_mod::lemma_fundamental_div_mod;
use vstd::arithmetic::div_mod::lemma_mod_bound;
use vstd::arithmetic::div_mod::lemma_small_mod;
use vstd::arithmetic::power2::lemma2_to64;
use vstd::arithmetic::power2::lemma_pow2_adds;
use vstd::arithmetic::power2::lemma_pow2_pos;
use vstd::arithmetic::power2::lemma_pow2_unfold;
use vstd::arithmetic::power2::pow2;
use crate::symmetric::message_hash::lemma_chunk_base;
use crate::symmetric::message_hash::sha::Sha256MessageHash128x3;
use crate::symmetric::message_hash::small_power_of_two;
use crate::symmetric::message_hash::spec_chunks_value;
use crate::symmetric::message_hash::spec_valid_chunk_size;
use crate::symmetric::message_hash::MessageHash;
use crate::symmetric::tweak_hash::lemma_walk_composes;
use crate::symmetric::tweak_hash::sha::ShaTweak128128;
use crate::symmetric::tweak_hash::spec_walk;
use crate::symmetric::tweak_hash::walk;
use crate::symmetric::tweak_hash::TweakableHash;
use crate::MESSAGE_LENGTH;

verus! {

/// Number of digits of `value` in base `base`; zero has none.
pub open spec fn spec_num_digits(value: nat, base: nat) -> nat
    decreases value,
{
    if value == 0 || base < 2 {
        0
    } else {
        proof {
            assert(value / base < value) by (nonlinear_arith)
                requires
                    value > 0,
                    base >= 2,
            ;
        }
        1 + spec_num_digits(value / base, base)
    }
}

/// The checksum of `chunks`: what the chunks together lack to all being
/// `2^chunk_size - 1`.
pub open spec fn spec_checksum(chunks: Seq<u8>, chunk_size: nat) -> int
    decreases chunks.len(),
{
    if chunks.len() == 0 {
        0
    } else {
        spec_checksum(chunks.drop_last(), chunk_size) + (pow2(chunk_size) - 1 - chunks.last())
    }
}

/// The largest checksum that `num_chunks` chunks can have.
pub open spec fn spec_max_checksum(num_chunks: nat, chunk_size: nat) -> nat {
    (num_chunks * (pow2(chunk_size) - 1)) as nat
}

/// Number of chains that carry the checksum: the number of digits of the
/// largest checksum in base `2^chunk_size`.
pub open spec fn spec_num_checksum_chains(num_chunks: nat, chunk_size: nat) -> nat {
    spec_num_digits(spec_max_checksum(num_chunks, chunk_size), pow2(chunk_size))
}

/// The last `count` digits of `checksum` in base `2^chunk_size`, most
/// significant first.
pub open spec fn spec_checksum_chunks(checksum: nat, chunk_size: nat, count: nat) -> Seq<u8> {
    Seq::new(
        count,
        |i: int|
            (checksum / pow2((chunk_size * (count - 1 - i)) as nat) % pow2(chunk_size)) as u8,
    )
}

/// The position in its chain that a signature reveals for every chain: the
/// chunks of the message for the data chains, then the chunks of their
/// checksum for the checksum chains.
pub open spec fn spec_chain_positions(chunks: Seq<u8>, chunk_size: nat) -> Seq<u8> {
    chunks + spec_checksum_chunks(
        spec_checksum(chunks, chunk_size) as nat,
        chunk_size,
        spec_num_checksum_chains(chunks.len(), chunk_size),
    )
}

/// The checksum of chunks below `2^chunk_size` lies between zero and the
/// largest checksum of as many chunks.
pub proof fn lemma_checksum_bounds(chunks: Seq<u8>, chunk_size: nat)
    requires
        forall|i: int| 0 <= i < chunks.len() ==> chunks[i] < pow2(chunk_size),
    ensures
        0 <= spec_checksum(chunks, chunk_size) <= spec_max_checksum(chunks.len(), chunk_size),
    decreases chunks.len(),
{
    lemma_pow2_pos(chunk_size);
    let gap = pow2(chunk_size) - 1;
    if chunks.len() == 0 {
        assert(0 * gap == 0);
    } else {
        lemma_checksum_bounds(chunks.drop_last(), chunk_size);
        assert(chunks.len() * gap == (chunks.len() - 1) * gap + gap) by (nonlinear_arith);
        assert(0 <= (chunks.len() - 1) * gap) by (nonlinear_arith)
            requires
                chunks.len() >= 1,
                gap >= 0,
        ;
    }
}

/// Counts the digits of `value` in base `base`.
pub fn num_digits(value: usize, base: usize) -> (count: usize)
    requires
        base >= 2,
    ensures
        count == spec_num_digits(value as nat, base as nat),
        count <= value,
{
    let mut rest = value;
    let mut count: usize = 0;
    while rest > 0
        invariant
            base >= 2,
            count + rest <= value,
            count + spec_num_digits(rest as nat, base as nat) == spec_num_digits(
                value as nat,
                base as nat,
            ),
        decreases rest,
    {
        assert(rest / base < rest) by (nonlinear_arith)
            requires
                rest > 0,
                base >= 2,
        ;
        rest = rest / base;
        count += 1;
    }
    count
}

/// Computes the number of chains that carry the checksum of `num_chunks`
/// chunks of `chunk_size` bits.
pub fn num_checksum_chains(num_chunks: usize, chunk_size: usize) -> (count: usize)
    requires
        spec_valid_chunk_size(chunk_size as nat),
        spec_max_checksum(num_chunks as nat, chunk_size as nat) <= usize::MAX,
    ensures
        count == spec_num_checksum_chains(num_chunks as nat, chunk_size as nat),
        count <= spec_max_checksum(num_chunks as nat, chunk_size as nat),
{
    proof {
        lemma_chunk_base(chunk_size as nat);
    }
    let base = small_power_of_two(chunk_size);
    let max_checksum = num_chunks * (base - 1);
    num_digits(max_checksum, base)
}

/// Computes the checksum of `chunks`.
pub fn checksum(chunks: &[u8], chunk_size: usize) -> (sum: usize)
    requires
        spec_valid_chunk_size(chunk_size as nat),
        forall|i: int| 0 <= i < chunks@.len() ==> chunks@[i] < pow2(chunk_size as nat),
        spec_max_checksum(chunks@.len(), chunk_size as nat) <= usize::MAX,
    ensures
        sum == spec_checksum(chunks@, chunk_size as nat),
{
    proof {
        lemma_chunk_base(chunk_size as nat);
    }
    let base = small_power_of_two(chunk_size);
    let mut sum: usize = 0;
    let mut i: usize = 0;
    while i < chunks.len()
        invariant
            spec_valid_chunk_size(chunk_size as nat),
            base == pow2(chunk_size as nat),
            i <= chunks@.len(),
            forall|k: int| 0 <= k < chunks@.len() ==> chunks@[k] < pow2(chunk_size as nat),
            spec_max_checksum(chunks@.len(), chunk_size as nat) <= usize::MAX,
            sum == spec_checksum(chunks@.subrange(0, i as int), chunk_size as nat),
        decreases chunks@.len() - i,
    {
        proof {
            let next = chunks@.subrange(0, i + 1);
            assert(next.drop_last() =~= chunks@.subrange(0, i as int));
            lemma_checksum_bounds(next, chunk_size as nat);
            let gap = pow2(chunk_size as nat) - 1;
            assert((i + 1) * gap <= chunks@.len() * gap) by (nonlinear_arith)
                requires
                    i + 1 <= chunks@.len(),
                    gap >= 0,
            ;
        }
        sum = sum + (base - 1 - chunks[i] as usize);
        i += 1;
    }
    assert(chunks@.subrange(0, i as int) =~= chunks@);
    sum
}

/// Writes `checksum` as `count` digits in base `2^chunk_size`, most
/// significant first. Digits that `count` leaves no room for are dropped.
pub fn checksum_chunks(checksum: usize, chunk_size: usize, count: usize) -> (digits: Vec<u8>)
    requires
        spec_valid_chunk_size(chunk_size as nat),
    ensures
        digits@ == spec_checksum_chunks(checksum as nat, chunk_size as nat, count as nat),
{
    proof {
        lemma_chunk_base(chunk_size as nat);
        lemma2_to64();
    }
    let base = small_power_of_two(chunk_size);
    let mut digits: Vec<u8> = Vec::new();
    let mut rest = checksum;
    let mut done: usize = 0;
    assert(digits@ =~= spec_checksum_chunks(checksum as nat, chunk_size as nat, 0));
    proof {
        let unit = pow2((chunk_size * done) as nat);
        assert(chunk_size * done == 0);
        assert(unit == 1);
        assert(checksum as nat / unit == checksum) by (nonlinear_arith)
            requires
                unit == 1,
        ;
    }
    while done < count
        invariant
            spec_valid_chunk_size(chunk_size as nat),
            base == pow2(chunk_size as nat),
            2 <= base <= 256,
            done <= count,
            rest == checksum as nat / pow2((chunk_size * done) as nat),
            digits@ == spec_checksum_chunks(checksum as nat, chunk_size as nat, done as nat),
        decreases count - done,
    {
        let digit = (rest % base) as u8;
        let ghost before = digits@;
        digits.insert(0, digit);
        proof {
            let exponent = (chunk_size * done) as nat;
            assert(chunk_size * (done + 1) == exponent + chunk_size) by (nonlinear_arith)
                requires
                    exponent == chunk_size * done,
            ;
            lemma_pow2_pos(exponent);
            lemma_pow2_adds(exponent, chunk_size as nat);
            lemma_div_denominator(checksum as int, pow2(exponent) as int, base as int);
            let longer = spec_checksum_chunks(
                checksum as nat,
                chunk_size as nat,
                (done + 1) as nat,
            );
            assert forall|i: int| 0 <= i < done + 1 implies digits@[i] == longer[i] by {
                if i == 0 {
                    assert((chunk_size * (done + 1 - 1 - 0)) as nat == exponent);
                } else {
                    assert(digits@[i] == before[i - 1]);
                    assert(done + 1 - 1 - i == done - 1 - (i - 1));
                }
            }
            assert(digits@ =~= longer);
        }
        rest = rest / base;
        done += 1;
    }
    digits
}

/// Computes the position that a signature reveals for every chain: the
/// chunks of the message, then the chunks of their checksum.
pub fn chain_positions(chunks: Vec<u8>, chunk_size: usize) -> (positions: Vec<u8>)
    requires
        spec_valid_chunk_size(chunk_size as nat),
        forall|i: int| 0 <= i < chunks@.len() ==> chunks@[i] < pow2(chunk_size as nat),
        spec_max_checksum(chunks@.len(), chunk_size as nat) <= usize::MAX,
    ensures
        positions@ == spec_chain_positions(chunks@, chunk_size as nat),
{
    let count = num_checksum_chains(chunks.len(), chunk_size);
    let sum = checksum(chunks.as_slice(), chunk_size);
    let mut tail = checksum_chunks(sum, chunk_size, count);
    let mut positions = chunks;
    positions.append(&mut tail);
    positions
}

/// The start of every chain. It signs one message, and no more.
pub struct SecretKey<TH: TweakableHash> {
    pub chain_starts: Vec<TH::Domain>,
}

/// The end of every chain.
pub struct PublicKey<TH: TweakableHash> {
    pub chain_ends: Vec<TH::Domain>,
}

/// The randomness that the message was hashed with, and for every chain
/// the value at the position that the message picks.
pub struct Signature<TH: TweakableHash, MH: MessageHash> {
    pub randomness: MH::Randomness,
    pub chain_values: Vec<TH::Domain>,
}

/// The Winternitz scheme over the tweakable hash `TH` and the message hash
/// `MH`, which share their parameter.
pub struct Winternitz<TH, MH> {
    marker: core::marker::PhantomData<(TH, MH)>,
}

/// The scheme over SHA3-256 and SHA-256 with parameters, domain elements and
/// randomness of 128 bits, and 16 chunks of 8 bits.
pub type WinternitzSha = Winternitz<ShaTweak128128, Sha256MessageHash128x3>;

impl<TH: TweakableHash, MH: MessageHash<Parameter = TH::Parameter>> Winternitz<TH, MH> {
    /// The last position of a chain, `2^CHUNK_SIZE - 1`.
    pub open spec fn spec_last_position() -> nat {
        (pow2(MH::CHUNK_SIZE as nat) - 1) as nat
    }

    /// Number of chains: one for every chunk of a message, and those that
    /// carry the checksum.
    pub open spec fn spec_num_chains() -> nat {
        MH::NUM_CHUNKS as nat + spec_num_checksum_chains(
            MH::NUM_CHUNKS as nat,
            MH::CHUNK_SIZE as nat,
        )
    }

    /// Whether the two hashes are consistent and every chain has an index
    /// that a chain tweak can hold.
    pub open spec fn consistent() -> bool {
        &&& TH::consistent()
        &&& MH::consistent()
        &&& Self::spec_num_chains() <= 0x1_0000
    }

    /// The position that a signature of `message` reveals for every chain.
    pub open spec fn spec_positions(
        parameter: TH::Parameter,
        epoch: u32,
        randomness: MH::Randomness,
        message: [u8; MESSAGE_LENGTH],
    ) -> Seq<u8> {
        spec_chain_positions(
            MH::spec_apply(parameter, epoch, randomness, message),
            MH::CHUNK_SIZE as nat,
        )
    }

    /// The public key of a secret key: every chain walked to its end.
    pub open spec fn spec_public_key(
        chain_starts: Seq<TH::Domain>,
        parameter: TH::Parameter,
        epoch: u32,
    ) -> Seq<TH::Domain> {
        Seq::new(
            chain_starts.len(),
            |i: int|
                spec_walk::<TH>(
                    parameter,
                    epoch,
                    i as u16,
                    chain_starts[i],
                    0,
                    Self::spec_last_position(),
                ),
        )
    }

    /// The chain values of a signature: every chain walked from its start
    /// to the position that the signature reveals.
    pub open spec fn spec_chain_values(
        chain_starts: Seq<TH::Domain>,
        parameter: TH::Parameter,
        epoch: u32,
        positions: Seq<u8>,
    ) -> Seq<TH::Domain> {
        Seq::new(
            chain_starts.len(),
            |i: int|
                spec_walk::<TH>(
                    parameter,
                    epoch,
                    i as u16,
                    chain_starts[i],
                    0,
                    positions[i] as nat,
                ),
        )
    }

    /// The chain values of the signature of `message` with `randomness`.
    pub open spec fn spec_sign(
        chain_starts: Seq<TH::Domain>,
        parameter: TH::Parameter,
        epoch: u32,
        randomness: MH::Randomness,
        message: [u8; MESSAGE_LENGTH],
    ) -> Seq<TH::Domain> {
        Self::spec_chain_values(
            chain_starts,
            parameter,
            epoch,
            Self::spec_positions(parameter, epoch, randomness, message),
        )
    }

    /// Where the chains end that hold `chain_values` at `positions`.
    pub open spec fn spec_chain_ends(
        chain_values: Seq<TH::Domain>,
        parameter: TH::Parameter,
        epoch: u32,
        positions: Seq<u8>,
    ) -> Seq<TH::Domain> {
        Seq::new(
            chain_values.len(),
            |i: int|
                spec_walk::<TH>(
                    parameter,
                    epoch,
                    i as u16,
                    chain_values[i],
                    positions[i] as nat,
                    Self::spec_last_position(),
                ),
        )
    }

    /// Whether a signature is accepted: it and the public key have a value
    /// for every chain, and every chain, walked on from the value of the
    /// signature, ends in the value of the public key.
    pub open spec fn spec_verify(
        chain_ends: Seq<TH::Domain>,
        parameter: TH::Parameter,
        epoch: u32,
        message: [u8; MESSAGE_LENGTH],
        randomness: MH::Randomness,
        chain_values: Seq<TH::Domain>,
    ) -> bool {
        &&& chain_ends.len() == Self::spec_num_chains()
        &&& chain_values.len() == Self::spec_num_chains()
        &&& Self::spec_chain_ends(
            chain_values,
            parameter,
            epoch,
            Self::spec_positions(parameter, epoch, randomness, message),
        ) == chain_ends
    }

    /// In a consistent scheme a signature reveals a position for every
    /// chain, and none beyond the last position of a chain.
    pub proof fn lemma_positions(
        parameter: TH::Parameter,
        epoch: u32,
        randomness: MH::Randomness,
        message: [u8; MESSAGE_LENGTH],
    )
        requires
            Self::consistent(),
        ensures
            Self::spec_positions(parameter, epoch, randomness, message).len()
                == Self::spec_num_chains(),
            forall|i: int|
                0 <= i < Self::spec_num_chains() ==> (#[trigger] Self::spec_positions(
                    parameter,
                    epoch,
                    randomness,
                    message,
                )[i]) <= Self::spec_last_position(),
    {
        MH::lemma_chunk_size();
        MH::lemma_apply_chunks(parameter, epoch, randomness, message);
        let chunks = MH::spec_apply(parameter, epoch, randomness, message);
        lemma_chain_positions_bounds(chunks, MH::CHUNK_SIZE as nat);
    }

    /// A signature made with a secret key is accepted under the public key
    /// of that secret key, whatever the parameter, the epoch, the message
    /// and the randomness of the signature.
    pub proof fn lemma_sign_then_verify(
        chain_starts: Seq<TH::Domain>,
        parameter: TH::Parameter,
        epoch: u32,
        randomness: MH::Randomness,
        message: [u8; MESSAGE_LENGTH],
    )
        requires
            Self::consistent(),
            chain_starts.len() == Self::spec_num_chains(),
        ensures
            Self::spec_verify(
                Self::spec_public_key(chain_starts, parameter, epoch),
                parameter,
                epoch,
                message,
                randomness,
                Self::spec_sign(chain_starts, parameter, epoch, randomness, message),
            ),
    {
        let positions = Self::spec_positions(parameter, epoch, randomness, message);
        let chain_values = Self::spec_sign(chain_starts, parameter, epoch, randomness, message);
        let chain_ends = Self::spec_public_key(chain_starts, parameter, epoch);
        let walked_on = Self::spec_chain_ends(chain_values, parameter, epoch, positions);
        Self::lemma_positions(parameter, epoch, randomness, message);
        assert forall|i: int| 0 <= i < chain_starts.len() implies walked_on[i] == chain_ends[i] by {
            assert(positions[i] <= Self::spec_last_position());
            lemma_walk_composes::<TH>(
                parameter,
                epoch,
                i as u16,
                chain_starts[i],
                0,
                positions[i] as nat,
                Self::spec_last_position(),
            );
        }
        assert(walked_on =~= chain_ends);
    }

    /// A signature does not help to sign another message: where the chunks
    /// of two messages differ, there is a chain whose position for the other
    /// message lies before its position for the signed one, so that its
    /// value for the other message cannot be reached from the signature by
    /// walking on.
    pub proof fn lemma_other_message_needs_a_step_back(
        parameter: TH::Parameter,
        epoch: u32,
        randomness: MH::Randomness,
        message: [u8; MESSAGE_LENGTH],
        other_randomness: MH::Randomness,
        other_message: [u8; MESSAGE_LENGTH],
    )
        requires
            Self::consistent(),
            MH::spec_apply(parameter, epoch, randomness, message) != MH::spec_apply(
                parameter,
                epoch,
                other_randomness,
                other_message,
            ),
        ensures
            exists|j: int|
                0 <= j < Self::spec_num_chains() && (#[trigger] Self::spec_positions(
                    parameter,
                    epoch,
                    other_randomness,
                    other_message,
                )[j]) < Self::spec_positions(parameter, epoch, randomness, message)[j],
    {
        MH::lemma_chunk_size();
        MH::lemma_apply_chunks(parameter, epoch, randomness, message);
        MH::lemma_apply_chunks(parameter, epoch, other_randomness, other_message);
        Self::lemma_positions(parameter, epoch, randomness, message);
        let signed = MH::spec_apply(parameter, epoch, randomness, message);
        let other = MH::spec_apply(parameter, epoch, other_randomness, other_message);
        let chunk_size = MH::CHUNK_SIZE as nat;
        lemma_checksum_blocks_forgery(signed, other, chunk_size);
        let j = choose|j: int|
            0 <= j < spec_chain_positions(signed, chunk_size).len() && (
            #[trigger] spec_chain_positions(other, chunk_size)[j]) < spec_chain_positions(
                signed,
                chunk_size,
            )[j];
        assert(0 <= j < Self::spec_num_chains() && Self::spec_positions(
            parameter,
            epoch,
            other_randomness,
            other_message,
        )[j] < Self::spec_positions(parameter, epoch, randomness, message)[j]);
    }

    /// Whether `value`, which stands at `position` in the chain `chain`,
    /// walks to the same end of the chain when it is taken to stand at the
    /// earlier position `earlier`.
    pub open spec fn spec_walks_on_from_earlier(
        parameter: TH::Parameter,
        epoch: u32,
        chain: int,
        value: TH::Domain,
        earlier: nat,
        position: nat,
    ) -> bool {
        &&& earlier < position
        &&& spec_walk::<TH>(
            parameter,
            epoch,
            chain as u16,
            value,
            earlier,
            Self::spec_last_position(),
        ) == spec_walk::<TH>(
            parameter,
            epoch,
            chain as u16,
            value,
            position,
            Self::spec_last_position(),
        )
    }

    /// A signature is accepted for another message, one with other chunks,
    /// only where the hash plays along: there is a chain whose value in the
    /// signature, taken to stand at the earlier position that the other
    /// message gives the chain, still walks to the end of the chain.
    pub proof fn lemma_acceptance_of_other_message_needs_coincidence(
        chain_starts: Seq<TH::Domain>,
        parameter: TH::Parameter,
        epoch: u32,
        randomness: MH::Randomness,
        message: [u8; MESSAGE_LENGTH],
        other_randomness: MH::Randomness,
        other_message: [u8; MESSAGE_LENGTH],
    )
        requires
            Self::consistent(),
            chain_starts.len() == Self::spec_num_chains(),
            MH::spec_apply(parameter, epoch, randomness, message) != MH::spec_apply(
                parameter,
                epoch,
                other_randomness,
                other_message,
            ),
            Self::spec_verify(
                Self::spec_public_key(chain_starts, parameter, epoch),
                parameter,
                epoch,
                other_message,
                other_randomness,
                Self::spec_sign(chain_starts, parameter, epoch, randomness, message),
            ),
        ensures
            exists|j: int|
                0 <= j < Self::spec_num_chains() && #[trigger] Self::spec_walks_on_from_earlier(
                    parameter,
                    epoch,
                    j,
                    Self::spec_sign(chain_starts, parameter, epoch, randomness, message)[j],
                    Self::spec_positions(parameter, epoch, other_randomness, other_message)[j] as nat,
                    Self::spec_positions(parameter, epoch, randomness, message)[j] as nat,
                ),
    {
        let signed = Self::spec_positions(parameter, epoch, randomness, message);
        let other = Self::spec_positions(parameter, epoch, other_randomness, other_message);
        let values = Self::spec_sign(chain_starts, parameter, epoch, randomness, message);
        let chain_ends = Self::spec_public_key(chain_starts, parameter, epoch);
        Self::lemma_other_message_needs_a_step_back(
            parameter,
            epoch,
            randomness,
            message,
            other_randomness,
            other_message,
        );
        Self::lemma_positions(parameter, epoch, randomness, message);
        let j = choose|j: int| 0 <= j < Self::spec_num_chains() && (#[trigger] other[j]) < signed[j];
        lemma_walk_composes::<TH>(
            parameter,
            epoch,
            j as u16,
            chain_starts[j],
            0,
            signed[j] as nat,
            Self::spec_last_position(),
        );
        assert(Self::spec_chain_ends(values, parameter, epoch, other)[j] == chain_ends[j]);
        assert(Self::spec_walks_on_from_earlier(
            parameter,
            epoch,
            j,
            values[j],
            other[j] as nat,
            signed[j] as nat,
        ));
    }

    /// Stands where the scheme has to be consistent: a call of it is
    /// accepted for a consistent scheme, and for no other.
    pub fn internal_consistency_check()
        requires
            Self::consistent(),
    {
    }

    /// Tests at run time what `consistent` states.
    pub fn is_consistent() -> (ok: bool)
        ensures
            ok == Self::consistent(),
    {
        if !TH::is_consistent() || !MH::is_consistent() {
            return false;
        }
        proof {
            MH::lemma_chunk_size();
            lemma_chunk_base(MH::CHUNK_SIZE as nat);
        }
        if MH::NUM_CHUNKS > 0xFFFF {
            proof {
                lemma_num_checksum_chains_positive(MH::NUM_CHUNKS as nat, MH::CHUNK_SIZE as nat);
            }
            return false;
        }
        proof {
            lemma_max_checksum_fits(MH::NUM_CHUNKS as nat, MH::CHUNK_SIZE as nat);
        }
        let count = num_checksum_chains(MH::NUM_CHUNKS, MH::CHUNK_SIZE);
        count <= 0x1_0000 - MH::NUM_CHUNKS
    }

    /// Computes the number of chains.
    pub fn num_chains() -> (count: usize)
        requires
            Self::consistent(),
        ensures
            count == Self::spec_num_chains(),
    {
        proof {
            MH::lemma_chunk_size();
            lemma_max_checksum_fits(MH::NUM_CHUNKS as nat, MH::CHUNK_SIZE as nat);
        }
        MH::NUM_CHUNKS + num_checksum_chains(MH::NUM_CHUNKS, MH::CHUNK_SIZE)
    }

    /// Computes the last position of a chain.
    pub fn last_position() -> (position: u16)
        requires
            Self::consistent(),
        ensures
            position == Self::spec_last_position(),
    {
        proof {
            MH::lemma_chunk_size();
            lemma_chunk_base(MH::CHUNK_SIZE as nat);
        }
        (small_power_of_two(MH::CHUNK_SIZE) - 1) as u16
    }

    /// Hashes `message` and computes the position that its signature
    /// reveals for every chain.
    pub fn positions(
        parameter: &TH::Parameter,
        epoch: u32,
        randomness: &MH::Randomness,
        message: &[u8; MESSAGE_LENGTH],
    ) -> (positions: Vec<u8>)
        requires
            Self::consistent(),
        ensures
            positions@ == Self::spec_positions(*parameter, epoch, *randomness, *message),
    {
        let chunks = MH::apply(parameter, epoch, randomness, message);
        proof {
            MH::lemma_chunk_size();
            lemma_max_checksum_fits(MH::NUM_CHUNKS as nat, MH::CHUNK_SIZE as nat);
        }
        chain_positions(chunks, MH::CHUNK_SIZE)
    }

    /// Derives the public key of `secret_key`: walks every chain from its
    /// start to its last position.
    pub fn public_key(secret_key: &SecretKey<TH>, parameter: &TH::Parameter, epoch: u32) -> (key:
        PublicKey<TH>)
        requires
            Self::consistent(),
            secret_key.chain_starts@.len() == Self::spec_num_chains(),
        ensures
            key.chain_ends@ == Self::spec_public_key(
                secret_key.chain_starts@,
                *parameter,
                epoch,
            ),
    {
        let last = Self::last_position();
        let mut chain_ends: Vec<TH::Domain> = Vec::new();
        let mut i: usize = 0;
        while i < secret_key.chain_starts.len()
            invariant
                Self::consistent(),
                TH::consistent(),
                secret_key.chain_starts@.len() == Self::spec_num_chains(),
                last == Self::spec_last_position(),
                i <= secret_key.chain_starts@.len(),
                chain_ends@.len() == i,
                forall|k: int|
                    0 <= k < i ==> chain_ends@[k] == spec_walk::<TH>(
                        *parameter,
                        epoch,
                        k as u16,
                        secret_key.chain_starts@[k],
                        0,
                        last as nat,
                    ),
            decreases secret_key.chain_starts@.len() - i,
        {
            let end = walk::<TH>(parameter, epoch, i as u16, &secret_key.chain_starts[i], 0, last);
            chain_ends.push(end);
            i += 1;
        }
        assert(chain_ends@ =~= Self::spec_public_key(
            secret_key.chain_starts@,
            *parameter,
            epoch,
        ));
        PublicKey { chain_ends }
    }

    /// Generates a key pair for `epoch`: samples the start of every chain
    /// from `rng` and derives the public key.
    pub fn key_gen(parameter: &TH::Parameter, epoch: u32, rng: &mut rand::rngs::ThreadRng) -> (keys:
        (SecretKey<TH>, PublicKey<TH>))
        requires
            Self::consistent(),
        ensures
            keys.0.chain_starts@.len() == Self::spec_num_chains(),
            keys.1.chain_ends@ == Self::spec_public_key(keys.0.chain_starts@, *parameter, epoch),
    {
        let count = Self::num_chains();
        let mut chain_starts: Vec<TH::Domain> = Vec::new();
        let mut i: usize = 0;
        while i < count
            invariant
                i <= count,
                chain_starts@.len() == i,
            decreases count - i,
        {
            chain_starts.push(TH::rand_domain(rng));
            i += 1;
        }
        let secret_key = SecretKey { chain_starts };
        let public_key = Self::public_key(&secret_key, parameter, epoch);
        (secret_key, public_key)
    }

    /// Signs `message` at `epoch` with the randomness `randomness`, which
    /// the signature keeps: walks every chain from its start to the
    /// position that the message picks. The secret key is used up.
    pub fn sign_with_randomness(
        secret_key: SecretKey<TH>,
        parameter: &TH::Parameter,
        epoch: u32,
        randomness: MH::Randomness,
        message: &[u8; MESSAGE_LENGTH],
    ) -> (signature: Signature<TH, MH>)
        requires
            Self::consistent(),
            secret_key.chain_starts@.len() == Self::spec_num_chains(),
        ensures
            signature.randomness == randomness,
            signature.chain_values@ == Self::spec_sign(
                secret_key.chain_starts@,
                *parameter,
                epoch,
                randomness,
                *message,
            ),
    {
        let positions = Self::positions(parameter, epoch, &randomness, message);
        proof {
            Self::lemma_positions(*parameter, epoch, randomness, *message);
        }
        let mut chain_values: Vec<TH::Domain> = Vec::new();
        let mut i: usize = 0;
        while i < secret_key.chain_starts.len()
            invariant
                Self::consistent(),
                TH::consistent(),
                secret_key.chain_starts@.len() == Self::spec_num_chains(),
                positions@.len() == Self::spec_num_chains(),
                i <= secret_key.chain_starts@.len(),
                chain_values@.len() == i,
                forall|k: int|
                    0 <= k < i ==> chain_values@[k] == spec_walk::<TH>(
                        *parameter,
                        epoch,
                        k as u16,
                        secret_key.chain_starts@[k],
                        0,
                        positions@[k] as nat,
                    ),
            decreases secret_key.chain_starts@.len() - i,
        {
            let value = walk::<TH>(
                parameter,
                epoch,
                i as u16,
                &secret_key.chain_starts[i],
                0,
                positions[i] as u16,
            );
            chain_values.push(value);
            i += 1;
        }
        assert(chain_values@ =~= Self::spec_sign(
            secret_key.chain_starts@,
            *parameter,
            epoch,
            randomness,
            *message,
        ));
        Signature { randomness, chain_values }
    }

    /// Signs `message` at `epoch` with randomness sampled from `rng`. The
    /// secret key is used up.
    pub fn sign(
        secret_key: SecretKey<TH>,
        parameter: &TH::Parameter,
        epoch: u32,
        message: &[u8; MESSAGE_LENGTH],
        rng: &mut rand::rngs::ThreadRng,
    ) -> (signature: Signature<TH, MH>)
        requires
            Self::consistent(),
            secret_key.chain_starts@.len() == Self::spec_num_chains(),
        ensures
            signature.chain_values@ == Self::spec_sign(
                secret_key.chain_starts@,
                *parameter,
                epoch,
                signature.randomness,
                *message,
            ),
    {
        let randomness = MH::rand(rng);
        Self::sign_with_randomness(secret_key, parameter, epoch, randomness, message)
    }

    /// Tells whether `signature` is a signature of `message` at `epoch`
    /// under `public_key`: walks every chain on from the value of the
    /// signature and compares where it ends with the public key.
    pub fn verify(
        public_key: &PublicKey<TH>,
        parameter: &TH::Parameter,
        epoch: u32,
        message: &[u8; MESSAGE_LENGTH],
        signature: &Signature<TH, MH>,
    ) -> (accepted: bool)
        requires
            Self::consistent(),
        ensures
            accepted == Self::spec_verify(
                public_key.chain_ends@,
                *parameter,
                epoch,
                *message,
                signature.randomness,
                signature.chain_values@,
            ),
    {
        let count = Self::num_chains();
        if public_key.chain_ends.len() != count || signature.chain_values.len() != count {
            return false;
        }
        let last = Self::last_position();
        let positions = Self::positions(parameter, epoch, &signature.randomness, message);
        proof {
            Self::lemma_positions(*parameter, epoch, signature.randomness, *message);
        }
        let ghost walked_on = Self::spec_chain_ends(
            signature.chain_values@,
            *parameter,
            epoch,
            positions@,
        );
        let mut i: usize = 0;
        while i < count
            invariant
                Self::consistent(),
                TH::consistent(),
                count == Self::spec_num_chains(),
                public_key.chain_ends@.len() == count,
                signature.chain_values@.len() == count,
                positions@ == Self::spec_positions(
                    *parameter,
                    epoch,
                    signature.randomness,
                    *message,
                ),
                positions@.len() == count,
                last == Self::spec_last_position(),
                forall|k: int| 0 <= k < count ==> (#[trigger] positions@[k]) <= last,
                walked_on == Self::spec_chain_ends(
                    signature.chain_values@,
                    *parameter,
                    epoch,
                    positions@,
                ),
                i <= count,
                forall|k: int| 0 <= k < i ==> walked_on[k] == public_key.chain_ends@[k],
            decreases count - i,
        {
            let end = walk::<TH>(
                parameter,
                epoch,
                i as u16,
                &signature.chain_values[i],
                positions[i] as u16,
                last,
            );
            if !TH::domain_eq(&end, &public_key.chain_ends[i]) {
                assert(walked_on[i as int] != public_key.chain_ends@[i as int]);
                return false;
            }
            i += 1;
        }
        assert(walked_on =~= public_key.chain_ends@);
        true
    }
}

/// The positions of a signature are as many as the chunks and the checksum
/// chains together, and every one of them is below `2^chunk_size`.
pub proof fn lemma_chain_positions_bounds(chunks: Seq<u8>, chunk_size: nat)
    requires
        spec_valid_chunk_size(chunk_size),
        forall|i: int| 0 <= i < chunks.len() ==> chunks[i] < pow2(chunk_size),
    ensures
        spec_chain_positions(chunks, chunk_size).len() == chunks.len() + spec_num_checksum_chains(
            chunks.len(),
            chunk_size,
        ),
        forall|i: int|
            0 <= i < spec_chain_positions(chunks, chunk_size).len() ==> (
            #[trigger] spec_chain_positions(chunks, chunk_size)[i]) < pow2(chunk_size),
{
    lemma_chunk_base(chunk_size);
    let count = spec_num_checksum_chains(chunks.len(), chunk_size);
    let sum = spec_checksum(chunks, chunk_size) as nat;
    let digits = spec_checksum_chunks(sum, chunk_size, count);
    let positions = spec_chain_positions(chunks, chunk_size);
    assert forall|i: int| 0 <= i < positions.len() implies (#[trigger] positions[i]) < pow2(
        chunk_size,
    ) by {
        if i >= chunks.len() {
            let k = i - chunks.len();
            assert(positions[i] == digits[k]);
            let shifted = sum / pow2((chunk_size * (count - 1 - k)) as nat);
            lemma_mod_bound(shifted as int, pow2(chunk_size) as int);
        }
    }
}

/// The largest checksum of at most `2^16 - 1` chunks fits in a `usize`.
pub proof fn lemma_max_checksum_fits(num_chunks: nat, chunk_size: nat)
    requires
        spec_valid_chunk_size(chunk_size),
        num_chunks <= 0x1_0000,
    ensures
        spec_max_checksum(num_chunks, chunk_size) <= 0x1_0000 * 255,
        spec_max_checksum(num_chunks, chunk_size) <= usize::MAX,
{
    lemma_chunk_base(chunk_size);
    let gap = pow2(chunk_size) - 1;
    assert(num_chunks * gap <= 0x1_0000 * 255) by (nonlinear_arith)
        requires
            num_chunks <= 0x1_0000,
            0 <= gap <= 255,
    ;
}

/// Where there is a chunk there is a checksum chain.
pub proof fn lemma_num_checksum_chains_positive(num_chunks: nat, chunk_size: nat)
    requires
        spec_valid_chunk_size(chunk_size),
        num_chunks > 0,
    ensures
        spec_num_checksum_chains(num_chunks, chunk_size) > 0,
{
    lemma_chunk_base(chunk_size);
    let gap = pow2(chunk_size) - 1;
    assert(num_chunks * gap > 0) by (nonlinear_arith)
        requires
            num_chunks > 0,
            gap > 0,
    ;
}

/// Where no chunk of `larger` is below the chunk of `smaller` in its place,
/// the checksum of `larger` is not above that of `smaller`, and it is below
/// it unless the two are the same.
pub proof fn lemma_checksum_decreases(smaller: Seq<u8>, larger: Seq<u8>, chunk_size: nat)
    requires
        smaller.len() == larger.len(),
        forall|i: int| 0 <= i < smaller.len() ==> smaller[i] <= larger[i],
    ensures
        spec_checksum(larger, chunk_size) <= spec_checksum(smaller, chunk_size),
        smaller != larger ==> spec_checksum(larger, chunk_size) < spec_checksum(
            smaller,
            chunk_size,
        ),
    decreases smaller.len(),
{
    if smaller.len() > 0 {
        lemma_checksum_decreases(smaller.drop_last(), larger.drop_last(), chunk_size);
        if smaller.drop_last() == larger.drop_last() && smaller.last() == larger.last() {
            assert forall|i: int| 0 <= i < smaller.len() implies smaller[i] == larger[i] by {
                if i < smaller.len() - 1 {
                    assert(smaller[i] == smaller.drop_last()[i]);
                    assert(larger[i] == larger.drop_last()[i]);
                }
            }
            assert(smaller =~= larger);
        }
    } else {
        assert(smaller =~= larger);
    }
}

/// A number is below the power of the base that its number of digits names.
pub proof fn lemma_num_digits_bound(value: nat, chunk_size: nat)
    requires
        chunk_size > 0,
    ensures
        value < pow2(chunk_size * spec_num_digits(value, pow2(chunk_size))),
    decreases value,
{
    let base = pow2(chunk_size);
    lemma_pow2_pos(chunk_size);
    assert(base >= 2) by {
        lemma_pow2_pos((chunk_size - 1) as nat);
        lemma_pow2_unfold(chunk_size);
    }
    if value == 0 {
        lemma_pow2_pos(chunk_size * spec_num_digits(value, base));
    } else {
        let rest = value / base;
        let digits = spec_num_digits(rest, base);
        assert(rest < value) by (nonlinear_arith)
            requires
                rest == value / base,
                value > 0,
                base >= 2,
        ;
        lemma_num_digits_bound(rest, chunk_size);
        assert(chunk_size * (1 + digits) == chunk_size * digits + chunk_size)
            by (nonlinear_arith);
        lemma_pow2_adds(chunk_size * digits, chunk_size);
        lemma_fundamental_div_mod(value as int, base as int);
        lemma_mod_bound(value as int, base as int);
        let high = pow2(chunk_size * digits);
        assert(base * rest + value % base < high * base) by (nonlinear_arith)
            requires
                rest < high,
                0 <= value % base < base,
        ;
    }
}

/// The last `count` digits of a number are the digits of what is left of
/// it modulo the power of the base that `count` names.
pub proof fn lemma_checksum_chunks_value(checksum: nat, chunk_size: nat, count: nat)
    requires
        spec_valid_chunk_size(chunk_size),
    ensures
        spec_chunks_value(spec_checksum_chunks(checksum, chunk_size, count), chunk_size)
            == checksum % pow2(chunk_size * count),
    decreases count,
{
    let base = pow2(chunk_size);
    let digits = spec_checksum_chunks(checksum, chunk_size, count);
    lemma_chunk_base(chunk_size);
    if count == 0 {
        assert(chunk_size * count == 0);
        assert(pow2(0) == 1) by {
            lemma2_to64();
        }
        assert(checksum % pow2(chunk_size * count) == 0) by {
            let unit = pow2(chunk_size * count);
            assert(checksum % unit == 0) by (nonlinear_arith)
                requires
                    unit == 1,
            ;
        }
    } else {
        let fewer = (count - 1) as nat;
        let rest = checksum / base;
        let high = pow2(chunk_size * fewer);
        lemma_checksum_chunks_value(rest, chunk_size, fewer);
        lemma_pow2_pos(chunk_size * fewer);
        assert(chunk_size * count == chunk_size + chunk_size * fewer) by (nonlinear_arith)
            requires
                fewer == count - 1,
        ;
        lemma_pow2_adds(chunk_size, chunk_size * fewer);
        assert forall|i: int| 0 <= i < fewer implies digits.drop_last()[i]
            == spec_checksum_chunks(rest, chunk_size, fewer)[i] by {
            let exponent = (chunk_size * (fewer - 1 - i)) as nat;
            assert(chunk_size * (count - 1 - i) == chunk_size + exponent) by (nonlinear_arith)
                requires
                    exponent == chunk_size * (fewer - 1 - i),
                    fewer == count - 1,
            ;
            lemma_pow2_pos(exponent);
            lemma_pow2_adds(chunk_size, exponent);
            lemma_div_denominator(checksum as int, base as int, pow2(exponent) as int);
        }
        assert(digits.drop_last() =~= spec_checksum_chunks(rest, chunk_size, fewer));
        lemma_mod_bound(checksum as int, base as int);
        assert(digits.last() as nat == checksum % base) by {
            assert(chunk_size * (count - 1 - (count - 1)) == 0) by (nonlinear_arith);
            assert(pow2(0) == 1) by {
                lemma2_to64();
            }
            let unit = pow2((chunk_size * (count - 1 - (count - 1))) as nat);
            assert(checksum / unit == checksum) by (nonlinear_arith)
                requires
                    unit == 1,
            ;
        }
        lemma_mod_bound(checksum as int, base as int);
        lemma_breakdown(checksum as int, base as int, high as int);
        assert((rest % high) * base == base * (rest % high)) by (nonlinear_arith);
    }
}

/// Digits that are nowhere smaller are the digits of a number that is not
/// smaller.
pub proof fn lemma_chunks_value_increases(smaller: Seq<u8>, larger: Seq<u8>, chunk_size: nat)
    requires
        smaller.len() == larger.len(),
        forall|i: int| 0 <= i < smaller.len() ==> smaller[i] <= larger[i],
    ensures
        spec_chunks_value(smaller, chunk_size) <= spec_chunks_value(larger, chunk_size),
    decreases smaller.len(),
{
    if smaller.len() > 0 {
        lemma_chunks_value_increases(smaller.drop_last(), larger.drop_last(), chunk_size);
        let low = spec_chunks_value(smaller.drop_last(), chunk_size);
        let high = spec_chunks_value(larger.drop_last(), chunk_size);
        let base = pow2(chunk_size);
        assert(low * base <= high * base) by (nonlinear_arith)
            requires
                low <= high,
                base >= 0,
        ;
    }
}

/// No signature helps to forge another: of two different messages, each
/// has a chain whose position is below the position that the other message
/// gives that chain. Where the chunks of `forged` are nowhere below those
/// of `signed`, it is a checksum chain. To move a signature of `signed` to
/// `forged`, that chain would have to be walked back.
pub proof fn lemma_checksum_blocks_forgery(signed: Seq<u8>, forged: Seq<u8>, chunk_size: nat)
    requires
        spec_valid_chunk_size(chunk_size),
        signed.len() == forged.len(),
        forall|i: int| 0 <= i < signed.len() ==> signed[i] < pow2(chunk_size),
        forall|i: int| 0 <= i < forged.len() ==> forged[i] < pow2(chunk_size),
        signed != forged,
    ensures
        exists|j: int|
            0 <= j < spec_chain_positions(signed, chunk_size).len() && (
            #[trigger] spec_chain_positions(forged, chunk_size)[j]) < spec_chain_positions(
                signed,
                chunk_size,
            )[j],
        (forall|i: int| 0 <= i < signed.len() ==> signed[i] <= forged[i]) ==> exists|j: int|
            signed.len() <= j < spec_chain_positions(signed, chunk_size).len() && (
            #[trigger] spec_chain_positions(forged, chunk_size)[j]) < spec_chain_positions(
                signed,
                chunk_size,
            )[j],
{
    let count = spec_num_checksum_chains(signed.len(), chunk_size);
    let signed_sum = spec_checksum(signed, chunk_size);
    let forged_sum = spec_checksum(forged, chunk_size);
    let signed_digits = spec_checksum_chunks(signed_sum as nat, chunk_size, count);
    let forged_digits = spec_checksum_chunks(forged_sum as nat, chunk_size, count);
    let signed_positions = spec_chain_positions(signed, chunk_size);
    let forged_positions = spec_chain_positions(forged, chunk_size);
    lemma_chain_positions_bounds(signed, chunk_size);
    lemma_chain_positions_bounds(forged, chunk_size);
    if forall|i: int| 0 <= i < signed.len() ==> signed[i] <= forged[i] {
        lemma_checksum_decreases(signed, forged, chunk_size);
        lemma_checksum_bounds(signed, chunk_size);
        lemma_checksum_bounds(forged, chunk_size);
        let max = spec_max_checksum(signed.len(), chunk_size);
        let base = pow2(chunk_size);
        lemma_num_digits_bound(max, chunk_size);
        let limit = pow2(chunk_size * count);
        lemma_checksum_chunks_value(signed_sum as nat, chunk_size, count);
        lemma_checksum_chunks_value(forged_sum as nat, chunk_size, count);
        lemma_small_mod(signed_sum as nat, limit);
        lemma_small_mod(forged_sum as nat, limit);
        if forall|k: int| 0 <= k < count ==> signed_digits[k] <= forged_digits[k] {
            lemma_chunks_value_increases(signed_digits, forged_digits, chunk_size);
            assert(false);
        }
        let k = choose|k: int| 0 <= k < count && !(signed_digits[k] <= forged_digits[k]);
        let j = signed.len() + k;
        assert(forged_positions[j] == forged_digits[k]);
        assert(signed_positions[j] == signed_digits[k]);
        assert(signed.len() <= j < signed_positions.len() && forged_positions[j]
            < signed_positions[j]);
    } else {
        let j = choose|i: int| 0 <= i < signed.len() && !(signed[i] <= forged[i]);
        assert(forged_positions[j] == forged[j]);
        assert(signed_positions[j] == signed[j]);
        assert(0 <= j < signed_positions.len() && forged_positions[j] < signed_positions[j]);
    }
}

} // verus!
