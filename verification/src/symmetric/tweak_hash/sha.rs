//! The tweakable hash function built on SHA3-256.

use vstd::prelude::*;
use crate::symmetric::arrays_equal;
use crate::symmetric::push_bytes;
use crate::symmetric::random_bytes;
use crate::symmetric::spec_array_of;
use crate::symmetric::spec_leading_bytes;
use crate::symmetric::tweak_hash::TweakableHash;
use crate::TWEAK_SEPARATOR_FOR_CHAIN_HASH;
use crate::TWEAK_SEPARATOR_FOR_TREE_HASH;

verus! {

/// Length in bytes of a SHA3-256 digest.
pub const SHA3_256_OUTPUT_LEN: usize = 32;

/// Stands for the SHA3-256 digest of `data`. The library does not compute
/// it: it is what `tiny_keccak` returns.
pub uninterp spec fn sha3_256_digest(data: Seq<u8>) -> Seq<u8>;

/// Hashes `data` with the SHA3-256 of `tiny_keccak`: a hasher made by
/// `Sha3::v256` absorbs `data` in one `Hasher::update`, and
/// `Hasher::finalize` writes the 32 bytes of the digest. It is taken on
/// trust that the digest depends on `data` alone.
#[verifier::external_body]
pub(crate) fn sha3_256(data: &[u8]) -> (digest: [u8; 32])
    ensures
        digest@ == sha3_256_digest(data@),
{
    let mut hasher = tiny_keccak::Sha3::v256();
    tiny_keccak::Hasher::update(&mut hasher, data);
    let mut digest = [0u8; 32];
    tiny_keccak::Hasher::finalize(hasher, &mut digest);
    digest
}

/// The four bytes of `value`, most significant first.
pub open spec fn spec_u32_be_bytes(value: u32) -> Seq<u8> {
    seq![
        (value / 0x100_0000) as u8,
        (value / 0x1_0000 % 0x100) as u8,
        (value / 0x100 % 0x100) as u8,
        (value % 0x100) as u8,
    ]
}

/// The two bytes of `value`, most significant first.
pub open spec fn spec_u16_be_bytes(value: u16) -> Seq<u8> {
    seq![(value / 0x100) as u8, (value % 0x100) as u8]
}

/// Appends the four bytes of `value` to `buffer`, most significant first.
pub fn push_u32_be(buffer: &mut Vec<u8>, value: u32)
    ensures
        final(buffer)@ == old(buffer)@ + spec_u32_be_bytes(value),
{
    buffer.push((value / 0x100_0000) as u8);
    buffer.push((value / 0x1_0000 % 0x100) as u8);
    buffer.push((value / 0x100 % 0x100) as u8);
    buffer.push((value % 0x100) as u8);
    assert(buffer@ =~= old(buffer)@ + spec_u32_be_bytes(value));
}

/// Appends the two bytes of `value` to `buffer`, most significant first.
pub fn push_u16_be(buffer: &mut Vec<u8>, value: u16)
    ensures
        final(buffer)@ == old(buffer)@ + spec_u16_be_bytes(value),
{
    buffer.push((value / 0x100) as u8);
    buffer.push((value % 0x100) as u8);
    assert(buffer@ =~= old(buffer)@ + spec_u16_be_bytes(value));
}

/// Names the place of a hash evaluation: a node of a hash tree, or a step in
/// a hash chain.
pub enum ShaTweak {
    TreeTweak { level: u8, pos_in_level: u32 },
    ChainTweak { epoch: u32, chain_index: u16, pos_in_chain: u16 },
}

impl ShaTweak {
    /// The encoding of the tweak: the separator of its kind, then its fields
    /// in the order of their declaration, each most significant byte first.
    pub open spec fn spec_to_bytes(self) -> Seq<u8> {
        match self {
            ShaTweak::TreeTweak { level, pos_in_level } => seq![
                TWEAK_SEPARATOR_FOR_TREE_HASH,
                level,
            ] + spec_u32_be_bytes(pos_in_level),
            ShaTweak::ChainTweak { epoch, chain_index, pos_in_chain } => seq![
                TWEAK_SEPARATOR_FOR_CHAIN_HASH,
            ] + spec_u32_be_bytes(epoch) + spec_u16_be_bytes(chain_index) + spec_u16_be_bytes(
                pos_in_chain,
            ),
        }
    }

    /// Encodes the tweak: six bytes for a tree tweak, nine for a chain tweak.
    pub fn to_bytes(&self) -> (bytes: Vec<u8>)
        ensures
            bytes@ == self.spec_to_bytes(),
    {
        match self {
            ShaTweak::TreeTweak { level, pos_in_level } => {
                let mut bytes = Vec::new();
                bytes.push(TWEAK_SEPARATOR_FOR_TREE_HASH);
                bytes.push(*level);
                assert(bytes@ =~= seq![TWEAK_SEPARATOR_FOR_TREE_HASH, *level]);
                push_u32_be(&mut bytes, *pos_in_level);
                bytes
            },
            ShaTweak::ChainTweak { epoch, chain_index, pos_in_chain } => {
                let mut bytes = Vec::new();
                bytes.push(TWEAK_SEPARATOR_FOR_CHAIN_HASH);
                assert(bytes@ =~= seq![TWEAK_SEPARATOR_FOR_CHAIN_HASH]);
                push_u32_be(&mut bytes, *epoch);
                push_u16_be(&mut bytes, *chain_index);
                push_u16_be(&mut bytes, *pos_in_chain);
                bytes
            },
        }
    }
}

/// The four bytes of a `u32` determine it.
pub proof fn lemma_u32_be_bytes_injective(a: u32, b: u32)
    requires
        spec_u32_be_bytes(a) == spec_u32_be_bytes(b),
    ensures
        a == b,
{
    let x = spec_u32_be_bytes(a);
    let y = spec_u32_be_bytes(b);
    assert(x[0] == y[0] && x[1] == y[1] && x[2] == y[2] && x[3] == y[3]);
}

/// The two bytes of a `u16` determine it.
pub proof fn lemma_u16_be_bytes_injective(a: u16, b: u16)
    requires
        spec_u16_be_bytes(a) == spec_u16_be_bytes(b),
    ensures
        a == b,
{
    let x = spec_u16_be_bytes(a);
    let y = spec_u16_be_bytes(b);
    assert(x[0] == y[0] && x[1] == y[1]);
}

/// The encoding of a tweak starts with the separator of its kind and has
/// the length of its kind.
pub proof fn lemma_to_bytes_shape(tweak: ShaTweak)
    ensures
        tweak is TreeTweak ==> tweak.spec_to_bytes().len() == 6 && tweak.spec_to_bytes()[0]
            == TWEAK_SEPARATOR_FOR_TREE_HASH,
        tweak is ChainTweak ==> tweak.spec_to_bytes().len() == 9 && tweak.spec_to_bytes()[0]
            == TWEAK_SEPARATOR_FOR_CHAIN_HASH,
{
}

/// A tree tweak and a chain tweak never have the same encoding, whatever
/// their fields hold.
pub proof fn lemma_tree_and_chain_encodings_differ(
    level: u8,
    pos_in_level: u32,
    epoch: u32,
    chain_index: u16,
    pos_in_chain: u16,
)
    ensures
        (ShaTweak::TreeTweak { level, pos_in_level }).spec_to_bytes() != (ShaTweak::ChainTweak {
            epoch,
            chain_index,
            pos_in_chain,
        }).spec_to_bytes(),
{
    let tree = ShaTweak::TreeTweak { level, pos_in_level };
    let chain = ShaTweak::ChainTweak { epoch, chain_index, pos_in_chain };
    lemma_to_bytes_shape(tree);
    lemma_to_bytes_shape(chain);
}

/// Two tweaks with the same encoding are the same tweak.
pub proof fn lemma_to_bytes_injective(a: ShaTweak, b: ShaTweak)
    requires
        a.spec_to_bytes() == b.spec_to_bytes(),
    ensures
        a == b,
{
    lemma_to_bytes_shape(a);
    lemma_to_bytes_shape(b);
    let x = a.spec_to_bytes();
    let y = b.spec_to_bytes();
    match (a, b) {
        (
            ShaTweak::TreeTweak { level: la, pos_in_level: pa },
            ShaTweak::TreeTweak { level: lb, pos_in_level: pb },
        ) => {
            assert(x[1] == la && y[1] == lb);
            assert(spec_u32_be_bytes(pa) =~= x.subrange(2, 6));
            assert(spec_u32_be_bytes(pb) =~= y.subrange(2, 6));
            lemma_u32_be_bytes_injective(pa, pb);
        },
        (
            ShaTweak::ChainTweak { epoch: ea, chain_index: ca, pos_in_chain: pa },
            ShaTweak::ChainTweak { epoch: eb, chain_index: cb, pos_in_chain: pb },
        ) => {
            assert(spec_u32_be_bytes(ea) =~= x.subrange(1, 5));
            assert(spec_u32_be_bytes(eb) =~= y.subrange(1, 5));
            assert(spec_u16_be_bytes(ca) =~= x.subrange(5, 7));
            assert(spec_u16_be_bytes(cb) =~= y.subrange(5, 7));
            assert(spec_u16_be_bytes(pa) =~= x.subrange(7, 9));
            assert(spec_u16_be_bytes(pb) =~= y.subrange(7, 9));
            lemma_u32_be_bytes_injective(ea, eb);
            lemma_u16_be_bytes_injective(ca, cb);
            lemma_u16_be_bytes_injective(pa, pb);
        },
        _ => {},
    }
}

/// The bytes of the domain elements of `message`, one element after the
/// other.
pub open spec fn spec_concat<const N: usize>(message: Seq<[u8; N]>) -> Seq<u8>
    decreases message.len(),
{
    if message.len() == 0 {
        Seq::empty()
    } else {
        spec_concat(message.drop_last()) + message.last()@
    }
}

/// What the tweakable hash feeds to SHA3-256: the parameter, the encoding of
/// the tweak, and the domain elements of the message in their order.
pub open spec fn spec_hash_input<const PARAMETER_LEN: usize, const HASH_LEN: usize>(
    parameter: [u8; PARAMETER_LEN],
    tweak: ShaTweak,
    message: Seq<[u8; HASH_LEN]>,
) -> Seq<u8> {
    parameter@ + tweak.spec_to_bytes() + spec_concat(message)
}

/// The first `N` bytes of `digest`.
pub fn leading_bytes<const N: usize>(digest: &[u8; 32]) -> (out: [u8; N])
    requires
        N <= 32,
    ensures
        out@ == spec_leading_bytes(digest@, N as nat),
{
    let mut out = [0u8; N];
    let mut i: usize = 0;
    while i < N
        invariant
            i <= N <= 32,
            forall|j: int| 0 <= j < i ==> out@[j] == digest@[j],
        decreases N - i,
    {
        out[i] = digest[i];
        i += 1;
    }
    assert(out@ =~= spec_leading_bytes(digest@, N as nat));
    out
}

/// A tweakable hash function built on SHA3-256, with parameters of
/// `PARAMETER_LEN` bytes and domain elements of `HASH_LEN` bytes. Both
/// lengths must be below the 32 bytes of a SHA3-256 digest.
#[derive(Clone, Copy)]
pub struct ShaTweakHash<const PARAMETER_LEN: usize, const HASH_LEN: usize>;

impl<const PARAMETER_LEN: usize, const HASH_LEN: usize> TweakableHash for ShaTweakHash<
    PARAMETER_LEN,
    HASH_LEN,
> {
    type Parameter = [u8; PARAMETER_LEN];

    type Tweak = ShaTweak;

    type Domain = [u8; HASH_LEN];

    open spec fn consistent() -> bool {
        PARAMETER_LEN < SHA3_256_OUTPUT_LEN && HASH_LEN < SHA3_256_OUTPUT_LEN
    }

    open spec fn spec_tree_tweak(level: u8, pos_in_level: u32) -> ShaTweak {
        ShaTweak::TreeTweak { level, pos_in_level }
    }

    open spec fn spec_chain_tweak(epoch: u32, chain_index: u16, pos_in_chain: u16) -> ShaTweak {
        ShaTweak::ChainTweak { epoch, chain_index, pos_in_chain }
    }

    /// The domain element made of the first `HASH_LEN` bytes of the
    /// SHA3-256 digest of the hash input.
    open spec fn spec_apply(
        parameter: [u8; PARAMETER_LEN],
        tweak: ShaTweak,
        message: Seq<[u8; HASH_LEN]>,
    ) -> [u8; HASH_LEN] {
        spec_array_of::<HASH_LEN>(
            spec_leading_bytes(
                sha3_256_digest(spec_hash_input(parameter, tweak, message)),
                HASH_LEN as nat,
            ),
        )
    }

    proof fn lemma_tree_tweak_is_no_chain_tweak(
        level: u8,
        pos_in_level: u32,
        epoch: u32,
        chain_index: u16,
        pos_in_chain: u16,
    ) {
    }

    proof fn lemma_tree_tweak_injective(
        level: u8,
        pos_in_level: u32,
        other_level: u8,
        other_pos_in_level: u32,
    ) {
    }

    proof fn lemma_chain_tweak_injective(
        epoch: u32,
        chain_index: u16,
        pos_in_chain: u16,
        other_epoch: u32,
        other_chain_index: u16,
        other_pos_in_chain: u16,
    ) {
    }

    fn rand_parameter(rng: &mut rand::rngs::ThreadRng) -> [u8; PARAMETER_LEN] {
        random_bytes::<PARAMETER_LEN>(rng)
    }

    fn rand_domain(rng: &mut rand::rngs::ThreadRng) -> [u8; HASH_LEN] {
        random_bytes::<HASH_LEN>(rng)
    }

    fn tree_tweak(level: u8, pos_in_level: u32) -> (tweak: ShaTweak) {
        ShaTweak::TreeTweak { level, pos_in_level }
    }

    fn chain_tweak(epoch: u32, chain_index: u16, pos_in_chain: u16) -> (tweak: ShaTweak) {
        ShaTweak::ChainTweak { epoch, chain_index, pos_in_chain }
    }

    fn apply(parameter: &[u8; PARAMETER_LEN], tweak: &ShaTweak, message: &[[u8; HASH_LEN]]) -> (out:
        [u8; HASH_LEN])
        ensures
            out@ == spec_leading_bytes(
                sha3_256_digest(spec_hash_input(*parameter, *tweak, message@)),
                HASH_LEN as nat,
            ),
    {
        let mut input: Vec<u8> = Vec::new();
        push_bytes(&mut input, parameter.as_slice());
        let tweak_bytes = tweak.to_bytes();
        push_bytes(&mut input, tweak_bytes.as_slice());
        let ghost prefix = input@;
        assert(prefix =~= parameter@ + tweak.spec_to_bytes());
        let mut i: usize = 0;
        while i < message.len()
            invariant
                i <= message@.len(),
                input@ == prefix + spec_concat(message@.subrange(0, i as int)),
            decreases message@.len() - i,
        {
            push_bytes(&mut input, message[i].as_slice());
            i += 1;
            assert(message@.subrange(0, i as int).drop_last() =~= message@.subrange(
                0,
                i as int - 1,
            ));
            assert(input@ =~= prefix + spec_concat(message@.subrange(0, i as int)));
        }
        assert(message@.subrange(0, i as int) =~= message@);
        let digest = sha3_256(input.as_slice());
        let out = leading_bytes::<HASH_LEN>(&digest);
        assert(out =~= Self::spec_apply(*parameter, *tweak, message@));
        out
    }

    fn domain_eq(a: &[u8; HASH_LEN], b: &[u8; HASH_LEN]) -> (same: bool) {
        arrays_equal(a, b)
    }

    fn is_consistent() -> (ok: bool) {
        PARAMETER_LEN < SHA3_256_OUTPUT_LEN && HASH_LEN < SHA3_256_OUTPUT_LEN
    }

    fn internal_consistency_check() {
    }
}

/// Parameters and domain elements of 128 bits.
pub type ShaTweak128128 = ShaTweakHash<16, 16>;

/// Parameters of 128 bits and domain elements of 192 bits.
pub type ShaTweak128192 = ShaTweakHash<16, 24>;

/// Parameters and domain elements of 192 bits.
pub type ShaTweak192192 = ShaTweakHash<24, 24>;

} // verus!
