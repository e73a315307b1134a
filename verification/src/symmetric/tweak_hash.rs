//! Tweakable hash functions, and the walk along a hash chain.

use vstd::prelude::*;

pub mod sha;

verus! {

/// A hash function that takes, besides its input, a public parameter and a
/// tweak. The tweak names the place of an evaluation, either in a hash chain
/// or in a hash tree, so that no two places share an input.
pub trait TweakableHash {
    /// Public parameter, sampled once for an instance of the scheme.
    type Parameter: Copy;

    /// Names the place of an evaluation.
    type Tweak;

    /// What the hash returns, and what a chain is made of.
    type Domain: Copy;

    /// Whether the lengths of this instantiation fit the hash underneath.
    spec fn consistent() -> bool;

    /// The tweak of the node at `pos_in_level` of the tree level `level`.
    spec fn spec_tree_tweak(level: u8, pos_in_level: u32) -> Self::Tweak;

    /// The tweak of the step that reaches `pos_in_chain` in the chain
    /// `chain_index` of the epoch `epoch`.
    spec fn spec_chain_tweak(epoch: u32, chain_index: u16, pos_in_chain: u16) -> Self::Tweak;

    /// The hash of `message` under `parameter` and `tweak`.
    spec fn spec_apply(
        parameter: Self::Parameter,
        tweak: Self::Tweak,
        message: Seq<Self::Domain>,
    ) -> Self::Domain;

    /// No tree tweak is a chain tweak.
    proof fn lemma_tree_tweak_is_no_chain_tweak(
        level: u8,
        pos_in_level: u32,
        epoch: u32,
        chain_index: u16,
        pos_in_chain: u16,
    )
        ensures
            Self::spec_tree_tweak(level, pos_in_level) != Self::spec_chain_tweak(
                epoch,
                chain_index,
                pos_in_chain,
            ),
    ;

    /// Two nodes of a tree with the same tweak are the same node.
    proof fn lemma_tree_tweak_injective(
        level: u8,
        pos_in_level: u32,
        other_level: u8,
        other_pos_in_level: u32,
    )
        requires
            Self::spec_tree_tweak(level, pos_in_level) == Self::spec_tree_tweak(
                other_level,
                other_pos_in_level,
            ),
        ensures
            level == other_level,
            pos_in_level == other_pos_in_level,
    ;

    /// Two steps with the same tweak are the same step of the same chain in
    /// the same epoch.
    proof fn lemma_chain_tweak_injective(
        epoch: u32,
        chain_index: u16,
        pos_in_chain: u16,
        other_epoch: u32,
        other_chain_index: u16,
        other_pos_in_chain: u16,
    )
        requires
            Self::spec_chain_tweak(epoch, chain_index, pos_in_chain) == Self::spec_chain_tweak(
                other_epoch,
                other_chain_index,
                other_pos_in_chain,
            ),
        ensures
            epoch == other_epoch,
            chain_index == other_chain_index,
            pos_in_chain == other_pos_in_chain,
    ;

    /// Samples a parameter from `rng`.
    fn rand_parameter(rng: &mut rand::rngs::ThreadRng) -> Self::Parameter;

    /// Samples a domain element from `rng`.
    fn rand_domain(rng: &mut rand::rngs::ThreadRng) -> Self::Domain;

    /// Makes the tweak of the node at `pos_in_level` of the tree level
    /// `level`.
    fn tree_tweak(level: u8, pos_in_level: u32) -> (tweak: Self::Tweak)
        ensures
            tweak == Self::spec_tree_tweak(level, pos_in_level),
    ;

    /// Makes the tweak of the step that reaches `pos_in_chain` in the chain
    /// `chain_index` of the epoch `epoch`.
    fn chain_tweak(epoch: u32, chain_index: u16, pos_in_chain: u16) -> (tweak: Self::Tweak)
        ensures
            tweak == Self::spec_chain_tweak(epoch, chain_index, pos_in_chain),
    ;

    /// Hashes `message`, one domain element for a step in a chain and two
    /// for a node of a tree, under `parameter` and `tweak`.
    fn apply(parameter: &Self::Parameter, tweak: &Self::Tweak, message: &[Self::Domain]) -> (out:
        Self::Domain)
        requires
            Self::consistent(),
        ensures
            out == Self::spec_apply(*parameter, *tweak, message@),
    ;

    /// Tells whether two domain elements are the same.
    fn domain_eq(a: &Self::Domain, b: &Self::Domain) -> (same: bool)
        ensures
            same == (*a == *b),
    ;

    /// Tests at run time what `consistent` states.
    fn is_consistent() -> (ok: bool)
        ensures
            ok == Self::consistent(),
    ;

    /// Stands where the instantiation has to be consistent: a call of it is
    /// accepted for a consistent instantiation, and for no other.
    fn internal_consistency_check()
        requires
            Self::consistent(),
    ;
}

/// The value at position `to` of the chain `chain_index` of `epoch` that has
/// `start` at position `from`: each step hashes the value before it under the
/// chain tweak of the position it reaches.
pub open spec fn spec_walk<TH: TweakableHash>(
    parameter: TH::Parameter,
    epoch: u32,
    chain_index: u16,
    start: TH::Domain,
    from: nat,
    to: nat,
) -> TH::Domain
    decreases to,
{
    if to <= from {
        start
    } else {
        TH::spec_apply(
            parameter,
            TH::spec_chain_tweak(epoch, chain_index, to as u16),
            seq![spec_walk::<TH>(parameter, epoch, chain_index, start, from, (to - 1) as nat)],
        )
    }
}

/// A walk from `from` to `to` may stop at any position `mid` between them
/// and go on from what it found there.
pub proof fn lemma_walk_composes<TH: TweakableHash>(
    parameter: TH::Parameter,
    epoch: u32,
    chain_index: u16,
    start: TH::Domain,
    from: nat,
    mid: nat,
    to: nat,
)
    requires
        from <= mid <= to,
    ensures
        spec_walk::<TH>(
            parameter,
            epoch,
            chain_index,
            spec_walk::<TH>(parameter, epoch, chain_index, start, from, mid),
            mid,
            to,
        ) == spec_walk::<TH>(parameter, epoch, chain_index, start, from, to),
    decreases to,
{
    if mid < to {
        lemma_walk_composes::<TH>(parameter, epoch, chain_index, start, from, mid, (to - 1) as nat);
    }
}

/// Walks the chain `chain_index` of `epoch` from `start` at position
/// `from_position` to position `to_position`. No step is taken when the two
/// positions are the same.
pub fn walk<TH: TweakableHash>(
    parameter: &TH::Parameter,
    epoch: u32,
    chain_index: u16,
    start: &TH::Domain,
    from_position: u16,
    to_position: u16,
) -> (end: TH::Domain)
    requires
        TH::consistent(),
        from_position <= to_position,
    ensures
        end == spec_walk::<TH>(
            *parameter,
            epoch,
            chain_index,
            *start,
            from_position as nat,
            to_position as nat,
        ),
{
    let mut current = *start;
    let mut position = from_position;
    while position < to_position
        invariant
            TH::consistent(),
            from_position <= position <= to_position,
            current == spec_walk::<TH>(
                *parameter,
                epoch,
                chain_index,
                *start,
                from_position as nat,
                position as nat,
            ),
        decreases to_position - position,
    {
        position = position + 1;
        let tweak = TH::chain_tweak(epoch, chain_index, position);
        let input = [current];
        assert(input@ =~= seq![current]);
        current = TH::apply(parameter, &tweak, input.as_slice());
    }
    current
}

} // verus!
