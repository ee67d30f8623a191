//! The innermost facade: a single block of up to 65,536 commitments,
//! built on its own and then appended whole to an epoch or to the tree.

use vstd::prelude::*;

use crate::accumulator::{wf_accum, Accum};
use crate::eternity::Witness;
use crate::hash::{blank_hash, Commitment};
use crate::index::lookup;
use crate::tree::{hash_tier, kept_tier, tier_refusal, Refuse};

verus! {

/// The root hash of a block.
#[derive(Clone, Copy, Debug, PartialEq, Eq)]
pub struct Root(pub crate::hash::Hash);

/// The index of a commitment within a block.
#[derive(Clone, Copy, Debug, PartialEq, Eq)]
pub struct Position {
    pub commitment: u16,
}

impl Position {
    /// The commitment slot within the block.
    pub fn commitment(&self) -> (r: u16)
        ensures
            r == self.commitment,
    {
        self.commitment
    }
}

/// A commitment could not be appended: the block is at capacity.
#[derive(Clone, Copy, Debug, PartialEq, Eq)]
pub struct InsertError;

/// A block under construction.
pub struct Block {
    pub(crate) state: Accum,
}

impl Block {
    /// The facade's invariant.
    pub closed spec fn well_formed(&self) -> bool {
        wf_accum(self.state) && self.state.tier.base == 0
    }

    /// The slot at which the next commitment lands.
    pub closed spec fn spec_position(&self) -> int {
        self.state.position as int
    }

    /// The position the index records for a commitment.
    pub closed spec fn position_of_spec(&self, c: Seq<u8>) -> Option<u64> {
        lookup(self.state.index@, c)
    }

    /// Whether a commitment is witnessed in this block.
    pub open spec fn contains_spec(&self, c: Seq<u8>) -> bool {
        self.position_of_spec(c) is Some
    }

    /// The block's root hash, as a byte string.
    pub closed spec fn root_spec(&self) -> Seq<u8> {
        hash_tier(self.state.tier)
    }

    /// Whether the next insertion would be accepted.
    pub closed spec fn can_insert_spec(&self) -> bool {
        tier_refusal(self.state.tier) is None
    }

    /// How many commitments are witnessed.
    pub closed spec fn count_spec(&self) -> int {
        self.state.index@.len() as int
    }

    /// The commitment kept at a slot of the block, if any.
    pub closed spec fn kept_at(&self, off: int) -> Option<Seq<u8>> {
        kept_tier(self.state.tier, off)
    }

    /// A new, empty block.
    pub fn new() -> (r: Block)
        ensures
            r.well_formed(),
            r.spec_position() == 0,
            r.root_spec() == blank_hash(),
            r.can_insert_spec(),
            forall|c: Seq<u8>| !#[trigger] r.contains_spec(c),
    {
        Block { state: Accum::new(0) }
    }

    /// The root hash of the block.
    pub fn root(&self) -> (r: Root)
        requires
            self.well_formed(),
        ensures
            r.0@ == self.root_spec(),
    {
        Root(self.state.root_hash())
    }

    /// Append a commitment, kept as a witness or not; on success, the slot
    /// at which it landed.
    pub fn insert(&mut self, witness: Witness, commitment: Commitment) -> (r: Result<
        Position,
        InsertError,
    >)
        requires
            old(self).well_formed(),
        ensures
            final(self).well_formed(),
            match r {
                Result::Ok(pos) => {
                    &&& old(self).can_insert_spec()
                    &&& pos.commitment as int == old(self).spec_position()
                    &&& final(self).spec_position() == old(self).spec_position() + 1
                    &&& (final(self).spec_position() < 0x10000 ==> final(self).can_insert_spec())
                    &&& (final(self).spec_position() == 0x10000 ==> !final(self).can_insert_spec())
                    &&& (witness == Witness::Keep ==> {
                        &&& (final(self).position_of_spec(commitment@) matches Option::Some(p)
                            && p as int == old(self).spec_position())
                        &&& (forall|d: Seq<u8>|
                            d != commitment@ ==> #[trigger] final(self).position_of_spec(d)
                                == old(self).position_of_spec(d))
                        &&& final(self).count_spec() == old(self).count_spec() + (if old(
                            self,
                        ).contains_spec(commitment@) {
                            0int
                        } else {
                            1int
                        })
                        &&& forall|off: int| #[trigger]
                            final(self).kept_at(off) == (if off == old(self).spec_position() {
                                Option::Some(commitment@)
                            } else if (old(self).position_of_spec(commitment@)
                                matches Option::Some(q) && off == q as int) {
                                Option::<Seq<u8>>::None
                            } else {
                                old(self).kept_at(off)
                            })
                    })
                    &&& (witness == Witness::Forget ==> {
                        &&& final(self).count_spec() == old(self).count_spec()
                        &&& (forall|d: Seq<u8>|
                            #[trigger] final(self).position_of_spec(d) == old(
                                self,
                            ).position_of_spec(d))
                        &&& forall|off: int| #[trigger]
                            final(self).kept_at(off) == old(self).kept_at(off)
                    })
                },
                Result::Err(_) => {
                    &&& !old(self).can_insert_spec()
                    &&& final(self).root_spec() == old(self).root_spec()
                    &&& final(self).spec_position() == old(self).spec_position()
                    &&& final(self).count_spec() == old(self).count_spec()
                    &&& (forall|d: Seq<u8>|
                        #[trigger] final(self).position_of_spec(d) == old(self).position_of_spec(
                            d,
                        ))
                    &&& forall|off: int| #[trigger]
                        final(self).kept_at(off) == old(self).kept_at(off)
                },
            },
    {
        let keep = matches!(witness, Witness::Keep);
        let r = self.state.insert_note(keep, commitment);
        match r {
            Result::Ok(p) => {
                proof {
                    crate::tree::lemma_next_off_tier_nonneg(old(self).state.tier);
                    crate::tree::lemma_next_off_tier_le_span(self.state.tier);
                    crate::tree::lemma_next_off_tier_le_span(old(self).state.tier);
                    assert(crate::tree::pow4(8) == 0x10000) by {
                        reveal_with_fuel(crate::tree::pow4, 9);
                    }
                    if self.spec_position() < 0x10000 {
                        assert(self.state.position as int % crate::tree::pow4(8) != 0) by {
                            crate::tree::lemma_next_off_tier_nonneg(self.state.tier);
                            vstd::arithmetic::div_mod::lemma_small_mod(
                                self.state.position as nat,
                                0x10000nat,
                            );
                        }
                    }
                }
                Result::Ok(Position { commitment: p as u16 })
            },
            Result::Err(k) => {
                proof {
                    assert(k == Refuse::FullAt(0u8)) by {
                        let t = old(self).state.tier;
                        match t.inner {
                            crate::tree::Inner::Active(o) => {},
                            crate::tree::Inner::Complete(_) => {},
                            crate::tree::Inner::Hash(_) => {},
                        }
                    }
                }
                Result::Err(InsertError)
            },
        }
    }

    /// How many commitments are witnessed in the block.
    pub fn witnessed_count(&self) -> (r: usize)
        requires
            self.well_formed(),
        ensures
            r as int == self.count_spec(),
    {
        self.state.index.len()
    }

    /// Forget the witness for a commitment; the root hash is unchanged.
    pub fn forget(&mut self, commitment: Commitment) -> (r: bool)
        requires
            old(self).well_formed(),
        ensures
            final(self).well_formed(),
            r == old(self).contains_spec(commitment@),
            final(self).root_spec() == old(self).root_spec(),
            final(self).spec_position() == old(self).spec_position(),
            !final(self).contains_spec(commitment@),
            !r ==> *final(self) == *old(self),
            forall|d: Seq<u8>|
                d != commitment@ ==> #[trigger] final(self).position_of_spec(d) == old(
                    self,
                ).position_of_spec(d),
            final(self).count_spec() == old(self).count_spec() - (if old(self).contains_spec(
                commitment@,
            ) {
                1int
            } else {
                0int
            }),
            forall|off: int| #[trigger]
                final(self).kept_at(off) == (if (old(self).position_of_spec(commitment@)
                    matches Option::Some(q) && off == q as int) {
                    Option::<Seq<u8>>::None
                } else {
                    old(self).kept_at(off)
                }),
    {
        self.state.forget_note(&commitment)
    }
}

impl Block {
    /// Hand the inner state over to a containing facade.
    pub(crate) fn into_state(self) -> (r: Accum)
        ensures
            r == self.state,
    {
        self.state
    }

    /// Rebuild the facade around state handed back by a containing one.
    pub(crate) fn from_state(state: Accum) -> (r: Block)
        ensures
            r.state == state,
    {
        Block { state }
    }
}

/// How the block's published specifications read on its inner state,
/// spelled out for the other facades.
pub(crate) proof fn lemma_block_specs(b: &Block)
    ensures
        b.root_spec() == hash_tier(b.state.tier),
        b.spec_position() == b.state.position as int,
        forall|c: Seq<u8>| #[trigger] b.position_of_spec(c) == lookup(b.state.index@, c),
{
}

/// What the block invariant says, spelled out for the other facades.
pub(crate) proof fn lemma_block_wf(b: &Block)
    requires
        b.well_formed(),
    ensures
        wf_accum(b.state),
        b.state.tier.base == 0,
        crate::index::entries_distinct(b.state.index@),
        forall|k: int|
            0 <= k < b.state.index@.len() ==> kept_tier(
                b.state.tier,
                (#[trigger] b.state.index@[k]).position as int,
            ) == Option::Some(b.state.index@[k].commitment@) && (b.state.index@[k].position as int)
                < crate::tree::next_off_tier(b.state.tier),
        forall|c: Seq<u8>| #[trigger] b.contains_spec(c) == (lookup(b.state.index@, c) is Some),
{
}

} // verus!
