//! The middle facade: one epoch of up to 65,536 blocks of 65,536
//! commitments, with 16-level proofs of inclusion against its root.

use vstd::prelude::*;

use crate::accumulator::{wf_accum, Accum};
use crate::eternity::Witness;
use crate::hash::{blank_hash, Commitment};
use crate::index::{lemma_lookup_some, lookup};
use crate::path::fold_path;
use crate::tree::{hash_tier, kept_leaf_item, kept_tier, next_off_leaf, pow4, tier_refusal, LeafItem, Refuse};

verus! {

/// The root hash of an epoch.
#[derive(Clone, Copy, Debug, PartialEq, Eq)]
pub struct Root(pub crate::hash::Hash);

/// The index of a commitment within an epoch: which block, which slot
/// within it.
#[derive(Clone, Copy, Debug, PartialEq, Eq)]
pub struct Position {
    pub block: u16,
    pub commitment: u16,
}

/// The 32-bit packing of a position within an epoch.
pub open spec fn position_value(p: Position) -> int {
    p.block * 0x10000 + p.commitment
}

impl Position {
    /// The commitment slot within the block.
    pub fn commitment(&self) -> (r: u16)
        ensures
            r == self.commitment,
    {
        self.commitment
    }

    /// The block within the epoch.
    pub fn block(&self) -> (r: u16)
        ensures
            r == self.block,
    {
        self.block
    }

    /// The position holding a 32-bit integer.
    pub fn from_u32(x: u32) -> (r: Position)
        ensures
            position_value(r) == x as int,
    {
        let commitment = (x % 0x10000) as u16;
        let block = (x / 0x10000) as u16;
        let r = Position { block, commitment };
        proof {
            assert(position_value(r) == x as int) by (nonlinear_arith)
                requires
                    r.commitment == x as int % 0x10000,
                    r.block == x as int / 0x10000,
                    position_value(r) == r.block * 0x10000 + r.commitment,
                    0 <= x as int,
                    (x as int) < 0x100000000,
            ;
        }
        r
    }
}

/// A commitment could not be appended to the epoch.
#[derive(Clone, Copy, Debug, PartialEq, Eq)]
pub enum InsertError {
    /// The epoch is at capacity.
    Full,
    /// The most recent block in the epoch is at capacity.
    BlockFull,
    /// The most recent block in the epoch was inserted as a bare root.
    BlockForgotten,
}

/// The epoch was at capacity when a block was appended; the block is
/// handed back untouched.
pub struct InsertBlockError(pub crate::block::Block);

/// The epoch was at capacity when a block root was appended.
#[derive(Clone, Copy, Debug, PartialEq, Eq)]
pub struct InsertBlockRootError;

/// A proof of inclusion of a commitment at a position of an epoch, with
/// one row of three sibling hashes for each of the epoch's 16 levels.
#[derive(Clone, Debug)]
pub struct Proof {
    pub commitment: Commitment,
    pub position: u64,
    pub auth_path: Vec<[crate::hash::Hash; 3]>,
}

impl Proof {
    /// Whether this proof's path folds back up to the given root.
    pub open spec fn checks_against(self, root: Seq<u8>) -> bool {
        self.auth_path@.len() == 16 && fold_path(
            self.auth_path@,
            16,
            self.position as int,
            self.commitment@,
        ) == root
    }

    /// Assemble a proof from a commitment, its claimed position, and the
    /// sixteen rows of an authentication path, from the root down.
    pub fn new(commitment: Commitment, position: Position, auth_path: [[crate::hash::Hash; 3]; 16]) -> (r:
        Proof)
        ensures
            r.commitment == commitment,
            r.position as int == position_value(position),
            r.auth_path@ == auth_path@,
    {
        let mut rows: Vec<[crate::hash::Hash; 3]> = Vec::new();
        let mut i: usize = 0;
        while i < 16
            invariant
                i <= 16,
                rows@ =~= auth_path@.take(i as int),
            decreases 16 - i,
        {
            rows.push(auth_path[i]);
            proof {
                assert(rows@ =~= auth_path@.take(i as int + 1));
            }
            i = i + 1;
        }
        proof {
            assert(auth_path@.take(16) =~= auth_path@);
        }
        let p = (position.block() as u64) * 0x10000 + (position.commitment() as u64);
        Proof { commitment, position: p, auth_path: rows }
    }

    /// The commitment whose inclusion is witnessed by the proof.
    pub fn commitment(&self) -> (r: Commitment)
        ensures
            r == self.commitment,
    {
        self.commitment
    }

    /// The position of the witnessed commitment.
    pub fn position(&self) -> (r: Position)
        ensures
            position_value(r) == self.position as int % 0x100000000,
    {
        let commitment = (self.position % 0x10000) as u16;
        let block = ((self.position / 0x10000) % 0x10000) as u16;
        let r = Position { block, commitment };
        proof {
            assert(position_value(r) == self.position as int % 0x100000000)
                by (nonlinear_arith)
                requires
                    r.commitment == self.position as int % 0x10000,
                    r.block == (self.position as int / 0x10000) % 0x10000,
                    position_value(r) == r.block * 0x10000 + r.commitment,
                    0 <= self.position as int,
            ;
        }
        r
    }

    /// The authentication path, ordered from root to leaf.
    pub fn auth_path(&self) -> (r: &Vec<[crate::hash::Hash; 3]>)
        ensures
            r == &self.auth_path,
    {
        &self.auth_path
    }

    /// Verify the proof against the root of an epoch.
    pub fn verify(&self, root: &Root) -> (r: Result<(), crate::path::VerifyError>)
        ensures
            r is Ok <==> self.checks_against(root.0@),
    {
        if self.auth_path.len() != 16 {
            return Result::Err(crate::path::VerifyError);
        }
        let leaf = crate::hash::Hash::of(self.commitment);
        let computed = crate::path::fold_rows(&self.auth_path, 16, self.position, &leaf);
        if computed.value_eq(&root.0) {
            Result::Ok(())
        } else {
            Result::Err(crate::path::VerifyError)
        }
    }
}

/// An epoch under construction.
pub struct Epoch {
    pub(crate) state: Accum,
}

impl Epoch {
    /// The facade's invariant.
    pub closed spec fn well_formed(&self) -> bool {
        wf_accum(self.state) && self.state.tier.base == 8
    }

    /// The 32-bit position at which the next commitment lands.
    pub closed spec fn spec_position(&self) -> int {
        self.state.position as int
    }

    /// The position the index records for a commitment.
    pub closed spec fn position_of_spec(&self, c: Seq<u8>) -> Option<u64> {
        lookup(self.state.index@, c)
    }

    /// Whether a commitment is witnessed in this epoch.
    pub open spec fn contains_spec(&self, c: Seq<u8>) -> bool {
        self.position_of_spec(c) is Some
    }

    /// The epoch's root hash, as a byte string.
    pub closed spec fn root_spec(&self) -> Seq<u8> {
        hash_tier(self.state.tier)
    }

    /// Why the next `insert` would be refused, if it would be.
    pub closed spec fn insert_error_spec(&self) -> Option<InsertError> {
        match tier_refusal(self.state.tier) {
            Option::None => Option::None,
            Option::Some(k) => Option::Some(refusal_epoch_error(k)),
        }
    }

    /// How many commitments are witnessed.
    pub closed spec fn count_spec(&self) -> int {
        self.state.index@.len() as int
    }

    /// Whether the epoch has never been inserted into.
    pub closed spec fn is_empty_spec(&self) -> bool {
        self.state.tier.inner matches crate::tree::Inner::Active(Option::None)
    }

    /// The commitment kept at an offset of the epoch, if any.
    pub closed spec fn kept_at(&self, off: int) -> Option<Seq<u8>> {
        kept_tier(self.state.tier, off)
    }

    /// How many block slots of the epoch are consumed.
    pub closed spec fn block_count_spec(&self) -> int {
        crate::tree::leafslots_tier(self.state.tier)
    }

    /// Whether a block (or block root) can be appended: the epoch still
    /// has room for another block.
    pub closed spec fn can_append_block_spec(&self) -> bool {
        crate::tree::leafslots_tier(self.state.tier) < pow4(8)
    }

    /// A new, empty epoch.
    pub fn new() -> (r: Epoch)
        ensures
            r.well_formed(),
            r.spec_position() == 0,
            r.root_spec() == blank_hash(),
            r.insert_error_spec() is None,
            forall|c: Seq<u8>| !#[trigger] r.contains_spec(c),
    {
        Epoch { state: Accum::new(8) }
    }

    /// The root hash of the epoch.
    pub fn root(&self) -> (r: Root)
        requires
            self.well_formed(),
        ensures
            r.0@ == self.root_spec(),
    {
        Root(self.state.root_hash())
    }

    /// Append a commitment to the epoch's current block.
    #[verifier::spinoff_prover]
    #[verifier::rlimit(60)]
    pub fn insert(&mut self, witness: Witness, commitment: Commitment) -> (r: Result<
        Position,
        InsertError,
    >)
        requires
            old(self).well_formed(),
        ensures
            final(self).well_formed(),
            match r {
                Result::Ok(pos) => {
                    &&& old(self).insert_error_spec() is None
                    &&& position_value(pos) == old(self).spec_position()
                    &&& final(self).spec_position() == old(self).spec_position() + 1
                    &&& (final(self).spec_position() % 0x10000 != 0
                        ==> final(self).insert_error_spec() is None)
                    &&& (final(self).spec_position() % 0x10000 == 0
                        ==> final(self).insert_error_spec() == Option::Some(
                        InsertError::BlockFull,
                    ))
                    &&& (witness == Witness::Keep ==> {
                        &&& (final(self).position_of_spec(commitment@) matches Option::Some(p)
                            && p as int == old(self).spec_position())
                        &&& (forall|d: Seq<u8>|
                            d != commitment@ ==> #[trigger] final(self).position_of_spec(d)
                                == old(self).position_of_spec(d))
                        &&& final(self).count_spec() == old(self).count_spec() + (if old(
                            self,
                        ).contains_spec(commitment@) {
                            0int
                        } else {
                            1int
                        })
                        &&& forall|off: int| #[trigger]
                            final(self).kept_at(off) == (if off == old(self).spec_position() {
                                Option::Some(commitment@)
                            } else if (old(self).position_of_spec(commitment@)
                                matches Option::Some(q) && off == q as int) {
                                Option::<Seq<u8>>::None
                            } else {
                                old(self).kept_at(off)
                            })
                    })
                    &&& (witness == Witness::Forget ==> {
                        &&& final(self).count_spec() == old(self).count_spec()
                        &&& (forall|d: Seq<u8>|
                            #[trigger] final(self).position_of_spec(d) == old(
                                self,
                            ).position_of_spec(d))
                        &&& forall|off: int| #[trigger]
                            final(self).kept_at(off) == old(self).kept_at(off)
                    })
                },
                Result::Err(e) => {
                    &&& old(self).insert_error_spec() == Option::Some(e)
                    &&& final(self).root_spec() == old(self).root_spec()
                    &&& final(self).spec_position() == old(self).spec_position()
                    &&& final(self).count_spec() == old(self).count_spec()
                    &&& (forall|d: Seq<u8>|
                        #[trigger] final(self).position_of_spec(d) == old(self).position_of_spec(
                            d,
                        ))
                    &&& forall|off: int| #[trigger]
                        final(self).kept_at(off) == old(self).kept_at(off)
                },
            },
    {
        let keep = matches!(witness, Witness::Keep);
        let r = self.state.insert_note(keep, commitment);
        match r {
            Result::Ok(p) => {
                proof {
                    crate::tree::lemma_next_off_tier_nonneg(old(self).state.tier);
                    crate::tree::lemma_next_off_tier_le_span(self.state.tier);
                    assert(pow4(16) == 0x100000000) by {
                        reveal_with_fuel(pow4, 17);
                    }
                    assert(pow4(8) == 0x10000) by {
                        reveal_with_fuel(pow4, 9);
                    }
                }
                Result::Ok(Position::from_u32(p as u32))
            },
            Result::Err(k) => Result::Err(refusal_to_epoch_error(k)),
        }
    }

    /// A proof of inclusion for a witnessed commitment against the epoch's
    /// root, or `None` when it is not witnessed.
    pub fn witness(&self, commitment: Commitment) -> (r: Option<Proof>)
        requires
            self.well_formed(),
        ensures
            r is Some <==> self.contains_spec(commitment@),
            match r {
                Option::Some(pf) => pf.checks_against(self.root_spec()) && pf.commitment
                    == commitment && self.position_of_spec(commitment@) == Option::Some(
                    pf.position,
                ),
                Option::None => true,
            },
    {
        let w = self.state.witness_note(&commitment);
        match w {
            Option::Some((p, rows)) => Option::Some(
                Proof { commitment, position: p, auth_path: rows },
            ),
            Option::None => Option::None,
        }
    }

    /// Forget the witness for a commitment; the epoch's root is unchanged.
    pub fn forget(&mut self, commitment: Commitment) -> (r: bool)
        requires
            old(self).well_formed(),
        ensures
            final(self).well_formed(),
            r == old(self).contains_spec(commitment@),
            final(self).root_spec() == old(self).root_spec(),
            final(self).spec_position() == old(self).spec_position(),
            !final(self).contains_spec(commitment@),
            !r ==> *final(self) == *old(self),
            forall|d: Seq<u8>|
                d != commitment@ ==> #[trigger] final(self).position_of_spec(d) == old(
                    self,
                ).position_of_spec(d),
            final(self).count_spec() == old(self).count_spec() - (if old(self).contains_spec(
                commitment@,
            ) {
                1int
            } else {
                0int
            }),
            forall|off: int| #[trigger]
                final(self).kept_at(off) == (if (old(self).position_of_spec(commitment@)
                    matches Option::Some(q) && off == q as int) {
                    Option::<Seq<u8>>::None
                } else {
                    old(self).kept_at(off)
                }),
    {
        self.state.forget_note(&commitment)
    }

    /// Append a finished block all at once, making its witnesses
    /// available under this epoch.
    #[verifier::spinoff_prover]
    #[verifier::rlimit(100)]
    pub fn insert_block(&mut self, block: crate::block::Block) -> (r: Result<
        (),
        InsertBlockError,
    >)
        requires
            old(self).well_formed(),
            block.well_formed(),
        ensures
            final(self).well_formed(),
            r is Ok <==> old(self).can_append_block_spec(),
            match r {
                Result::Ok(_) => {
                    &&& forall|c: Seq<u8>|
                        #[trigger] block.contains_spec(c) ==> final(self).contains_spec(c)
                    &&& forall|d: Seq<u8>|
                        #[trigger] old(self).contains_spec(d) ==> final(self).contains_spec(d)
                    &&& final(self).spec_position() >= old(self).spec_position()
                    &&& final(self).spec_position() == old(self).block_count_spec() * 0x10000
                        + block.spec_position()
                    &&& final(self).block_count_spec() == old(self).block_count_spec() + 1
                    &&& forall|c: Seq<u8>|
                        #![trigger block.position_of_spec(c)]
                        block.position_of_spec(c) is Some ==> (final(self).position_of_spec(c)
                            is Some && final(self).position_of_spec(c)->Some_0 as int
                            == old(self).block_count_spec() * 0x10000
                            + block.position_of_spec(c)->Some_0 as int)
                    &&& forall|d: Seq<u8>|
                        !#[trigger] block.contains_spec(d) ==> final(self).position_of_spec(d)
                            == old(self).position_of_spec(d)
                    &&& forall|c: Seq<u8>|
                        #![trigger block.contains_spec(c), old(self).position_of_spec(c)]
                        block.contains_spec(c) ==> (old(self).position_of_spec(c)
                            matches Option::Some(q) ==> final(self).kept_at(q as int) is None)
                },
                Result::Err(_) => {
                    &&& final(self).root_spec() == old(self).root_spec()
                    &&& final(self).spec_position() == 0x100000000
                    &&& forall|d: Seq<u8>|
                        #[trigger] final(self).position_of_spec(d) == old(self).position_of_spec(
                            d,
                        )
                },
            },
    {
        proof {
            crate::block::lemma_block_wf(&block);
            crate::block::lemma_block_specs(&block);
        }
        let ghost gblock = block;
        let crate::block::Block { state: Accum { position: bpos, index: bindex, tier: btier } } =
            block;
        let ghost gtier = btier;
        let ghost gindex = bindex@;
        let item = LeafItem::SubTier(Box::new(btier));
        let ghost gitem = item;
        let r = self.state.insert_leaf(item);
        match r {
            Result::Ok(l) => {
                proof {
                    crate::tree::lemma_next_off_leaf_nonneg_helper(gitem, 8);
                    lemma_merge_ready(old(self).state, self.state, gitem, gtier, gindex, l);
                }
                self.state.merge_entries(&bindex, l);
                proof {
                    assert(gblock.state.index@ == gindex);
                    assert(pow4(8) == 0x10000) by {
                        reveal_with_fuel(pow4, 9);
                    }
                    assert(l as int == old(self).block_count_spec() * 0x10000);
                    assert forall|c: Seq<u8>| #[trigger]
                        gblock.contains_spec(c) implies self.contains_spec(c) by {
                        assert(lookup(gindex, c) is Some);
                        lemma_lookup_some(gindex, c);
                        let k = choose|k: int|
                            0 <= k < gindex.len() && gindex[k].commitment@ == c
                                && #[trigger] gindex[k].position == lookup(gindex, c)->Some_0;
                    }
                    assert forall|c: Seq<u8>|
                        #![trigger gblock.position_of_spec(c)]
                        gblock.position_of_spec(c) is Some implies (self.position_of_spec(c)
                        is Some && self.position_of_spec(c)->Some_0 as int == old(
                        self,
                    ).block_count_spec() * 0x10000 + gblock.position_of_spec(
                        c,
                    )->Some_0 as int) by {
                        assert(lookup(gindex, c) is Some);
                        lemma_lookup_some(gindex, c);
                        let k = choose|k: int|
                            0 <= k < gindex.len() && gindex[k].commitment@ == c
                                && #[trigger] gindex[k].position == lookup(gindex, c)->Some_0;
                    }
                    assert forall|d: Seq<u8>| #[trigger]
                        old(self).contains_spec(d) implies self.contains_spec(d) by {
                        if exists|k: int|
                            0 <= k < gindex.len() && (#[trigger] gindex[k]).commitment@ == d {
                            let k = choose|k: int|
                                0 <= k < gindex.len() && (#[trigger] gindex[k]).commitment@ == d;
                        } else {
                            assert(forall|k: int|
                                0 <= k < gindex.len() ==> (#[trigger] gindex[k]).commitment@
                                    != d);
                        }
                    }
                    assert forall|d: Seq<u8>|
                        !#[trigger] gblock.contains_spec(d) implies self.position_of_spec(d)
                        == old(self).position_of_spec(d) by {
                        assert(lookup(gindex, d) is None);
                        crate::index::lemma_lookup_none(gindex, d);
                    }
                    assert forall|c: Seq<u8>|
                        #![trigger gblock.contains_spec(c), old(self).position_of_spec(c)]
                        gblock.contains_spec(c) implies (old(self).position_of_spec(c)
                        matches Option::Some(q) ==> self.kept_at(q as int) is None) by {
                        if old(self).position_of_spec(c) is Some {
                            assert(lookup(gindex, c) is Some);
                            lemma_lookup_some(gindex, c);
                            let k = choose|k: int|
                                0 <= k < gindex.len() && gindex[k].commitment@ == c
                                    && #[trigger] gindex[k].position == lookup(gindex, c)->Some_0;
                        }
                    }
                }
                Result::Ok(())
            },
            Result::Err(item2) => {
                proof {
                    assert(pow4(16) == 0x100000000) by {
                        reveal_with_fuel(pow4, 17);
                    }
                }
                match item2 {
                    LeafItem::SubTier(t) => Result::Err(
                        InsertBlockError(
                            crate::block::Block {
                                state: Accum { position: bpos, index: bindex, tier: *t },
                            },
                        ),
                    ),
                    LeafItem::Note(_) => {
                        proof {
                            assert(false);
                        }
                        Result::Err(InsertBlockError(crate::block::Block::new()))
                    },
                    LeafItem::Stub(_) => {
                        proof {
                            assert(false);
                        }
                        Result::Err(InsertBlockError(crate::block::Block::new()))
                    },
                }
            },
        }
    }

    /// Append the bare root of a block, without any of its witnesses.
    #[verifier::spinoff_prover]
    #[verifier::rlimit(100)]
    pub fn insert_block_root(&mut self, block_root: crate::block::Root) -> (r: Result<
        (),
        InsertBlockRootError,
    >)
        requires
            old(self).well_formed(),
        ensures
            final(self).well_formed(),
            r is Ok <==> old(self).can_append_block_spec(),
            forall|d: Seq<u8>|
                #[trigger] final(self).position_of_spec(d) == old(self).position_of_spec(d),
            final(self).count_spec() == old(self).count_spec(),
            match r {
                Result::Ok(_) => {
                    &&& final(self).spec_position() == (old(self).block_count_spec() + 1)
                        * 0x10000
                    &&& final(self).block_count_spec() == old(self).block_count_spec() + 1
                    &&& final(self).spec_position() > old(self).spec_position()
                },
                Result::Err(_) => {
                    &&& final(self).root_spec() == old(self).root_spec()
                    &&& final(self).spec_position() == 0x100000000
                },
            },
    {
        let item = LeafItem::Stub(block_root.0);
        let ghost gitem = item;
        let r = self.state.insert_leaf(item);
        proof {
            crate::tree::lemma_next_off_leaf_nonneg_helper(gitem, 8);
            assert(pow4(8) == 0x10000) by {
                reveal_with_fuel(pow4, 9);
            }
            assert(pow4(16) == 0x100000000) by {
                reveal_with_fuel(pow4, 17);
            }
            if r is Ok {
                assert(next_off_leaf(gitem, 8) == pow4(8));
                let bc = old(self).block_count_spec();
                assert((bc + 1) * pow4(8) == bc * pow4(8) + pow4(8)) by (nonlinear_arith);
                crate::tree::lemma_pow4_pos(8);
            }
        }
        match r {
            Result::Ok(_) => Result::Ok(()),
            Result::Err(_) => Result::Err(InsertBlockRootError),
        }
    }

    /// How many commitments are witnessed in the epoch.
    pub fn witnessed_count(&self) -> (r: usize)
        requires
            self.well_formed(),
        ensures
            r as int == self.count_spec(),
    {
        self.state.index.len()
    }

    /// Whether the epoch has never been inserted into.
    pub fn is_empty(&self) -> (r: bool)
        requires
            self.well_formed(),
        ensures
            r == self.is_empty_spec(),
    {
        matches!(&self.state.tier.inner, crate::tree::Inner::Active(Option::None))
    }
}

/// How a refusal surfaces as an epoch insertion error.
pub open spec fn refusal_epoch_error(k: Refuse) -> InsertError {
    match k {
        Refuse::FullAt(b) => if b == 8 {
            InsertError::Full
        } else {
            InsertError::BlockFull
        },
        Refuse::ForgottenAt(_) => InsertError::BlockForgotten,
    }
}

fn refusal_to_epoch_error(k: Refuse) -> (r: InsertError)
    ensures
        r == refusal_epoch_error(k),
{
    match k {
        Refuse::FullAt(b) => if b == 8 {
            InsertError::Full
        } else {
            InsertError::BlockFull
        },
        Refuse::ForgottenAt(_) => InsertError::BlockForgotten,
    }
}

/// After a sub-tier was appended as a leaf at offset `l`, its index
/// entries are ready to merge: each points at a leaf the combined tree now
/// keeps, strictly left of the new frontier.
pub(crate) proof fn lemma_merge_ready(
    pre: Accum,
    cur: Accum,
    item: LeafItem,
    sub: crate::tree::Tier,
    entries: Seq<crate::index::Entry>,
    l: u64,
)
    requires
        wf_accum(pre),
        item == LeafItem::SubTier(Box::new(sub)),
        crate::index::entries_distinct(entries),
        forall|k: int|
            0 <= k < entries.len() ==> kept_tier(
                sub,
                (#[trigger] entries[k]).position as int,
            ) == Option::Some(entries[k].commitment@) && (entries[k].position as int)
                < crate::tree::next_off_tier(sub),
        pre.position <= l,
        cur.position as int == l as int + next_off_leaf(item, sub.base as int),
        cur.index@ == pre.index@,
        forall|off: int| #[trigger]
            kept_tier(cur.tier, off) == (if off < l as int {
                kept_tier(pre.tier, off)
            } else {
                kept_leaf_item(item, off - l as int)
            }),
    ensures
        forall|k: int|
            0 <= k < entries.len() ==> kept_tier(
                cur.tier,
                l as int + (#[trigger] entries[k]).position as int,
            ) == Option::Some(entries[k].commitment@),
        forall|k: int|
            #![trigger entries[k]]
            0 <= k < entries.len() ==> (l as int + entries[k].position as int)
                < cur.position as int,
        forall|i: int| 0 <= i < cur.index@.len() ==> (#[trigger] cur.index@[i]).position < l,
{
    assert forall|k: int| 0 <= k < entries.len() implies kept_tier(
        cur.tier,
        l as int + (#[trigger] entries[k]).position as int,
    ) == Option::Some(entries[k].commitment@) by {
        let p = entries[k].position as int;
        crate::tree::lemma_next_off_tier_nonneg(sub);
        assert(kept_tier(cur.tier, l as int + p) == kept_leaf_item(item, p));
        assert(kept_leaf_item(item, p) == kept_tier(sub, p));
    }
    assert forall|k: int|
        #![trigger entries[k]]
        0 <= k < entries.len() implies (l as int + entries[k].position as int)
        < cur.position as int by {
        assert(next_off_leaf(item, sub.base as int) == crate::tree::next_off_tier(sub));
    }
}

impl Epoch {
    /// Hand the inner state over to the containing facade.
    pub(crate) fn into_state(self) -> (r: Accum)
        ensures
            r == self.state,
    {
        self.state
    }

    /// Rebuild the facade around state handed back by the containing one.
    pub(crate) fn from_state(state: Accum) -> (r: Epoch)
        ensures
            r.state == state,
    {
        Epoch { state }
    }
}

/// How the epoch's published specifications read on its inner state,
/// spelled out for the other facades.
pub(crate) proof fn lemma_epoch_specs(ep: &Epoch)
    ensures
        ep.root_spec() == hash_tier(ep.state.tier),
        ep.spec_position() == ep.state.position as int,
        forall|c: Seq<u8>| #[trigger] ep.position_of_spec(c) == lookup(ep.state.index@, c),
{
}

/// What the epoch invariant says, spelled out for the other facades.
pub(crate) proof fn lemma_epoch_wf(ep: &Epoch)
    requires
        ep.well_formed(),
    ensures
        wf_accum(ep.state),
        ep.state.tier.base == 8,
        crate::index::entries_distinct(ep.state.index@),
        forall|k: int|
            0 <= k < ep.state.index@.len() ==> kept_tier(
                ep.state.tier,
                (#[trigger] ep.state.index@[k]).position as int,
            ) == Option::Some(ep.state.index@[k].commitment@) && (ep.state.index@[k].position
                as int) < crate::tree::next_off_tier(ep.state.tier),
        forall|c: Seq<u8>| #[trigger] ep.contains_spec(c) == (lookup(ep.state.index@, c) is Some),
{
}

} // verus!
