//! The outermost facade: a tree of up to 65,536 epochs of 65,536 blocks of
//! 65,536 commitments, with its root, its 48-bit positions, and proofs of
//! inclusion against the root.

use vstd::prelude::*;

use crate::accumulator::{wf_accum, Accum};
use crate::hash::{blank_hash, fq_canonical, Commitment};
use crate::index::{lemma_lookup_none, lemma_lookup_some, lookup};
use crate::path::fold_path;
use crate::tree::{ActiveNode, hash_tier, kept_tier, next_off_leaf, pow4, sub_refusal, tier_refusal, wf_leaf_item, focus_item, active_focus_ref, Inner, LeafItem, Refuse};

verus! {

/// Whether an inserted commitment keeps a witness or is reduced at once to
/// its bare hash.
#[derive(Clone, Copy, Debug, PartialEq, Eq)]
pub enum Witness {
    Keep,
    Forget,
}

/// The index of a commitment within the whole tree: which epoch, which
/// block within it, which commitment slot within that.
#[derive(Clone, Copy, Debug, PartialEq, Eq)]
pub struct Position {
    pub epoch: u16,
    pub block: u16,
    pub commitment: u16,
}

/// The 48-bit packing of a position: `epoch ∥ block ∥ commitment`.
pub open spec fn position_value(p: Position) -> int {
    p.epoch * 0x100000000 + p.block * 0x10000 + p.commitment
}

impl Position {
    /// The commitment slot within the block.
    pub fn commitment(&self) -> (r: u16)
        ensures
            r == self.commitment,
    {
        self.commitment
    }

    /// The block within the epoch.
    pub fn block(&self) -> (r: u16)
        ensures
            r == self.block,
    {
        self.block
    }

    /// The epoch within the tree.
    pub fn epoch(&self) -> (r: u16)
        ensures
            r == self.epoch,
    {
        self.epoch
    }

    /// The position as a single 48-bit integer.
    pub fn to_u64(&self) -> (r: u64)
        ensures
            r as int == position_value(*self),
    {
        (self.epoch as u64) * 0x100000000 + (self.block as u64) * 0x10000 + (self.commitment
            as u64)
    }

    /// The position holding a 48-bit integer, taken modulo the tree's span.
    pub fn from_u64(x: u64) -> (r: Position)
        ensures
            position_value(r) == (x as int) % 0x1000000000000,
    {
        let commitment = (x % 0x10000) as u16;
        let block = ((x / 0x10000) % 0x10000) as u16;
        let epoch = ((x / 0x100000000) % 0x10000) as u16;
        let r = Position { epoch, block, commitment };
        proof {
            lemma_split48(x as int);
        }
        r
    }
}

/// Splitting a value into its three 16-bit coordinates and repacking them
/// recovers it modulo 2^48.
#[verifier::spinoff_prover]
#[verifier::rlimit(100)]
pub proof fn lemma_split48(x: int)
    requires
        0 <= x,
    ensures
        ((x / 0x100000000) % 0x10000) * 0x100000000 + ((x / 0x10000) % 0x10000) * 0x10000 + x
            % 0x10000 == x % 0x1000000000000,
{
    let c = x % 0x10000;
    let b = (x / 0x10000) % 0x10000;
    let e = (x / 0x100000000) % 0x10000;
    assert(e * 0x100000000 + b * 0x10000 + c == x % 0x1000000000000) by (nonlinear_arith)
        requires
            0 <= x,
            c == x % 0x10000,
            b == (x / 0x10000) % 0x10000,
            e == (x / 0x100000000) % 0x10000,
    ;
}

/// The root hash of the whole tree.
#[derive(Clone, Copy, Debug, PartialEq, Eq)]
pub struct Root(pub crate::hash::Hash);

/// A root could not be decoded from bytes: the input was not 32 bytes, or
/// not the canonical encoding of a field element.
#[derive(Clone, Copy, Debug, PartialEq, Eq)]
pub struct RootDecodeError;

impl Root {
    /// The canonical 32-byte encoding of the root.
    pub fn encode(&self) -> (r: Vec<u8>)
        ensures
            r@ == self.0@,
    {
        let mut out: Vec<u8> = Vec::new();
        let mut i: usize = 0;
        while i < 32
            invariant
                i <= 32,
                out@ =~= self.0@.take(i as int),
            decreases 32 - i,
        {
            out.push(self.0.bytes[i]);
            proof {
                assert(out@ =~= self.0@.take(i as int + 1));
            }
            i = i + 1;
        }
        proof {
            assert(self.0@.take(32) =~= self.0@);
        }
        out
    }

    /// Decode a root from bytes: exactly 32 of them, and a canonical field
    /// element encoding.
    pub fn decode(bytes: &Vec<u8>) -> (r: Result<Root, RootDecodeError>)
        ensures
            match r {
                Result::Ok(root) => bytes@.len() == 32 && fq_canonical(bytes@) && root.0@
                    == bytes@,
                Result::Err(_) => !(bytes@.len() == 32 && fq_canonical(bytes@)),
            },
            bytes@ == blank_hash() ==> r is Ok,
    {
        if bytes.len() != 32 {
            return Result::Err(RootDecodeError);
        }
        let mut raw = [0u8; 32];
        let mut i: usize = 0;
        while i < 32
            invariant
                i <= 32,
                bytes@.len() == 32,
                raw@.len() == 32,
                forall|j: int| 0 <= j < i ==> raw@[j] == bytes@[j],
            decreases 32 - i,
        {
            raw[i] = bytes[i];
            i = i + 1;
        }
        proof {
            assert(raw@ =~= bytes@);
        }
        if crate::hash::fq_bytes_canonical(&raw) {
            Result::Ok(Root(crate::hash::Hash { bytes: raw }))
        } else {
            Result::Err(RootDecodeError)
        }
    }
}

/// A commitment could not be appended to the tree.
#[derive(Clone, Copy, Debug, PartialEq, Eq)]
pub enum InsertError {
    /// The whole tree is at capacity.
    Full,
    /// The current epoch is at capacity.
    EpochFull,
    /// The current block is at capacity.
    BlockFull,
    /// The current epoch was inserted as a bare root.
    EpochForgotten,
    /// The current block was inserted as a bare root.
    BlockForgotten,
}

/// A block could not be appended; the block is handed back untouched.
pub enum InsertBlockError {
    Full(crate::block::Block),
    EpochFull(crate::block::Block),
    EpochForgotten(crate::block::Block),
}

/// A block root could not be appended.
#[derive(Clone, Copy, Debug, PartialEq, Eq)]
pub enum InsertBlockRootError {
    Full,
    EpochFull,
    EpochForgotten,
}

/// An epoch could not be appended; the epoch is handed back untouched.
pub struct InsertEpochError(pub crate::epoch::Epoch);

/// An epoch root could not be appended.
#[derive(Clone, Copy, Debug, PartialEq, Eq)]
pub struct InsertEpochRootError;

/// A proof of inclusion of a commitment at a position, carrying one row of
/// three sibling hashes for each of the tree's 24 levels.
#[derive(Clone, Debug)]
pub struct Proof {
    pub commitment: Commitment,
    pub position: u64,
    pub auth_path: Vec<[crate::hash::Hash; 3]>,
}

impl Proof {
    /// Whether this proof's path folds back up to the given root.
    pub open spec fn checks_against(self, root: Seq<u8>) -> bool {
        self.auth_path@.len() == 24 && fold_path(self.auth_path@, 24, self.position as int, self.commitment@)
            == root
    }

    /// The commitment whose inclusion is claimed.
    pub fn commitment(&self) -> (r: Commitment)
        ensures
            r == self.commitment,
    {
        self.commitment
    }

    /// The position of the claimed leaf.
    pub fn position(&self) -> (r: Position)
        ensures
            position_value(r) == self.position as int % 0x1000000000000,
    {
        Position::from_u64(self.position)
    }

    /// The sibling rows, from the top level down.
    pub fn auth_path(&self) -> (r: &Vec<[crate::hash::Hash; 3]>)
        ensures
            r == &self.auth_path,
    {
        &self.auth_path
    }

    /// Verify the proof against a claimed root: recompute the root by
    /// folding the path upward from the leaf and compare.
    pub fn verify(&self, root: &Root) -> (r: Result<(), crate::path::VerifyError>)
        ensures
            r is Ok <==> self.checks_against(root.0@),
    {
        if self.auth_path.len() != 24 {
            return Result::Err(crate::path::VerifyError);
        }
        let leaf = crate::hash::Hash::of(self.commitment);
        let computed = crate::path::fold_rows(&self.auth_path, 24, self.position, &leaf);
        if computed.value_eq(&root.0) {
            Result::Ok(())
        } else {
            Result::Err(crate::path::VerifyError)
        }
    }
}

/// The tree itself: three nested tiers of 65,536 slots each, witnessing up
/// to 2^48 commitments.
pub struct Eternity {
    state: Accum,
}

impl Eternity {
    /// The facade's invariant, established by `new` and preserved by every
    /// operation.
    pub closed spec fn well_formed(&self) -> bool {
        wf_accum(self.state) && self.state.tier.base == 16
    }

    /// The 48-bit position at which the next commitment lands.
    pub closed spec fn spec_position(&self) -> int {
        self.state.position as int
    }

    /// The commitment kept at an offset, if any.
    pub closed spec fn kept_at(&self, off: int) -> Option<Seq<u8>> {
        kept_tier(self.state.tier, off)
    }

    /// The position the index records for a commitment.
    pub closed spec fn position_of_spec(&self, c: Seq<u8>) -> Option<u64> {
        lookup(self.state.index@, c)
    }

    /// Whether a commitment is currently witnessed.
    pub open spec fn contains_spec(&self, c: Seq<u8>) -> bool {
        self.position_of_spec(c) is Some
    }

    /// The root hash, as a byte string.
    pub closed spec fn root_spec(&self) -> Seq<u8> {
        hash_tier(self.state.tier)
    }

    /// How many commitments are witnessed.
    pub closed spec fn count_spec(&self) -> int {
        self.state.index@.len() as int
    }

    /// Why the next `insert` would be refused, if it would be.
    pub closed spec fn insert_error_spec(&self) -> Option<InsertError> {
        match tier_refusal(self.state.tier) {
            Option::None => Option::None,
            Option::Some(k) => Option::Some(refusal_insert_error(k)),
        }
    }

    /// Whether the tree has never been inserted into.
    pub closed spec fn is_empty_spec(&self) -> bool {
        self.state.tier.inner matches Inner::Active(Option::None)
    }

    /// A new, empty tree.
    pub fn new() -> (r: Eternity)
        ensures
            r.well_formed(),
            r.spec_position() == 0,
            r.count_spec() == 0,
            r.root_spec() == blank_hash(),
            r.is_empty_spec(),
            r.insert_error_spec() is None,
            forall|off: int| #[trigger] r.kept_at(off) is None,
            forall|c: Seq<u8>| !#[trigger] r.contains_spec(c),
    {
        Eternity { state: Accum::new(16) }
    }

    /// The root hash of the whole 24-level tree.
    pub fn root(&self) -> (r: Root)
        requires
            self.well_formed(),
        ensures
            r.0@ == self.root_spec(),
    {
        Root(self.state.root_hash())
    }

    /// Append a commitment to the current block of the current epoch,
    /// keeping a witness for it or not; on success, the position at which
    /// it was inserted. An insertion that replaces an older witness for
    /// the same commitment forgets the older leaf.
    pub fn insert(&mut self, witness: Witness, commitment: Commitment) -> (r: Result<
        Position,
        InsertError,
    >)
        requires
            old(self).well_formed(),
        ensures
            final(self).well_formed(),
            match r {
                Result::Ok(pos) => {
                    &&& old(self).insert_error_spec() is None
                    &&& position_value(pos) == old(self).spec_position()
                    &&& final(self).spec_position() == old(self).spec_position() + 1
                    &&& (final(self).spec_position() % 0x10000 != 0
                        ==> final(self).insert_error_spec() is None)
                    &&& (final(self).spec_position() % 0x10000 == 0
                        ==> final(self).insert_error_spec() == Option::Some(
                        InsertError::BlockFull,
                    ))
                    &&& final(self).newest_leaf_hash_spec() == Option::Some(commitment@)
                    &&& (witness == Witness::Keep ==> {
                        &&& final(self).position_of_spec(commitment@) matches Option::Some(p)
                            && p as int == old(self).spec_position()
                        &&& (forall|d: Seq<u8>|
                            d != commitment@ ==> #[trigger] final(self).position_of_spec(d) == old(
                                self,
                            ).position_of_spec(d))
                        &&& final(self).count_spec() == old(self).count_spec() + (if old(
                            self,
                        ).contains_spec(commitment@) {
                            0int
                        } else {
                            1int
                        })
                        &&& forall|off: int| #[trigger]
                            final(self).kept_at(off) == (if off == old(self).spec_position() {
                                Option::Some(commitment@)
                            } else if (old(self).position_of_spec(commitment@) matches Option::Some(
                                q,
                            ) && off == q as int) {
                                Option::<Seq<u8>>::None
                            } else {
                                old(self).kept_at(off)
                            })
                    })
                    &&& (witness == Witness::Forget ==> {
                        &&& final(self).count_spec() == old(self).count_spec()
                        &&& (forall|d: Seq<u8>|
                            #[trigger] final(self).position_of_spec(d) == old(
                                self,
                            ).position_of_spec(d))
                        &&& forall|off: int| #[trigger]
                            final(self).kept_at(off) == old(self).kept_at(off)
                    })
                },
                Result::Err(e) => {
                    &&& old(self).insert_error_spec() == Option::Some(e)
                    &&& final(self).spec_position() == old(self).spec_position()
                    &&& final(self).root_spec() == old(self).root_spec()
                    &&& final(self).count_spec() == old(self).count_spec()
                    &&& (forall|d: Seq<u8>|
                        #[trigger] final(self).position_of_spec(d) == old(self).position_of_spec(
                            d,
                        ))
                    &&& forall|off: int| #[trigger]
                        final(self).kept_at(off) == old(self).kept_at(off)
                },
            },
    {
        let keep = matches!(witness, Witness::Keep);
        let r = self.state.insert_note(keep, commitment);
        match r {
            Result::Ok(p) => {
                proof {
                    crate::tree::lemma_next_off_tier_nonneg(old(self).state.tier);
                    crate::tree::lemma_next_off_tier_le_span(self.state.tier);
                    assert(pow4(24) == 0x1000000000000) by {
                        reveal_with_fuel(pow4, 25);
                    }
                    assert(pow4(8) == 0x10000) by {
                        reveal_with_fuel(pow4, 9);
                    }
                    lemma_split48(p as int);
                    vstd::arithmetic::div_mod::lemma_small_mod(p as nat, 0x1000000000000nat);
                }
                Result::Ok(Position::from_u64(p))
            },
            Result::Err(k) => Result::Err(refusal_to_insert_error(k)),
        }
    }

    /// A proof of inclusion for a witnessed commitment, or `None` when it
    /// is not witnessed. The proof it returns checks against the current
    /// root.
    pub fn witness(&self, commitment: Commitment) -> (r: Option<Proof>)
        requires
            self.well_formed(),
        ensures
            r is Some <==> self.contains_spec(commitment@),
            match r {
                Option::Some(pf) => {
                    &&& pf.checks_against(self.root_spec())
                    &&& pf.commitment == commitment
                    &&& self.position_of_spec(commitment@) == Option::Some(pf.position)
                },
                Option::None => true,
            },
    {
        let w = self.state.witness_note(&commitment);
        match w {
            Option::Some((p, rows)) => Option::Some(
                Proof { commitment, position: p, auth_path: rows },
            ),
            Option::None => Option::None,
        }
    }

    /// Witnessing a commitment the tree holds yields a proof that verifies
    /// against the tree's own root.
    pub fn witnessed_proof_verifies(&self, commitment: Commitment) -> (r: bool)
        requires
            self.well_formed(),
        ensures
            self.contains_spec(commitment@) ==> r,
    {
        match self.witness(commitment) {
            Option::Some(pf) => pf.verify(&self.root()).is_ok(),
            Option::None => false,
        }
    }

    /// Forget the witness for a commitment. The root hash is unchanged,
    /// and forgetting a commitment that is not witnessed changes nothing,
    /// so a second forget of the same commitment is a no-op.
    pub fn forget(&mut self, commitment: Commitment) -> (r: bool)
        requires
            old(self).well_formed(),
        ensures
            final(self).well_formed(),
            r == old(self).contains_spec(commitment@),
            final(self).root_spec() == old(self).root_spec(),
            final(self).spec_position() == old(self).spec_position(),
            !r ==> *final(self) == *old(self),
            !final(self).contains_spec(commitment@),
            forall|d: Seq<u8>|
                d != commitment@ ==> #[trigger] final(self).position_of_spec(d) == old(
                    self,
                ).position_of_spec(d),
            final(self).count_spec() == old(self).count_spec() - (if old(self).contains_spec(
                commitment@,
            ) {
                1int
            } else {
                0int
            }),
            forall|off: int| #[trigger]
                final(self).kept_at(off) == (if (old(self).position_of_spec(commitment@)
                    matches Option::Some(q) && off == q as int) {
                    Option::<Seq<u8>>::None
                } else {
                    old(self).kept_at(off)
                }),
    {
        self.state.forget_note(&commitment)
    }

    /// The position recorded for a commitment, if it is witnessed.
    pub fn position_of(&self, commitment: Commitment) -> (r: Option<Position>)
        requires
            self.well_formed(),
        ensures
            r is Some <==> self.contains_spec(commitment@),
            match r {
                Option::Some(pos) => self.position_of_spec(commitment@) matches Option::Some(p)
                    && position_value(pos) == p as int,
                Option::None => true,
            },
    {
        let found = crate::index::find(&self.state.index, &commitment);
        match found {
            Option::Some(p) => {
                proof {
                    lemma_lookup_some(self.state.index@, commitment@);
                    crate::tree::lemma_next_off_tier_le_span(self.state.tier);
                    assert(pow4(24) == 0x1000000000000) by {
                        reveal_with_fuel(pow4, 25);
                    }
                    lemma_split48(p as int);
                    vstd::arithmetic::div_mod::lemma_small_mod(p as nat, 0x1000000000000nat);
                }
                Option::Some(Position::from_u64(p))
            },
            Option::None => Option::None,
        }
    }

    /// The position at which the next commitment would be inserted.
    pub fn position(&self) -> (r: Position)
        requires
            self.well_formed(),
        ensures
            position_value(r) == self.spec_position() % 0x1000000000000,
    {
        proof {
            crate::tree::lemma_next_off_tier_nonneg(self.state.tier);
        }
        Position::from_u64(self.state.position)
    }

    /// How many commitments are currently witnessed.
    pub fn witnessed_count(&self) -> (r: usize)
        requires
            self.well_formed(),
        ensures
            r as int == self.count_spec(),
    {
        self.state.index.len()
    }

    /// Whether the tree has never been inserted into.
    pub fn is_empty(&self) -> (r: bool)
        requires
            self.well_formed(),
        ensures
            r == self.is_empty_spec(),
    {
        matches!(&self.state.tier.inner, Inner::Active(Option::None))
    }

    /// Append a finished block all at once to the most recent epoch,
    /// making its witnesses available under the whole tree. An empty tree
    /// opens a fresh epoch to hold it.
    #[verifier::spinoff_prover]
    #[verifier::rlimit(100)]
    pub fn insert_block(&mut self, block: crate::block::Block) -> (r: Result<(), InsertBlockError>)
        requires
            old(self).well_formed(),
            block.well_formed(),
        ensures
            final(self).well_formed(),
            r is Ok <==> old(self).can_append_block_spec(),
            match r {
                Result::Ok(_) => {
                    &&& forall|c: Seq<u8>|
                        #[trigger] block.contains_spec(c) ==> final(self).contains_spec(c)
                    &&& forall|d: Seq<u8>|
                        #[trigger] old(self).contains_spec(d) ==> final(self).contains_spec(d)
                    &&& forall|d: Seq<u8>|
                        !#[trigger] block.contains_spec(d) ==> final(self).position_of_spec(d)
                            == old(self).position_of_spec(d)
                    &&& final(self).spec_position() == old(self).block_landing_spec()
                        + block.spec_position()
                    &&& old(self).spec_position() <= old(self).block_landing_spec() <= old(
                        self,
                    ).spec_position() + 0x10000
                    &&& old(self).block_landing_spec() % 0x10000 == 0
                    &&& forall|c: Seq<u8>|
                        #![trigger block.position_of_spec(c)]
                        block.position_of_spec(c) matches Option::Some(p)
                            ==> (final(self).position_of_spec(c) matches Option::Some(g)
                            && g as int == old(self).block_landing_spec() + p)
                    &&& forall|c: Seq<u8>|
                        #![trigger block.contains_spec(c), old(self).position_of_spec(c)]
                        block.contains_spec(c) ==> (old(self).position_of_spec(c)
                            matches Option::Some(q) ==> final(self).kept_at(q as int) is None)
                },
                Result::Err(e) => {
                    &&& final(self).root_spec() == old(self).root_spec()
                    &&& final(self).spec_position() >= old(self).spec_position()
                    &&& (forall|d: Seq<u8>|
                        #[trigger] final(self).position_of_spec(d) == old(self).position_of_spec(
                            d,
                        ))
                    &&& (e is Full <==> old(self).block_refusal_spec() == Option::Some(
                        Refuse::FullAt(16),
                    ))
                    &&& (e is EpochForgotten <==> old(self).block_refusal_spec() == Option::Some(
                        Refuse::ForgottenAt(8),
                    ))
                    &&& (!(e is EpochFull) ==> final(self).spec_position() == old(
                        self,
                    ).spec_position())
                    &&& (e is EpochFull ==> final(self).spec_position() == old(
                        self,
                    ).epoch_count_spec() * 0x100000000)
                    &&& (match e {
                        InsertBlockError::Full(back) => back_equiv(back, block),
                        InsertBlockError::EpochFull(back) => back_equiv(back, block),
                        InsertBlockError::EpochForgotten(back) => back_equiv(back, block),
                    })
                },
            },
    {
        proof {
            crate::block::lemma_block_wf(&block);
            crate::block::lemma_block_specs(&block);
        }
        let ghost gblock = block;
        let crate::accumulator::Accum { position: bpos, index: bindex, tier: btier } =
            block.into_state();
        let ghost gtier = btier;
        let ghost gindex = bindex@;
        let item = LeafItem::SubTier(Box::new(btier));
        let ghost gitem = item;
        let r = self.state.insert_sub_item(item);
        match r {
            Result::Ok(l) => {
                proof {
                    crate::tree::lemma_next_off_leaf_nonneg_helper(gitem, 8);
                    crate::epoch::lemma_merge_ready(
                        old(self).state,
                        self.state,
                        gitem,
                        gtier,
                        gindex,
                        l,
                    );
                }
                self.state.merge_entries(&bindex, l);
                proof {
                    assert(gblock.state.index@ == gindex);
                    assert(pow4(8) == 0x10000) by {
                        reveal_with_fuel(pow4, 9);
                    }
                    assert(l as int == old(self).block_landing_spec());
                    assert(self.spec_position() - gblock.spec_position() == l as int);
                    assert forall|d: Seq<u8>|
                        !#[trigger] gblock.contains_spec(d) implies self.position_of_spec(d)
                        == old(self).position_of_spec(d) by {
                        assert(lookup(gindex, d) is None);
                        lemma_lookup_none(gindex, d);
                    }
                    assert forall|c: Seq<u8>|
                        #![trigger gblock.contains_spec(c), old(self).position_of_spec(c)]
                        gblock.contains_spec(c) implies (old(self).position_of_spec(c)
                        matches Option::Some(q) ==> self.kept_at(q as int) is None) by {
                        if old(self).position_of_spec(c) is Some {
                            assert(lookup(gindex, c) is Some);
                            lemma_lookup_some(gindex, c);
                            let k = choose|k: int|
                                0 <= k < gindex.len() && gindex[k].commitment@ == c
                                    && #[trigger] gindex[k].position == lookup(gindex, c)->Some_0;
                        }
                    }
                    assert forall|c: Seq<u8>| #[trigger]
                        gblock.contains_spec(c) implies self.contains_spec(c) by {
                        assert(lookup(gindex, c) is Some);
                        lemma_lookup_some(gindex, c);
                        let k = choose|k: int|
                            0 <= k < gindex.len() && gindex[k].commitment@ == c
                                && #[trigger] gindex[k].position == lookup(gindex, c)->Some_0;
                    }
                    assert forall|c: Seq<u8>|
                        #![trigger gblock.position_of_spec(c)]
                        gblock.position_of_spec(c) is Some implies (self.position_of_spec(c)
                        is Some && self.position_of_spec(c)->Some_0 as int
                        == self.spec_position() - gblock.spec_position()
                        + gblock.position_of_spec(c)->Some_0 as int) by {
                        assert(lookup(gindex, c) is Some);
                        lemma_lookup_some(gindex, c);
                        let k = choose|k: int|
                            0 <= k < gindex.len() && gindex[k].commitment@ == c
                                && #[trigger] gindex[k].position == lookup(gindex, c)->Some_0;
                    }
                    assert forall|d: Seq<u8>| #[trigger]
                        old(self).contains_spec(d) implies self.contains_spec(d) by {
                        if exists|k: int|
                            0 <= k < gindex.len() && (#[trigger] gindex[k]).commitment@ == d {
                            let k = choose|k: int|
                                0 <= k < gindex.len() && (#[trigger] gindex[k]).commitment@ == d;
                        } else {
                            assert(forall|k: int|
                                0 <= k < gindex.len() ==> (#[trigger] gindex[k]).commitment@
                                    != d);
                        }
                    }
                }
                Result::Ok(())
            },
            Result::Err(pair) => {
                let (item2, k) = pair;
                proof {
                    lemma_refuse_kinds(old(self).state.tier, k);
                    assert(pow4(16) == 0x100000000) by {
                        reveal_with_fuel(pow4, 17);
                    }
                }
                let back = match item2 {
                    LeafItem::SubTier(tr) => crate::block::Block::from_state(
                        crate::accumulator::Accum { position: bpos, index: bindex, tier: *tr },
                    ),
                    LeafItem::Note(_) => {
                        proof {
                            assert(false);
                        }
                        crate::block::Block::new()
                    },
                    LeafItem::Stub(_) => {
                        proof {
                            assert(false);
                        }
                        crate::block::Block::new()
                    },
                };
                proof {
                    crate::block::lemma_block_specs(&back);
                    assert(back.state.tier == gtier);
                    assert(back_equiv(back, gblock));
                    assert(sub_refusal(old(self).state.tier) == Option::Some(k));
                    lemma_refuse_kinds(old(self).state.tier, k);
                }
                match k {
                    Refuse::FullAt(b) => if b == 16 {
                        Result::Err(InsertBlockError::Full(back))
                    } else {
                        Result::Err(InsertBlockError::EpochFull(back))
                    },
                    Refuse::ForgottenAt(_) => Result::Err(InsertBlockError::EpochForgotten(back)),
                }
            },
        }
    }

    /// Append the bare root of a block, without any of its witnesses.
    #[verifier::spinoff_prover]
    #[verifier::rlimit(100)]
    pub fn insert_block_root(&mut self, block_root: crate::block::Root) -> (r: Result<
        (),
        InsertBlockRootError,
    >)
        requires
            old(self).well_formed(),
        ensures
            final(self).well_formed(),
            final(self).spec_position() >= old(self).spec_position(),
            r is Ok <==> old(self).can_append_block_spec(),
            forall|d: Seq<u8>|
                #[trigger] final(self).position_of_spec(d) == old(self).position_of_spec(d),
            final(self).count_spec() == old(self).count_spec(),
            match r {
                Result::Ok(_) => {
                    &&& final(self).current_block_hash() == Option::Some(block_root.0@)
                    &&& final(self).spec_position() == old(self).block_landing_spec() + 0x10000
                    &&& old(self).spec_position() <= old(self).block_landing_spec() <= old(
                        self,
                    ).spec_position() + 0x10000
                    &&& final(self).spec_position() % 0x10000 == 0
                    &&& final(self).spec_position() > old(self).spec_position()
                },
                Result::Err(e) => {
                    &&& final(self).root_spec() == old(self).root_spec()
                    &&& (e is Full <==> old(self).block_refusal_spec() == Option::Some(
                        Refuse::FullAt(16),
                    ))
                    &&& (e is EpochForgotten <==> old(self).block_refusal_spec() == Option::Some(
                        Refuse::ForgottenAt(8),
                    ))
                    &&& (!(e is EpochFull) ==> final(self).spec_position() == old(
                        self,
                    ).spec_position())
                    &&& (e is EpochFull ==> final(self).spec_position() == old(
                        self,
                    ).epoch_count_spec() * 0x100000000)
                },
            },
    {
        let item = LeafItem::Stub(block_root.0);
        let ghost gitem = item;
        let r = self.state.insert_sub_item(item);
        proof {
            crate::tree::lemma_next_off_leaf_nonneg_helper(gitem, 8);
            assert(pow4(8) == 0x10000) by {
                reveal_with_fuel(pow4, 9);
            }
            assert(pow4(16) == 0x100000000) by {
                reveal_with_fuel(pow4, 17);
            }
            match &r {
                Result::Ok(l) => {
                    assert(next_off_leaf(gitem, 8) == pow4(8));
                    vstd::arithmetic::div_mod::lemma_mod_add_multiples_vanish(
                        *l as int,
                        pow4(8),
                    );
                    assert(self.state.position as int % pow4(8) == 0);
                    assert(*l as int == old(self).block_landing_spec());
                    assert(self.current_block_hash() == Option::Some(block_root.0@));
                },
                Result::Err(pair) => {
                    lemma_refuse_kinds(old(self).state.tier, pair.1);
                    assert(pow4(16) == 0x100000000) by {
                        reveal_with_fuel(pow4, 17);
                    }
                },
            }
        }
        match r {
            Result::Ok(_) => Result::Ok(()),
            Result::Err((_, k)) => match k {
                Refuse::FullAt(b) => if b == 16 {
                    Result::Err(InsertBlockRootError::Full)
                } else {
                    Result::Err(InsertBlockRootError::EpochFull)
                },
                Refuse::ForgottenAt(_) => Result::Err(InsertBlockRootError::EpochForgotten),
            },
        }
    }

    /// Append a finished epoch all at once, making its witnesses available
    /// under the whole tree.
    #[verifier::spinoff_prover]
    #[verifier::rlimit(100)]
    pub fn insert_epoch(&mut self, epoch: crate::epoch::Epoch) -> (r: Result<(), InsertEpochError>)
        requires
            old(self).well_formed(),
            epoch.well_formed(),
        ensures
            final(self).well_formed(),
            r is Ok <==> old(self).can_append_epoch_spec(),
            match r {
                Result::Ok(_) => {
                    &&& forall|c: Seq<u8>|
                        #[trigger] epoch.contains_spec(c) ==> final(self).contains_spec(c)
                    &&& forall|d: Seq<u8>|
                        #[trigger] old(self).contains_spec(d) ==> final(self).contains_spec(d)
                    &&& final(self).spec_position() >= old(self).spec_position()
                    &&& final(self).spec_position() == old(self).epoch_count_spec() * 0x100000000
                        + epoch.spec_position()
                    &&& final(self).epoch_count_spec() == old(self).epoch_count_spec() + 1
                    &&& forall|c: Seq<u8>|
                        #![trigger epoch.position_of_spec(c)]
                        epoch.position_of_spec(c) is Some ==> (final(self).position_of_spec(c)
                            is Some && final(self).position_of_spec(c)->Some_0 as int
                            == old(self).epoch_count_spec() * 0x100000000
                            + epoch.position_of_spec(c)->Some_0 as int)
                    &&& forall|d: Seq<u8>|
                        !#[trigger] epoch.contains_spec(d) ==> final(self).position_of_spec(d)
                            == old(self).position_of_spec(d)
                    &&& forall|c: Seq<u8>|
                        #![trigger epoch.contains_spec(c), old(self).position_of_spec(c)]
                        epoch.contains_spec(c) ==> (old(self).position_of_spec(c)
                            matches Option::Some(q) ==> final(self).kept_at(q as int) is None)
                },
                Result::Err(e) => {
                    &&& final(self).root_spec() == old(self).root_spec()
                    &&& final(self).spec_position() == 0x1000000000000
                    &&& (forall|d: Seq<u8>|
                        #[trigger] final(self).position_of_spec(d) == old(self).position_of_spec(
                            d,
                        ))
                    &&& epoch_back_equiv(e.0, epoch)
                },
            },
    {
        proof {
            crate::epoch::lemma_epoch_wf(&epoch);
            crate::epoch::lemma_epoch_specs(&epoch);
        }
        let ghost gepoch = epoch;
        let crate::accumulator::Accum { position: epos, index: eindex, tier: etier } =
            epoch.into_state();
        let ghost gtier = etier;
        let ghost gindex = eindex@;
        let item = LeafItem::SubTier(Box::new(etier));
        let ghost gitem = item;
        let r = self.state.insert_leaf(item);
        match r {
            Result::Ok(l) => {
                proof {
                    crate::tree::lemma_next_off_leaf_nonneg_helper(gitem, 16);
                    crate::epoch::lemma_merge_ready(
                        old(self).state,
                        self.state,
                        gitem,
                        gtier,
                        gindex,
                        l,
                    );
                }
                self.state.merge_entries(&eindex, l);
                proof {
                    assert(gepoch.state.index@ == gindex);
                    assert(pow4(16) == 0x100000000) by {
                        reveal_with_fuel(pow4, 17);
                    }
                    assert(l as int == old(self).epoch_count_spec() * 0x100000000);
                    assert forall|c: Seq<u8>| #[trigger]
                        gepoch.contains_spec(c) implies self.contains_spec(c) by {
                        assert(lookup(gindex, c) is Some);
                        lemma_lookup_some(gindex, c);
                        let k = choose|k: int|
                            0 <= k < gindex.len() && gindex[k].commitment@ == c
                                && #[trigger] gindex[k].position == lookup(gindex, c)->Some_0;
                    }
                    assert forall|c: Seq<u8>|
                        #![trigger gepoch.position_of_spec(c)]
                        gepoch.position_of_spec(c) is Some implies (self.position_of_spec(c)
                        is Some && self.position_of_spec(c)->Some_0 as int == old(
                        self,
                    ).epoch_count_spec() * 0x100000000 + gepoch.position_of_spec(
                        c,
                    )->Some_0 as int) by {
                        assert(lookup(gindex, c) is Some);
                        lemma_lookup_some(gindex, c);
                        let k = choose|k: int|
                            0 <= k < gindex.len() && gindex[k].commitment@ == c
                                && #[trigger] gindex[k].position == lookup(gindex, c)->Some_0;
                    }
                    assert forall|d: Seq<u8>| #[trigger]
                        old(self).contains_spec(d) implies self.contains_spec(d) by {
                        if exists|k: int|
                            0 <= k < gindex.len() && (#[trigger] gindex[k]).commitment@ == d {
                            let k = choose|k: int|
                                0 <= k < gindex.len() && (#[trigger] gindex[k]).commitment@ == d;
                        } else {
                            assert(forall|k: int|
                                0 <= k < gindex.len() ==> (#[trigger] gindex[k]).commitment@
                                    != d);
                        }
                    }
                    assert forall|d: Seq<u8>|
                        !#[trigger] gepoch.contains_spec(d) implies self.position_of_spec(d)
                        == old(self).position_of_spec(d) by {
                        assert(lookup(gindex, d) is None);
                        lemma_lookup_none(gindex, d);
                    }
                    assert forall|c: Seq<u8>|
                        #![trigger gepoch.contains_spec(c), old(self).position_of_spec(c)]
                        gepoch.contains_spec(c) implies (old(self).position_of_spec(c)
                        matches Option::Some(q) ==> self.kept_at(q as int) is None) by {
                        if old(self).position_of_spec(c) is Some {
                            assert(lookup(gindex, c) is Some);
                            lemma_lookup_some(gindex, c);
                            let k = choose|k: int|
                                0 <= k < gindex.len() && gindex[k].commitment@ == c
                                    && #[trigger] gindex[k].position == lookup(gindex, c)->Some_0;
                        }
                    }
                }
                Result::Ok(())
            },
            Result::Err(item2) => {
                let back = match item2 {
                    LeafItem::SubTier(tr) => crate::epoch::Epoch::from_state(
                        crate::accumulator::Accum { position: epos, index: eindex, tier: *tr },
                    ),
                    LeafItem::Note(_) => {
                        proof {
                            assert(false);
                        }
                        crate::epoch::Epoch::new()
                    },
                    LeafItem::Stub(_) => {
                        proof {
                            assert(false);
                        }
                        crate::epoch::Epoch::new()
                    },
                };
                proof {
                    crate::epoch::lemma_epoch_specs(&back);
                    assert(back.state.tier == gtier);
                    assert(epoch_back_equiv(back, gepoch));
                    assert(pow4(24) == 0x1000000000000) by {
                        reveal_with_fuel(pow4, 25);
                    }
                }
                Result::Err(InsertEpochError(back))
            },
        }
    }

    /// Append the bare root of an epoch, without any of its witnesses.
    #[verifier::spinoff_prover]
    #[verifier::rlimit(100)]
    pub fn insert_epoch_root(&mut self, epoch_root: crate::epoch::Root) -> (r: Result<
        (),
        InsertEpochRootError,
    >)
        requires
            old(self).well_formed(),
        ensures
            final(self).well_formed(),
            final(self).spec_position() >= old(self).spec_position(),
            r is Ok <==> old(self).can_append_epoch_spec(),
            forall|d: Seq<u8>|
                #[trigger] final(self).position_of_spec(d) == old(self).position_of_spec(d),
            final(self).count_spec() == old(self).count_spec(),
            match r {
                Result::Ok(_) => {
                    &&& final(self).current_epoch_hash() == Option::Some(epoch_root.0@)
                    &&& final(self).spec_position() == (old(self).epoch_count_spec() + 1)
                        * 0x100000000
                    &&& final(self).epoch_count_spec() == old(self).epoch_count_spec() + 1
                },
                Result::Err(_) => {
                    &&& final(self).root_spec() == old(self).root_spec()
                    &&& final(self).spec_position() == 0x1000000000000
                },
            },
    {
        let item = LeafItem::Stub(epoch_root.0);
        let ghost gitem = item;
        let r = self.state.insert_leaf(item);
        proof {
            crate::tree::lemma_next_off_leaf_nonneg_helper(gitem, 16);
            assert(pow4(16) == 0x100000000) by {
                reveal_with_fuel(pow4, 17);
            }
            assert(pow4(24) == 0x1000000000000) by {
                reveal_with_fuel(pow4, 25);
            }
            match &r {
                Result::Ok(l) => {
                    assert(next_off_leaf(gitem, 16) == pow4(16));
                    let ec = old(self).epoch_count_spec();
                    assert((ec + 1) * pow4(16) == ec * pow4(16) + pow4(16))
                        by (nonlinear_arith);
                    assert(self.current_epoch_hash() == Option::Some(epoch_root.0@));
                },
                Result::Err(_) => {},
            }
        }
        match r {
            Result::Ok(_) => Result::Ok(()),
            Result::Err(_) => Result::Err(InsertEpochRootError),
        }
    }

    /// The root hash of the most recent epoch: that of its own tree if it
    /// is held here, or the bare root it was inserted as. `None` while the
    /// tree is empty.
    pub closed spec fn current_epoch_hash(&self) -> Option<Seq<u8>> {
        match self.state.tier.inner {
            Inner::Active(o) => match o {
                Option::Some(n) => match focus_item(*n) {
                    LeafItem::SubTier(t) => Option::Some(hash_tier(*t)),
                    LeafItem::Stub(h) => Option::Some(h@),
                    LeafItem::Note(_) => Option::None,
                },
                Option::None => Option::None,
            },
            Inner::Complete(_) => Option::None,
            Inner::Hash(_) => Option::None,
        }
    }

    /// The root hash of the most recent block of the most recent epoch,
    /// when both are held here or were root-inserted at block granularity.
    pub closed spec fn current_block_hash(&self) -> Option<Seq<u8>> {
        match self.state.tier.inner {
            Inner::Active(o) => match o {
                Option::Some(n) => match focus_item(*n) {
                    LeafItem::SubTier(t) => match t.inner {
                        Inner::Active(o2) => match o2 {
                            Option::Some(m) => match focus_item(*m) {
                                LeafItem::SubTier(bt) => Option::Some(hash_tier(*bt)),
                                LeafItem::Stub(h) => Option::Some(h@),
                                LeafItem::Note(_) => Option::None,
                            },
                            Option::None => Option::None,
                        },
                        Inner::Complete(_) => Option::None,
                        Inner::Hash(_) => Option::None,
                    },
                    LeafItem::Stub(_) => Option::None,
                    LeafItem::Note(_) => Option::None,
                },
                Option::None => Option::None,
            },
            Inner::Complete(_) => Option::None,
            Inner::Hash(_) => Option::None,
        }
    }

    /// The root of the most recent epoch, or `None` while the tree is
    /// empty.
    pub fn current_epoch_root(&self) -> (r: Option<crate::epoch::Root>)
        requires
            self.well_formed(),
        ensures
            match r {
                Option::Some(root) => self.current_epoch_hash() == Option::Some(root.0@),
                Option::None => self.current_epoch_hash() is None,
            },
    {
        match &self.state.tier.inner {
            Inner::Active(o) => match o {
                Option::Some(n) => {
                    let ghost h16 = 16int;
                    let item = active_focus_ref(n);
                    proof {
                        lemma_focus_item_wf(**n, 24, 16);
                    }
                    match item {
                        LeafItem::SubTier(t) => Option::Some(
                            crate::epoch::Root(crate::tree::tier_hash(t)),
                        ),
                        LeafItem::Stub(s) => Option::Some(crate::epoch::Root(*s)),
                        LeafItem::Note(_) => {
                            proof {
                                assert(false);
                            }
                            Option::None
                        },
                    }
                },
                Option::None => Option::None,
            },
            Inner::Complete(_) => Option::None,
            Inner::Hash(_) => Option::None,
        }
    }

    /// Whether a block (or block root) can be appended: the tree and its
    /// current epoch still have room, and the epoch is not a bare root.
    pub closed spec fn can_append_block_spec(&self) -> bool {
        sub_refusal(self.state.tier) is None
    }

    /// What refused the last block append: the tree itself, the focused
    /// epoch being full, or the focused epoch being a bare root.
    pub closed spec fn block_refusal_spec(&self) -> Option<Refuse> {
        sub_refusal(self.state.tier)
    }

    /// Whether an epoch (or epoch root) can be appended: the tree still
    /// has room for another epoch.
    pub closed spec fn can_append_epoch_spec(&self) -> bool {
        crate::tree::leafslots_tier(self.state.tier) < pow4(8)
    }

    /// How many epoch slots of the tree are consumed.
    pub closed spec fn epoch_count_spec(&self) -> int {
        crate::tree::leafslots_tier(self.state.tier)
    }

    /// The commitment offset at which the next appended block's span would
    /// begin: the start of the focused epoch's next free block slot.
    pub closed spec fn block_landing_spec(&self) -> int {
        crate::tree::sub_landing(self.state.tier)
    }

    /// The hash contributed by the most recently appended leaf — the slot
    /// just left of the position. A kept commitment and a forgotten one
    /// contribute the same value: the commitment's own hash, so the root
    /// never depends on the witness mode.
    pub closed spec fn newest_leaf_hash_spec(&self) -> Option<Seq<u8>> {
        crate::tree::newest_leaf_hash(self.state.tier)
    }

    /// The root of the most recent block of the most recent epoch, or
    /// `None` while the tree is empty or the most recent epoch was
    /// inserted as a bare root.
    pub fn current_block_root(&self) -> (r: Option<crate::block::Root>)
        requires
            self.well_formed(),
        ensures
            match r {
                Option::Some(root) => self.current_block_hash() == Option::Some(root.0@),
                Option::None => self.current_block_hash() is None,
            },
    {
        match &self.state.tier.inner {
            Inner::Active(o) => match o {
                Option::Some(n) => {
                    let item = active_focus_ref(n);
                    proof {
                        lemma_focus_item_wf(**n, 24, 16);
                    }
                    match item {
                        LeafItem::SubTier(t) => match &t.inner {
                            Inner::Active(o2) => match o2 {
                                Option::Some(m) => {
                                    let item2 = active_focus_ref(m);
                                    proof {
                                        lemma_focus_item_wf(**m, 16, 8);
                                    }
                                    match item2 {
                                        LeafItem::SubTier(bt) => Option::Some(
                                            crate::block::Root(crate::tree::tier_hash(bt)),
                                        ),
                                        LeafItem::Stub(s) => Option::Some(crate::block::Root(*s)),
                                        LeafItem::Note(_) => Option::None,
                                    }
                                },
                                Option::None => Option::None,
                            },
                            Inner::Complete(_) => Option::None,
                            Inner::Hash(_) => Option::None,
                        },
                        LeafItem::Stub(_) => Option::None,
                        LeafItem::Note(_) => Option::None,
                    }
                },
                Option::None => Option::None,
            },
            Inner::Complete(_) => Option::None,
            Inner::Hash(_) => Option::None,
        }
    }
}

/// A block handed back by a refused insertion is equivalent to the one
/// given: same root, same position, same index.
pub open spec fn back_equiv(back: crate::block::Block, given: crate::block::Block) -> bool {
    &&& back.root_spec() == given.root_spec()
    &&& back.spec_position() == given.spec_position()
    &&& forall|c: Seq<u8>| #[trigger] back.position_of_spec(c) == given.position_of_spec(c)
}

/// An epoch handed back by a refused insertion is equivalent to the one
/// given: same root, same position, same index.
pub open spec fn epoch_back_equiv(back: crate::epoch::Epoch, given: crate::epoch::Epoch) -> bool {
    &&& back.root_spec() == given.root_spec()
    &&& back.spec_position() == given.spec_position()
    &&& forall|c: Seq<u8>| #[trigger] back.position_of_spec(c) == given.position_of_spec(c)
}

/// The refusals a sub-tier insertion can meet at the outermost tier: the
/// tree itself full, the focused epoch full, or the focused epoch a bare
/// root.
pub(crate) proof fn lemma_refuse_kinds(t: crate::tree::Tier, k: Refuse)
    requires
        crate::tree::wf_tier(t),
        t.base == 16,
        sub_refusal(t) == Option::Some(k),
    ensures
        k == Refuse::FullAt(16u8) || k == Refuse::FullAt(8u8) || k == Refuse::ForgottenAt(8u8),
{
    match t.inner {
        Inner::Active(o) => match o {
            Option::None => {},
            Option::Some(n) => {
                lemma_sub_spine_refusal_kinds(*n, 24, 16);
            },
        },
        Inner::Complete(_) => {},
        Inner::Hash(_) => {},
    }
}

pub(crate) proof fn lemma_sub_spine_refusal_kinds(n: ActiveNode, h: int, base: int)
    requires
        crate::tree::wf_active(n, h, base),
        base == 16,
        base <= h <= base + 8,
        crate::tree::sub_spine_refusal(n, base) is Some,
    ensures
        crate::tree::sub_spine_refusal(n, base) == Option::Some(Refuse::FullAt(8u8))
            || crate::tree::sub_spine_refusal(n, base) == Option::Some(Refuse::ForgottenAt(8u8)),
    decreases n,
{
    match n {
        ActiveNode::Leaf { item, .. } => {
            assert(wf_leaf_item(item, h));
            match item {
                LeafItem::SubTier(t) => {
                    assert(t.base == 8);
                },
                LeafItem::Stub(_) => {},
                LeafItem::Note(_) => {},
            }
        },
        ActiveNode::Internal { focus, .. } => {
            lemma_sub_spine_refusal_kinds(*focus, h - 1, base);
        },
    }
}

/// The focused leaf item of a well-formed spine at the tier's leaf height
/// is itself well formed.
pub proof fn lemma_focus_item_wf(n: ActiveNode, h: int, base: int)
    requires
        crate::tree::wf_active(n, h, base),
        base <= h <= base + 8,
    ensures
        wf_leaf_item(focus_item(n), base),
    decreases n,
{
    match n {
        ActiveNode::Leaf { item, .. } => {
            assert(wf_leaf_item(item, h));
        },
        ActiveNode::Internal { focus, .. } => {
            lemma_focus_item_wf(*focus, h - 1, base);
        },
    }
}


/// How a refusal at each tier surfaces as an insertion error.
pub open spec fn refusal_insert_error(k: Refuse) -> InsertError {
    match k {
        Refuse::FullAt(b) => if b == 16 {
            InsertError::Full
        } else if b == 8 {
            InsertError::EpochFull
        } else {
            InsertError::BlockFull
        },
        Refuse::ForgottenAt(b) => if b == 8 {
            InsertError::EpochForgotten
        } else {
            InsertError::BlockForgotten
        },
    }
}

fn refusal_to_insert_error(k: Refuse) -> (r: InsertError)
    ensures
        r == refusal_insert_error(k),
{
    match k {
        Refuse::FullAt(b) => if b == 16 {
            InsertError::Full
        } else if b == 8 {
            InsertError::EpochFull
        } else {
            InsertError::BlockFull
        },
        Refuse::ForgottenAt(b) => if b == 8 {
            InsertError::EpochForgotten
        } else {
            InsertError::BlockForgotten
        },
    }
}

/// The number of witnessed commitments never exceeds the position: each
/// witness sits at its own slot strictly left of the frontier.
pub proof fn lemma_witnessed_count_bounded(t: Eternity)
    requires
        t.well_formed(),
    ensures
        0 <= t.count_spec() <= t.spec_position(),
{
    let entries = t.state.index@;
    let n = t.state.position as int;
    let positions = Seq::new(entries.len(), |i: int| entries[i].position as int);
    assert(positions.no_duplicates()) by {
        assert forall|i: int, j: int|
            0 <= i < positions.len() && 0 <= j < positions.len() && i != j implies positions[i]
            != positions[j] by {
            assert(entries[i].position != entries[j].position);
        }
    }
    positions.unique_seq_to_set();
    let pset = positions.to_set();
    assert(pset.len() == positions.len());
    assert(pset.subset_of(vstd::set_lib::set_int_range(0, n))) by {
        assert forall|p: int| pset.contains(p) implies vstd::set_lib::set_int_range(
            0,
            n,
        ).contains(p) by {
            let i = choose|i: int| 0 <= i < positions.len() && positions[i] == p;
            assert(entries[i].position < t.state.position);
        }
    }
    vstd::set_lib::lemma_int_range(0, n);
    vstd::set_lib::lemma_len_subset(pset, vstd::set_lib::set_int_range(0, n));
}

} // verus!
