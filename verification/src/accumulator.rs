//! The state every tier facade owns: the tier itself, the position of the
//! next insertion, and the index from witnessed commitments to positions.
//! A block, an epoch and a whole tree all share this shape; they differ
//! only in their base height and in how they dress up errors.

use vstd::prelude::*;

use crate::hash::Commitment;
use crate::index::{entries_distinct, find, lemma_entry_lookup, lemma_lookup_some, lookup, remove_entry, upsert, Entry};
use crate::tree::{focus_item, hash_tier, kept_leaf_item, kept_tier, leafslots_tier, lemma_kept_tier_bound, lemma_next_off_tier_le_span, lemma_pow4_mono, lemma_pow4_pos, next_off_leaf, next_off_tier, pow4, sub_refusal, tier_forget, tier_hash, tier_insert_commitment, tier_insert_sub, tier_next_off, tier_refusal, wf_leaf_item, wf_tier, witness_tier, Inner, LeafItem, Refuse, Tier};

verus! {

/// A tier with its insertion position and its index of witnesses.
pub struct Accum {
    pub position: u64,
    pub index: Vec<Entry>,
    pub tier: Tier,
}

/// The facade invariant: the position is the tier's frontier offset, the
/// index holds distinct commitments at distinct positions, and every entry
/// points at a leaf that keeps exactly its commitment, left of the
/// frontier.
pub open spec fn wf_accum(a: Accum) -> bool {
    &&& wf_tier(a.tier)
    &&& a.position as int == next_off_tier(a.tier)
    &&& entries_distinct(a.index@)
    &&& forall|i: int|
        0 <= i < a.index@.len() ==> kept_tier(
            a.tier,
            (#[trigger] a.index@[i]).position as int,
        ) == Option::Some(a.index@[i].commitment@) && a.index@[i].position < a.position
}

impl Accum {
    /// A fresh, empty accumulator for a tier with the given base.
    pub fn new(base: u8) -> (r: Accum)
        requires
            base == 0 || base == 8 || base == 16,
        ensures
            wf_accum(r),
            r.tier.base == base,
            r.position == 0,
            r.index@.len() == 0,
            hash_tier(r.tier) == crate::hash::blank_hash(),
            r.tier.inner matches Inner::Active(Option::None),
            forall|off: int| #[trigger] kept_tier(r.tier, off) is None,
            forall|c: Seq<u8>| #[trigger] lookup(r.index@, c) is None,
    {
        let tier = Tier { base, len: 0, witnessed: 0, inner: Inner::Active(Option::None) };
        Accum { position: 0, index: Vec::new(), tier }
    }

    /// The root hash.
    pub fn root_hash(&self) -> (r: crate::hash::Hash)
        requires
            wf_accum(*self),
        ensures
            r@ == hash_tier(self.tier),
    {
        tier_hash(&self.tier)
    }

    /// Append one commitment, kept as a witness or reduced to its bare
    /// hash, at the current position.
    pub fn insert_note(&mut self, keep: bool, c: Commitment) -> (r: Result<u64, Refuse>)
        requires
            wf_accum(*old(self)),
        ensures
            wf_accum(*final(self)),
            final(self).tier.base == old(self).tier.base,
            match r {
                Result::Ok(p) => {
                    &&& tier_refusal(old(self).tier) is None
                    &&& p == old(self).position
                    &&& final(self).position == old(self).position + 1
                    &&& (final(self).position as int % pow4(8) != 0 ==> tier_refusal(
                        final(self).tier,
                    ) is None)
                    &&& (final(self).position as int % pow4(8) == 0 ==> tier_refusal(
                        final(self).tier,
                    ) == Option::Some(Refuse::FullAt(0)))
                    &&& crate::tree::newest_leaf_hash(final(self).tier) == Option::Some(c@)
                    &&& (keep ==> {
                        &&& lookup(final(self).index@, c@) == Option::Some(p)
                        &&& (forall|d: Seq<u8>|
                            d != c@ ==> #[trigger] lookup(final(self).index@, d) == lookup(
                                old(self).index@,
                                d,
                            ))
                        &&& final(self).index@.len() == old(self).index@.len() + (if lookup(
                            old(self).index@,
                            c@,
                        ) is Some {
                            0int
                        } else {
                            1int
                        })
                        &&& forall|off: int| #[trigger]
                            kept_tier(final(self).tier, off) == (if off == p as int {
                                Option::Some(c@)
                            } else if (lookup(old(self).index@, c@) matches Option::Some(q) && off
                                == q as int) {
                                Option::<Seq<u8>>::None
                            } else {
                                kept_tier(old(self).tier, off)
                            })
                    })
                    &&& (!keep ==> {
                        &&& final(self).index@ == old(self).index@
                        &&& forall|off: int| #[trigger]
                            kept_tier(final(self).tier, off) == kept_tier(old(self).tier, off)
                    })
                },
                Result::Err(k) => {
                    &&& tier_refusal(old(self).tier) == Option::Some(k)
                    &&& final(self).position == old(self).position
                    &&& final(self).index@ == old(self).index@
                    &&& hash_tier(final(self).tier) == hash_tier(old(self).tier)
                    &&& forall|off: int| #[trigger]
                        kept_tier(final(self).tier, off) == kept_tier(old(self).tier, off)
                },
            },
    {
        let ghost old_self = *old(self);
        let item = if keep {
            LeafItem::Note(c)
        } else {
            LeafItem::Stub(crate::hash::Hash::of(c))
        };
        let ghost spec_item = item;
        let r = tier_insert_commitment(&mut self.tier, item);
        match r {
            Result::Ok(_) => {
                let p = self.position;
                proof {
                    assert(crate::tree::hash_leaf_item(spec_item) == c@);
                    assert(crate::tree::item_leaf_hash(spec_item) == Option::Some(c@));
                    lemma_next_off_tier_le_span(old_self.tier);
                    assert(pow4(old_self.tier.base + 8) <= pow4(24)) by {
                        lemma_pow4_mono(old_self.tier.base + 8, 24);
                    }
                    assert(pow4(24) == 0x1000000000000) by {
                        reveal_with_fuel(pow4, 25);
                    }
                }
                self.position = self.position + 1;
                if keep {
                    proof {
                        assert(forall|i: int|
                            0 <= i < old_self.index@.len() ==> (#[trigger] old_self.index@[i]).position
                                != p);
                    }
                    let replaced = upsert(&mut self.index, c, p);
                    match replaced {
                        Option::Some(q) => {
                            proof {
                                lemma_lookup_some(old_self.index@, c@);
                                lemma_next_off_tier_le_span(old_self.tier);
                                lemma_pow4_mono(old_self.tier.base + 8, 24);
                            }
                            let _ = tier_forget(&mut self.tier, q);
                            proof {
                                assert forall|i: int| 0 <= i < self.index@.len() implies kept_tier(
                                    self.tier,
                                    (#[trigger] self.index@[i]).position as int,
                                ) == Option::Some(self.index@[i].commitment@)
                                    && self.index@[i].position < self.position by {
                                    let e = self.index@[i];
                                    if e.commitment@ == c@ {
                                        lemma_entry_lookup(self.index@, i);
                                        assert(e.position == p);
                                        assert(p != q);
                                    } else {
                                        let j = choose|j: int|
                                            0 <= j < old_self.index@.len()
                                                && #[trigger] old_self.index@[j] == e;
                                        assert(kept_tier(old_self.tier, e.position as int)
                                            == Option::Some(e.commitment@));
                                        assert(e.position != q) by {
                                            if e.position == q {
                                                let jq = choose|jq: int|
                                                    0 <= jq < old_self.index@.len()
                                                        && old_self.index@[jq].commitment@ == c@
                                                        && #[trigger] old_self.index@[jq].position
                                                        == q;
                                                assert(jq != j);
                                            }
                                        }
                                    }
                                }
                            }
                        },
                        Option::None => {
                            proof {
                                assert forall|i: int| 0 <= i < self.index@.len() implies kept_tier(
                                    self.tier,
                                    (#[trigger] self.index@[i]).position as int,
                                ) == Option::Some(self.index@[i].commitment@)
                                    && self.index@[i].position < self.position by {
                                    let e = self.index@[i];
                                    if e.commitment@ == c@ {
                                        lemma_entry_lookup(self.index@, i);
                                        assert(e.position == p);
                                    } else {
                                        let j = choose|j: int|
                                            0 <= j < old_self.index@.len()
                                                && #[trigger] old_self.index@[j] == e;
                                    }
                                }
                            }
                        },
                    }
                } else {
                    proof {
                        assert forall|i: int| 0 <= i < self.index@.len() implies kept_tier(
                            self.tier,
                            (#[trigger] self.index@[i]).position as int,
                        ) == Option::Some(self.index@[i].commitment@) && self.index@[i].position
                            < self.position by {
                            assert(kept_leaf_item(spec_item, 0) is None);
                        }
                        assert forall|off: int| #[trigger]
                            kept_tier(self.tier, off) == kept_tier(old_self.tier, off) by {
                            if off == p as int {
                                if kept_tier(old_self.tier, off) is Some {
                                    lemma_kept_tier_bound(old_self.tier, off);
                                    assert(false);
                                }
                            }
                        }
                    }
                }
                Result::Ok(p)
            },
            Result::Err(k) => Result::Err(k),
        }
    }

    /// Forget the witness for a commitment; the root hash is unchanged.
    pub fn forget_note(&mut self, c: &Commitment) -> (r: bool)
        requires
            wf_accum(*old(self)),
        ensures
            wf_accum(*final(self)),
            final(self).tier.base == old(self).tier.base,
            r == (lookup(old(self).index@, c@) is Some),
            hash_tier(final(self).tier) == hash_tier(old(self).tier),
            final(self).position == old(self).position,
            !r ==> *final(self) == *old(self),
            r ==> {
                &&& lookup(final(self).index@, c@) is None
                &&& (forall|d: Seq<u8>|
                    d != c@ ==> #[trigger] lookup(final(self).index@, d) == lookup(
                        old(self).index@,
                        d,
                    ))
                &&& final(self).index@.len() == old(self).index@.len() - 1
                &&& forall|off: int| #[trigger]
                    kept_tier(final(self).tier, off) == (if off == lookup(
                        old(self).index@,
                        c@,
                    )->Some_0 as int {
                        Option::<Seq<u8>>::None
                    } else {
                        kept_tier(old(self).tier, off)
                    })
            },
    {
        let ghost old_self = *old(self);
        let found = find(&self.index, c);
        match found {
            Option::Some(q) => {
                proof {
                    lemma_lookup_some(old_self.index@, c@);
                    lemma_next_off_tier_le_span(old_self.tier);
                    lemma_pow4_mono(old_self.tier.base + 8, 24);
                }
                let _ = tier_forget(&mut self.tier, q);
                let _ = remove_entry(&mut self.index, c);
                proof {
                    assert forall|i: int| 0 <= i < self.index@.len() implies kept_tier(
                        self.tier,
                        (#[trigger] self.index@[i]).position as int,
                    ) == Option::Some(self.index@[i].commitment@) && self.index@[i].position
                        < self.position by {
                        let e = self.index@[i];
                        if e.commitment@ == c@ {
                            lemma_entry_lookup(self.index@, i);
                            assert(false);
                        } else {
                            let j = choose|j: int|
                                0 <= j < old_self.index@.len() && #[trigger] old_self.index@[j]
                                    == e;
                            assert(e.position != q) by {
                                if e.position == q {
                                    let jq = choose|jq: int|
                                        0 <= jq < old_self.index@.len()
                                            && old_self.index@[jq].commitment@ == c@
                                            && #[trigger] old_self.index@[jq].position == q;
                                    assert(jq != j);
                                    assert(false);
                                }
                            }
                        }
                    }
                }
                true
            },
            Option::None => false,
        }
    }

    /// The authentication path for a witnessed commitment: its position and
    /// one row of three sibling hashes per level, from the top down.
    pub fn witness_note(&self, c: &Commitment) -> (r: Option<
        (u64, Vec<[crate::hash::Hash; 3]>),
    >)
        requires
            wf_accum(*self),
        ensures
            match r {
                Option::Some(pr) => {
                    &&& lookup(self.index@, c@) == Option::Some(pr.0)
                    &&& pr.1@.len() == self.tier.base + 8
                    &&& crate::path::fold_path(pr.1@, self.tier.base + 8, pr.0 as int, c@)
                        == hash_tier(self.tier)
                },
                Option::None => lookup(self.index@, c@) is None,
            },
    {
        let found = find(&self.index, c);
        match found {
            Option::Some(p) => {
                proof {
                    lemma_lookup_some(self.index@, c@);
                    lemma_next_off_tier_le_span(self.tier);
                }
                let w = witness_tier(&self.tier, p);
                match w {
                    Option::Some((rows, _leaf)) => Option::Some((p, rows)),
                    Option::None => {
                        proof {
                            assert(false);
                        }
                        Option::None
                    },
                }
            },
            Option::None => Option::None,
        }
    }

    /// Append a whole sub-tier (or its bare root) as the next leaf of the
    /// tier focused one nesting level down. No index entries are added;
    /// the caller merges the sub-tier's own index afterwards.
    pub fn insert_sub_item(&mut self, item: LeafItem) -> (r: Result<u64, (LeafItem, Refuse)>)
        requires
            wf_accum(*old(self)),
            old(self).tier.base == 8 || old(self).tier.base == 16,
            wf_leaf_item(item, old(self).tier.base - 8),
        ensures
            wf_accum(*final(self)),
            final(self).tier.base == old(self).tier.base,
            final(self).index@ == old(self).index@,
            match r {
                Result::Ok(l) => {
                    &&& sub_refusal(old(self).tier) is None
                    &&& old(self).position <= l
                    &&& l as int == crate::tree::sub_landing(old(self).tier)
                    &&& l as int <= old(self).position as int + pow4(old(self).tier.base - 8)
                    &&& l as int % pow4(old(self).tier.base - 8) == 0
                    &&& l as int + pow4(old(self).tier.base - 8) <= pow4(old(self).tier.base + 8)
                    &&& final(self).position as int == l as int + next_off_leaf(
                        item,
                        old(self).tier.base - 8,
                    )
                    &&& forall|off: int| #[trigger]
                        kept_tier(final(self).tier, off) == (if off < l as int {
                            kept_tier(old(self).tier, off)
                        } else {
                            kept_leaf_item(item, off - l as int)
                        })
                    &&& final(self).tier.inner matches Inner::Active(Option::Some(n)) && focus_item(
                        *n,
                    ) matches LeafItem::SubTier(et) && et.inner matches Inner::Active(
                        Option::Some(m),
                    ) && focus_item(*m) == item
                },
                Result::Err(pair) => {
                    &&& pair.0 == item
                    &&& sub_refusal(old(self).tier) == Option::Some(pair.1)
                    &&& hash_tier(final(self).tier) == hash_tier(old(self).tier)
                    &&& final(self).position >= old(self).position
                    &&& forall|off: int| #[trigger]
                        kept_tier(final(self).tier, off) == kept_tier(old(self).tier, off)
                    &&& (pair.1 == Refuse::FullAt((old(self).tier.base - 8) as u8)
                        ==> final(self).position as int == leafslots_tier(old(self).tier) * pow4(
                        old(self).tier.base as int,
                    ))
                    &&& (pair.1 != Refuse::FullAt((old(self).tier.base - 8) as u8)
                        ==> final(self).tier == old(self).tier && final(self).position == old(
                        self,
                    ).position)
                },
            },
    {
        let ghost old_self = *old(self);
        let r = tier_insert_sub(&mut self.tier, item);
        let newpos = tier_next_off(&self.tier);
        self.position = newpos;
        proof {
            match r {
                Result::Ok(l) => {
                    assert forall|i: int| 0 <= i < self.index@.len() implies kept_tier(
                        self.tier,
                        (#[trigger] self.index@[i]).position as int,
                    ) == Option::Some(self.index@[i].commitment@) && self.index@[i].position
                        < self.position by {
                        let e = self.index@[i];
                        assert(e.position < old_self.position);
                        assert(kept_tier(self.tier, e.position as int) == kept_tier(
                            old_self.tier,
                            e.position as int,
                        ));
                        crate::tree::lemma_next_off_leaf_nonneg_helper(
                            item,
                            old_self.tier.base - 8,
                        );
                    }
                },
                Result::Err(_) => {
                    assert forall|i: int| 0 <= i < self.index@.len() implies kept_tier(
                        self.tier,
                        (#[trigger] self.index@[i]).position as int,
                    ) == Option::Some(self.index@[i].commitment@) && self.index@[i].position
                        < self.position by {
                        let e = self.index@[i];
                    }
                },
            }
        }
        r
    }

    /// Append an item at this tier's own leaf level — a finished sub-tier
    /// or a bare root — and keep the position in step. No index entries
    /// are added; the caller merges the sub-tier's own index afterwards.
    pub fn insert_leaf(&mut self, item: LeafItem) -> (r: Result<u64, LeafItem>)
        requires
            wf_accum(*old(self)),
            wf_leaf_item(item, old(self).tier.base as int),
        ensures
            wf_accum(*final(self)),
            final(self).tier.base == old(self).tier.base,
            final(self).index@ == old(self).index@,
            match r {
                Result::Ok(l) => {
                    &&& leafslots_tier(old(self).tier) < pow4(8)
                    &&& leafslots_tier(final(self).tier) == leafslots_tier(old(self).tier) + 1
                    &&& l as int == leafslots_tier(old(self).tier) * pow4(old(self).tier.base as int)
                    &&& l as int % pow4(old(self).tier.base as int) == 0
                    &&& old(self).position <= l
                    &&& final(self).position as int == l as int + next_off_leaf(
                        item,
                        old(self).tier.base as int,
                    )
                    &&& forall|off: int| #[trigger]
                        kept_tier(final(self).tier, off) == (if off < l as int {
                            kept_tier(old(self).tier, off)
                        } else {
                            kept_leaf_item(item, off - l as int)
                        })
                    &&& final(self).tier.inner matches Inner::Active(Option::Some(n)) && focus_item(
                        *n,
                    ) == item
                },
                Result::Err(item2) => {
                    &&& item2 == item
                    &&& leafslots_tier(old(self).tier) == pow4(8)
                    &&& hash_tier(final(self).tier) == hash_tier(old(self).tier)
                    &&& final(self).position >= old(self).position
                    &&& final(self).position as int == pow4(old(self).tier.base + 8)
                    &&& forall|off: int| #[trigger]
                        kept_tier(final(self).tier, off) == kept_tier(old(self).tier, off)
                },
            },
    {
        let ghost old_self = *old(self);
        let slots = crate::tree::tier_leafslots(&self.tier);
        let width = crate::tree::pow4_u64(self.tier.base);
        proof {
            crate::tree::lemma_leafslots_tier_bounds(old_self.tier);
            lemma_pow4_pos(old_self.tier.base as int);
            assert(pow4(8) == 0x10000) by {
                reveal_with_fuel(pow4, 9);
            }
            crate::tree::lemma_mul_le(slots as int, pow4(8), width as int);
            crate::tree::lemma_pow4_add(8, old_self.tier.base as int);
            assert(pow4(8) * pow4(old_self.tier.base as int) == pow4(old_self.tier.base + 8));
            assert(pow4(old_self.tier.base + 8) <= pow4(24)) by {
                lemma_pow4_mono(old_self.tier.base + 8, 24);
            }
            assert(pow4(24) == 0x1000000000000) by {
                reveal_with_fuel(pow4, 25);
            }
            vstd::arithmetic::div_mod::lemma_mod_multiples_basic(
                leafslots_tier(old_self.tier),
                pow4(old_self.tier.base as int),
            );
        }
        let l = slots * width;
        let r = crate::tree::tier_insert(&mut self.tier, item);
        let newpos = tier_next_off(&self.tier);
        self.position = newpos;
        proof {
            match r {
                Result::Ok(_) => {
                    assert forall|i: int| 0 <= i < self.index@.len() implies kept_tier(
                        self.tier,
                        (#[trigger] self.index@[i]).position as int,
                    ) == Option::Some(self.index@[i].commitment@) && self.index@[i].position
                        < self.position by {
                        let e = self.index@[i];
                        assert(e.position < old_self.position);
                        assert(kept_tier(self.tier, e.position as int) == kept_tier(
                            old_self.tier,
                            e.position as int,
                        ));
                        crate::tree::lemma_next_off_leaf_nonneg_helper(
                            item,
                            old_self.tier.base as int,
                        );
                    }
                },
                Result::Err(_) => {
                    assert forall|i: int| 0 <= i < self.index@.len() implies kept_tier(
                        self.tier,
                        (#[trigger] self.index@[i]).position as int,
                    ) == Option::Some(self.index@[i].commitment@) && self.index@[i].position
                        < self.position by {
                        let e = self.index@[i];
                    }
                },
            }
        }
        match r {
            Result::Ok(_) => Result::Ok(l),
            Result::Err(item2) => Result::Err(item2),
        }
    }

    /// Merge a sub-tier's index, rebased to the offset where its span now
    /// begins. An entry replacing an older one for the same commitment has
    /// the older leaf forgotten from the tree.
    pub fn merge_entries(&mut self, entries: &Vec<Entry>, l: u64)
        requires
            wf_accum(*old(self)),
            entries_distinct(entries@),
            forall|k: int|
                0 <= k < entries@.len() ==> kept_tier(
                    old(self).tier,
                    l as int + (#[trigger] entries@[k]).position as int,
                ) == Option::Some(entries@[k].commitment@),
            forall|k: int|
                #![trigger entries@[k]]
                0 <= k < entries@.len() ==> (l as int + entries@[k].position as int)
                    < old(self).position as int,
            forall|i: int| 0 <= i < old(self).index@.len() ==> (#[trigger] old(self).index@[i]).position < l,
        ensures
            wf_accum(*final(self)),
            final(self).tier.base == old(self).tier.base,
            hash_tier(final(self).tier) == hash_tier(old(self).tier),
            leafslots_tier(final(self).tier) == leafslots_tier(old(self).tier),
            final(self).position == old(self).position,
            forall|k: int|
                0 <= k < entries@.len() ==> lookup(
                    final(self).index@,
                    (#[trigger] entries@[k]).commitment@,
                ) == Option::Some((l + entries@[k].position) as u64),
            forall|d: Seq<u8>|
                (forall|k: int|
                    0 <= k < entries@.len() ==> (#[trigger] entries@[k]).commitment@ != d)
                    ==> #[trigger] lookup(final(self).index@, d) == lookup(old(self).index@, d),
            forall|k: int|
                #![trigger entries@[k]]
                0 <= k < entries@.len() ==> (lookup(old(self).index@, entries@[k].commitment@)
                    matches Option::Some(q) ==> kept_tier(final(self).tier, q as int) is None),
            forall|off: int|
                #[trigger] kept_tier(final(self).tier, off) is Some ==> kept_tier(
                    final(self).tier,
                    off,
                ) == kept_tier(old(self).tier, off),
    {
        let ghost old_self = *old(self);
        let mut i: usize = 0;
        while i < entries.len()
            invariant
                wf_accum(*self),
                entries_distinct(entries@),
                self.tier.base == old_self.tier.base,
                hash_tier(self.tier) == hash_tier(old_self.tier),
                leafslots_tier(self.tier) == leafslots_tier(old_self.tier),
                self.position == old_self.position,
                i <= entries@.len(),
                forall|k: int|
                    0 <= k < entries@.len() ==> kept_tier(
                        old_self.tier,
                        l as int + (#[trigger] entries@[k]).position as int,
                    ) == Option::Some(entries@[k].commitment@),
                forall|k: int|
                    #![trigger entries@[k]]
                    0 <= k < entries@.len() ==> (l as int + entries@[k].position as int)
                        < old_self.position as int,
                forall|k: int|
                    0 <= k < i ==> lookup(self.index@, (#[trigger] entries@[k]).commitment@)
                        == Option::Some((l + entries@[k].position) as u64),
                forall|d: Seq<u8>|
                    (forall|k: int| 0 <= k < i ==> (#[trigger] entries@[k]).commitment@ != d)
                        ==> #[trigger] lookup(self.index@, d) == lookup(old_self.index@, d),
                forall|k: int|
                    #![trigger entries@[k]]
                    0 <= k < i ==> (lookup(old_self.index@, entries@[k].commitment@)
                        matches Option::Some(q) ==> kept_tier(self.tier, q as int) is None),
                forall|j: int|
                    0 <= j < self.index@.len() ==> (#[trigger] self.index@[j]).position < l || (
                    exists|k: int|
                        #![trigger entries@[k]]
                        0 <= k < i && (entries@[k].position as int + l as int)
                            == self.index@[j].position as int),
                forall|off: int|
                    #[trigger] kept_tier(self.tier, off) is Some ==> kept_tier(self.tier, off)
                        == kept_tier(old_self.tier, off),
                forall|off: int|
                    l as int <= off ==> #[trigger] kept_tier(self.tier, off) == kept_tier(
                        old_self.tier,
                        off,
                    ),
            decreases entries@.len() - i,
        {
            let e = entries[i];
            let g = l + e.position;
            proof {
                assert(kept_tier(self.tier, g as int) == kept_tier(old_self.tier, g as int));
                assert forall|j: int| 0 <= j < self.index@.len() implies (#[trigger] self.index@[j]).position
                    != g by {
                    if self.index@[j].position == g {
                        if self.index@[j].position < l {
                        } else {
                            let k = choose|k: int|
                                #![trigger entries@[k]]
                                0 <= k < i && (entries@[k].position as int + l as int)
                                    == self.index@[j].position as int;
                            assert(entries@[k].position == e.position);
                            assert(k != i as int);
                        }
                    }
                }
            }
            let ghost pre = *self;
            let replaced = upsert(&mut self.index, e.commitment, g);
            match replaced {
                Option::Some(q) => {
                    proof {
                        lemma_lookup_some(pre.index@, e.commitment@);
                        lemma_next_off_tier_le_span(pre.tier);
                        lemma_pow4_mono(pre.tier.base + 8, 24);
                        assert(q < l) by {
                            let jq = choose|jq: int|
                                0 <= jq < pre.index@.len() && pre.index@[jq].commitment@
                                    == e.commitment@ && #[trigger] pre.index@[jq].position == q;
                            if !(q < l) {
                                let k = choose|k: int|
                                    #![trigger entries@[k]]
                                    0 <= k < i && (entries@[k].position as int
                                        + l as int) == q as int;
                                assert(lookup(pre.index@, entries@[k].commitment@)
                                    == Option::Some((l + entries@[k].position) as u64));
                                lemma_entry_lookup(pre.index@, jq);
                                assert(entries@[k].commitment@ == e.commitment@);
                                assert(k != i as int);
                                assert(false);
                            }
                        }
                    }
                    let _ = tier_forget(&mut self.tier, q);
                    proof {
                        lemma_merge_step(*self, pre, old_self, entries@, e, g, q, l, i as int);
                    }
                },
                Option::None => {
                    proof {
                        assert forall|j: int| 0 <= j < self.index@.len() implies kept_tier(
                            self.tier,
                            (#[trigger] self.index@[j]).position as int,
                        ) == Option::Some(self.index@[j].commitment@) && self.index@[j].position
                            < self.position by {
                            let ee = self.index@[j];
                            if ee.commitment@ == e.commitment@ {
                                lemma_entry_lookup(self.index@, j);
                                assert(ee.position == g);
                            } else {
                                let jj = choose|jj: int|
                                    0 <= jj < pre.index@.len() && #[trigger] pre.index@[jj] == ee;
                            }
                        }
                        assert forall|j: int|
                            0 <= j < self.index@.len() implies (#[trigger] self.index@[j]).position
                            < l || (exists|k: int|
                            #![trigger entries@[k]]
                            0 <= k < i + 1 && (entries@[k].position as int + l as int)
                                == self.index@[j].position as int) by {
                            let ee = self.index@[j];
                            if ee.commitment@ == e.commitment@ {
                                lemma_entry_lookup(self.index@, j);
                                assert(ee.position == g);
                                assert((entries@[i as int].position as int + l as int)
                                    == g as int);
                            } else {
                                let jj = choose|jj: int|
                                    0 <= jj < pre.index@.len() && #[trigger] pre.index@[jj] == ee;
                            }
                        }
                    }
                },
            }
            i = i + 1;
        }
        proof {
            assert forall|k: int| 0 <= k < entries@.len() implies lookup(
                self.index@,
                (#[trigger] entries@[k]).commitment@,
            ) == Option::Some((l + entries@[k].position) as u64) by {}
        }
    }
}

/// After replacing an index entry and forgetting its old leaf, the facade
/// invariant and the merge loop's bookkeeping still hold.
proof fn lemma_merge_step(
    cur: Accum,
    pre: Accum,
    old_self: Accum,
    entries: Seq<Entry>,
    e: Entry,
    g: u64,
    q: u64,
    l: u64,
    i: int,
)
    requires
        entries_distinct(entries),
        0 <= i < entries.len(),
        entries[i] == e,
        g == l + e.position,
        // the index after the upsert, before the forget
        entries_distinct(cur.index@),
        lookup(cur.index@, e.commitment@) == Option::Some(g),
        forall|d: Seq<u8>|
            d != e.commitment@ ==> #[trigger] lookup(cur.index@, d) == lookup(pre.index@, d),
        forall|k: int|
            0 <= k < cur.index@.len() ==> ((#[trigger] cur.index@[k]).commitment@ == e.commitment@
                && cur.index@[k].position == g) || (exists|j: int|
                0 <= j < pre.index@.len() && #[trigger] pre.index@[j] == cur.index@[k]),
        // the tree after the forget
        wf_tier(cur.tier),
        cur.tier.base == pre.tier.base,
        next_off_tier(cur.tier) == next_off_tier(pre.tier),
        forall|o: int| #[trigger]
            kept_tier(cur.tier, o) == (if o == q as int {
                Option::<Seq<u8>>::None
            } else {
                kept_tier(pre.tier, o)
            }),
        // what held before this step
        wf_accum(pre),
        cur.position == pre.position,
        q < l,
        kept_tier(pre.tier, g as int) == Option::Some(e.commitment@),
        lookup(pre.index@, e.commitment@) == Option::Some(q),
        forall|j: int|
            0 <= j < pre.index@.len() ==> (#[trigger] pre.index@[j]).position < l || (exists|k: int|
                #![trigger entries[k]]
                0 <= k < i && (entries[k].position as int + l as int)
                    == pre.index@[j].position as int),
        forall|k: int|
            0 <= k < i ==> lookup(pre.index@, (#[trigger] entries[k]).commitment@)
                == Option::Some((l + entries[k].position) as u64),
        (l as int + e.position as int) < pre.position as int,
    ensures
        wf_accum(cur),
        forall|k: int|
            0 <= k <= i ==> lookup(cur.index@, (#[trigger] entries[k]).commitment@)
                == Option::Some((l + entries[k].position) as u64),
        forall|j: int|
            0 <= j < cur.index@.len() ==> (#[trigger] cur.index@[j]).position < l || (exists|k: int|
                #![trigger entries[k]]
                0 <= k < i + 1 && (entries[k].position as int + l as int)
                    == cur.index@[j].position as int),
{
    assert forall|j: int| 0 <= j < cur.index@.len() implies kept_tier(
        cur.tier,
        (#[trigger] cur.index@[j]).position as int,
    ) == Option::Some(cur.index@[j].commitment@) && cur.index@[j].position < cur.position by {
        let ee = cur.index@[j];
        if ee.commitment@ == e.commitment@ {
            lemma_entry_lookup(cur.index@, j);
            assert(ee.position == g);
            assert(g != q);
        } else {
            let jj = choose|jj: int| 0 <= jj < pre.index@.len() && #[trigger] pre.index@[jj] == ee;
            assert(kept_tier(pre.tier, ee.position as int) == Option::Some(ee.commitment@));
            assert(ee.position != q) by {
                if ee.position == q {
                    lemma_lookup_some(pre.index@, e.commitment@);
                    let jq = choose|jq: int|
                        0 <= jq < pre.index@.len() && pre.index@[jq].commitment@ == e.commitment@
                            && #[trigger] pre.index@[jq].position == q;
                    assert(jq != jj);
                    assert(false);
                }
            }
        }
    }
    assert forall|k: int| 0 <= k <= i implies lookup(cur.index@, (#[trigger] entries[k]).commitment@)
        == Option::Some((l + entries[k].position) as u64) by {
        if k < i {
            assert(entries[k].commitment@ != e.commitment@);
        }
    }
    assert forall|j: int|
        0 <= j < cur.index@.len() implies (#[trigger] cur.index@[j]).position < l || (exists|k: int|
        0 <= k < i + 1 && (#[trigger] entries[k]).position as int + l as int
            == cur.index@[j].position as int) by {
        let ee = cur.index@[j];
        if ee.commitment@ == e.commitment@ {
            lemma_entry_lookup(cur.index@, j);
            assert(ee.position == g);
            assert(entries[i].position as int + l as int == g as int);
        } else {
            let jj = choose|jj: int| 0 <= jj < pre.index@.len() && #[trigger] pre.index@[jj] == ee;
        }
    }
}

} // verus!
