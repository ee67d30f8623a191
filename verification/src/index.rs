//! The secondary index: a flat list mapping each witnessed commitment to
//! the 48-bit position of its leaf. Commitments are unique in it, and so
//! are positions.
//!
//! A flat list is used deliberately in place of a hash map keyed by
//! commitments: over a map keyed by a 32-byte struct nothing useful about
//! lookups is provable here, while the list's `lookup` is a spec function
//! the whole facade invariant is stated against. Lookups are linear in
//! the number of witnesses; the tree itself is untouched by this choice.

use vstd::prelude::*;

use crate::hash::Commitment;

verus! {

/// One index entry: a witnessed commitment and the position of its leaf.
#[derive(Clone, Copy, Debug)]
pub struct Entry {
    pub commitment: Commitment,
    pub position: u64,
}

/// Look a commitment up, front to back.
pub open spec fn lookup(s: Seq<Entry>, c: Seq<u8>) -> Option<u64>
    decreases s.len(),
{
    if s.len() == 0 {
        Option::None
    } else if s[0].commitment@ == c {
        Option::Some(s[0].position)
    } else {
        lookup(s.drop_first(), c)
    }
}

/// No two entries name the same commitment, nor the same position.
pub open spec fn entries_distinct(s: Seq<Entry>) -> bool {
    forall|i: int, j: int|
        0 <= i < j < s.len() ==> s[i].commitment@ != s[j].commitment@ && s[i].position
            != s[j].position
}

/// A successful lookup names some entry.
pub proof fn lemma_lookup_some(s: Seq<Entry>, c: Seq<u8>)
    requires
        lookup(s, c) is Some,
    ensures
        exists|i: int|
            0 <= i < s.len() && s[i].commitment@ == c && #[trigger] s[i].position == lookup(
                s,
                c,
            )->Some_0,
    decreases s.len(),
{
    if s.len() == 0 {
    } else if s[0].commitment@ == c {
        assert(s[0].position == lookup(s, c)->Some_0);
    } else {
        lemma_lookup_some(s.drop_first(), c);
        let i = choose|i: int|
            0 <= i < s.drop_first().len() && s.drop_first()[i].commitment@ == c
                && #[trigger] s.drop_first()[i].position == lookup(s.drop_first(), c)->Some_0;
        assert(s[i + 1] == s.drop_first()[i]);
        assert(s[i + 1].position == lookup(s, c)->Some_0);
    }
}

/// A failed lookup means no entry names the commitment.
pub proof fn lemma_lookup_none(s: Seq<Entry>, c: Seq<u8>)
    requires
        lookup(s, c) is None,
    ensures
        forall|i: int| 0 <= i < s.len() ==> (#[trigger] s[i]).commitment@ != c,
    decreases s.len(),
{
    if s.len() == 0 {
    } else {
        lemma_lookup_none(s.drop_first(), c);
        assert forall|i: int| 0 <= i < s.len() implies (#[trigger] s[i]).commitment@ != c by {
            if i > 0 {
                assert(s[i] == s.drop_first()[i - 1]);
            }
        }
    }
}

/// With distinct commitments, an entry determines the lookup.
pub proof fn lemma_entry_lookup(s: Seq<Entry>, i: int)
    requires
        entries_distinct(s),
        0 <= i < s.len(),
    ensures
        lookup(s, s[i].commitment@) == Option::Some(s[i].position),
    decreases s.len(),
{
    if i == 0 {
    } else {
        assert(s[0].commitment@ != s[i].commitment@);
        assert(s.drop_first()[i - 1] == s[i]);
        assert(entries_distinct(s.drop_first())) by {
            assert forall|a: int, b: int| 0 <= a < b < s.drop_first().len() implies (#[trigger] s.drop_first()[a]).commitment@
                != (#[trigger] s.drop_first()[b]).commitment@ && s.drop_first()[a].position
                != s.drop_first()[b].position by {
                assert(s.drop_first()[a] == s[a + 1]);
                assert(s.drop_first()[b] == s[b + 1]);
            }
        }
        lemma_entry_lookup(s.drop_first(), i - 1);
    }
}

/// Find the position recorded for a commitment, if any.
pub fn find(v: &Vec<Entry>, c: &Commitment) -> (r: Option<u64>)
    ensures
        r == lookup(v@, c@),
{
    let mut i: usize = 0;
    proof {
        assert(v@.skip(0) =~= v@);
    }
    while i < v.len()
        invariant
            i <= v@.len(),
            lookup(v@, c@) == lookup(v@.skip(i as int), c@),
        decreases v@.len() - i,
    {
        let e = v[i];
        proof {
            assert(v@.skip(i as int)[0] == v@[i as int]);
            assert(v@.skip(i as int).drop_first() =~= v@.skip(i as int + 1));
        }
        if e.commitment.value_eq(c) {
            return Some(e.position);
        }
        i = i + 1;
    }
    proof {
        assert(v@.skip(i as int) =~= Seq::<Entry>::empty());
    }
    None
}

/// Find the position of the entry holding a commitment, if any.
fn find_slot(v: &Vec<Entry>, c: &Commitment) -> (r: Option<usize>)
    ensures
        match r {
            Option::Some(i) => i < v@.len() && v@[i as int].commitment@ == c@,
            Option::None => lookup(v@, c@) is None,
        },
{
    let mut i: usize = 0;
    proof {
        assert(v@.skip(0) =~= v@);
    }
    while i < v.len()
        invariant
            i <= v@.len(),
            lookup(v@, c@) == lookup(v@.skip(i as int), c@),
        decreases v@.len() - i,
    {
        let e = v[i];
        proof {
            assert(v@.skip(i as int)[0] == v@[i as int]);
            assert(v@.skip(i as int).drop_first() =~= v@.skip(i as int + 1));
        }
        if e.commitment.value_eq(c) {
            return Some(i);
        }
        i = i + 1;
    }
    proof {
        assert(v@.skip(i as int) =~= Seq::<Entry>::empty());
    }
    None
}

/// Record a position for a commitment, replacing any older entry for the
/// same commitment and returning the position it held.
pub fn upsert(v: &mut Vec<Entry>, c: Commitment, p: u64) -> (r: Option<u64>)
    requires
        entries_distinct(old(v)@),
        forall|i: int| 0 <= i < old(v)@.len() ==> (#[trigger] old(v)@[i]).position != p,
    ensures
        r == lookup(old(v)@, c@),
        entries_distinct(final(v)@),
        lookup(final(v)@, c@) == Option::Some(p),
        forall|d: Seq<u8>| d != c@ ==> #[trigger] lookup(final(v)@, d) == lookup(old(v)@, d),
        forall|k: int|
            0 <= k < final(v)@.len() ==> ((#[trigger] final(v)@[k]).commitment@ == c@
                && final(v)@[k].position == p) || (exists|j: int|
                0 <= j < old(v)@.len() && #[trigger] old(v)@[j] == final(v)@[k]),
        final(v)@.len() == old(v)@.len() + (if lookup(old(v)@, c@) is Some {
            0int
        } else {
            1int
        }),
{
    let ghost old_v = v@;
    let slot = find_slot(v, &c);
    match slot {
        Option::Some(i) => {
            let old_p = v[i].position;
            proof {
                lemma_entry_lookup(old_v, i as int);
            }
            let _ = v.remove(i);
            let ghost mid = v@;
            v.push(Entry { commitment: c, position: p });
            proof {
                lemma_upsert_replace(old_v, mid, v@, c@, p, i as int);
            }
            Option::Some(old_p)
        },
        Option::None => {
            proof {
                lemma_lookup_none(old_v, c@);
            }
            v.push(Entry { commitment: c, position: p });
            proof {
                lemma_upsert_push(old_v, v@, c@, p);
            }
            Option::None
        },
    }
}

/// Appending a fresh entry leaves every other lookup unchanged.
proof fn lemma_upsert_push(old_v: Seq<Entry>, new_v: Seq<Entry>, c: Seq<u8>, p: u64)
    requires
        entries_distinct(old_v),
        lookup(old_v, c) is None,
        forall|i: int| 0 <= i < old_v.len() ==> (#[trigger] old_v[i]).position != p,
        new_v.len() == old_v.len() + 1,
        new_v.subrange(0, old_v.len() as int) =~= old_v,
        new_v[old_v.len() as int].commitment@ == c,
        new_v[old_v.len() as int].position == p,
    ensures
        entries_distinct(new_v),
        lookup(new_v, c) == Option::Some(p),
        forall|d: Seq<u8>| d != c ==> #[trigger] lookup(new_v, d) == lookup(old_v, d),
    decreases old_v.len(),
{
    lemma_lookup_none(old_v, c);
    assert(new_v.len() == old_v.len() + 1);
    assert(forall|i: int| 0 <= i < old_v.len() ==> new_v[i] == old_v[i]);
    let last = new_v[old_v.len() as int];
    assert(last.commitment@ == c && last.position == p);
    assert(entries_distinct(new_v)) by {
        assert forall|i: int, j: int| 0 <= i < j < new_v.len() implies (#[trigger] new_v[i]).commitment@
            != (#[trigger] new_v[j]).commitment@ && new_v[i].position != new_v[j].position by {
            if j == old_v.len() {
                assert(new_v[i] == old_v[i]);
            }
        }
    }
    lemma_lookup_append(old_v, new_v, c, p);
    assert forall|d: Seq<u8>| d != c implies #[trigger] lookup(new_v, d) == lookup(old_v, d) by {
        lemma_lookup_append_other(old_v, new_v, d);
    }
}

proof fn lemma_lookup_append(old_v: Seq<Entry>, new_v: Seq<Entry>, c: Seq<u8>, p: u64)
    requires
        new_v.len() == old_v.len() + 1,
        forall|i: int| 0 <= i < old_v.len() ==> #[trigger] new_v[i] == old_v[i],
        forall|i: int| 0 <= i < old_v.len() ==> (#[trigger] old_v[i]).commitment@ != c,
        new_v[old_v.len() as int].commitment@ == c,
        new_v[old_v.len() as int].position == p,
    ensures
        lookup(new_v, c) == Option::Some(p),
    decreases old_v.len(),
{
    if old_v.len() == 0 {
        assert(new_v[0].commitment@ == c);
        assert(lookup(new_v, c) == Option::Some(new_v[0].position));
    } else {
        assert(new_v.drop_first()[old_v.len() - 1] == new_v[old_v.len() as int]);
        assert(forall|i: int|
            0 <= i < old_v.drop_first().len() ==> #[trigger] new_v.drop_first()[i]
                == old_v.drop_first()[i]);
        assert(forall|i: int|
            0 <= i < old_v.drop_first().len() ==> (#[trigger] old_v.drop_first()[i]).commitment@
                != c) by {
            assert forall|i: int| 0 <= i < old_v.drop_first().len() implies (#[trigger] old_v.drop_first()[i]).commitment@
                != c by {
                assert(old_v.drop_first()[i] == old_v[i + 1]);
            }
        }
        lemma_lookup_append(old_v.drop_first(), new_v.drop_first(), c, p);
        assert(new_v[0] == old_v[0]);
        assert(new_v[0].commitment@ != c);
    }
}

proof fn lemma_lookup_append_other(old_v: Seq<Entry>, new_v: Seq<Entry>, d: Seq<u8>)
    requires
        new_v.len() == old_v.len() + 1,
        forall|i: int| 0 <= i < old_v.len() ==> #[trigger] new_v[i] == old_v[i],
        new_v[old_v.len() as int].commitment@ != d,
    ensures
        lookup(new_v, d) == lookup(old_v, d),
    decreases old_v.len(),
{
    if old_v.len() == 0 {
    } else {
        assert(new_v[0] == old_v[0]);
        if old_v[0].commitment@ == d {
        } else {
            assert(new_v.drop_first()[old_v.len() - 1] == new_v[old_v.len() as int]);
            assert(forall|i: int|
                0 <= i < old_v.drop_first().len() ==> #[trigger] new_v.drop_first()[i]
                    == old_v.drop_first()[i]);
            lemma_lookup_append_other(old_v.drop_first(), new_v.drop_first(), d);
        }
    }
}

proof fn lemma_upsert_replace(
    old_v: Seq<Entry>,
    mid: Seq<Entry>,
    new_v: Seq<Entry>,
    c: Seq<u8>,
    p: u64,
    i: int,
)
    requires
        entries_distinct(old_v),
        0 <= i < old_v.len(),
        old_v[i].commitment@ == c,
        forall|k: int| 0 <= k < old_v.len() ==> (#[trigger] old_v[k]).position != p,
        mid =~= old_v.remove(i),
        new_v.len() == mid.len() + 1,
        forall|k: int| 0 <= k < mid.len() ==> #[trigger] new_v[k] == mid[k],
        new_v[mid.len() as int].commitment@ == c,
        new_v[mid.len() as int].position == p,
    ensures
        entries_distinct(new_v),
        lookup(new_v, c) == Option::Some(p),
        forall|d: Seq<u8>| d != c ==> #[trigger] lookup(new_v, d) == lookup(old_v, d),
        forall|k: int|
            0 <= k < new_v.len() ==> ((#[trigger] new_v[k]).commitment@ == c && new_v[k].position
                == p) || (exists|j: int| 0 <= j < old_v.len() && #[trigger] old_v[j] == new_v[k]),
        new_v.len() == old_v.len(),
{
    // every mid entry is an old entry other than slot i
    assert(forall|k: int|
        0 <= k < mid.len() ==> #[trigger] mid[k] == (if k < i {
            old_v[k]
        } else {
            old_v[k + 1]
        }));
    assert(entries_distinct(mid)) by {
        assert forall|a: int, b: int| 0 <= a < b < mid.len() implies (#[trigger] mid[a]).commitment@
            != (#[trigger] mid[b]).commitment@ && mid[a].position != mid[b].position by {
            let aa = if a < i { a } else { a + 1 };
            let bb = if b < i { b } else { b + 1 };
            assert(mid[a] == old_v[aa] && mid[b] == old_v[bb]);
        }
    }
    assert(lookup(mid, c) is None) by {
        if lookup(mid, c) is Some {
            lemma_lookup_some(mid, c);
            let k = choose|k: int|
                0 <= k < mid.len() && mid[k].commitment@ == c && #[trigger] mid[k].position
                    == lookup(mid, c)->Some_0;
            let kk = if k < i { k } else { k + 1 };
            assert(old_v[kk].commitment@ == c);
            assert(kk != i);
            assert(false);
        }
    }
    lemma_upsert_push(mid, new_v, c, p);
    assert forall|d: Seq<u8>| d != c implies #[trigger] lookup(new_v, d) == lookup(old_v, d) by {
        lemma_lookup_remove_other(old_v, mid, d, i);
    }
    assert forall|k: int|
        0 <= k < new_v.len() implies ((#[trigger] new_v[k]).commitment@ == c && new_v[k].position
        == p) || (exists|j: int| 0 <= j < old_v.len() && #[trigger] old_v[j] == new_v[k]) by {
        if k < mid.len() {
            let kk = if k < i { k } else { k + 1 };
            assert(old_v[kk] == new_v[k]);
        }
    }
}

proof fn lemma_lookup_remove_other(old_v: Seq<Entry>, mid: Seq<Entry>, d: Seq<u8>, i: int)
    requires
        0 <= i < old_v.len(),
        old_v[i].commitment@ != d,
        mid =~= old_v.remove(i),
    ensures
        lookup(mid, d) == lookup(old_v, d),
    decreases old_v.len(),
{
    if i == 0 {
        assert(mid =~= old_v.drop_first());
    } else {
        assert(mid[0] == old_v[0]);
        if old_v[0].commitment@ == d {
        } else {
            assert(mid.drop_first() =~= old_v.drop_first().remove(i - 1));
            lemma_lookup_remove_other(old_v.drop_first(), mid.drop_first(), d, i - 1);
            assert(old_v.drop_first()[i - 1] == old_v[i]);
        }
    }
}

/// Drop the entry for a commitment, returning the position it held.
pub fn remove_entry(v: &mut Vec<Entry>, c: &Commitment) -> (r: Option<u64>)
    requires
        entries_distinct(old(v)@),
    ensures
        r == lookup(old(v)@, c@),
        entries_distinct(final(v)@),
        lookup(final(v)@, c@) is None,
        forall|d: Seq<u8>| d != c@ ==> #[trigger] lookup(final(v)@, d) == lookup(old(v)@, d),
        forall|k: int|
            0 <= k < final(v)@.len() ==> exists|j: int|
                0 <= j < old(v)@.len() && old(v)@[j] == #[trigger] final(v)@[k],
        r is None ==> final(v)@ == old(v)@,
        final(v)@.len() == old(v)@.len() - (if r is Some {
            1int
        } else {
            0int
        }),
{
    let ghost old_v = v@;
    let slot = find_slot(v, c);
    match slot {
        Option::Some(i) => {
            let old_p = v[i].position;
            proof {
                lemma_entry_lookup(old_v, i as int);
            }
            let _ = v.remove(i);
            proof {
                let mid = v@;
                assert(mid =~= old_v.remove(i as int));
                assert(forall|k: int|
                    0 <= k < mid.len() ==> #[trigger] mid[k] == (if k < i as int {
                        old_v[k]
                    } else {
                        old_v[k + 1]
                    }));
                assert(entries_distinct(mid)) by {
                    assert forall|a: int, b: int| 0 <= a < b < mid.len() implies (#[trigger] mid[a]).commitment@
                        != (#[trigger] mid[b]).commitment@ && mid[a].position != mid[b].position by {
                        let aa = if a < i as int { a } else { a + 1 };
                        let bb = if b < i as int { b } else { b + 1 };
                        assert(mid[a] == old_v[aa] && mid[b] == old_v[bb]);
                    }
                }
                assert(lookup(mid, c@) is None) by {
                    if lookup(mid, c@) is Some {
                        lemma_lookup_some(mid, c@);
                        let k = choose|k: int|
                            0 <= k < mid.len() && mid[k].commitment@ == c@
                                && #[trigger] mid[k].position == lookup(mid, c@)->Some_0;
                        let kk = if k < i as int { k } else { k + 1 };
                        assert(old_v[kk].commitment@ == c@);
                        assert(kk != i as int);
                        assert(false);
                    }
                }
                assert forall|d: Seq<u8>| d != c@ implies #[trigger] lookup(v@, d) == lookup(
                    old_v,
                    d,
                ) by {
                    lemma_lookup_remove_other(old_v, v@, d, i as int);
                }
                assert forall|k: int|
                    0 <= k < v@.len() implies exists|j: int|
                    0 <= j < old_v.len() && old_v[j] == #[trigger] v@[k] by {
                    let kk = if k < i as int { k } else { k + 1 };
                    assert(old_v[kk] == v@[k]);
                }
            }
            Option::Some(old_p)
        },
        Option::None => {
            proof {
                lemma_lookup_none(old_v, c@);
            }
            Option::None
        },
    }
}

} // verus!
