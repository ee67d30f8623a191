//! The tree itself: the mutable rightmost frontier (*active* nodes), the
//! frozen interior (*complete* nodes), and the tier wrapper that stacks
//! eight levels of either.
//!
//! Heights are carried at runtime, from 0 at a commitment leaf to 24 at the
//! top of the outermost tier. A tier whose `base` is `b` owns the levels
//! `b + 1 ..= b + 8` and has its leaves at height `b`: commitments for the
//! innermost tier (`b == 0`), whole sub-tiers for the other two (`b == 8`
//! or `b == 16`).

use vstd::prelude::*;

use crate::hash::{blank_hash, node_hash, Commitment};

verus! {

/// A frozen child slot: a complete subtree with at least one witness, or a
/// bare hash standing for a subtree with none.
pub enum Kid {
    Keep(Box<CompleteNode>),
    Stub(crate::hash::Hash),
}

/// Zero to three frozen left siblings of an active node's focus.
pub enum Three {
    Zero,
    One(Kid),
    Two(Kid, Kid),
    Full(Kid, Kid, Kid),
}

/// The four child slots of a complete internal node.
pub struct Four {
    pub k0: Kid,
    pub k1: Kid,
    pub k2: Kid,
    pub k3: Kid,
}

/// A node of the frozen interior. Internal nodes always hold exactly four
/// slots, at least one of them a `Keep`, and carry their hash, computed
/// once when the node was frozen.
pub enum CompleteNode {
    Leaf { commitment: Commitment },
    Internal { height: u8, four: Box<Four>, cache: crate::hash::Hash },
}

/// What an active leaf holds: a witnessed commitment (height 0), a nested
/// tier (height 8 or 16), or a bare hash with no witness beneath.
pub enum LeafItem {
    Note(Commitment),
    SubTier(Box<Tier>),
    Stub(crate::hash::Hash),
}

/// A node of the mutable frontier: a leaf, or an internal node holding up
/// to three frozen left siblings and one focus child that is itself active.
pub enum ActiveNode {
    Leaf { height: u8, item: LeafItem },
    Internal { height: u8, siblings: Three, focus: Box<ActiveNode> },
}

/// The inside of a tier: still accepting insertions (`Active`), filled with
/// at least one witness kept (`Complete`), or filled with no witness and
/// collapsed to a single hash (`Hash`).
pub enum Inner {
    Active(Option<Box<ActiveNode>>),
    Complete(Box<CompleteNode>),
    Hash(crate::hash::Hash),
}

/// An eight-level tier: its base height, the number of insertions performed
/// on it, the number of those that kept a witness, and its inside.
///
/// `len` and `witnessed` count in 16-bit wrapping arithmetic, so a tier
/// filled to its capacity of 65,536 insertions reads `len == 0` again.
pub struct Tier {
    pub base: u8,
    pub len: u16,
    pub witnessed: u16,
    pub inner: Inner,
}

/// 4^k: the number of commitment slots spanned by a subtree of height `k`.
pub open spec fn pow4(k: int) -> int
    decreases k,
{
    if k <= 0 {
        1
    } else {
        4 * pow4(k - 1)
    }
}

/// How many siblings are present.
pub open spec fn sib_count(s: Three) -> int {
    match s {
        Three::Zero => 0,
        Three::One(..) => 1,
        Three::Two(..) => 2,
        Three::Full(..) => 3,
    }
}

/// The `i`-th sibling, counted from the left.
pub open spec fn sib(s: Three, i: int) -> Kid {
    match s {
        Three::Zero => arbitrary(),
        Three::One(a) => a,
        Three::Two(a, b) => if i == 0 { a } else { b },
        Three::Full(a, b, c) => if i == 0 { a } else if i == 1 { b } else { c },
    }
}

// The hash of each kind of subtree. An empty slot contributes the blank
// hash; an internal node at height `h` hashes its four slots with `h`
// mixed in for domain separation.

pub open spec fn hash_kid(k: Kid) -> Seq<u8>
    decreases k,
{
    match k {
        Kid::Keep(n) => hash_complete(*n),
        Kid::Stub(h) => h@,
    }
}

pub open spec fn hash_complete(n: CompleteNode) -> Seq<u8>
    decreases n,
{
    match n {
        CompleteNode::Leaf { commitment } => commitment@,
        CompleteNode::Internal { height, four, .. } => node_hash(
            height as int,
            hash_kid(four.k0),
            hash_kid(four.k1),
            hash_kid(four.k2),
            hash_kid(four.k3),
        ),
    }
}

pub open spec fn hash_leaf_item(item: LeafItem) -> Seq<u8>
    decreases item,
{
    match item {
        LeafItem::Note(c) => c@,
        LeafItem::SubTier(t) => hash_tier(*t),
        LeafItem::Stub(h) => h@,
    }
}

pub open spec fn hash_active(n: ActiveNode) -> Seq<u8>
    decreases n,
{
    match n {
        ActiveNode::Leaf { item, .. } => hash_leaf_item(item),
        ActiveNode::Internal { height, siblings, focus } => {
            let f = hash_active(*focus);
            match siblings {
                Three::Zero => node_hash(height as int, f, blank_hash(), blank_hash(), blank_hash()),
                Three::One(a) => node_hash(height as int, hash_kid(a), f, blank_hash(), blank_hash()),
                Three::Two(a, b) => node_hash(height as int, hash_kid(a), hash_kid(b), f, blank_hash()),
                Three::Full(a, b, c) => node_hash(height as int, hash_kid(a), hash_kid(b), hash_kid(c), f),
            }
        }
    }
}

pub open spec fn hash_tier(t: Tier) -> Seq<u8>
    decreases t,
{
    match t.inner {
        Inner::Active(o) => match o {
            Option::None => blank_hash(),
            Option::Some(n) => hash_active(*n),
        },
        Inner::Complete(c) => hash_complete(*c),
        Inner::Hash(h) => h@,
    }
}

// The witnessed contents of each kind of subtree: which commitment, if any,
// is kept at a given offset, counted in commitment slots from the left edge
// of the subtree. A subtree at height `h` spans `pow4(h)` offsets.

pub open spec fn kept_kid(k: Kid, h: int, off: int) -> Option<Seq<u8>>
    decreases k,
{
    match k {
        Kid::Stub(_) => Option::None,
        Kid::Keep(n) => kept_complete(*n, h, off),
    }
}

pub open spec fn kept_complete(n: CompleteNode, h: int, off: int) -> Option<Seq<u8>>
    decreases n,
{
    match n {
        CompleteNode::Leaf { commitment } => if off == 0 {
            Option::Some(commitment@)
        } else {
            Option::None
        },
        CompleteNode::Internal { four, .. } => {
            let w = pow4(h - 1);
            let j = off / w;
            let r = off % w;
            if j == 0 {
                kept_kid(four.k0, h - 1, r)
            } else if j == 1 {
                kept_kid(four.k1, h - 1, r)
            } else if j == 2 {
                kept_kid(four.k2, h - 1, r)
            } else if j == 3 {
                kept_kid(four.k3, h - 1, r)
            } else {
                Option::None
            }
        },
    }
}

pub open spec fn kept_leaf_item(item: LeafItem, off: int) -> Option<Seq<u8>>
    decreases item,
{
    match item {
        LeafItem::Note(c) => if off == 0 {
            Option::Some(c@)
        } else {
            Option::None
        },
        LeafItem::SubTier(t) => kept_tier(*t, off),
        LeafItem::Stub(_) => Option::None,
    }
}

pub open spec fn kept_active(n: ActiveNode, h: int, off: int) -> Option<Seq<u8>>
    decreases n,
{
    match n {
        ActiveNode::Leaf { item, .. } => kept_leaf_item(item, off),
        ActiveNode::Internal { siblings, focus, .. } => {
            let w = pow4(h - 1);
            let j = off / w;
            let r = off % w;
            let s = sib_count(siblings);
            if 0 <= j < s {
                kept_kid(sib(siblings, j), h - 1, r)
            } else if j == s {
                kept_active(*focus, h - 1, r)
            } else {
                Option::None
            }
        },
    }
}

pub open spec fn kept_tier(t: Tier, off: int) -> Option<Seq<u8>>
    decreases t,
{
    match t.inner {
        Inner::Active(o) => match o {
            Option::None => Option::None,
            Option::Some(n) => kept_active(*n, t.base + 8, off),
        },
        Inner::Complete(c) => kept_complete(*c, t.base + 8, off),
        Inner::Hash(_) => Option::None,
    }
}

// The frontier offset of each kind of subtree: the commitment slot, counted
// within the subtree, at which the next insertion would land. A full
// subtree's frontier offset equals its span.

pub open spec fn next_off_leaf(item: LeafItem, h: int) -> int
    decreases item,
{
    match item {
        LeafItem::Note(_) => 1,
        LeafItem::SubTier(t) => next_off_tier(*t),
        LeafItem::Stub(_) => pow4(h),
    }
}

pub open spec fn next_off_active(n: ActiveNode, h: int) -> int
    decreases n,
{
    match n {
        ActiveNode::Leaf { item, .. } => next_off_leaf(item, h),
        ActiveNode::Internal { siblings, focus, .. } => sib_count(siblings) * pow4(h - 1)
            + next_off_active(*focus, h - 1),
    }
}

pub open spec fn next_off_tier(t: Tier) -> int
    decreases t,
{
    match t.inner {
        Inner::Active(o) => match o {
            Option::None => 0,
            Option::Some(n) => next_off_active(*n, t.base + 8),
        },
        Inner::Complete(_) => pow4(t.base + 8),
        Inner::Hash(_) => pow4(t.base + 8),
    }
}

// The number of leaf slots of a tier that have been consumed: each
// insertion at the tier's own leaf level takes one, whatever it was.

pub open spec fn leafslots_active(n: ActiveNode, base: int) -> int
    decreases n,
{
    match n {
        ActiveNode::Leaf { .. } => 1,
        ActiveNode::Internal { height, siblings, focus } => sib_count(siblings) * pow4(
            height - 1 - base,
        ) + leafslots_active(*focus, base),
    }
}

pub open spec fn leafslots_tier(t: Tier) -> int
    decreases t,
{
    match t.inner {
        Inner::Active(o) => match o {
            Option::None => 0,
            Option::Some(n) => leafslots_active(*n, t.base as int),
        },
        Inner::Complete(_) => pow4(8),
        Inner::Hash(_) => pow4(8),
    }
}

// Well-formedness: heights are consistent, every complete internal node
// holds at least one witness (else it would have collapsed to a stub), and
// every stored hash equals the recomputed hash of its node.

pub open spec fn one_keep(f: Four) -> bool {
    f.k0 is Keep || f.k1 is Keep || f.k2 is Keep || f.k3 is Keep
}

pub open spec fn wf_kid(k: Kid, h: int) -> bool
    decreases k,
{
    match k {
        Kid::Stub(_) => true,
        Kid::Keep(n) => wf_complete(*n, h),
    }
}

pub open spec fn wf_complete(n: CompleteNode, h: int) -> bool
    decreases n,
{
    match n {
        CompleteNode::Leaf { .. } => h == 0,
        CompleteNode::Internal { height, four, cache } => {
            &&& height as int == h
            &&& 1 <= h <= 24
            &&& wf_kid(four.k0, h - 1)
            &&& wf_kid(four.k1, h - 1)
            &&& wf_kid(four.k2, h - 1)
            &&& wf_kid(four.k3, h - 1)
            &&& one_keep(*four)
            &&& cache@ == hash_complete(n)
        },
    }
}

pub open spec fn wf_three(s: Three, h: int) -> bool
    decreases s,
{
    match s {
        Three::Zero => true,
        Three::One(a) => wf_kid(a, h),
        Three::Two(a, b) => wf_kid(a, h) && wf_kid(b, h),
        Three::Full(a, b, c) => wf_kid(a, h) && wf_kid(b, h) && wf_kid(c, h),
    }
}

pub open spec fn wf_leaf_item(item: LeafItem, h: int) -> bool
    decreases item,
{
    match item {
        LeafItem::Note(_) => h == 0,
        LeafItem::Stub(_) => h == 0 || h == 8 || h == 16,
        LeafItem::SubTier(t) => (h == 8 || h == 16) && t.base as int == h - 8 && wf_tier(*t),
    }
}

pub open spec fn wf_active(n: ActiveNode, h: int, base: int) -> bool
    decreases n,
{
    match n {
        ActiveNode::Leaf { height, item } => height as int == h && h == base && wf_leaf_item(
            item,
            h,
        ),
        ActiveNode::Internal { height, siblings, focus } => {
            &&& height as int == h
            &&& base < h <= base + 8
            &&& wf_three(siblings, h - 1)
            &&& wf_active(*focus, h - 1, base)
            &&& next_off_active(*focus, h - 1) <= pow4(h - 1)
        },
    }
}

pub open spec fn wf_tier(t: Tier) -> bool
    decreases t,
{
    &&& (t.base == 0 || t.base == 8 || t.base == 16)
    &&& match t.inner {
        Inner::Active(o) => match o {
            Option::None => true,
            Option::Some(n) => wf_active(*n, t.base + 8, t.base as int),
        },
        Inner::Complete(c) => wf_complete(*c, t.base + 8),
        Inner::Hash(_) => true,
    }
}

pub proof fn lemma_pow4_pos(k: int)
    ensures
        pow4(k) >= 1,
    decreases k,
{
    if k > 0 {
        lemma_pow4_pos(k - 1);
    }
}

pub proof fn lemma_pow4_mono(a: int, b: int)
    requires
        a <= b,
    ensures
        pow4(a) <= pow4(b),
    decreases b - a,
{
    if a < b {
        lemma_pow4_mono(a, b - 1);
        lemma_pow4_pos(b - 1);
    }
}

/// 4^k as a machine word, for heights up to a whole tree's 24.
pub fn pow4_u64(k: u8) -> (r: u64)
    requires
        k <= 24,
    ensures
        r as int == pow4(k as int),
{
    proof {
        assert(pow4(24) == 0x1000000000000) by {
            reveal_with_fuel(pow4, 25);
        }
    }
    let mut r: u64 = 1;
    let mut i: u8 = 0;
    while i < k
        invariant
            i <= k <= 24,
            r as int == pow4(i as int),
        decreases k - i,
    {
        proof {
            lemma_pow4_mono(i as int + 1, 24);
            assert(pow4(24) == 0x1000000000000) by {
                reveal_with_fuel(pow4, 25);
            }
            assert(pow4(i as int + 1) == 4 * pow4(i as int));
        }
        r = r * 4;
        i = i + 1;
    }
    r
}

/// Splitting an offset at a node: its top digit and the remainder.
pub proof fn lemma_digit(off: int, w: int)
    requires
        w > 0,
    ensures
        off == w * (off / w) + off % w,
        0 <= off % w < w,
{
    vstd::arithmetic::div_mod::lemma_fundamental_div_mod(off, w);
    vstd::arithmetic::div_mod::lemma_mod_bound(off, w);
}

/// Recombining a digit and a remainder into an offset.
pub proof fn lemma_digit_converse(j: int, r: int, w: int)
    requires
        w > 0,
        0 <= r < w,
    ensures
        (j * w + r) / w == j,
        (j * w + r) % w == r,
{
    vstd::arithmetic::div_mod::lemma_fundamental_div_mod_converse(j * w + r, w, j, r);
}

/// Multiplying both sides of an inequality by a non-negative width.
pub proof fn lemma_mul_le(a: int, b: int, c: int)
    requires
        a <= b,
        c >= 0,
    ensures
        a * c <= b * c,
{
    assert(a * c <= b * c) by (nonlinear_arith)
        requires
            a <= b,
            c >= 0,
    ;
}

// Frontier offsets are non-negative, and bounded by the subtree's span in a
// well-formed tree.

pub proof fn lemma_next_off_active_nonneg(n: ActiveNode, h: int)
    ensures
        next_off_active(n, h) >= 0,
    decreases n,
{
    match n {
        ActiveNode::Leaf { item, .. } => {
            assert(next_off_active(n, h) == next_off_leaf(item, h));
            match item {
                LeafItem::SubTier(t) => lemma_next_off_tier_nonneg(*t),
                LeafItem::Stub(_) => lemma_pow4_pos(h),
                LeafItem::Note(_) => {
                    assert(next_off_leaf(item, h) == 1);
                },
            }
        },
        ActiveNode::Internal { siblings, focus, .. } => {
            lemma_next_off_active_nonneg(*focus, h - 1);
            lemma_pow4_pos(h - 1);
            assert(sib_count(siblings) >= 0);
            lemma_mul_le(0, sib_count(siblings), pow4(h - 1));
            assert(next_off_active(n, h) == sib_count(siblings) * pow4(h - 1) + next_off_active(
                *focus,
                h - 1,
            ));
        },
    }
}

pub proof fn lemma_next_off_tier_nonneg(t: Tier)
    ensures
        next_off_tier(t) >= 0,
    decreases t,
{
    match t.inner {
        Inner::Active(o) => match o {
            Option::None => {},
            Option::Some(n) => lemma_next_off_active_nonneg(*n, t.base + 8),
        },
        Inner::Complete(_) => lemma_pow4_pos(t.base + 8),
        Inner::Hash(_) => lemma_pow4_pos(t.base + 8),
    }
}

pub proof fn lemma_next_off_active_le_span(n: ActiveNode, h: int, base: int)
    requires
        wf_active(n, h, base),
        0 <= base,
    ensures
        next_off_active(n, h) <= pow4(h),
    decreases n,
{
    match n {
        ActiveNode::Leaf { item, .. } => {
            assert(next_off_active(n, h) == next_off_leaf(item, h));
            assert(wf_leaf_item(item, h));
            match item {
                LeafItem::SubTier(t) => {
                    assert(next_off_leaf(item, h) == next_off_tier(*t));
                    assert(t.base as int == h - 8);
                    lemma_next_off_tier_le_span(*t);
                },
                LeafItem::Stub(_) => {
                    assert(next_off_leaf(item, h) == pow4(h));
                },
                LeafItem::Note(_) => {
                    lemma_pow4_pos(h);
                    assert(next_off_leaf(item, h) == 1);
                    assert(next_off_leaf(item, h) <= pow4(h));
                },
            }
            assert(next_off_leaf(item, h) <= pow4(h));
        },
        ActiveNode::Internal { siblings, focus, .. } => {
            lemma_pow4_pos(h - 1);
            let w = pow4(h - 1);
            let s = sib_count(siblings);
            assert(0 <= s <= 3);
            assert(next_off_active(n, h) == s * w + next_off_active(*focus, h - 1));
            lemma_mul_le(s, 3, w);
            assert(pow4(h) == 4 * w);
        },
    }
}

pub proof fn lemma_next_off_tier_le_span(t: Tier)
    requires
        wf_tier(t),
    ensures
        next_off_tier(t) <= pow4(t.base + 8),
    decreases t,
{
    match t.inner {
        Inner::Active(o) => match o {
            Option::None => lemma_pow4_pos(t.base + 8),
            Option::Some(n) => lemma_next_off_active_le_span(*n, t.base + 8, t.base as int),
        },
        Inner::Complete(_) => {},
        Inner::Hash(_) => {},
    }
}

// A kept entry lies strictly left of the frontier: its offset is within the
// span of a frozen subtree, and below the frontier offset of an active one.

pub proof fn lemma_kept_kid_bound(k: Kid, h: int, off: int)
    requires
        wf_kid(k, h),
        kept_kid(k, h, off) is Some,
    ensures
        0 <= off < pow4(h),
    decreases k,
{
    match k {
        Kid::Stub(_) => {},
        Kid::Keep(n) => lemma_kept_complete_bound(*n, h, off),
    }
}

pub proof fn lemma_kept_complete_bound(n: CompleteNode, h: int, off: int)
    requires
        wf_complete(n, h),
        kept_complete(n, h, off) is Some,
    ensures
        0 <= off < pow4(h),
    decreases n,
{
    match n {
        CompleteNode::Leaf { commitment } => {
            assert(kept_complete(n, h, off) == if off == 0 {
                Option::Some(commitment@)
            } else {
                Option::<Seq<u8>>::None
            });
            assert(off == 0 && h == 0);
            lemma_pow4_pos(h);
        },
        CompleteNode::Internal { four, .. } => {
            let w = pow4(h - 1);
            lemma_pow4_pos(h - 1);
            lemma_digit(off, w);
            assert(pow4(h) == 4 * pow4(h - 1));
            let j = off / w;
            let r = off % w;
            if j == 0 {
                assert(kept_complete(n, h, off) == kept_kid(four.k0, h - 1, r));
                lemma_kept_kid_bound(four.k0, h - 1, r);
                assert(w * j == 0) by (nonlinear_arith)
                    requires
                        j == 0,
                ;
                assert(0 <= off < pow4(h));
            } else if j == 1 {
                assert(kept_complete(n, h, off) == kept_kid(four.k1, h - 1, r));
                lemma_kept_kid_bound(four.k1, h - 1, r);
                assert(w * j == w) by (nonlinear_arith)
                    requires
                        j == 1,
                ;
                assert(0 <= off < pow4(h));
            } else if j == 2 {
                assert(kept_complete(n, h, off) == kept_kid(four.k2, h - 1, r));
                lemma_kept_kid_bound(four.k2, h - 1, r);
                assert(w * j == 2 * w) by (nonlinear_arith)
                    requires
                        j == 2,
                ;
                assert(0 <= off < pow4(h));
            } else if j == 3 {
                assert(kept_complete(n, h, off) == kept_kid(four.k3, h - 1, r));
                lemma_kept_kid_bound(four.k3, h - 1, r);
                assert(w * j == 3 * w) by (nonlinear_arith)
                    requires
                        j == 3,
                ;
                assert(0 <= off < pow4(h));
            } else {
                assert(kept_complete(n, h, off) is None);
            }
        },
    }
}

pub proof fn lemma_kept_active_bound(n: ActiveNode, h: int, base: int, off: int)
    requires
        wf_active(n, h, base),
        0 <= base,
        kept_active(n, h, off) is Some,
    ensures
        0 <= off < next_off_active(n, h),
    decreases n,
{
    match n {
        ActiveNode::Leaf { item, .. } => {
            assert(kept_active(n, h, off) == kept_leaf_item(item, off));
            assert(next_off_active(n, h) == next_off_leaf(item, h));
            assert(wf_leaf_item(item, h));
            match item {
                LeafItem::SubTier(t) => {
                    assert(kept_leaf_item(item, off) == kept_tier(*t, off));
                    assert(next_off_leaf(item, h) == next_off_tier(*t));
                    lemma_kept_tier_bound(*t, off);
                },
                LeafItem::Stub(_) => {},
                LeafItem::Note(_) => {},
            }
        },
        ActiveNode::Internal { siblings, focus, .. } => {
            let w = pow4(h - 1);
            lemma_pow4_pos(h - 1);
            lemma_digit(off, w);
            let j = off / w;
            let r = off % w;
            let s = sib_count(siblings);
            lemma_next_off_active_nonneg(*focus, h - 1);
            assert(next_off_active(n, h) == s * w + next_off_active(*focus, h - 1));
            if 0 <= j < s {
                lemma_kept_kid_bound(sib(siblings, j), h - 1, r);
                lemma_mul_le(0, j, w);
                lemma_mul_le(j + 1, s, w);
                assert(j * w + w == (j + 1) * w) by (nonlinear_arith);
                assert(off == w * j + r);
                assert(off < s * w);
            } else {
                assert(j == s);
                lemma_kept_active_bound(*focus, h - 1, base, r);
                lemma_mul_le(0, s, w);
                assert(off == w * s + r);
            }
        },
    }
}

pub proof fn lemma_kept_tier_bound(t: Tier, off: int)
    requires
        wf_tier(t),
        kept_tier(t, off) is Some,
    ensures
        0 <= off < next_off_tier(t),
    decreases t,
{
    match t.inner {
        Inner::Active(o) => match o {
            Option::None => {},
            Option::Some(n) => lemma_kept_active_bound(*n, t.base + 8, t.base as int, off),
        },
        Inner::Complete(c) => lemma_kept_complete_bound(*c, t.base + 8, off),
        Inner::Hash(_) => {},
    }
}

/// Powers multiply: a subtree of height `a + b` spans `pow4(a)` spans of
/// `pow4(b)`.
pub proof fn lemma_pow4_add(a: int, b: int)
    requires
        0 <= a,
        0 <= b,
    ensures
        pow4(a + b) == pow4(a) * pow4(b),
    decreases a,
{
    if a == 0 {
        assert(pow4(b) == 1 * pow4(b)) by (nonlinear_arith);
    } else {
        lemma_pow4_add(a - 1, b);
        assert(pow4(a + b) == 4 * pow4(a - 1 + b));
        assert(4 * (pow4(a - 1) * pow4(b)) == (4 * pow4(a - 1)) * pow4(b)) by (nonlinear_arith);
    }
}

/// Is this item one that keeps a witness, as opposed to a bare hash?
pub open spec fn is_keep_item(item: LeafItem) -> bool {
    match item {
        LeafItem::Note(_) => true,
        LeafItem::SubTier(_) => true,
        LeafItem::Stub(_) => false,
    }
}

/// A well-formed leaf item's kept entries lie below its frontier offset.
pub proof fn lemma_kept_leaf_item_bound(item: LeafItem, h: int, off: int)
    requires
        wf_leaf_item(item, h),
        kept_leaf_item(item, off) is Some,
    ensures
        0 <= off < next_off_leaf(item, h),
{
    match item {
        LeafItem::Note(_) => {},
        LeafItem::Stub(_) => {},
        LeafItem::SubTier(t) => {
            assert(kept_leaf_item(item, off) == kept_tier(*t, off));
            assert(next_off_leaf(item, h) == next_off_tier(*t));
            lemma_kept_tier_bound(*t, off);
        },
    }
}

/// A leaf item's frontier offset is bounded by its span.
pub proof fn lemma_next_off_leaf_le_span(item: LeafItem, h: int)
    requires
        wf_leaf_item(item, h),
    ensures
        next_off_leaf(item, h) <= pow4(h),
        next_off_leaf(item, h) >= 0,
{
    match item {
        LeafItem::Note(_) => {
            lemma_pow4_pos(h);
        },
        LeafItem::Stub(_) => {
            lemma_pow4_pos(h);
        },
        LeafItem::SubTier(t) => {
            assert(next_off_leaf(item, h) == next_off_tier(*t));
            assert(t.base as int == h - 8);
            lemma_next_off_tier_le_span(*t);
            lemma_next_off_tier_nonneg(*t);
        },
    }
}

// Computing hashes. A frozen internal node carries its hash, so only the
// focus path is ever recomputed.

pub(crate) fn kid_hash(k: &Kid, Ghost(h): Ghost<int>) -> (r: crate::hash::Hash)
    requires
        wf_kid(*k, h),
    ensures
        r@ == hash_kid(*k),
{
    match k {
        Kid::Stub(s) => *s,
        Kid::Keep(n) => complete_hash(n, Ghost(h)),
    }
}

pub(crate) fn complete_hash(n: &CompleteNode, Ghost(h): Ghost<int>) -> (r: crate::hash::Hash)
    requires
        wf_complete(*n, h),
    ensures
        r@ == hash_complete(*n),
{
    match n {
        CompleteNode::Leaf { commitment } => crate::hash::Hash::of(*commitment),
        CompleteNode::Internal { cache, .. } => *cache,
    }
}

pub(crate) fn leaf_item_hash(item: &LeafItem, Ghost(h): Ghost<int>) -> (r: crate::hash::Hash)
    requires
        wf_leaf_item(*item, h),
    ensures
        r@ == hash_leaf_item(*item),
    decreases *item,
{
    match item {
        LeafItem::Note(c) => crate::hash::Hash::of(*c),
        LeafItem::Stub(s) => *s,
        LeafItem::SubTier(t) => tier_hash(t),
    }
}

pub(crate) fn active_hash(n: &ActiveNode, Ghost(h): Ghost<int>, Ghost(base): Ghost<int>) -> (r:
    crate::hash::Hash)
    requires
        wf_active(*n, h, base),
    ensures
        r@ == hash_active(*n),
    decreases *n,
{
    match n {
        ActiveNode::Leaf { item, .. } => leaf_item_hash(item, Ghost(h)),
        ActiveNode::Internal { height, siblings, focus } => {
            let f = active_hash(focus, Ghost(h - 1), Ghost(base));
            let d = crate::hash::Hash::default();
            match siblings {
                Three::Zero => crate::hash::hash_node(*height, &f, &d, &d, &d),
                Three::One(a) => {
                    let ha = kid_hash(a, Ghost(h - 1));
                    crate::hash::hash_node(*height, &ha, &f, &d, &d)
                },
                Three::Two(a, b) => {
                    let ha = kid_hash(a, Ghost(h - 1));
                    let hb = kid_hash(b, Ghost(h - 1));
                    crate::hash::hash_node(*height, &ha, &hb, &f, &d)
                },
                Three::Full(a, b, c) => {
                    let ha = kid_hash(a, Ghost(h - 1));
                    let hb = kid_hash(b, Ghost(h - 1));
                    let hc = kid_hash(c, Ghost(h - 1));
                    crate::hash::hash_node(*height, &ha, &hb, &hc, &f)
                },
            }
        },
    }
}

/// The root hash of a tier: blank while empty, the hash of its top node
/// otherwise.
pub fn tier_hash(t: &Tier) -> (r: crate::hash::Hash)
    requires
        wf_tier(*t),
    ensures
        r@ == hash_tier(*t),
    decreases *t,
{
    match &t.inner {
        Inner::Active(o) => match o {
            Option::None => crate::hash::Hash::default(),
            Option::Some(n) => active_hash(n, Ghost(t.base + 8), Ghost(t.base as int)),
        },
        Inner::Complete(c) => complete_hash(c, Ghost(t.base + 8)),
        Inner::Hash(s) => *s,
    }
}


// Freezing. An active subtree is promoted to a complete one (or collapses
// to a bare hash when no witness survives) without changing its hash or its
// kept contents.

/// The kept contents of four child slots laid side by side under one node
/// at height `h`.
pub open spec fn kept_four(k0: Kid, k1: Kid, k2: Kid, k3: Kid, h: int, off: int) -> Option<
    Seq<u8>,
> {
    let w = pow4(h - 1);
    let j = off / w;
    let r = off % w;
    if j == 0 {
        kept_kid(k0, h - 1, r)
    } else if j == 1 {
        kept_kid(k1, h - 1, r)
    } else if j == 2 {
        kept_kid(k2, h - 1, r)
    } else if j == 3 {
        kept_kid(k3, h - 1, r)
    } else {
        Option::None
    }
}

/// Build a complete node from four frozen slots, or collapse to a bare hash
/// when none of them keeps a witness. Either way the result hashes to the
/// node hash of the four slots, and keeps exactly what they kept.
pub(crate) fn from_four(height: u8, k0: Kid, k1: Kid, k2: Kid, k3: Kid, Ghost(h): Ghost<int>) -> (r:
    Kid)
    requires
        height as int == h,
        1 <= h <= 24,
        wf_kid(k0, h - 1),
        wf_kid(k1, h - 1),
        wf_kid(k2, h - 1),
        wf_kid(k3, h - 1),
    ensures
        wf_kid(r, h),
        hash_kid(r) == node_hash(h, hash_kid(k0), hash_kid(k1), hash_kid(k2), hash_kid(k3)),
        forall|off: int| #[trigger]
            kept_kid(r, h, off) == kept_four(k0, k1, k2, k3, h, off),
        r is Keep <==> (k0 is Keep || k1 is Keep || k2 is Keep || k3 is Keep),
        r matches Kid::Keep(c) ==> (*c matches CompleteNode::Internal { height: h2, four: f, .. }
            && h2 == height && f.k0 == k0 && f.k1 == k1 && f.k2 == k2 && f.k3 == k3),
{
    let h0 = kid_hash(&k0, Ghost(h - 1));
    let h1 = kid_hash(&k1, Ghost(h - 1));
    let h2 = kid_hash(&k2, Ghost(h - 1));
    let h3 = kid_hash(&k3, Ghost(h - 1));
    let combined = crate::hash::hash_node(height, &h0, &h1, &h2, &h3);
    let all_stub = matches!(k0, Kid::Stub(_)) && matches!(k1, Kid::Stub(_)) && matches!(
        k2,
        Kid::Stub(_),
    ) && matches!(k3, Kid::Stub(_));
    if all_stub {
        let r = Kid::Stub(combined);
        proof {
            lemma_pow4_pos(h - 1);
            assert forall|off: int| #[trigger]
                kept_kid(r, h, off) == kept_four(k0, k1, k2, k3, h, off) by {
                let w = pow4(h - 1);
                let rr = off % w;
                assert(kept_kid(k0, h - 1, rr) is None);
                assert(kept_kid(k1, h - 1, rr) is None);
                assert(kept_kid(k2, h - 1, rr) is None);
                assert(kept_kid(k3, h - 1, rr) is None);
            }
        }
        r
    } else {
        let node = CompleteNode::Internal {
            height,
            four: Box::new(Four { k0, k1, k2, k3 }),
            cache: combined,
        };
        let r = Kid::Keep(Box::new(node));
        proof {
            assert(wf_complete(node, h));
            assert(hash_kid(r) == hash_complete(node));
            assert forall|off: int| #[trigger]
                kept_kid(r, h, off) == kept_four(k0, k1, k2, k3, h, off) by {
                assert(kept_kid(r, h, off) == kept_complete(node, h, off));
            }
        }
        r
    }
}

/// Freeze an active leaf's item into a frozen child slot.
pub(crate) fn finalize_leaf_item(item: LeafItem, Ghost(h): Ghost<int>) -> (r: Kid)
    requires
        wf_leaf_item(item, h),
        0 <= h,
    ensures
        wf_kid(r, h),
        hash_kid(r) == hash_leaf_item(item),
        forall|off: int| #[trigger] kept_kid(r, h, off) == kept_leaf_item(item, off),
        r is Stub <==> witnessless_item(item),
        eq_item_kid(item, r),
    decreases item,
{
    match item {
        LeafItem::Note(c) => {
            let r = Kid::Keep(Box::new(CompleteNode::Leaf { commitment: c }));
            proof {
                assert forall|off: int| #[trigger]
                    kept_kid(r, h, off) == kept_leaf_item(item, off) by {}
                assert(eq_item_kid(item, r) == eq_leaf_complete(item, CompleteNode::Leaf { commitment: c }));
                assert(eq_leaf_complete(item, CompleteNode::Leaf { commitment: c }));
            }
            r
        },
        LeafItem::Stub(s) => {
            proof {
                assert(eq_item_kid(item, Kid::Stub(s)) == (witnessless_item(item)
                    && hash_leaf_item(item) == s@));
            }
            Kid::Stub(s)
        },
        LeafItem::SubTier(t) => {
            let ghost gt = *t;
            let r = finalize_tier(*t);
            proof {
                assert forall|off: int| #[trigger]
                    kept_kid(r, h, off) == kept_leaf_item(item, off) by {
                    assert(kept_leaf_item(item, off) == kept_tier(gt, off));
                }
                assert(witnessless_item(item) == witnessless_tier(gt));
                assert(eq_item_kid(item, r) == eq_tier_kid(gt, r)) by {
                    match &r {
                        Kid::Stub(ss) => {
                            assert(eq_item_kid(item, r) == (witnessless_item(item)
                                && hash_leaf_item(item) == ss@));
                            assert(eq_tier_kid(gt, r) == (witnessless_item(
                                LeafItem::SubTier(Box::new(gt)),
                            ) && hash_leaf_item(LeafItem::SubTier(Box::new(gt))) == ss@));
                            assert(hash_leaf_item(item) == hash_tier(gt));
                            assert(hash_leaf_item(LeafItem::SubTier(Box::new(gt))) == hash_tier(
                                gt,
                            ));
                        },
                        Kid::Keep(c) => {
                            assert(eq_item_kid(item, r) == eq_leaf_complete(item, **c));
                            assert(eq_tier_kid(gt, r) == eq_leaf_complete(
                                LeafItem::SubTier(Box::new(gt)),
                                **c,
                            ));
                        },
                    }
                }
            }
            r
        },
    }
}

/// Freeze a whole tier: an untouched tier collapses to the blank hash, an
/// active one is frozen level by level, and a finished one is reused.
pub(crate) fn finalize_tier(t: Tier) -> (r: Kid)
    requires
        wf_tier(t),
    ensures
        wf_kid(r, t.base + 8),
        hash_kid(r) == hash_tier(t),
        forall|off: int| #[trigger] kept_kid(r, t.base + 8, off) == kept_tier(t, off),
        r is Stub <==> witnessless_tier(t),
        eq_tier_kid(t, r),
    decreases t,
{
    let base = t.base;
    let ghost gt = t;
    match t.inner {
        Inner::Active(o) => match o {
            Option::None => {
                let r = Kid::Stub(crate::hash::Hash::default());
                proof {
                    assert(hash_kid(r) == blank_hash());
                    assert(eq_tier_kid(gt, r) == (witnessless_item(LeafItem::SubTier(Box::new(gt)))
                        && hash_leaf_item(LeafItem::SubTier(Box::new(gt))) == blank_hash()));
                    assert(hash_leaf_item(LeafItem::SubTier(Box::new(gt))) == hash_tier(gt));
                    assert(witnessless_item(LeafItem::SubTier(Box::new(gt))) == witnessless_tier(
                        gt,
                    ));
                }
                r
            },
            Option::Some(n) => {
                let ghost gn = *n;
                let r = finalize_active(*n, Ghost(base + 8), Ghost(base as int));
                proof {
                    assert forall|off: int| #[trigger]
                        kept_kid(r, gt.base + 8, off) == kept_tier(gt, off) by {
                        assert(kept_tier(gt, off) == kept_active(gn, gt.base + 8, off));
                    }
                    assert(witnessless_tier(gt) == witnessless_active(gn));
                    assert(eq_tier_kid(gt, r) == eq_active_kid(gn, r)) by {
                        match &r {
                            Kid::Stub(ss) => {
                                assert(eq_tier_kid(gt, r) == (witnessless_item(
                                    LeafItem::SubTier(Box::new(gt)),
                                ) && hash_leaf_item(LeafItem::SubTier(Box::new(gt))) == ss@));
                                assert(hash_leaf_item(LeafItem::SubTier(Box::new(gt)))
                                    == hash_tier(gt));
                                assert(witnessless_item(LeafItem::SubTier(Box::new(gt)))
                                    == witnessless_tier(gt));
                                assert(hash_tier(gt) == hash_active(gn));
                                assert(eq_active_kid(gn, r) == (witnessless_active(gn)
                                    && hash_active(gn) == ss@));
                            },
                            Kid::Keep(c) => {
                                assert(eq_tier_kid(gt, r) == eq_leaf_complete(
                                    LeafItem::SubTier(Box::new(gt)),
                                    **c,
                                ));
                                assert(eq_leaf_complete(LeafItem::SubTier(Box::new(gt)), **c)
                                    == eq_active_complete(gn, **c));
                            },
                        }
                    }
                }
                r
            },
        },
        Inner::Complete(c) => {
            let ghost gc = *c;
            let r = Kid::Keep(c);
            proof {
                assert forall|off: int| #[trigger]
                    kept_kid(r, gt.base + 8, off) == kept_tier(gt, off) by {}
                lemma_eq_complete_refl(gc);
                assert(eq_tier_kid(gt, r) == eq_leaf_complete(
                    LeafItem::SubTier(Box::new(gt)),
                    gc,
                ));
                assert(eq_leaf_complete(LeafItem::SubTier(Box::new(gt)), gc) == eq_complete(
                    gc,
                    gc,
                ));
            }
            r
        },
        Inner::Hash(s) => {
            proof {
                assert(eq_tier_kid(gt, Kid::Stub(s)) == (witnessless_item(
                    LeafItem::SubTier(Box::new(gt)),
                ) && hash_leaf_item(LeafItem::SubTier(Box::new(gt))) == s@));
                assert(hash_leaf_item(LeafItem::SubTier(Box::new(gt))) == hash_tier(gt));
                assert(witnessless_item(LeafItem::SubTier(Box::new(gt))) == witnessless_tier(gt));
            }
            Kid::Stub(s)
        },
    }
}

/// Freeze an active subtree, padding the slots to the right of the focus
/// with blank hashes.
pub(crate) fn finalize_active(n: ActiveNode, Ghost(h): Ghost<int>, Ghost(base): Ghost<int>) -> (r:
    Kid)
    requires
        wf_active(n, h, base),
        0 <= base <= 16,
    ensures
        wf_kid(r, h),
        hash_kid(r) == hash_active(n),
        forall|off: int| #[trigger] kept_kid(r, h, off) == kept_active(n, h, off),
        r is Stub <==> witnessless_active(n),
        eq_active_kid(n, r),
    decreases n,
{
    let ghost gn = n;
    match n {
        ActiveNode::Leaf { item, .. } => {
            let ghost gitem = item;
            proof {
                assert(wf_leaf_item(item, h));
            }
            let r = finalize_leaf_item(item, Ghost(h));
            proof {
                assert(hash_active(gn) == hash_leaf_item(gitem));
                assert forall|off: int| #[trigger]
                    kept_kid(r, h, off) == kept_active(gn, h, off) by {
                    assert(kept_active(gn, h, off) == kept_leaf_item(gitem, off));
                }
                assert(witnessless_active(gn) == witnessless_item(gitem));
                assert(eq_active_kid(gn, r) == eq_item_kid(gitem, r)) by {
                    match &r {
                        Kid::Stub(ss) => {
                            assert(eq_active_kid(gn, r) == (witnessless_active(gn)
                                && hash_active(gn) == ss@));
                            assert(eq_item_kid(gitem, r) == (witnessless_item(gitem)
                                && hash_leaf_item(gitem) == ss@));
                            assert(hash_active(gn) == hash_leaf_item(gitem));
                        },
                        Kid::Keep(c) => {
                            assert(eq_active_kid(gn, r) == eq_active_complete(gn, **c));
                            assert(eq_active_complete(gn, **c) == eq_leaf_complete(gitem, **c));
                        },
                    }
                }
            }
            r
        },
        ActiveNode::Internal { height, siblings, focus } => {
            let ghost old_n = ActiveNode::Internal { height, siblings: siblings, focus: focus };
            let ghost old_focus = *focus;
            let f = finalize_active(*focus, Ghost(h - 1), Ghost(base));
            let ghost gf = f;
            let d0 = Kid::Stub(crate::hash::Hash::default());
            let d1 = Kid::Stub(crate::hash::Hash::default());
            let d2 = Kid::Stub(crate::hash::Hash::default());
            proof {
                lemma_pow4_pos(h - 1);
                assert(stub_blank(d0) && stub_blank(d1) && stub_blank(d2));
            }
            let ghost gd0 = d0;
            let ghost gd1 = d1;
            let ghost gd2 = d2;
            let ghost s = sib_count(siblings);
            let ghost sibs = siblings;
            let r = match siblings {
                Three::Zero => from_four(height, f, d0, d1, d2, Ghost(h)),
                Three::One(a) => {
                    proof {
                        assert(wf_three(sibs, h - 1));
                    }
                    from_four(height, a, f, d0, d1, Ghost(h))
                },
                Three::Two(a, b) => {
                    proof {
                        assert(wf_three(sibs, h - 1));
                    }
                    from_four(height, a, b, f, d0, Ghost(h))
                },
                Three::Full(a, b, c) => {
                    proof {
                        assert(wf_three(sibs, h - 1));
                    }
                    from_four(height, a, b, c, f, Ghost(h))
                },
            };
            proof {
                assert(hash_kid(r) == hash_active(old_n));
                assert forall|off: int| #[trigger]
                    kept_kid(r, h, off) == kept_active(old_n, h, off) by {
                    let w = pow4(h - 1);
                    lemma_digit(off, w);
                    let j = off / w;
                    let rr = off % w;
                    assert(kept_active(old_n, h, off) == if 0 <= j < s {
                        kept_kid(sib(siblings, j), h - 1, rr)
                    } else if j == s {
                        kept_active(*focus, h - 1, rr)
                    } else {
                        Option::None
                    });
                }
                // the heterogeneous-equality law: the frozen form equals
                // the active one, and collapses to a bare hash exactly
                // when no witness survives anywhere in the subtree
                assert(witnessless_active(old_n) == (sibs_all_stub(sibs) && witnessless_active(
                    old_focus,
                )));
                match &r {
                    Kid::Stub(ss) => {
                        assert(gf is Stub);
                        match sibs {
                            Three::Zero => {},
                            Three::One(a) => {
                                assert(a is Stub);
                            },
                            Three::Two(a, b) => {
                                assert(a is Stub && b is Stub);
                            },
                            Three::Full(a, b, cc) => {
                                assert(a is Stub && b is Stub && cc is Stub);
                            },
                        }
                        assert(witnessless_active(old_n));
                        assert(hash_kid(r) == ss@);
                        assert(eq_active_kid(old_n, r) == (witnessless_active(old_n)
                            && hash_active(old_n) == ss@));
                    },
                    Kid::Keep(c) => {
                        assert(!witnessless_active(old_n)) by {
                            if witnessless_active(old_n) {
                                assert(gf is Stub);
                                match sibs {
                                    Three::Zero => {},
                                    Three::One(a) => {
                                        assert(a is Stub);
                                    },
                                    Three::Two(a, b) => {
                                        assert(a is Stub && b is Stub);
                                    },
                                    Three::Full(a, b, cc) => {
                                        assert(a is Stub && b is Stub && cc is Stub);
                                    },
                                }
                                assert(!(r is Keep));
                            }
                        }
                        assert(**c matches CompleteNode::Internal { height: h2, four: four, .. }
                            && h2 == height && (match sibs {
                            Three::Zero => four.k0 == gf && four.k1 == gd0 && four.k2 == gd1
                                && four.k3 == gd2,
                            Three::One(a) => four.k0 == a && four.k1 == gf && four.k2 == gd0
                                && four.k3 == gd1,
                            Three::Two(a, b) => four.k0 == a && four.k1 == b && four.k2 == gf
                                && four.k3 == gd0,
                            Three::Full(a, b, cc) => four.k0 == a && four.k1 == b && four.k2 == cc
                                && four.k3 == gf,
                        }));
                        match sibs {
                            Three::Zero => {},
                            Three::One(a) => {
                                lemma_eq_kid_refl(a);
                            },
                            Three::Two(a, b) => {
                                lemma_eq_kid_refl(a);
                                lemma_eq_kid_refl(b);
                            },
                            Three::Full(a, b, cc) => {
                                lemma_eq_kid_refl(a);
                                lemma_eq_kid_refl(b);
                                lemma_eq_kid_refl(cc);
                            },
                        }
                        assert(eq_active_kid(old_n, r) == eq_active_complete(old_n, **c));
                        assert(eq_active_complete(old_n, **c) == eq_active_kid(old_focus, gf));
                    },
                }
            }
            r
        },
    }
}

// Insertion. The frontier is a base-4 counter: inserting at a full focus
// freezes it, pushes it among the siblings, and opens a fresh spine.

/// In a well-formed active subtree, between 1 and `4^(h - base)` leaf slots
/// are consumed, and the frontier offset lies within the consumed slots.
pub proof fn lemma_leafslots_bounds(n: ActiveNode, h: int, base: int)
    requires
        wf_active(n, h, base),
        0 <= base,
    ensures
        1 <= leafslots_active(n, base) <= pow4(h - base),
        next_off_active(n, h) <= leafslots_active(n, base) * pow4(base),
        (leafslots_active(n, base) - 1) * pow4(base) <= next_off_active(n, h),
    decreases n,
{
    match n {
        ActiveNode::Leaf { item, .. } => {
            assert(leafslots_active(n, base) == 1);
            assert(next_off_active(n, h) == next_off_leaf(item, h));
            assert(wf_leaf_item(item, h));
            lemma_next_off_leaf_le_span(item, h);
            lemma_next_off_leaf_nonneg_helper(item, h);
            lemma_pow4_pos(h - base);
            assert(1 * pow4(base) == pow4(base)) by (nonlinear_arith);
            assert(0 * pow4(base) == 0) by (nonlinear_arith);
        },
        ActiveNode::Internal { siblings, focus, .. } => {
            let s = sib_count(siblings);
            let mm = pow4(h - 1 - base);
            let w = pow4(h - 1);
            let ww = pow4(base);
            lemma_leafslots_bounds(*focus, h - 1, base);
            let lf = leafslots_active(*focus, base);
            lemma_pow4_pos(h - 1 - base);
            lemma_pow4_pos(base);
            lemma_pow4_add(h - 1 - base, base);
            assert(w == mm * ww);
            assert(leafslots_active(n, base) == s * mm + lf);
            assert(next_off_active(n, h) == s * w + next_off_active(*focus, h - 1));
            assert(0 <= s <= 3);
            lemma_mul_le(0, s, mm);
            assert(1 <= s * mm + lf);
            assert(pow4(h - base) == 4 * mm);
            lemma_mul_le(s, 3, mm);
            assert(s * mm + lf <= 4 * mm);
            assert((s * mm + lf) * ww == s * (mm * ww) + lf * ww) by (nonlinear_arith);
            lemma_mul_le(0, s, w);
            assert(next_off_active(*focus, h - 1) <= lf * ww);
            assert(s * w == s * (mm * ww)) by (nonlinear_arith)
                requires
                    w == mm * ww,
            ;
            assert((s * mm + lf - 1) * ww == s * (mm * ww) + (lf - 1) * ww)
                by (nonlinear_arith);
            assert((lf - 1) * ww <= next_off_active(*focus, h - 1));
        },
    }
}

/// Build a fresh active spine from the leaf at the tier's base up to the
/// given height, containing only the one item.
pub(crate) fn singleton(base: u8, h: u8, item: LeafItem) -> (r: ActiveNode)
    requires
        base == 0 || base == 8 || base == 16,
        base <= h <= base + 8,
        wf_leaf_item(item, base as int),
    ensures
        wf_active(r, h as int, base as int),
        leafslots_active(r, base as int) == 1,
        next_off_active(r, h as int) == next_off_leaf(item, base as int),
        focus_item(r) == item,
        forall|off: int| #[trigger] kept_active(r, h as int, off) == kept_leaf_item(item, off),
    decreases h,
{
    if h == base {
        let r = ActiveNode::Leaf { height: h, item };
        proof {
            assert forall|off: int| #[trigger]
                kept_active(r, h as int, off) == kept_leaf_item(item, off) by {}
        }
        r
    } else {
        let ghost spec_item = item;
        let f = singleton(base, h - 1, item);
        let r = ActiveNode::Internal { height: h, siblings: Three::Zero, focus: Box::new(f) };
        proof {
            let hh = h as int;
            let bb = base as int;
            let w = pow4(hh - 1);
            lemma_pow4_pos(hh - 1);
            lemma_pow4_mono(bb, hh - 1);
            lemma_next_off_leaf_le_span(spec_item, bb);
            assert(next_off_active(f, hh - 1) <= pow4(hh - 1));
            assert(wf_active(r, hh, bb));
            assert(0 * pow4(hh - 1 - bb) == 0) by (nonlinear_arith);
            assert(leafslots_active(r, bb) == 1);
            assert(0 * w == 0) by (nonlinear_arith);
            assert(next_off_active(r, hh) == next_off_active(f, hh - 1));
            assert forall|off: int| #[trigger]
                kept_active(r, hh, off) == kept_leaf_item(spec_item, off) by {
                lemma_digit(off, w);
                let j = off / w;
                let rr = off % w;
                assert(kept_active(r, hh, off) == if j == 0 {
                    kept_active(f, hh - 1, rr)
                } else {
                    Option::None
                });
                if j == 0 {
                    assert(w * j == 0) by (nonlinear_arith)
                        requires
                            j == 0,
                    ;
                    assert(off == rr);
                } else {
                    if kept_leaf_item(spec_item, off) is Some {
                        lemma_kept_leaf_item_bound(spec_item, bb, off);
                        lemma_pow4_mono(bb, hh - 1);
                        lemma_digit_converse(0, off, w);
                        assert(0 * w + off == off) by (nonlinear_arith);
                        assert(false);
                    }
                }
            }
        }
        r
    }
}

/// What an insertion into an active subtree produced: the updated subtree,
/// or — when it was already full — the frozen subtree and the unconsumed
/// item, handed back for the caller to place one level up.
pub enum InsertOutcome {
    Kept(ActiveNode),
    Full { complete: Kid, item: LeafItem },
}

/// Insert one item at the frontier of an active subtree.
pub(crate) fn active_insert(n: ActiveNode, item: LeafItem, base: u8, Ghost(h): Ghost<int>) -> (r:
    InsertOutcome)
    requires
        wf_active(n, h, base as int),
        wf_leaf_item(item, base as int),
        base == 0 || base == 8 || base == 16,
        base <= h <= base + 8,
    ensures
        match r {
            InsertOutcome::Kept(n2) => {
                &&& wf_active(n2, h, base as int)
                &&& focus_item(n2) == item
                &&& leafslots_active(n, base as int) < pow4(h - base)
                &&& leafslots_active(n2, base as int) == leafslots_active(n, base as int) + 1
                &&& next_off_active(n2, h) == leafslots_active(n, base as int) * pow4(base as int)
                    + next_off_leaf(item, base as int)
                &&& forall|off: int| #[trigger]
                    kept_active(n2, h, off) == (if off < leafslots_active(n, base as int) * pow4(
                        base as int,
                    ) {
                        kept_active(n, h, off)
                    } else {
                        kept_leaf_item(item, off - leafslots_active(n, base as int) * pow4(
                            base as int,
                        ))
                    })
            },
            InsertOutcome::Full { complete, item: item2 } => {
                &&& item2 == item
                &&& leafslots_active(n, base as int) == pow4(h - base)
                &&& wf_kid(complete, h)
                &&& hash_kid(complete) == hash_active(n)
                &&& forall|off: int| #[trigger] kept_kid(complete, h, off) == kept_active(n, h, off)
            },
        },
    decreases n,
{
    let ghost old_n = n;
    match n {
        ActiveNode::Leaf { height, item: old_item } => {
            proof {
                assert(wf_leaf_item(old_item, h));
            }
            let complete = finalize_leaf_item(old_item, Ghost(h));
            proof {
                assert(leafslots_active(old_n, base as int) == 1);
                assert(pow4(h - base) == 1);
                assert(hash_active(old_n) == hash_leaf_item(old_item));
                assert forall|off: int| #[trigger]
                    kept_kid(complete, h, off) == kept_active(old_n, h, off) by {
                    assert(kept_active(old_n, h, off) == kept_leaf_item(old_item, off));
                }
            }
            InsertOutcome::Full { complete, item }
        },
        ActiveNode::Internal { height, siblings, focus } => {
            let ghost sibs = siblings;
            let ghost old_focus = *focus;
            let ghost hh = h;
            let ghost bb = base as int;
            let ghost w = pow4(hh - 1);
            let ghost ww = pow4(bb);
            let ghost mm = pow4(hh - 1 - bb);
            let ghost s = sib_count(sibs);
            let ghost lf = leafslots_active(old_focus, bb);
            let ghost ls = leafslots_active(old_n, bb);
            proof {
                lemma_pow4_pos(hh - 1);
                lemma_pow4_pos(bb);
                lemma_pow4_pos(hh - 1 - bb);
                lemma_pow4_add(hh - 1 - bb, bb);
                assert(w == mm * ww);
                lemma_leafslots_bounds(old_focus, hh - 1, bb);
                assert(ls == s * mm + lf);
                assert(next_off_active(old_n, hh) == s * w + next_off_active(old_focus, hh - 1));
            }
            match active_insert(*focus, item, base, Ghost(h - 1)) {
                InsertOutcome::Kept(f2) => {
                    let ghost sf2 = f2;
                    let n2 = ActiveNode::Internal { height, siblings, focus: Box::new(f2) };
                    proof {
                        let nol = next_off_leaf(item, bb);
                        lemma_next_off_leaf_le_span(item, bb);
                        assert(leafslots_active(sf2, bb) == lf + 1);
                        assert(next_off_active(sf2, hh - 1) == lf * ww + nol);
                        // the new focus still fits under this node
                        assert(lf + 1 <= mm);
                        assert((lf + 1) * ww <= mm * ww) by (nonlinear_arith)
                            requires
                                lf + 1 <= mm,
                                ww >= 0,
                        ;
                        assert(lf * ww + nol <= (lf + 1) * ww) by (nonlinear_arith)
                            requires
                                nol <= ww,
                        ;
                        assert(next_off_active(sf2, hh - 1) <= pow4(hh - 1));
                        assert(wf_active(n2, hh, bb));
                        // slot counting
                        assert(leafslots_active(n2, bb) == s * mm + (lf + 1));
                        assert(ls < pow4(hh - bb)) by {
                            assert(pow4(hh - bb) == 4 * mm);
                            lemma_mul_le(s, 3, mm);
                            assert(lf < mm);
                        }
                        // the landing offset
                        let ll = ls * ww;
                        assert(ll == s * w + lf * ww) by (nonlinear_arith)
                            requires
                                ll == (s * mm + lf) * ww,
                                w == mm * ww,
                        ;
                        assert(next_off_active(n2, hh) == s * w + lf * ww + nol);
                        assert(next_off_active(n2, hh) == ll + nol);
                        // kept contents: everything old stays, the item lands at ll
                        assert forall|off: int| #[trigger]
                            kept_active(n2, hh, off) == (if off < ls * ww {
                                kept_active(old_n, hh, off)
                            } else {
                                kept_leaf_item(item, off - ls * ww)
                            }) by {
                            lemma_digit(off, w);
                            let j = off / w;
                            let rr = off % w;
                            assert(w * j == j * w) by (nonlinear_arith);
                            assert(kept_active(n2, hh, off) == if 0 <= j < s {
                                kept_kid(sib(sibs, j), hh - 1, rr)
                            } else if j == s {
                                kept_active(sf2, hh - 1, rr)
                            } else {
                                Option::None
                            });
                            assert(kept_active(old_n, hh, off) == if 0 <= j < s {
                                kept_kid(sib(sibs, j), hh - 1, rr)
                            } else if j == s {
                                kept_active(old_focus, hh - 1, rr)
                            } else {
                                Option::None
                            });
                            if 0 <= j < s {
                                lemma_mul_le(j + 1, s, w);
                                assert(j * w + w == (j + 1) * w) by (nonlinear_arith);
                                assert(off < s * w);
                                lemma_mul_le(0, lf, ww);
                                assert(off < ll);
                            } else if j == s {
                                assert(off == s * w + rr);
                                assert(off < ll <==> rr < lf * ww);
                                assert(off - ll == rr - lf * ww);
                            } else {
                                // beyond the frontier on both sides
                                if j > s {
                                    assert(lf * ww + ww <= w) by (nonlinear_arith)
                                        requires
                                            lf + 1 <= mm,
                                            ww >= 1,
                                            w == mm * ww,
                                    ;
                                    lemma_mul_le(s + 1, j, w);
                                    assert(s * w + w == (s + 1) * w) by (nonlinear_arith);
                                    assert(off >= s * w + w);
                                    assert(off >= ll);
                                    if kept_leaf_item(item, off - ll) is Some {
                                        lemma_kept_leaf_item_bound(item, bb, off - ll);
                                        assert(off < ll + ww);
                                        assert(false);
                                    }
                                } else {
                                    // off is negative
                                    assert(off < 0);
                                    lemma_mul_le(0, ls, ww);
                                    if kept_active(old_n, hh, off) is Some {
                                        lemma_kept_active_bound(old_n, hh, bb, off);
                                        assert(false);
                                    }
                                }
                            }
                        }
                    }
                    InsertOutcome::Kept(n2)
                },
                InsertOutcome::Full { complete, item: item2 } => {
                    proof {
                        assert(lf == mm);
                        assert(hash_kid(complete) == hash_active(old_focus));
                    }
                    match siblings {
                        Three::Full(a, b, c) => {
                            proof {
                                assert(wf_three(sibs, hh - 1));
                            }
                            let merged = from_four(height, a, b, c, complete, Ghost(h));
                            proof {
                                assert(ls == 3 * mm + mm);
                                assert(pow4(hh - bb) == 4 * mm);
                                assert(hash_active(old_n) == node_hash(
                                    hh,
                                    hash_kid(sib(sibs, 0)),
                                    hash_kid(sib(sibs, 1)),
                                    hash_kid(sib(sibs, 2)),
                                    hash_active(old_focus),
                                ));
                                assert forall|off: int| #[trigger]
                                    kept_kid(merged, hh, off) == kept_active(old_n, hh, off) by {
                                    lemma_digit(off, w);
                                    let j = off / w;
                                    let rr = off % w;
                                    assert(kept_kid(merged, hh, off) == kept_four(
                                        sib(sibs, 0),
                                        sib(sibs, 1),
                                        sib(sibs, 2),
                                        complete,
                                        hh,
                                        off,
                                    ));
                                    assert(kept_active(old_n, hh, off) == if 0 <= j < 3 {
                                        kept_kid(sib(sibs, j), hh - 1, rr)
                                    } else if j == 3 {
                                        kept_active(old_focus, hh - 1, rr)
                                    } else {
                                        Option::None
                                    });
                                }
                            }
                            InsertOutcome::Full { complete: merged, item: item2 }
                        },
                        Three::Zero => {
                            let f = singleton(base, height - 1, item2);
                            let n2 = ActiveNode::Internal {
                                height,
                                siblings: Three::One(complete),
                                focus: Box::new(f),
                            };
                            proof {
                                lemma_push_case(old_n, n2, complete, item2, hh, bb, 0);
                            }
                            InsertOutcome::Kept(n2)
                        },
                        Three::One(a) => {
                            let f = singleton(base, height - 1, item2);
                            let n2 = ActiveNode::Internal {
                                height,
                                siblings: Three::Two(a, complete),
                                focus: Box::new(f),
                            };
                            proof {
                                lemma_push_case(old_n, n2, complete, item2, hh, bb, 1);
                            }
                            InsertOutcome::Kept(n2)
                        },
                        Three::Two(a, b) => {
                            let f = singleton(base, height - 1, item2);
                            let n2 = ActiveNode::Internal {
                                height,
                                siblings: Three::Full(a, b, complete),
                                focus: Box::new(f),
                            };
                            proof {
                                lemma_push_case(old_n, n2, complete, item2, hh, bb, 2);
                            }
                            InsertOutcome::Kept(n2)
                        },
                    }
                },
            }
        },
    }
}

/// After the focus froze and was pushed among the siblings, the node keeps
/// everything it kept, and the fresh focus holds the item at the next slot.
pub proof fn lemma_push_case(
    old_n: ActiveNode,
    n2: ActiveNode,
    complete: Kid,
    item: LeafItem,
    h: int,
    base: int,
    s: int,
)
    requires
        0 <= base <= 16,
        base < h <= base + 8,
        old_n is Internal,
        n2 is Internal,
        old_n->Internal_height == n2->Internal_height,
        old_n->Internal_height as int == h,
        wf_active(old_n, h, base),
        0 <= s <= 2,
        sib_count(old_n->Internal_siblings) == s,
        sib_count(n2->Internal_siblings) == s + 1,
        forall|i: int| 0 <= i < s ==> sib(n2->Internal_siblings, i) == sib(old_n->Internal_siblings, i),
        sib(n2->Internal_siblings, s) == complete,
        wf_kid(complete, h - 1),
        hash_kid(complete) == hash_active(*old_n->Internal_focus),
        forall|off: int| #[trigger]
            kept_kid(complete, h - 1, off) == kept_active(*old_n->Internal_focus, h - 1, off),
        leafslots_active(*old_n->Internal_focus, base) == pow4(h - 1 - base),
        wf_active(*n2->Internal_focus, h - 1, base),
        leafslots_active(*n2->Internal_focus, base) == 1,
        next_off_active(*n2->Internal_focus, h - 1) == next_off_leaf(item, base),
        forall|off: int| #[trigger]
            kept_active(*n2->Internal_focus, h - 1, off) == kept_leaf_item(item, off),
        wf_leaf_item(item, base),
    ensures
        wf_active(n2, h, base),
        leafslots_active(old_n, base) < pow4(h - base),
        leafslots_active(n2, base) == leafslots_active(old_n, base) + 1,
        next_off_active(n2, h) == leafslots_active(old_n, base) * pow4(base) + next_off_leaf(
            item,
            base,
        ),
        forall|off: int| #[trigger]
            kept_active(n2, h, off) == (if off < leafslots_active(old_n, base) * pow4(base) {
                kept_active(old_n, h, off)
            } else {
                kept_leaf_item(item, off - leafslots_active(old_n, base) * pow4(base))
            }),
{
    let w = pow4(h - 1);
    let ww = pow4(base);
    let mm = pow4(h - 1 - base);
    lemma_pow4_pos(h - 1);
    lemma_pow4_pos(base);
    lemma_pow4_pos(h - 1 - base);
    lemma_pow4_add(h - 1 - base, base);
    assert(w == mm * ww);
    let sibs2 = n2->Internal_siblings;
    let f2 = *n2->Internal_focus;
    let old_focus = *old_n->Internal_focus;
    lemma_next_off_leaf_le_span(item, base);
    lemma_pow4_mono(base, h - 1);
    assert(wf_three(sibs2, h - 1)) by {
        assert(wf_three(old_n->Internal_siblings, h - 1));
        match sibs2 {
            Three::Zero => {},
            Three::One(a) => {
                assert(sib(sibs2, 0) == a);
            },
            Three::Two(a, b) => {
                assert(sib(sibs2, 0) == a && sib(sibs2, 1) == b);
                assert(sib(old_n->Internal_siblings, 0) == a);
            },
            Three::Full(a, b, c) => {
                assert(sib(sibs2, 0) == a && sib(sibs2, 1) == b && sib(sibs2, 2) == c);
                assert(sib(old_n->Internal_siblings, 0) == a);
                assert(sib(old_n->Internal_siblings, 1) == b);
            },
        }
    }
    assert(wf_active(n2, h, base));
    let ls = leafslots_active(old_n, base);
    assert(ls == s * mm + mm);
    assert(leafslots_active(n2, base) == (s + 1) * mm + 1);
    assert((s + 1) * mm == s * mm + mm) by (nonlinear_arith);
    assert(pow4(h - base) == 4 * mm);
    lemma_mul_le(s + 1, 3, mm);
    assert(ls < 4 * mm);
    assert(mm >= 1);
    assert(leafslots_active(n2, base) == ls + 1);
    let ll = ls * ww;
    assert(ll == (s + 1) * w) by (nonlinear_arith)
        requires
            ll == (s * mm + mm) * ww,
            w == mm * ww,
    ;
    assert(next_off_active(n2, h) == (s + 1) * w + next_off_leaf(item, base));
    assert forall|off: int| #[trigger]
        kept_active(n2, h, off) == (if off < ll {
            kept_active(old_n, h, off)
        } else {
            kept_leaf_item(item, off - ll)
        }) by {
        lemma_digit(off, w);
        let j = off / w;
        let rr = off % w;
        assert(w * j == j * w) by (nonlinear_arith);
        assert(kept_active(n2, h, off) == if 0 <= j < s + 1 {
            kept_kid(sib(sibs2, j), h - 1, rr)
        } else if j == s + 1 {
            kept_active(f2, h - 1, rr)
        } else {
            Option::None
        });
        assert(kept_active(old_n, h, off) == if 0 <= j < s {
            kept_kid(sib(old_n->Internal_siblings, j), h - 1, rr)
        } else if j == s {
            kept_active(old_focus, h - 1, rr)
        } else {
            Option::None
        });
        if 0 <= j < s {
            lemma_mul_le(j + 1, s + 1, w);
            assert(j * w + w == (j + 1) * w) by (nonlinear_arith);
            assert(off < (s + 1) * w);
            assert(sib(sibs2, j) == sib(old_n->Internal_siblings, j));
        } else if j == s {
            assert(off == s * w + rr);
            assert(s * w + w == (s + 1) * w) by (nonlinear_arith);
            assert(off < ll);
            assert(kept_kid(sib(sibs2, s), h - 1, rr) == kept_active(old_focus, h - 1, rr));
        } else if j == s + 1 {
            assert(off == (s + 1) * w + rr) by (nonlinear_arith)
                requires
                    off == w * j + rr,
                    j == s + 1,
            ;
            assert(off - ll == rr);
            assert(kept_active(f2, h - 1, rr) == kept_leaf_item(item, rr));
        } else if j > s + 1 {
            lemma_mul_le(s + 2, j, w);
            assert((s + 1) * w + w == (s + 2) * w) by (nonlinear_arith);
            assert(off >= (s + 1) * w + w);
            assert(off >= ll + w);
            if kept_leaf_item(item, off - ll) is Some {
                lemma_kept_leaf_item_bound(item, base, off - ll);
                assert(false);
            }
        } else {
            assert(off < 0);
            lemma_mul_le(0, s + 1, w);
            if kept_active(old_n, h, off) is Some {
                lemma_kept_active_bound(old_n, h, base, off);
                assert(false);
            }
        }
    }
}

/// Increment a 16-bit counter, wrapping at its capacity.
pub(crate) fn wrap_inc(x: u16) -> (r: u16)
    ensures
        r as int == (x as int + 1) % 0x10000,
{
    if x == 0xffff {
        proof {
            assert(0x10000int % 0x10000 == 0) by (nonlinear_arith);
        }
        0
    } else {
        proof {
            vstd::arithmetic::div_mod::lemma_small_mod((x + 1) as nat, 0x10000nat);
        }
        x + 1
    }
}

/// Insert one item at a tier's own leaf level: into the frontier if the
/// tier still has room, and otherwise freezing the tier and handing the
/// item back unconsumed.
pub fn tier_insert(t: &mut Tier, item: LeafItem) -> (r: Result<(), LeafItem>)
    requires
        wf_tier(*old(t)),
        wf_leaf_item(item, old(t).base as int),
    ensures
        wf_tier(*final(t)),
        final(t).base == old(t).base,
        match r {
            Result::Ok(_) => {
                &&& leafslots_tier(*old(t)) < pow4(8)
                &&& leafslots_tier(*final(t)) == leafslots_tier(*old(t)) + 1
                &&& next_off_tier(*final(t)) == leafslots_tier(*old(t)) * pow4(old(t).base as int)
                    + next_off_leaf(item, old(t).base as int)
                &&& forall|off: int| #[trigger]
                    kept_tier(*final(t), off) == (if off < leafslots_tier(*old(t)) * pow4(
                        old(t).base as int,
                    ) {
                        kept_tier(*old(t), off)
                    } else {
                        kept_leaf_item(item, off - leafslots_tier(*old(t)) * pow4(
                            old(t).base as int,
                        ))
                    })
                &&& final(t).len as int == (old(t).len as int + 1) % 0x10000
                &&& final(t).witnessed as int == if is_keep_item(item) {
                    (old(t).witnessed as int + 1) % 0x10000
                } else {
                    old(t).witnessed as int
                }
                &&& final(t).inner matches Inner::Active(Option::Some(n)) && focus_item(*n)
                    == item
            },
            Result::Err(item2) => {
                &&& item2 == item
                &&& leafslots_tier(*old(t)) == pow4(8)
                &&& leafslots_tier(*final(t)) == pow4(8)
                &&& hash_tier(*final(t)) == hash_tier(*old(t))
                &&& forall|off: int| #[trigger] kept_tier(*final(t), off) == kept_tier(*old(t), off)
                &&& next_off_tier(*final(t)) == pow4(old(t).base + 8)
                &&& final(t).len == old(t).len
                &&& final(t).witnessed == old(t).witnessed
                &&& !(final(t).inner is Active)
                &&& !(old(t).inner is Active) ==> *final(t) == *old(t)
            },
        },
{
    let ghost old_t = *t;
    let base = t.base;
    let ghost bb = base as int;
    let keeps = matches!(&item, LeafItem::Note(_)) || matches!(&item, LeafItem::SubTier(_));
    let mut inner = Inner::Active(Option::None);
    core::mem::swap(&mut t.inner, &mut inner);
    match inner {
        Inner::Complete(c) => {
            t.inner = Inner::Complete(c);
            proof {
                assert(kept_tier(*t, 0) == kept_tier(old_t, 0));
            }
            Result::Err(item)
        },
        Inner::Hash(s) => {
            t.inner = Inner::Hash(s);
            Result::Err(item)
        },
        Inner::Active(o) => match o {
            Option::None => {
                let n = singleton(base, base + 8, item);
                t.inner = Inner::Active(Option::Some(Box::new(n)));
                t.len = wrap_inc(t.len);
                if keeps {
                    t.witnessed = wrap_inc(t.witnessed);
                }
                proof {
                    lemma_pow4_pos(8);
                    lemma_pow4_pos(bb);
                    assert(leafslots_tier(old_t) == 0);
                    assert(0 * pow4(bb) == 0) by (nonlinear_arith);
                    assert(leafslots_tier(*t) == 1);
                    assert forall|off: int| #[trigger]
                        kept_tier(*t, off) == (if off < 0 {
                            kept_tier(old_t, off)
                        } else {
                            kept_leaf_item(item, off - 0)
                        }) by {
                        assert(kept_tier(*t, off) == kept_active(n, bb + 8, off));
                        assert(kept_active(n, bb + 8, off) == kept_leaf_item(item, off));
                        if off < 0 {
                            if kept_leaf_item(item, off) is Some {
                                lemma_kept_leaf_item_bound(item, bb, off);
                                assert(false);
                            }
                        }
                    }
                }
                Result::Ok(())
            },
            Option::Some(n) => {
                proof {
                    assert(wf_active(*n, bb + 8, bb));
                }
                let ghost old_n = *n;
                match active_insert(*n, item, base, Ghost(bb + 8)) {
                    InsertOutcome::Kept(n2) => {
                        let ghost sn2 = n2;
                        t.inner = Inner::Active(Option::Some(Box::new(n2)));
                        t.len = wrap_inc(t.len);
                        if keeps {
                            t.witnessed = wrap_inc(t.witnessed);
                        }
                        proof {
                            assert(leafslots_tier(old_t) == leafslots_active(old_n, bb));
                            assert(leafslots_tier(*t) == leafslots_active(sn2, bb));
                            assert(next_off_tier(*t) == next_off_active(sn2, bb + 8));
                            assert forall|off: int| #[trigger]
                                kept_tier(*t, off) == (if off < leafslots_tier(old_t) * pow4(bb) {
                                    kept_tier(old_t, off)
                                } else {
                                    kept_leaf_item(item, off - leafslots_tier(old_t) * pow4(bb))
                                }) by {
                                assert(kept_tier(*t, off) == kept_active(sn2, bb + 8, off));
                                assert(kept_tier(old_t, off) == kept_active(old_n, bb + 8, off));
                            }
                        }
                        Result::Ok(())
                    },
                    InsertOutcome::Full { complete, item: item2 } => {
                        let ghost ck = complete;
                        match complete {
                            Kid::Keep(c) => {
                                t.inner = Inner::Complete(c);
                            },
                            Kid::Stub(s) => {
                                t.inner = Inner::Hash(s);
                            },
                        }
                        proof {
                            assert(leafslots_tier(old_t) == leafslots_active(old_n, bb));
                            assert(hash_tier(old_t) == hash_active(old_n));
                            assert(hash_tier(*t) == hash_kid(ck));
                            assert forall|off: int| #[trigger]
                                kept_tier(*t, off) == kept_tier(old_t, off) by {
                                assert(kept_tier(*t, off) == kept_kid(ck, bb + 8, off));
                                assert(kept_tier(old_t, off) == kept_active(old_n, bb + 8, off));
                            }
                        }
                        Result::Err(item2)
                    },
                }
            },
        },
    }
}

// Inserting a single commitment reaches through the focus path: through
// the focused epoch and the focused block down to the innermost tier. The
// refusal, if any, names the tier that stood in the way.

/// Why a commitment could not be appended: the tier with the given base
/// was at capacity, or the focused slot at that base was inserted as a
/// bare root, so nothing can be appended beneath it.
#[derive(Clone, Copy, Debug, PartialEq, Eq)]
pub enum Refuse {
    FullAt(u8),
    ForgottenAt(u8),
}

pub open spec fn spine_refusal(n: ActiveNode, base: int) -> Option<Refuse>
    decreases n,
{
    match n {
        ActiveNode::Leaf { item, .. } => match item {
            LeafItem::SubTier(t) => tier_refusal(*t),
            LeafItem::Stub(_) => Option::Some(Refuse::ForgottenAt((base - 8) as u8)),
            LeafItem::Note(_) => Option::None,
        },
        ActiveNode::Internal { focus, .. } => spine_refusal(*focus, base),
    }
}

/// What stands in the way of appending one more commitment to this tier.
pub open spec fn tier_refusal(t: Tier) -> Option<Refuse>
    decreases t,
{
    match t.inner {
        Inner::Complete(_) => Option::Some(Refuse::FullAt(t.base)),
        Inner::Hash(_) => Option::Some(Refuse::FullAt(t.base)),
        Inner::Active(o) => match o {
            Option::None => Option::None,
            Option::Some(n) => if t.base == 0 {
                if leafslots_active(*n, 0) == pow4(8) {
                    Option::Some(Refuse::FullAt(0))
                } else {
                    Option::None
                }
            } else {
                spine_refusal(*n, t.base as int)
            },
        },
    }
}

/// The hash contributed by the newest leaf: the hash of the item at the
/// finest granularity present on the focus path — a commitment, or the
/// bare hash standing in for one. `None` while the tier is empty or
/// finished. A kept commitment and its forgotten form contribute the
/// same value here: the commitment's own hash.
pub open spec fn newest_leaf_hash(t: Tier) -> Option<Seq<u8>>
    decreases t, 0int,
{
    match t.inner {
        Inner::Active(o) => match o {
            Option::Some(n) => spine_leaf_hash(*n),
            Option::None => Option::None,
        },
        Inner::Complete(_) => Option::None,
        Inner::Hash(_) => Option::None,
    }
}

pub open spec fn spine_leaf_hash(n: ActiveNode) -> Option<Seq<u8>>
    decreases n, 1int,
{
    match n {
        ActiveNode::Leaf { item, .. } => item_leaf_hash(item),
        ActiveNode::Internal { focus, .. } => spine_leaf_hash(*focus),
    }
}

pub open spec fn item_leaf_hash(item: LeafItem) -> Option<Seq<u8>>
    decreases item, 2int,
{
    match item {
        LeafItem::Note(c) => Option::Some(c@),
        LeafItem::Stub(h) => Option::Some(h@),
        LeafItem::SubTier(t) => newest_leaf_hash(*t),
    }
}

/// A spine's newest leaf hash is decided entirely by its focused item.
pub proof fn lemma_spine_leaf_hash_focus(n: ActiveNode)
    ensures
        spine_leaf_hash(n) == item_leaf_hash(focus_item(n)),
    decreases n,
{
    match n {
        ActiveNode::Leaf { .. } => {},
        ActiveNode::Internal { focus, .. } => {
            lemma_spine_leaf_hash_focus(*focus);
        },
    }
}

/// A spine's refusal is decided entirely by its focused item.
pub proof fn lemma_spine_refusal_focus(n: ActiveNode, base: int)
    ensures
        spine_refusal(n, base) == (match focus_item(n) {
            LeafItem::SubTier(t) => tier_refusal(*t),
            LeafItem::Stub(_) => Option::Some(Refuse::ForgottenAt((base - 8) as u8)),
            LeafItem::Note(_) => Option::<Refuse>::None,
        }),
    decreases n,
{
    match n {
        ActiveNode::Leaf { .. } => {},
        ActiveNode::Internal { focus, .. } => {
            lemma_spine_refusal_focus(*focus, base);
        },
    }
}

/// In the innermost tier every insertion is a leaf, so the consumed slots
/// and the frontier offset coincide.
pub proof fn lemma_base0_next_off(n: ActiveNode, h: int)
    requires
        wf_active(n, h, 0),
    ensures
        next_off_active(n, h) == leafslots_active(n, 0),
    decreases n,
{
    match n {
        ActiveNode::Leaf { item, .. } => {
            assert(wf_leaf_item(item, h));
            assert(next_off_active(n, h) == next_off_leaf(item, h));
            match item {
                LeafItem::Note(_) => {},
                LeafItem::Stub(_) => {
                    assert(h == 0);
                },
                LeafItem::SubTier(_) => {
                    assert(false);
                },
            }
        },
        ActiveNode::Internal { siblings, focus, .. } => {
            lemma_base0_next_off(*focus, h - 1);
            assert(next_off_active(n, h) == sib_count(siblings) * pow4(h - 1) + next_off_active(
                *focus,
                h - 1,
            ));
            assert(leafslots_active(n, 0) == sib_count(siblings) * pow4(h - 1 - 0)
                + leafslots_active(*focus, 0));
        },
    }
}

/// Append one commitment (or its bare hash) to the innermost frontier
/// reached through this tier's focus path.
///
/// On success the new entry sits exactly at the old frontier offset, which
/// advances by one; nothing else kept in the tier moves. On refusal the
/// tier's hash, kept contents and frontier are unchanged — though a full
/// innermost tier is frozen in passing, which preserves all three.
pub fn tier_insert_commitment(t: &mut Tier, item: LeafItem) -> (r: Result<(), Refuse>)
    requires
        wf_tier(*old(t)),
        wf_leaf_item(item, 0),
        !(item is SubTier),
    ensures
        wf_tier(*final(t)),
        final(t).base == old(t).base,
        match r {
            Result::Ok(_) => {
                &&& tier_refusal(*old(t)) is None
                &&& next_off_tier(*old(t)) < pow4(old(t).base + 8)
                &&& next_off_tier(*final(t)) == next_off_tier(*old(t)) + 1
                &&& (next_off_tier(*final(t)) % pow4(8) != 0 ==> tier_refusal(*final(t)) is None)
                &&& (next_off_tier(*final(t)) % pow4(8) == 0 ==> tier_refusal(*final(t))
                    == Option::Some(Refuse::FullAt(0)))
                &&& newest_leaf_hash(*final(t)) == Option::Some(hash_leaf_item(item))
                &&& forall|off: int| #[trigger]
                    kept_tier(*final(t), off) == (if off == next_off_tier(*old(t)) {
                        kept_leaf_item(item, 0)
                    } else {
                        kept_tier(*old(t), off)
                    })
                &&& final(t).len as int == if old(t).base == 0 || old(t).inner matches Inner::Active(
                    Option::None,
                ) {
                    (old(t).len as int + 1) % 0x10000
                } else {
                    old(t).len as int
                }
                &&& final(t).witnessed as int == if (old(t).base == 0 && item is Note) || (old(
                    t,
                ).base != 0 && old(t).inner matches Inner::Active(Option::None)) {
                    (old(t).witnessed as int + 1) % 0x10000
                } else {
                    old(t).witnessed as int
                }
            },
            Result::Err(k) => {
                &&& tier_refusal(*old(t)) == Option::Some(k)
                &&& hash_tier(*final(t)) == hash_tier(*old(t))
                &&& next_off_tier(*final(t)) == next_off_tier(*old(t))
                &&& forall|off: int| #[trigger] kept_tier(*final(t), off) == kept_tier(*old(t), off)
                &&& final(t).len == old(t).len
                &&& final(t).witnessed == old(t).witnessed
            },
        },
    decreases old(t).base as int, 1int, 0int,
{
    let ghost old_t = *old(t);
    let base = t.base;
    let ghost bb = base as int;
    if base == 0 {
        let ghost spec_item = item;
        match tier_insert(t, item) {
            Result::Ok(_) => {
                proof {
                    lemma_pow4_pos(8);
                    let ls = leafslots_tier(old_t);
                    assert(next_off_tier(old_t) == ls) by {
                        match old_t.inner {
                            Inner::Active(o) => match o {
                                Option::None => {},
                                Option::Some(n) => {
                                    lemma_base0_next_off(*n, 8);
                                },
                            },
                            Inner::Complete(_) => {},
                            Inner::Hash(_) => {},
                        }
                    }
                    assert(ls * pow4(0) == ls) by (nonlinear_arith);
                    assert(next_off_leaf(spec_item, 0) == 1);
                    assert(tier_refusal(old_t) is None) by {
                        match old_t.inner {
                            Inner::Active(o) => {},
                            Inner::Complete(_) => {},
                            Inner::Hash(_) => {},
                        }
                    }
                    assert forall|off: int| #[trigger]
                        kept_tier(*t, off) == (if off == next_off_tier(old_t) {
                            kept_leaf_item(spec_item, 0)
                        } else {
                            kept_tier(old_t, off)
                        }) by {
                        if off < ls {
                        } else if off == ls {
                            assert(kept_tier(*t, off) == kept_leaf_item(spec_item, 0));
                        } else {
                            assert(kept_tier(*t, off) == kept_leaf_item(spec_item, off - ls));
                            assert(kept_leaf_item(spec_item, off - ls) is None);
                            if kept_tier(old_t, off) is Some {
                                lemma_kept_tier_bound(old_t, off);
                                lemma_next_off_tier_le_span(old_t);
                                assert(false);
                            }
                        }
                    }
                    let n2 = *t.inner->Active_0->Some_0;
                    lemma_base0_next_off(n2, 8);
                    assert(next_off_tier(*t) == leafslots_active(n2, 0));
                    lemma_leafslots_bounds(n2, 8, 0);
                    lemma_spine_leaf_hash_focus(n2);
                    assert(focus_item(n2) == spec_item);
                    assert(newest_leaf_hash(*t) == spine_leaf_hash(n2));
                    if next_off_tier(*t) % pow4(8) != 0 {
                        if leafslots_active(n2, 0) == pow4(8) {
                            vstd::arithmetic::div_mod::lemma_mod_multiples_basic(1, pow4(8));
                            assert(1 * pow4(8) == pow4(8)) by (nonlinear_arith);
                            assert(false);
                        }
                        assert(tier_refusal(*t) is None);
                    } else {
                        // the block just reached a boundary: it is exactly full
                        if leafslots_active(n2, 0) < pow4(8) {
                            vstd::arithmetic::div_mod::lemma_small_mod(
                                leafslots_active(n2, 0) as nat,
                                pow4(8) as nat,
                            );
                            assert(false);
                        }
                        assert(leafslots_active(n2, 0) == pow4(8));
                        assert(tier_refusal(*t) == Option::Some(Refuse::FullAt(0)));
                    }
                }
                Result::Ok(())
            },
            Result::Err(_) => {
                proof {
                    assert(leafslots_tier(old_t) == pow4(8));
                    assert(tier_refusal(old_t) == Option::Some(Refuse::FullAt(0u8))) by {
                        match old_t.inner {
                            Inner::Active(o) => match o {
                                Option::None => {
                                    lemma_pow4_pos(8);
                                },
                                Option::Some(n) => {},
                            },
                            Inner::Complete(_) => {},
                            Inner::Hash(_) => {},
                        }
                    }
                    assert(next_off_tier(*t) == pow4(old_t.base + 8));
                    assert(next_off_tier(old_t) == pow4(old_t.base + 8)) by {
                        match old_t.inner {
                            Inner::Active(o) => match o {
                                Option::None => {
                                    lemma_pow4_pos(8);
                                },
                                Option::Some(n) => {
                                    lemma_base0_next_off(*n, 8);
                                },
                            },
                            Inner::Complete(_) => {},
                            Inner::Hash(_) => {},
                        }
                    }
                }
                Result::Err(Refuse::FullAt(0))
            },
        }
    } else {
        // an outer tier: reach through the focused leaf
        let ghost spec_item = item;
        let is_empty = matches!(&t.inner, Inner::Active(Option::None));
        if is_empty {
            let mut sub = Tier { base: base - 8, len: 0, witnessed: 0, inner: Inner::Active(Option::None) };
            let ghost empty_sub = sub;
            let inner_r = tier_insert_commitment(&mut sub, item);
            proof {
                assert(tier_refusal(empty_sub) is None);
                assert(inner_r is Ok);
                assert(next_off_tier(empty_sub) == 0);
            }
            match inner_r {
                Result::Ok(_) => {},
                Result::Err(_) => {
                    proof {
                        assert(false);
                    }
                    return Result::Err(Refuse::FullAt(base));
                },
            }
            let ghost filled_sub = sub;
            let leaf = LeafItem::SubTier(Box::new(sub));
            proof {
                assert(wf_leaf_item(leaf, bb));
                assert(leafslots_tier(old_t) == 0);
                assert(next_off_tier(old_t) == 0);
            }
            proof {
                lemma_pow4_pos(8);
            }
            let r2 = tier_insert(t, leaf);
            proof {
                assert(leafslots_tier(old_t) == 0);
                assert(r2 is Ok);
                lemma_pow4_pos(bb);
                assert(0 * pow4(bb) == 0) by (nonlinear_arith);
                assert(next_off_leaf(leaf, bb) == next_off_tier(filled_sub));
                assert(next_off_tier(filled_sub) == 1);
                assert(next_off_tier(*t) == 1);
                assert(pow4(bb + 8) > 1) by {
                    lemma_pow4_mono(1, bb + 8);
                    assert(pow4(0) == 1);
                    assert(pow4(1) == 4);
                }
                assert forall|off: int| #[trigger]
                    kept_tier(*t, off) == (if off == next_off_tier(old_t) {
                        kept_leaf_item(spec_item, 0)
                    } else {
                        kept_tier(old_t, off)
                    }) by {
                    if off < 0 {
                    } else if off == 0 {
                        assert(kept_tier(*t, off) == kept_leaf_item(leaf, 0));
                        assert(kept_leaf_item(leaf, 0) == kept_tier(filled_sub, 0));
                        assert(kept_tier(filled_sub, 0) == kept_leaf_item(spec_item, 0));
                    } else {
                        assert(kept_tier(*t, off) == kept_leaf_item(leaf, off));
                        assert(kept_leaf_item(leaf, off) == kept_tier(filled_sub, off));
                        assert(kept_tier(filled_sub, off) == kept_tier(empty_sub, off));
                    }
                }
                // the fresh chain still accepts: its one block holds one entry
                let chain = *t.inner->Active_0->Some_0;
                assert(focus_item(chain) == leaf);
                lemma_spine_refusal_focus(chain, bb);
                lemma_spine_leaf_hash_focus(chain);
                assert(newest_leaf_hash(*t) == spine_leaf_hash(chain));
                assert(newest_leaf_hash(filled_sub) == Option::Some(hash_leaf_item(spec_item)));
                assert(leaf == LeafItem::SubTier(Box::new(filled_sub)));
                assert(next_off_tier(filled_sub) == 1);
                assert(1int % pow4(8) == 1) by {
                    lemma_pow4_mono(1, 8);
                    assert(pow4(1) == 4) by {
                        reveal_with_fuel(pow4, 3);
                    }
                    vstd::arithmetic::div_mod::lemma_fundamental_div_mod_converse(
                        1,
                        pow4(8),
                        0,
                        1,
                    );
                }
                assert(tier_refusal(filled_sub) is None);
                assert(tier_refusal(*t) == spine_refusal(chain, bb));
                assert(tier_refusal(*t) is None);
            }
            match r2 {
                Result::Ok(_) => Result::Ok(()),
                Result::Err(_) => {
                    proof {
                        assert(false);
                    }
                    Result::Err(Refuse::FullAt(base))
                },
            }
        } else {
            let mut inner = Inner::Active(Option::None);
            core::mem::swap(&mut t.inner, &mut inner);
            match inner {
                Inner::Complete(c) => {
                    t.inner = Inner::Complete(c);
                    proof {
                        assert(kept_tier(*t, 0) == kept_tier(old_t, 0));
                    }
                    Result::Err(Refuse::FullAt(base))
                },
                Inner::Hash(s) => {
                    t.inner = Inner::Hash(s);
                    Result::Err(Refuse::FullAt(base))
                },
                Inner::Active(o) => match o {
                    Option::None => {
                        proof {
                            assert(false);
                        }
                        t.inner = Inner::Active(Option::None);
                        Result::Err(Refuse::FullAt(base))
                    },
                    Option::Some(n) => {
                        let ghost old_n = *n;
                        let ghost spec_item2 = item;
                        let (n2, r) = active_focus_insert(*n, item, base, Ghost(bb + 8));
                        let ghost sn2 = n2;
                        t.inner = Inner::Active(Option::Some(Box::new(n2)));
                        proof {
                            assert(next_off_tier(old_t) == next_off_active(old_n, bb + 8));
                            assert(tier_refusal(old_t) == spine_refusal(old_n, bb));
                            assert(wf_tier(*t));
                            assert(next_off_tier(*t) == next_off_active(sn2, bb + 8));
                            assert(tier_refusal(*t) == spine_refusal(sn2, bb));
                            assert(newest_leaf_hash(*t) == spine_leaf_hash(sn2));
                            if r is Ok {
                                assert forall|off: int| #[trigger]
                                    kept_tier(*t, off) == (if off == next_off_tier(old_t) {
                                        kept_leaf_item(spec_item2, 0)
                                    } else {
                                        kept_tier(old_t, off)
                                    }) by {
                                    assert(kept_tier(*t, off) == kept_active(sn2, bb + 8, off));
                                    assert(kept_tier(old_t, off) == kept_active(old_n, bb + 8, off));
                                }
                            } else {
                                assert(hash_tier(*t) == hash_active(sn2));
                                assert(hash_tier(old_t) == hash_active(old_n));
                                assert forall|off: int| #[trigger]
                                    kept_tier(*t, off) == kept_tier(old_t, off) by {
                                    assert(kept_tier(*t, off) == kept_active(sn2, bb + 8, off));
                                    assert(kept_tier(old_t, off) == kept_active(old_n, bb + 8, off));
                                }
                            }
                        }
                        r
                    },
                },
            }
        }
    }
}

/// Reach down this focus spine to the focused leaf's nested tier and
/// append the commitment there.
pub(crate) fn active_focus_insert(n: ActiveNode, item: LeafItem, base: u8, Ghost(h): Ghost<int>) -> (res: (
    ActiveNode,
    Result<(), Refuse>,
))
    requires
        wf_active(n, h, base as int),
        wf_leaf_item(item, 0),
        !(item is SubTier),
        base == 8 || base == 16,
        base <= h <= base + 8,
    ensures
        wf_active(res.0, h, base as int),
        leafslots_active(res.0, base as int) == leafslots_active(n, base as int),
        match res.1 {
            Result::Ok(_) => {
                &&& spine_refusal(n, base as int) is None
                &&& next_off_active(n, h) < pow4(h)
                &&& next_off_active(res.0, h) == next_off_active(n, h) + 1
                &&& (next_off_active(res.0, h) % pow4(8) != 0 ==> spine_refusal(
                    res.0,
                    base as int,
                ) is None)
                &&& (next_off_active(res.0, h) % pow4(8) == 0 ==> spine_refusal(
                    res.0,
                    base as int,
                ) == Option::Some(Refuse::FullAt(0)))
                &&& spine_leaf_hash(res.0) == Option::Some(hash_leaf_item(item))
                &&& forall|off: int| #[trigger]
                    kept_active(res.0, h, off) == (if off == next_off_active(n, h) {
                        kept_leaf_item(item, 0)
                    } else {
                        kept_active(n, h, off)
                    })
            },
            Result::Err(k) => {
                &&& spine_refusal(n, base as int) == Option::Some(k)
                &&& hash_active(res.0) == hash_active(n)
                &&& next_off_active(res.0, h) == next_off_active(n, h)
                &&& forall|off: int| #[trigger]
                    kept_active(res.0, h, off) == kept_active(n, h, off)
            },
        },
    decreases base as int, 0int, h,
{
    let ghost old_n = n;
    match n {
        ActiveNode::Leaf { height, item: leaf_item } => {
            match leaf_item {
                LeafItem::Note(c) => {
                    proof {
                        assert(wf_leaf_item(old_n->Leaf_item, h));
                        assert(false);
                    }
                    (ActiveNode::Leaf { height, item: LeafItem::Note(c) }, Result::Err(
                        Refuse::FullAt(base),
                    ))
                },
                LeafItem::Stub(stub) => {
                    let n2 = ActiveNode::Leaf { height, item: LeafItem::Stub(stub) };
                    proof {
                        assert(n2 == old_n);
                        assert(spine_refusal(old_n, base as int) == Option::Some(
                            Refuse::ForgottenAt((base - 8) as u8),
                        ));
                        assert((base - 8) as u8 == base - 8);
                        assert forall|off: int| #[trigger]
                            kept_active(n2, h, off) == kept_active(old_n, h, off) by {}
                    }
                    (n2, Result::Err(Refuse::ForgottenAt(base - 8)))
                },
                LeafItem::SubTier(mut sub) => {
                    let ghost old_sub = *sub;
                    proof {
                        assert(wf_leaf_item(old_n->Leaf_item, h));
                        assert(wf_tier(old_sub));
                        assert(old_sub.base as int == h - 8);
                        assert(next_off_active(old_n, h) == next_off_leaf(old_n->Leaf_item, h));
                        assert(next_off_leaf(old_n->Leaf_item, h) == next_off_tier(old_sub));
                        assert(spine_refusal(old_n, base as int) == tier_refusal(old_sub));
                    }
                    let r = tier_insert_commitment(&mut *sub, item);
                    let ghost new_sub = *sub;
                    let n2 = ActiveNode::Leaf { height, item: LeafItem::SubTier(sub) };
                    proof {
                        assert(old_n is Leaf);
                        assert(wf_active(old_n, h, base as int));
                        assert(height as int == h);
                        assert(new_sub.base == old_sub.base);
                        assert(wf_leaf_item(n2->Leaf_item, h));
                        assert(wf_active(n2, h, base as int));
                        assert(leafslots_active(n2, base as int) == 1);
                        assert(leafslots_active(old_n, base as int) == 1);
                        assert(next_off_active(n2, h) == next_off_leaf(n2->Leaf_item, h));
                        assert(next_off_leaf(n2->Leaf_item, h) == next_off_tier(new_sub));
                        assert(next_off_active(n2, h) == next_off_tier(new_sub));
                        if r is Ok {
                            lemma_next_off_tier_le_span(old_sub);
                            assert(pow4(old_sub.base + 8) == pow4(h));
                            assert(spine_refusal(n2, base as int) == tier_refusal(new_sub));
                            assert(next_off_active(n2, h) == next_off_tier(new_sub));
                            assert(spine_leaf_hash(n2) == item_leaf_hash(n2->Leaf_item));
                            assert(item_leaf_hash(n2->Leaf_item) == newest_leaf_hash(new_sub));
                        } else {
                            assert(hash_tier(new_sub) == hash_tier(old_sub));
                            assert(hash_active(n2) == hash_leaf_item(n2->Leaf_item));
                            assert(hash_leaf_item(n2->Leaf_item) == hash_tier(new_sub));
                            assert(hash_active(old_n) == hash_leaf_item(old_n->Leaf_item));
                            assert(hash_active(n2) == hash_active(old_n));
                        }
                        assert forall|off: int| #[trigger]
                            kept_active(n2, h, off) == kept_tier(new_sub, off) by {
                            assert(kept_active(n2, h, off) == kept_leaf_item(n2->Leaf_item, off));
                        }
                        assert forall|off: int| #[trigger]
                            kept_active(old_n, h, off) == kept_tier(old_sub, off) by {
                            assert(kept_active(old_n, h, off) == kept_leaf_item(
                                old_n->Leaf_item,
                                off,
                            ));
                        }
                    }
                    (n2, r)
                },
            }
        },
        ActiveNode::Internal { height, siblings, focus } => {
            let ghost old_focus = *focus;
            let ghost sibs = old_n->Internal_siblings;
            let ghost s = sib_count(sibs);
            let ghost w = pow4(h - 1);
            let (f2, r) = active_focus_insert(*focus, item, base, Ghost(h - 1));
            let ghost sf2 = f2;
            let n2 = ActiveNode::Internal { height, siblings, focus: Box::new(f2) };
            proof {
                lemma_pow4_pos(h - 1);
                assert(n2->Internal_siblings == sibs);
                assert(spine_refusal(old_n, base as int) == spine_refusal(old_focus, base as int));
                assert(next_off_active(old_n, h) == s * w + next_off_active(old_focus, h - 1));
                assert(next_off_active(n2, h) == s * w + next_off_active(sf2, h - 1));
                assert(leafslots_active(n2, base as int) == leafslots_active(
                    old_n,
                    base as int,
                ));
                if r is Ok {
                    assert(next_off_active(sf2, h - 1) <= pow4(h - 1));
                    assert(wf_active(n2, h, base as int));
                    lemma_mul_le(s, 3, w);
                    assert(next_off_active(old_n, h) < pow4(h)) by {
                        assert(pow4(h) == 4 * w);
                        assert(s * w + next_off_active(old_focus, h - 1) < s * w + w);
                    }
                    // digits below the block width are untouched by the spine
                    let po8 = pow4(8);
                    lemma_pow4_pos(8);
                    assert(h - 1 >= 8);
                    lemma_pow4_add(h - 1 - 8, 8);
                    assert(w == pow4(h - 1 - 8) * po8);
                    assert(s * w == po8 * (s * pow4(h - 1 - 8))) by (nonlinear_arith)
                        requires
                            w == pow4(h - 1 - 8) * po8,
                    ;
                    vstd::arithmetic::div_mod::lemma_mod_multiples_vanish(
                        s * pow4(h - 1 - 8),
                        next_off_active(sf2, h - 1),
                        po8,
                    );
                    assert(next_off_active(n2, h) % po8 == next_off_active(sf2, h - 1) % po8);
                    assert(spine_refusal(n2, base as int) == spine_refusal(sf2, base as int));
                    assert(spine_leaf_hash(n2) == spine_leaf_hash(sf2));
                } else {
                    assert(wf_active(n2, h, base as int));
                    assert(hash_active(n2) == hash_active(old_n));
                }
                assert forall|off: int| #[trigger]
                    kept_active(n2, h, off) == (if r is Ok && off == next_off_active(old_n, h) {
                        kept_leaf_item(item, 0)
                    } else {
                        kept_active(old_n, h, off)
                    }) by {
                    lemma_digit(off, w);
                    let j = off / w;
                    let rr = off % w;
                    assert(w * j == j * w) by (nonlinear_arith);
                    assert(kept_active(n2, h, off) == if 0 <= j < s {
                        kept_kid(sib(sibs, j), h - 1, rr)
                    } else if j == s {
                        kept_active(sf2, h - 1, rr)
                    } else {
                        Option::None
                    });
                    assert(kept_active(old_n, h, off) == if 0 <= j < s {
                        kept_kid(sib(sibs, j), h - 1, rr)
                    } else if j == s {
                        kept_active(old_focus, h - 1, rr)
                    } else {
                        Option::None
                    });
                    if r is Ok {
                        let noff = next_off_active(old_focus, h - 1);
                        lemma_next_off_active_nonneg(old_focus, h - 1);
                        assert(next_off_active(old_n, h) == s * w + noff);
                        if j == s {
                            assert(off == s * w + rr);
                            assert(off == next_off_active(old_n, h) <==> rr == noff);
                        } else if 0 <= j < s {
                            lemma_mul_le(j + 1, s, w);
                            assert(j * w + w == (j + 1) * w) by (nonlinear_arith);
                            assert(off < s * w);
                            assert(off != next_off_active(old_n, h));
                        } else if j > s {
                            lemma_mul_le(s + 1, j, w);
                            assert(s * w + w == (s + 1) * w) by (nonlinear_arith);
                            assert(off >= s * w + w);
                            assert(noff < w);
                            assert(off != next_off_active(old_n, h));
                        } else {
                            assert(off < 0);
                            lemma_mul_le(0, s, w);
                            assert(off != next_off_active(old_n, h));
                        }
                    }
                }
            }
            (n2, r)
        },
    }
}

// Recomputing the frontier offset, used to keep the facade's position in
// step with the tree.

pub(crate) fn active_next_off(n: &ActiveNode, Ghost(h): Ghost<int>, Ghost(base): Ghost<int>) -> (r:
    u64)
    requires
        wf_active(*n, h, base),
        0 <= base <= 16,
        base <= h <= base + 8,
    ensures
        r as int == next_off_active(*n, h),
    decreases *n,
{
    match n {
        ActiveNode::Leaf { height, item } => {
            proof {
                assert(wf_leaf_item(*item, h));
                assert(*height as int == h);
                assert(next_off_active(*n, h) == next_off_leaf(*item, h));
            }
            match item {
                LeafItem::Note(_) => 1,
                LeafItem::Stub(_) => pow4_u64(*height),
                LeafItem::SubTier(t) => {
                    proof {
                        assert(wf_tier(**t));
                        assert(next_off_leaf(*item, h) == next_off_tier(**t));
                    }
                    tier_next_off(t)
                },
            }
        },
        ActiveNode::Internal { height, siblings, focus } => {
            let f = active_next_off(focus, Ghost(h - 1), Ghost(base));
            let s: u64 = match siblings {
                Three::Zero => 0,
                Three::One(_) => 1,
                Three::Two(_, _) => 2,
                Three::Full(_, _, _) => 3,
            };
            let w = pow4_u64(*height - 1);
            proof {
                lemma_pow4_pos(h - 1);
                lemma_next_off_active_le_span(*n, h, base);
                lemma_next_off_active_nonneg(**focus, h - 1);
                lemma_mul_le(0, s as int, w as int);
                assert(pow4(h) == 4 * pow4(h - 1));
                assert(pow4(h) <= pow4(24)) by {
                    lemma_pow4_mono(h, 24);
                }
                assert(pow4(24) == 0x1000000000000) by {
                    reveal_with_fuel(pow4, 25);
                }
            }
            s * w + f
        },
    }
}

/// The commitment slot at which the next insertion into this tier lands,
/// equal to its span once the tier is full or frozen.
pub fn tier_next_off(t: &Tier) -> (r: u64)
    requires
        wf_tier(*t),
    ensures
        r as int == next_off_tier(*t),
    decreases *t,
{
    match &t.inner {
        Inner::Active(o) => match o {
            Option::None => 0,
            Option::Some(n) => active_next_off(n, Ghost(t.base + 8), Ghost(t.base as int)),
        },
        Inner::Complete(_) => pow4_u64(t.base + 8),
        Inner::Hash(_) => pow4_u64(t.base + 8),
    }
}

// Forgetting. A witness at a known offset is replaced by its bare hash,
// and any complete subtree left with no witness collapses to a hash stub.
// The subtree's hash is preserved exactly, and nothing else kept moves.

pub(crate) fn kid_forget(k: Kid, off: u64, Ghost(h): Ghost<int>) -> (res: (Kid, bool))
    requires
        wf_kid(k, h),
        0 <= h <= 24,
        (off as int) < pow4(h),
    ensures
        wf_kid(res.0, h),
        hash_kid(res.0) == hash_kid(k),
        res.1 == (kept_kid(k, h, off as int) is Some),
        forall|o: int| #[trigger]
            kept_kid(res.0, h, o) == (if o == off as int {
                Option::<Seq<u8>>::None
            } else {
                kept_kid(k, h, o)
            }),
    decreases k,
{
    let ghost old_k = k;
    match k {
        Kid::Stub(s) => (Kid::Stub(s), false),
        Kid::Keep(n) => {
            let ghost old_node = *n;
            proof {
                assert(wf_complete(old_node, h));
            }
            match *n {
            CompleteNode::Leaf { commitment } => {
                proof {
                    assert(pow4(0) == 1);
                    assert(off == 0);
                }
                let r = Kid::Stub(crate::hash::Hash::of(commitment));
                proof {
                    assert(hash_kid(r) == commitment@);
                    assert(hash_kid(old_k) == commitment@);
                    assert(kept_kid(old_k, h, 0) == Option::Some(commitment@));
                    assert forall|o: int| #[trigger]
                        kept_kid(r, h, o) == (if o == off as int {
                            Option::<Seq<u8>>::None
                        } else {
                            kept_kid(old_k, h, o)
                        }) by {}
                }
                (r, true)
            },
            CompleteNode::Internal { height, four, cache } => {
                let ghost old_four = *four;
                let w = pow4_u64(height - 1);
                proof {
                    lemma_pow4_pos(h - 1);
                    assert(pow4(h) == 4 * pow4(h - 1));
                }
                let j = off / w;
                let r_off = off % w;
                proof {
                    lemma_digit(off as int, w as int);
                    assert(j as int == off as int / w as int) by (nonlinear_arith)
                        requires
                            w as int > 0,
                            j == off / w,
                    ;
                    assert(r_off as int == off as int % w as int) by (nonlinear_arith)
                        requires
                            w as int > 0,
                            r_off == off % w,
                    ;
                    assert(0 <= j < 4) by {
                        assert(off as int == w as int * (j as int) + r_off as int);
                        if j >= 4 {
                            lemma_mul_le(4, j as int, w as int);
                            assert(w as int * (j as int) == (j as int) * (w as int))
                                by (nonlinear_arith);
                            assert(off as int >= 4 * (w as int));
                            assert(false);
                        }
                    }
                }
                let Four { k0, k1, k2, k3 } = *four;
                proof {
                    assert(old_node->Internal_four == Box::new(Four { k0, k1, k2, k3 }));
                    assert(wf_kid(k0, h - 1) && wf_kid(k1, h - 1) && wf_kid(k2, h - 1) && wf_kid(
                        k3,
                        h - 1,
                    ));
                }
                let (m0, m1, m2, m3, forgotten) = if j == 0 {
                    let (nk, f) = kid_forget(k0, r_off, Ghost(h - 1));
                    (nk, k1, k2, k3, f)
                } else if j == 1 {
                    let (nk, f) = kid_forget(k1, r_off, Ghost(h - 1));
                    (k0, nk, k2, k3, f)
                } else if j == 2 {
                    let (nk, f) = kid_forget(k2, r_off, Ghost(h - 1));
                    (k0, k1, nk, k3, f)
                } else {
                    let (nk, f) = kid_forget(k3, r_off, Ghost(h - 1));
                    (k0, k1, k2, nk, f)
                };
                let merged = from_four(height, m0, m1, m2, m3, Ghost(h));
                proof {
                    let jj = j as int;
                    let ww = w as int;
                    let rr = r_off as int;
                    assert(hash_kid(merged) == hash_kid(old_k));
                    assert(kept_kid(old_k, h, off as int) == kept_four(
                        old_four.k0,
                        old_four.k1,
                        old_four.k2,
                        old_four.k3,
                        h,
                        off as int,
                    )) by {
                        assert(kept_kid(old_k, h, off as int) == kept_complete(
                            *old_k->Keep_0,
                            h,
                            off as int,
                        ));
                    }
                    assert forall|o: int| #[trigger]
                        kept_kid(merged, h, o) == (if o == off as int {
                            Option::<Seq<u8>>::None
                        } else {
                            kept_kid(old_k, h, o)
                        }) by {
                        lemma_digit(o, ww);
                        let oj = o / ww;
                        let orr = o % ww;
                        assert(ww * oj == oj * ww) by (nonlinear_arith);
                        assert(kept_kid(old_k, h, o) == kept_four(
                            old_four.k0,
                            old_four.k1,
                            old_four.k2,
                            old_four.k3,
                            h,
                            o,
                        )) by {
                            assert(kept_kid(old_k, h, o) == kept_complete(*old_k->Keep_0, h, o));
                        }
                        if oj == jj {
                            assert(o == off as int <==> orr == rr) by {
                                assert(o == ww * oj + orr);
                                assert(off as int == ww * jj + rr);
                            }
                        } else {
                            assert(o != off as int) by {
                                assert(o == ww * oj + orr);
                                assert(off as int == ww * jj + rr);
                                if o == off as int {
                                    lemma_digit_converse(jj, rr, ww);
                                    assert(jj * ww + rr == ww * jj + rr) by (nonlinear_arith);
                                }
                            }
                        }
                    }
                }
                (merged, forgotten)
            },
        }
        },
    }
}

pub(crate) fn active_forget(n: ActiveNode, off: u64, Ghost(h): Ghost<int>, Ghost(base): Ghost<
    int,
>) -> (res: (ActiveNode, bool))
    requires
        wf_active(n, h, base),
        0 <= base <= 16,
        base <= h <= base + 8,
        (off as int) < pow4(h),
    ensures
        wf_active(res.0, h, base),
        hash_active(res.0) == hash_active(n),
        next_off_active(res.0, h) == next_off_active(n, h),
        leafslots_active(res.0, base) == leafslots_active(n, base),
        res.1 == (kept_active(n, h, off as int) is Some),
        forall|o: int| #[trigger]
            kept_active(res.0, h, o) == (if o == off as int {
                Option::<Seq<u8>>::None
            } else {
                kept_active(n, h, o)
            }),
        base >= 8 ==> spine_refusal(res.0, base) == spine_refusal(n, base),
        spine_leaf_hash(res.0) == spine_leaf_hash(n),
    decreases n,
{
    let ghost old_n = n;
    match n {
        ActiveNode::Leaf { height, item } => {
            let ghost old_item = item;
            proof {
                assert(wf_leaf_item(old_item, h));
            }
            let (item2, forgotten) = leaf_item_forget(item, off, Ghost(h));
            let n2 = ActiveNode::Leaf { height, item: item2 };
            proof {
                assert(wf_active(n2, h, base));
                assert(hash_active(n2) == hash_leaf_item(item2));
                assert(hash_active(old_n) == hash_leaf_item(old_item));
                assert(next_off_active(n2, h) == next_off_leaf(item2, h));
                assert(next_off_active(old_n, h) == next_off_leaf(old_item, h));
                assert(kept_active(old_n, h, off as int) == kept_leaf_item(old_item, off as int));
                assert forall|o: int| #[trigger]
                    kept_active(n2, h, o) == (if o == off as int {
                        Option::<Seq<u8>>::None
                    } else {
                        kept_active(old_n, h, o)
                    }) by {
                    assert(kept_active(n2, h, o) == kept_leaf_item(item2, o));
                    assert(kept_active(old_n, h, o) == kept_leaf_item(old_item, o));
                }
            }
            (n2, forgotten)
        },
        ActiveNode::Internal { height, siblings, focus } => {
            let ghost sibs = siblings;
            let ghost s = sib_count(sibs);
            let ghost old_focus = *focus;
            let w = pow4_u64(height - 1);
            proof {
                lemma_pow4_pos(h - 1);
                assert(pow4(h) == 4 * pow4(h - 1));
            }
            let j = off / w;
            let r_off = off % w;
            proof {
                lemma_digit(off as int, w as int);
                assert(j as int == off as int / w as int) by (nonlinear_arith)
                    requires
                        w as int > 0,
                        j == off / w,
                ;
                assert(r_off as int == off as int % w as int) by (nonlinear_arith)
                    requires
                        w as int > 0,
                        r_off == off % w,
                ;
                assert(w * j == j * w) by (nonlinear_arith);
            }
            let scount: u64 = match &siblings {
                Three::Zero => 0,
                Three::One(_) => 1,
                Three::Two(_, _) => 2,
                Three::Full(_, _, _) => 3,
            };
            if j < scount {
                // forget inside a frozen sibling
                let (sibs2, forgotten) = match siblings {
                    Three::Zero => (Three::Zero, false),
                    Three::One(a) => {
                        proof {
                            assert(wf_three(sibs, h - 1));
                        }
                        let (a2, f) = kid_forget(a, r_off, Ghost(h - 1));
                        (Three::One(a2), f)
                    },
                    Three::Two(a, b) => {
                        proof {
                            assert(wf_three(sibs, h - 1));
                        }
                        if j == 0 {
                            let (a2, f) = kid_forget(a, r_off, Ghost(h - 1));
                            (Three::Two(a2, b), f)
                        } else {
                            let (b2, f) = kid_forget(b, r_off, Ghost(h - 1));
                            (Three::Two(a, b2), f)
                        }
                    },
                    Three::Full(a, b, c) => {
                        proof {
                            assert(wf_three(sibs, h - 1));
                        }
                        if j == 0 {
                            let (a2, f) = kid_forget(a, r_off, Ghost(h - 1));
                            (Three::Full(a2, b, c), f)
                        } else if j == 1 {
                            let (b2, f) = kid_forget(b, r_off, Ghost(h - 1));
                            (Three::Full(a, b2, c), f)
                        } else {
                            let (c2, f) = kid_forget(c, r_off, Ghost(h - 1));
                            (Three::Full(a, b, c2), f)
                        }
                    },
                };
                let n2 = ActiveNode::Internal { height, siblings: sibs2, focus };
                proof {
                    let jj = j as int;
                    let ww = w as int;
                    let rr = r_off as int;
                    let sibs2g = n2->Internal_siblings;
                    assert(sib_count(sibs2g) == s);
                    assert(forall|i: int|
                        0 <= i < s && i != jj ==> sib(sibs2g, i) == sib(sibs, i));
                    assert(wf_kid(sib(sibs2g, jj), h - 1) && hash_kid(sib(sibs2g, jj)) == hash_kid(
                        sib(sibs, jj),
                    ));
                    assert(wf_three(sibs2g, h - 1)) by {
                        match sibs2g {
                            Three::Zero => {},
                            Three::One(x) => {
                                assert(sib(sibs2g, 0) == x);
                            },
                            Three::Two(x, y) => {
                                assert(sib(sibs2g, 0) == x && sib(sibs2g, 1) == y);
                                assert(wf_three(sibs, h - 1));
                            },
                            Three::Full(x, y, z) => {
                                assert(sib(sibs2g, 0) == x && sib(sibs2g, 1) == y && sib(
                                    sibs2g,
                                    2,
                                ) == z);
                                assert(wf_three(sibs, h - 1));
                            },
                        }
                    }
                    assert(wf_active(n2, h, base));
                    assert(hash_active(n2) == hash_active(old_n)) by {
                        match sibs {
                            Three::Zero => {},
                            Three::One(_) => {
                                assert(sibs2g is One);
                            },
                            Three::Two(_, _) => {
                                assert(sibs2g is Two);
                            },
                            Three::Full(_, _, _) => {
                                assert(sibs2g is Full);
                            },
                        }
                    }
                    assert(next_off_active(n2, h) == next_off_active(old_n, h));
                    assert(leafslots_active(n2, base) == leafslots_active(old_n, base));
                    assert(kept_active(old_n, h, off as int) == kept_kid(sib(sibs, jj), h - 1, rr));
                    assert forall|o: int| #[trigger]
                        kept_active(n2, h, o) == (if o == off as int {
                            Option::<Seq<u8>>::None
                        } else {
                            kept_active(old_n, h, o)
                        }) by {
                        lemma_digit(o, ww);
                        let oj = o / ww;
                        let orr = o % ww;
                        assert(ww * oj == oj * ww) by (nonlinear_arith);
                        assert(kept_active(n2, h, o) == if 0 <= oj < s {
                            kept_kid(sib(sibs2g, oj), h - 1, orr)
                        } else if oj == s {
                            kept_active(old_focus, h - 1, orr)
                        } else {
                            Option::None
                        });
                        assert(kept_active(old_n, h, o) == if 0 <= oj < s {
                            kept_kid(sib(sibs, oj), h - 1, orr)
                        } else if oj == s {
                            kept_active(old_focus, h - 1, orr)
                        } else {
                            Option::None
                        });
                        if oj == jj {
                            assert(o == off as int <==> orr == rr) by {
                                assert(o == ww * oj + orr);
                                assert(off as int == ww * jj + rr);
                            }
                        } else {
                            assert(o != off as int) by {
                                assert(o == ww * oj + orr);
                                assert(off as int == ww * jj + rr);
                            }
                        }
                    }
                }
                (n2, forgotten)
            } else if j == scount {
                let (f2, forgotten) = active_forget(*focus, r_off, Ghost(h - 1), Ghost(base));
                let ghost sf2 = f2;
                let n2 = ActiveNode::Internal { height, siblings, focus: Box::new(f2) };
                proof {
                    let jj = j as int;
                    let ww = w as int;
                    let rr = r_off as int;
                    assert(wf_active(n2, h, base));
                    assert(hash_active(n2) == hash_active(old_n)) by {
                        match sibs {
                            Three::Zero => {},
                            Three::One(_) => {},
                            Three::Two(_, _) => {},
                            Three::Full(_, _, _) => {},
                        }
                    }
                    assert(next_off_active(n2, h) == next_off_active(old_n, h));
                    assert(leafslots_active(n2, base) == leafslots_active(old_n, base));
                    assert(kept_active(old_n, h, off as int) == kept_active(old_focus, h - 1, rr));
                    assert forall|o: int| #[trigger]
                        kept_active(n2, h, o) == (if o == off as int {
                            Option::<Seq<u8>>::None
                        } else {
                            kept_active(old_n, h, o)
                        }) by {
                        lemma_digit(o, ww);
                        let oj = o / ww;
                        let orr = o % ww;
                        assert(ww * oj == oj * ww) by (nonlinear_arith);
                        assert(kept_active(n2, h, o) == if 0 <= oj < s {
                            kept_kid(sib(sibs, oj), h - 1, orr)
                        } else if oj == s {
                            kept_active(sf2, h - 1, orr)
                        } else {
                            Option::None
                        });
                        assert(kept_active(old_n, h, o) == if 0 <= oj < s {
                            kept_kid(sib(sibs, oj), h - 1, orr)
                        } else if oj == s {
                            kept_active(old_focus, h - 1, orr)
                        } else {
                            Option::None
                        });
                        if oj == jj {
                            assert(o == off as int <==> orr == rr) by {
                                assert(o == ww * oj + orr);
                                assert(off as int == ww * jj + rr);
                            }
                        } else {
                            assert(o != off as int) by {
                                assert(o == ww * oj + orr);
                                assert(off as int == ww * jj + rr);
                            }
                        }
                    }
                }
                (n2, forgotten)
            } else {
                let n2 = ActiveNode::Internal { height, siblings, focus };
                proof {
                    let jj = j as int;
                    let ww = w as int;
                    assert(n2 == old_n);
                    assert(kept_active(old_n, h, off as int) is None);
                    assert forall|o: int| #[trigger]
                        kept_active(n2, h, o) == (if o == off as int {
                            Option::<Seq<u8>>::None
                        } else {
                            kept_active(old_n, h, o)
                        }) by {}
                }
                (n2, false)
            }
        },
    }
}

pub(crate) fn leaf_item_forget(item: LeafItem, off: u64, Ghost(h): Ghost<int>) -> (res: (
    LeafItem,
    bool,
))
    requires
        wf_leaf_item(item, h),
        0 <= h <= 16,
        (off as int) < pow4(h),
    ensures
        wf_leaf_item(res.0, h),
        hash_leaf_item(res.0) == hash_leaf_item(item),
        next_off_leaf(res.0, h) == next_off_leaf(item, h),
        res.1 == (kept_leaf_item(item, off as int) is Some),
        forall|o: int| #[trigger]
            kept_leaf_item(res.0, o) == (if o == off as int {
                Option::<Seq<u8>>::None
            } else {
                kept_leaf_item(item, o)
            }),
        h >= 8 ==> (match res.0 {
            LeafItem::SubTier(t2) => item matches LeafItem::SubTier(t1) && tier_refusal(*t2)
                == tier_refusal(*t1),
            LeafItem::Stub(_) => item is Stub,
            LeafItem::Note(_) => item is Note,
        }),
        item_leaf_hash(res.0) == item_leaf_hash(item),
    decreases item,
{
    let ghost old_item = item;
    match item {
        LeafItem::Note(c) => {
            proof {
                assert(h == 0);
                assert(pow4(0) == 1);
                assert(off == 0);
            }
            let r = LeafItem::Stub(crate::hash::Hash::of(c));
            proof {
                assert(hash_leaf_item(r) == c@);
                assert(next_off_leaf(r, h) == pow4(0));
            }
            (r, true)
        },
        LeafItem::Stub(s) => (LeafItem::Stub(s), false),
        LeafItem::SubTier(mut t) => {
            proof {
                assert(wf_tier(*t));
                assert((*t).base as int == h - 8);
            }
            let forgotten = tier_forget(&mut *t, off);
            let ghost new_t = *t;
            let r = LeafItem::SubTier(t);
            proof {
                assert(hash_leaf_item(r) == hash_tier(new_t));
                assert(next_off_leaf(r, h) == next_off_tier(new_t));
                assert(kept_leaf_item(old_item, off as int) == kept_tier(
                    *old_item->SubTier_0,
                    off as int,
                ));
                assert forall|o: int| #[trigger]
                    kept_leaf_item(r, o) == (if o == off as int {
                        Option::<Seq<u8>>::None
                    } else {
                        kept_leaf_item(old_item, o)
                    }) by {
                    assert(kept_leaf_item(r, o) == kept_tier(new_t, o));
                    assert(kept_leaf_item(old_item, o) == kept_tier(*old_item->SubTier_0, o));
                }
            }
            (r, forgotten)
        },
    }
}

/// Forget the witness at the given offset of this tier, if one is kept
/// there. The tier's root hash does not change; a frozen tier whose last
/// witness goes collapses to a bare hash.
pub fn tier_forget(t: &mut Tier, off: u64) -> (r: bool)
    requires
        wf_tier(*old(t)),
        (off as int) < pow4(old(t).base + 8),
    ensures
        wf_tier(*final(t)),
        final(t).base == old(t).base,
        final(t).len == old(t).len,
        final(t).witnessed == old(t).witnessed,
        hash_tier(*final(t)) == hash_tier(*old(t)),
        next_off_tier(*final(t)) == next_off_tier(*old(t)),
        leafslots_tier(*final(t)) == leafslots_tier(*old(t)),
        r == (kept_tier(*old(t), off as int) is Some),
        forall|o: int| #[trigger]
            kept_tier(*final(t), o) == (if o == off as int {
                Option::<Seq<u8>>::None
            } else {
                kept_tier(*old(t), o)
            }),
        tier_refusal(*final(t)) == tier_refusal(*old(t)),
        newest_leaf_hash(*final(t)) == newest_leaf_hash(*old(t)),
    decreases *old(t),
{
    let ghost old_t = *old(t);
    let ghost bb = t.base as int;
    let mut inner = Inner::Active(Option::None);
    core::mem::swap(&mut t.inner, &mut inner);
    match inner {
        Inner::Active(o) => match o {
            Option::None => {
                t.inner = Inner::Active(Option::None);
                proof {
                    assert(*t == old_t);
                }
                false
            },
            Option::Some(n) => {
                let ghost old_n = *n;
                let (n2, forgotten) = active_forget(*n, off, Ghost(bb + 8), Ghost(bb));
                let ghost sn2 = n2;
                t.inner = Inner::Active(Option::Some(Box::new(n2)));
                proof {
                    assert(hash_tier(*t) == hash_active(sn2));
                    assert(hash_tier(old_t) == hash_active(old_n));
                    assert(next_off_tier(*t) == next_off_active(sn2, bb + 8));
                    assert(kept_tier(old_t, off as int) == kept_active(old_n, bb + 8, off as int));
                    assert forall|o: int| #[trigger]
                        kept_tier(*t, o) == (if o == off as int {
                            Option::<Seq<u8>>::None
                        } else {
                            kept_tier(old_t, o)
                        }) by {
                        assert(kept_tier(*t, o) == kept_active(sn2, bb + 8, o));
                        assert(kept_tier(old_t, o) == kept_active(old_n, bb + 8, o));
                    }
                }
                forgotten
            },
        },
        Inner::Complete(c) => {
            let ghost old_c = *c;
            let (k2, forgotten) = kid_forget(Kid::Keep(c), off, Ghost(bb + 8));
            let ghost sk2 = k2;
            proof {
                assert(hash_kid(Kid::Keep(Box::new(old_c))) == hash_complete(old_c));
                assert(kept_kid(Kid::Keep(Box::new(old_c)), bb + 8, off as int) == kept_complete(
                    old_c,
                    bb + 8,
                    off as int,
                ));
            }
            match k2 {
                Kid::Keep(c2) => {
                    t.inner = Inner::Complete(c2);
                },
                Kid::Stub(s) => {
                    t.inner = Inner::Hash(s);
                },
            }
            proof {
                assert(hash_tier(*t) == hash_kid(sk2));
                assert(next_off_tier(*t) == pow4(bb + 8));
                assert(leafslots_tier(*t) == pow4(8));
                assert forall|o: int| #[trigger]
                    kept_tier(*t, o) == (if o == off as int {
                        Option::<Seq<u8>>::None
                    } else {
                        kept_tier(old_t, o)
                    }) by {
                    assert(kept_tier(*t, o) == kept_kid(sk2, bb + 8, o));
                    assert(kept_tier(old_t, o) == kept_complete(old_c, bb + 8, o));
                }
            }
            forgotten
        },
        Inner::Hash(s) => {
            t.inner = Inner::Hash(s);
            proof {
                assert(*t == old_t);
            }
            false
        },
    }
}

// Inserting a whole sub-tier (a finished block or epoch, or the bare root
// of one) as the next leaf of the focused tier one level down.

/// What stands in the way of appending one more leaf to the tier focused
/// one nesting level below this one.
pub open spec fn sub_spine_refusal(n: ActiveNode, base: int) -> Option<Refuse>
    decreases n,
{
    match n {
        ActiveNode::Leaf { item, .. } => match item {
            LeafItem::SubTier(t) => if leafslots_tier(*t) == pow4(8) {
                Option::Some(Refuse::FullAt(t.base))
            } else {
                Option::None
            },
            LeafItem::Stub(_) => Option::Some(Refuse::ForgottenAt((base - 8) as u8)),
            LeafItem::Note(_) => Option::None,
        },
        ActiveNode::Internal { focus, .. } => sub_spine_refusal(*focus, base),
    }
}

/// The commitment offset at which the next appended sub-tier leaf would
/// land: the start of the next free leaf slot of the tier focused one
/// nesting level down — the slot after that tier's consumed ones. A
/// refused append is assigned the span, for totality.
pub open spec fn sub_landing(t: Tier) -> int
    decreases t,
{
    match t.inner {
        Inner::Active(o) => match o {
            Option::None => 0,
            Option::Some(n) => spine_landing(*n, t.base as int),
        },
        Inner::Complete(_) => pow4(t.base + 8),
        Inner::Hash(_) => pow4(t.base + 8),
    }
}

pub open spec fn spine_landing(n: ActiveNode, base: int) -> int
    decreases n,
{
    match n {
        ActiveNode::Leaf { item, .. } => match item {
            LeafItem::SubTier(et) => leafslots_tier(*et) * pow4(base - 8),
            LeafItem::Stub(_) => pow4(base),
            LeafItem::Note(_) => 0,
        },
        ActiveNode::Internal { height, siblings, focus } => sib_count(siblings) * pow4(height - 1)
            + spine_landing(*focus, base),
    }
}

pub open spec fn sub_refusal(t: Tier) -> Option<Refuse>
    decreases t,
{
    match t.inner {
        Inner::Complete(_) => Option::Some(Refuse::FullAt(t.base)),
        Inner::Hash(_) => Option::Some(Refuse::FullAt(t.base)),
        Inner::Active(o) => match o {
            Option::None => Option::None,
            Option::Some(n) => sub_spine_refusal(*n, t.base as int),
        },
    }
}

pub(crate) fn active_leafslots(n: &ActiveNode, base: u8, Ghost(h): Ghost<int>) -> (r: u64)
    requires
        wf_active(*n, h, base as int),
        base <= 16,
        base <= h <= base + 8,
    ensures
        r as int == leafslots_active(*n, base as int),
    decreases *n,
{
    let ghost gbase = base as int;
    match n {
        ActiveNode::Leaf { .. } => 1,
        ActiveNode::Internal { height, siblings, focus } => {
            let f = active_leafslots(focus, base, Ghost(h - 1));
            let s: u64 = match siblings {
                Three::Zero => 0,
                Three::One(_) => 1,
                Three::Two(_, _) => 2,
                Three::Full(_, _, _) => 3,
            };
            let w = pow4_u64(*height - 1 - base);
            proof {
                lemma_pow4_pos(h - 1 - gbase);
                lemma_leafslots_bounds(*n, h, gbase);
                lemma_leafslots_bounds(**focus, h - 1, gbase);
                lemma_mul_le(0, s as int, w as int);
                assert(pow4(h - gbase) <= pow4(8)) by {
                    lemma_pow4_mono(h - gbase, 8);
                }
                assert(pow4(8) == 0x10000) by {
                    reveal_with_fuel(pow4, 9);
                }
            }
            s * w + f
        },
    }
}

/// How many of this tier's own leaf slots are consumed.
pub fn tier_leafslots(t: &Tier) -> (r: u64)
    requires
        wf_tier(*t),
    ensures
        r as int == leafslots_tier(*t),
    decreases *t,
{
    proof {
        assert(pow4(8) == 0x10000) by {
            reveal_with_fuel(pow4, 9);
        }
    }
    match &t.inner {
        Inner::Active(o) => match o {
            Option::None => 0,
            Option::Some(n) => active_leafslots(n, t.base, Ghost(t.base + 8)),
        },
        Inner::Complete(_) => 0x10000,
        Inner::Hash(_) => 0x10000,
    }
}

/// A tier's frontier offset never runs past its consumed leaf slots.
pub proof fn lemma_leafslots_tier_bounds(t: Tier)
    requires
        wf_tier(t),
    ensures
        0 <= leafslots_tier(t) <= pow4(8),
        next_off_tier(t) <= leafslots_tier(t) * pow4(t.base as int),
{
    lemma_pow4_pos(8);
    lemma_pow4_pos(t.base as int);
    match t.inner {
        Inner::Active(o) => match o {
            Option::None => {
                assert(0 * pow4(t.base as int) == 0) by (nonlinear_arith);
            },
            Option::Some(n) => {
                lemma_leafslots_bounds(*n, t.base + 8, t.base as int);
            },
        },
        Inner::Complete(_) => {
            lemma_pow4_add(8, t.base as int);
        },
        Inner::Hash(_) => {
            lemma_pow4_add(8, t.base as int);
        },
    }
}

/// Append a finished sub-tier (or its bare root) as the next leaf of the
/// tier focused one nesting level below this one, creating that tier when
/// this one is still empty. Returns the commitment offset at which the new
/// leaf's span begins.
pub fn tier_insert_sub(t: &mut Tier, item: LeafItem) -> (r: Result<u64, (LeafItem, Refuse)>)
    requires
        wf_tier(*old(t)),
        old(t).base == 8 || old(t).base == 16,
        wf_leaf_item(item, old(t).base - 8),
    ensures
        wf_tier(*final(t)),
        final(t).base == old(t).base,
        match r {
            Result::Ok(l) => {
                &&& sub_refusal(*old(t)) is None
                &&& next_off_tier(*old(t)) <= l as int
                &&& l as int == sub_landing(*old(t))
                &&& l as int <= next_off_tier(*old(t)) + pow4(old(t).base - 8)
                &&& l as int % pow4(old(t).base - 8) == 0
                &&& l as int + pow4(old(t).base - 8) <= pow4(old(t).base + 8)
                &&& next_off_tier(*final(t)) == l as int + next_off_leaf(item, old(t).base - 8)
                &&& forall|off: int| #[trigger]
                    kept_tier(*final(t), off) == (if off < l as int {
                        kept_tier(*old(t), off)
                    } else {
                        kept_leaf_item(item, off - l as int)
                    })
                &&& final(t).len as int == if old(t).inner matches Inner::Active(Option::None) {
                    (old(t).len as int + 1) % 0x10000
                } else {
                    old(t).len as int
                }
                &&& final(t).inner matches Inner::Active(Option::Some(n)) && focus_item(*n)
                    matches LeafItem::SubTier(et) && et.inner matches Inner::Active(
                    Option::Some(m),
                ) && focus_item(*m) == item
            },
            Result::Err(pair) => {
                &&& pair.0 == item
                &&& sub_refusal(*old(t)) == Option::Some(pair.1)
                &&& hash_tier(*final(t)) == hash_tier(*old(t))
                &&& next_off_tier(*final(t)) >= next_off_tier(*old(t))
                &&& forall|off: int| #[trigger] kept_tier(*final(t), off) == kept_tier(*old(t), off)
                &&& final(t).len == old(t).len
                &&& final(t).witnessed == old(t).witnessed
                &&& (pair.1 == Refuse::FullAt((old(t).base - 8) as u8) ==> next_off_tier(
                    *final(t),
                ) == leafslots_tier(*old(t)) * pow4(old(t).base as int))
                &&& (pair.1 != Refuse::FullAt((old(t).base - 8) as u8) ==> *final(t) == *old(t))
            },
        },
    decreases *old(t),
{
    let ghost old_t = *old(t);
    let base = t.base;
    let ghost bb = base as int;
    let is_empty = matches!(&t.inner, Inner::Active(Option::None));
    if is_empty {
        let mut sub = Tier { base: base - 8, len: 0, witnessed: 0, inner: Inner::Active(Option::None) };
        let ghost empty_sub = sub;
        let ghost spec_item = item;
        let r2 = tier_insert(&mut sub, item);
        proof {
            lemma_pow4_pos(8);
            assert(leafslots_tier(empty_sub) == 0);
            assert(r2 is Ok);
            assert(0 * pow4(bb - 8) == 0) by (nonlinear_arith);
        }
        let ghost filled_sub = sub;
        let leaf = LeafItem::SubTier(Box::new(sub));
        proof {
            assert(wf_leaf_item(leaf, bb));
            assert(leafslots_tier(old_t) == 0);
            assert(next_off_tier(old_t) == 0);
        }
        let r3 = tier_insert(t, leaf);
        proof {
            assert(leafslots_tier(old_t) == 0);
            assert(r3 is Ok);
            assert(0 * pow4(bb) == 0) by (nonlinear_arith);
            assert(next_off_leaf(leaf, bb) == next_off_tier(filled_sub));
            assert(next_off_tier(filled_sub) == 0 + next_off_leaf(spec_item, bb - 8));
            lemma_next_off_leaf_le_span(spec_item, bb - 8);
            assert(pow4(bb - 8) <= pow4(bb + 8)) by {
                lemma_pow4_mono(bb - 8, bb + 8);
            }
            assert forall|off: int| #[trigger]
                kept_tier(*t, off) == (if off < 0 {
                    kept_tier(old_t, off)
                } else {
                    kept_leaf_item(spec_item, off)
                }) by {
                if off < 0 {
                } else {
                    assert(kept_tier(*t, off) == kept_leaf_item(leaf, off));
                    assert(kept_leaf_item(leaf, off) == kept_tier(filled_sub, off));
                    if off == 0 {
                        assert(kept_tier(filled_sub, off) == kept_leaf_item(spec_item, 0));
                    } else {
                        assert(kept_tier(filled_sub, off) == (if off < 0 {
                            kept_tier(empty_sub, off)
                        } else {
                            kept_leaf_item(spec_item, off - 0)
                        }));
                    }
                }
            }
        }
        match r3 {
            Result::Ok(_) => Result::Ok(0),
            Result::Err(_) => {
                proof {
                    assert(false);
                }
                Result::Err((LeafItem::Stub(crate::hash::Hash::default()), Refuse::FullAt(base)))
            },
        }
    } else {
        let mut inner = Inner::Active(Option::None);
        core::mem::swap(&mut t.inner, &mut inner);
        match inner {
            Inner::Complete(c) => {
                t.inner = Inner::Complete(c);
                proof {
                    assert(kept_tier(*t, 0) == kept_tier(old_t, 0));
                }
                Result::Err((item, Refuse::FullAt(base)))
            },
            Inner::Hash(s) => {
                t.inner = Inner::Hash(s);
                Result::Err((item, Refuse::FullAt(base)))
            },
            Inner::Active(o) => match o {
                Option::None => {
                    proof {
                        assert(false);
                    }
                    t.inner = Inner::Active(Option::None);
                    Result::Err((item, Refuse::FullAt(base)))
                },
                Option::Some(n) => {
                    let ghost old_n = *n;
                    let ghost spec_item = item;
                    let (n2, r) = active_sub_insert(*n, item, base, Ghost(bb + 8));
                    let ghost sn2 = n2;
                    t.inner = Inner::Active(Option::Some(Box::new(n2)));
                    proof {
                        assert(next_off_tier(old_t) == next_off_active(old_n, bb + 8));
                        assert(sub_refusal(old_t) == sub_spine_refusal(old_n, bb));
                        assert(wf_tier(*t));
                        assert(next_off_tier(*t) == next_off_active(sn2, bb + 8));
                        if r is Ok {
                            assert forall|off: int| #[trigger]
                                kept_tier(*t, off) == (if off < r->Ok_0 as int {
                                    kept_tier(old_t, off)
                                } else {
                                    kept_leaf_item(spec_item, off - r->Ok_0 as int)
                                }) by {
                                assert(kept_tier(*t, off) == kept_active(sn2, bb + 8, off));
                                assert(kept_tier(old_t, off) == kept_active(old_n, bb + 8, off));
                            }
                        } else {
                            assert(hash_tier(*t) == hash_active(sn2));
                            assert(hash_tier(old_t) == hash_active(old_n));
                            assert forall|off: int| #[trigger]
                                kept_tier(*t, off) == kept_tier(old_t, off) by {
                                assert(kept_tier(*t, off) == kept_active(sn2, bb + 8, off));
                                assert(kept_tier(old_t, off) == kept_active(old_n, bb + 8, off));
                            }
                        }
                    }
                    match r {
                        Result::Ok(l) => Result::Ok(l),
                        Result::Err(pair) => Result::Err(pair),
                    }
                },
            },
        }
    }
}

/// Reach down this focus spine to the focused leaf's nested tier and
/// append the sub-tier leaf there.
pub(crate) fn active_sub_insert(n: ActiveNode, item: LeafItem, base: u8, Ghost(h): Ghost<int>) -> (res: (
    ActiveNode,
    Result<u64, (LeafItem, Refuse)>,
))
    requires
        wf_active(n, h, base as int),
        wf_leaf_item(item, base - 8),
        base == 8 || base == 16,
        base <= h <= base + 8,
    ensures
        wf_active(res.0, h, base as int),
        leafslots_active(res.0, base as int) == leafslots_active(n, base as int),
        match res.1 {
            Result::Ok(l) => {
                &&& sub_spine_refusal(n, base as int) is None
                &&& next_off_active(n, h) <= l as int
                &&& l as int == spine_landing(n, base as int)
                &&& l as int <= next_off_active(n, h) + pow4(base - 8)
                &&& l as int % pow4(base - 8) == 0
                &&& l as int + pow4(base - 8) <= pow4(h)
                &&& next_off_active(res.0, h) == l as int + next_off_leaf(item, base - 8)
                &&& forall|off: int| #[trigger]
                    kept_active(res.0, h, off) == (if off < l as int {
                        kept_active(n, h, off)
                    } else {
                        kept_leaf_item(item, off - l as int)
                    })
                &&& focus_item(res.0) matches LeafItem::SubTier(et) && et.inner matches Inner::Active(
                    Option::Some(m),
                ) && focus_item(*m) == item
            },
            Result::Err(pair) => {
                &&& pair.0 == item
                &&& sub_spine_refusal(n, base as int) == Option::Some(pair.1)
                &&& hash_active(res.0) == hash_active(n)
                &&& next_off_active(res.0, h) >= next_off_active(n, h)
                &&& forall|off: int| #[trigger]
                    kept_active(res.0, h, off) == kept_active(n, h, off)
                &&& pair.1 == Refuse::FullAt((base - 8) as u8) ==> next_off_active(res.0, h)
                    == leafslots_active(n, base as int) * pow4(base as int)
                &&& pair.1 != Refuse::FullAt((base - 8) as u8) ==> res.0 == n
            },
        },
    decreases n,
{
    let ghost old_n = n;
    match n {
        ActiveNode::Leaf { height, item: leaf_item } => {
            match leaf_item {
                LeafItem::Note(c) => {
                    proof {
                        assert(wf_leaf_item(old_n->Leaf_item, h));
                        assert(false);
                    }
                    (ActiveNode::Leaf { height, item: LeafItem::Note(c) }, Result::Err(
                        (item, Refuse::FullAt(base)),
                    ))
                },
                LeafItem::Stub(stub) => {
                    let n2 = ActiveNode::Leaf { height, item: LeafItem::Stub(stub) };
                    proof {
                        assert(n2 == old_n);
                        assert(sub_spine_refusal(old_n, base as int) == Option::Some(
                            Refuse::ForgottenAt((base - 8) as u8),
                        ));
                        assert((base - 8) as u8 == base - 8);
                        assert forall|off: int| #[trigger]
                            kept_active(n2, h, off) == kept_active(old_n, h, off) by {}
                    }
                    (n2, Result::Err((item, Refuse::ForgottenAt(base - 8))))
                },
                LeafItem::SubTier(mut sub) => {
                    let ghost old_sub = *sub;
                    proof {
                        assert(wf_leaf_item(old_n->Leaf_item, h));
                        assert(wf_tier(old_sub));
                        assert(old_sub.base as int == h - 8);
                        assert(old_sub.base == base - 8);
                        assert(h == base as int);
                        assert(next_off_active(old_n, h) == next_off_leaf(old_n->Leaf_item, h));
                        assert(next_off_leaf(old_n->Leaf_item, h) == next_off_tier(old_sub));
                        assert(sub_spine_refusal(old_n, base as int) == (if leafslots_tier(old_sub)
                            == pow4(8) {
                            Option::Some(Refuse::FullAt(old_sub.base))
                        } else {
                            Option::<Refuse>::None
                        }));
                    }
                    let slots = tier_leafslots(&*sub);
                    let width = pow4_u64(base - 8);
                    proof {
                        lemma_leafslots_tier_bounds(old_sub);
                        lemma_pow4_pos(base - 8);
                        assert(pow4(8) == 0x10000) by {
                            reveal_with_fuel(pow4, 9);
                        }
                        lemma_mul_le(slots as int, pow4(8), width as int);
                        lemma_pow4_add(8, base - 8);
                        assert(pow4(8) * pow4(base - 8) == pow4(h));
                        vstd::arithmetic::div_mod::lemma_mod_multiples_basic(
                            slots as int,
                            width as int,
                        );
                    }
                    let l = slots * width;
                    let ghost spec_item = item;
                    let r = tier_insert(&mut *sub, item);
                    let ghost new_sub = *sub;
                    let n2 = ActiveNode::Leaf { height, item: LeafItem::SubTier(sub) };
                    proof {
                        assert(old_n is Leaf);
                        assert(wf_active(old_n, h, base as int));
                        assert(height as int == h);
                        assert(new_sub.base == old_sub.base);
                        assert(wf_leaf_item(n2->Leaf_item, h));
                        assert(wf_active(n2, h, base as int));
                        assert(leafslots_active(n2, base as int) == 1);
                        assert(leafslots_active(old_n, base as int) == 1);
                        assert(next_off_active(n2, h) == next_off_leaf(n2->Leaf_item, h));
                        assert(next_off_leaf(n2->Leaf_item, h) == next_off_tier(new_sub));
                        assert forall|off: int| #[trigger]
                            kept_active(n2, h, off) == kept_tier(new_sub, off) by {
                            assert(kept_active(n2, h, off) == kept_leaf_item(n2->Leaf_item, off));
                        }
                        assert forall|off: int| #[trigger]
                            kept_active(old_n, h, off) == kept_tier(old_sub, off) by {
                            assert(kept_active(old_n, h, off) == kept_leaf_item(
                                old_n->Leaf_item,
                                off,
                            ));
                        }
                        if r is Ok {
                            assert(l as int == leafslots_tier(old_sub) * pow4(base - 8));
                            assert(next_off_tier(old_sub) <= l as int);
                            assert((leafslots_tier(old_sub) + 1) * pow4(base - 8)
                                == leafslots_tier(old_sub) * pow4(base - 8) + pow4(base - 8))
                                by (nonlinear_arith);
                            lemma_mul_le(leafslots_tier(old_sub) + 1, pow4(8), width as int);
                            assert(l as int + pow4(base - 8) <= pow4(h));
                            assert((leafslots_tier(old_sub) - 1) * pow4(base - 8)
                                <= next_off_tier(old_sub)) by {
                                match old_sub.inner {
                                    Inner::Active(o2) => match o2 {
                                        Option::None => {
                                            assert((0 - 1) * pow4(base - 8) <= 0)
                                                by (nonlinear_arith)
                                                requires
                                                    pow4(base - 8) >= 0,
                                            ;
                                        },
                                        Option::Some(m) => {
                                            lemma_leafslots_bounds(
                                                *m,
                                                old_sub.base + 8,
                                                old_sub.base as int,
                                            );
                                        },
                                    },
                                    Inner::Complete(_) => {},
                                    Inner::Hash(_) => {},
                                }
                            }
                            assert(leafslots_tier(old_sub) * pow4(base - 8) == (leafslots_tier(
                                old_sub,
                            ) - 1) * pow4(base - 8) + pow4(base - 8)) by (nonlinear_arith);
                        } else {
                            assert(leafslots_tier(old_sub) == pow4(8));
                            assert(hash_active(n2) == hash_leaf_item(n2->Leaf_item));
                            assert(hash_leaf_item(n2->Leaf_item) == hash_tier(new_sub));
                            assert(hash_tier(new_sub) == hash_tier(old_sub));
                            assert(hash_active(old_n) == hash_leaf_item(old_n->Leaf_item));
                            assert(hash_leaf_item(old_n->Leaf_item) == hash_tier(old_sub));
                            assert(next_off_active(n2, h) == pow4(base as int));
                            vstd::arithmetic::div_mod::lemma_mod_multiples_basic(
                                1,
                                pow4(base as int),
                            );
                            assert(1 * pow4(base as int) == pow4(base as int))
                                by (nonlinear_arith);
                            assert(leafslots_active(old_n, base as int) == 1);
                            if !(old_sub.inner is Active) {
                                assert(new_sub == old_sub);
                                assert(n2 == old_n);
                            }
                        }
                    }
                    match r {
                        Result::Ok(_) => (n2, Result::Ok(l)),
                        Result::Err(item2) => (n2, Result::Err((item2, Refuse::FullAt(base - 8)))),
                    }
                },
            }
        },
        ActiveNode::Internal { height, siblings, focus } => {
            let ghost old_focus = *focus;
            let ghost sibs = old_n->Internal_siblings;
            let ghost s = sib_count(sibs);
            let ghost w = pow4(h - 1);
            let sw: u64 = match &siblings {
                Three::Zero => 0,
                Three::One(_) => 1,
                Three::Two(_, _) => 2,
                Three::Full(_, _, _) => 3,
            };
            let wexec = pow4_u64(height - 1);
            let (f2, r0) = active_sub_insert(*focus, item, base, Ghost(h - 1));
            let ghost sf2 = f2;
            let n2 = ActiveNode::Internal { height, siblings, focus: Box::new(f2) };
            let r = match r0 {
                Result::Ok(l_rec) => {
                    proof {
                        lemma_pow4_pos(h - 1);
                        lemma_pow4_pos(base - 8);
                        lemma_mul_le(s, 3, w);
                        assert(pow4(h) == 4 * w);
                        lemma_next_off_active_nonneg(old_focus, h - 1);
                        assert(sw as int == s);
                        assert(wexec as int == w);
                        lemma_pow4_add(h - 1 - (base - 8), base - 8);
                        assert(w == pow4(h - 1 - (base - 8)) * pow4(base - 8));
                        assert(s * w == pow4(base - 8) * (s * pow4(h - 1 - (base - 8))))
                            by (nonlinear_arith)
                            requires
                                w == pow4(h - 1 - (base - 8)) * pow4(base - 8),
                        ;
                        vstd::arithmetic::div_mod::lemma_mod_multiples_vanish(
                            s * pow4(h - 1 - (base - 8)),
                            l_rec as int,
                            pow4(base - 8),
                        );
                        assert(s * w >= 0) by (nonlinear_arith)
                            requires
                                s >= 0,
                                w >= 0,
                        ;
                        assert(l_rec as int + pow4(base - 8) <= pow4(h - 1));
                        assert(s * w + l_rec as int <= 3 * w + w);
                        assert(pow4(h) <= pow4(24)) by {
                            lemma_pow4_mono(h, 24);
                        }
                        assert(pow4(24) == 0x1000000000000) by {
                            reveal_with_fuel(pow4, 25);
                        }
                    }
                    Result::Ok(sw * wexec + l_rec)
                },
                Result::Err(pair) => Result::Err(pair),
            };
            proof {
                lemma_pow4_pos(h - 1);
                assert(n2->Internal_siblings == sibs);
                assert(sub_spine_refusal(old_n, base as int) == sub_spine_refusal(
                    old_focus,
                    base as int,
                ));
                assert(next_off_active(old_n, h) == s * w + next_off_active(old_focus, h - 1));
                assert(next_off_active(n2, h) == s * w + next_off_active(sf2, h - 1));
                assert(leafslots_active(n2, base as int) == leafslots_active(old_n, base as int));
                if r is Ok {
                    let l = r->Ok_0 as int;
                    let l_rec = l - s * w;
                    assert(next_off_active(sf2, h - 1) == l_rec + next_off_leaf(item, base - 8));
                    assert(next_off_active(sf2, h - 1) <= pow4(h - 1)) by {
                        lemma_next_off_leaf_le_span(item, base - 8);
                        lemma_next_off_active_nonneg(sf2, h - 1);
                        assert(l_rec + pow4(base - 8) <= pow4(h - 1));
                        lemma_next_off_leaf_nonneg_helper(item, base - 8);
                    }
                    assert(wf_active(n2, h, base as int));
                    assert(l as int + pow4(base - 8) <= pow4(h)) by {
                        lemma_mul_le(s, 3, w);
                        assert(pow4(h) == 4 * w);
                    }
                    assert forall|off: int| #[trigger]
                        kept_active(n2, h, off) == (if off < l {
                            kept_active(old_n, h, off)
                        } else {
                            kept_leaf_item(item, off - l)
                        }) by {
                        lemma_digit(off, w);
                        let j = off / w;
                        let rr = off % w;
                        assert(w * j == j * w) by (nonlinear_arith);
                        assert(kept_active(n2, h, off) == if 0 <= j < s {
                            kept_kid(sib(sibs, j), h - 1, rr)
                        } else if j == s {
                            kept_active(sf2, h - 1, rr)
                        } else {
                            Option::None
                        });
                        assert(kept_active(old_n, h, off) == if 0 <= j < s {
                            kept_kid(sib(sibs, j), h - 1, rr)
                        } else if j == s {
                            kept_active(old_focus, h - 1, rr)
                        } else {
                            Option::None
                        });
                        if j == s {
                            assert(off == s * w + rr);
                            assert(off < l <==> rr < l_rec);
                            assert(off - l == rr - l_rec);
                        } else if 0 <= j < s {
                            lemma_mul_le(j + 1, s, w);
                            assert(j * w + w == (j + 1) * w) by (nonlinear_arith);
                            assert(off < s * w);
                            assert(0 <= l_rec) by {
                                lemma_next_off_active_nonneg(old_focus, h - 1);
                            }
                            assert(off < l);
                        } else if j > s {
                            lemma_mul_le(s + 1, j, w);
                            assert(s * w + w == (s + 1) * w) by (nonlinear_arith);
                            assert(off >= s * w + w);
                            assert(l_rec + pow4(base - 8) <= pow4(h - 1));
                            assert(off >= l + pow4(base - 8));
                            lemma_pow4_pos(base - 8);
                            assert(off - l >= pow4(base - 8));
                            if kept_leaf_item(item, off - l) is Some {
                                lemma_kept_leaf_item_bound(item, base - 8, off - l);
                                lemma_next_off_leaf_le_span(item, base - 8);
                                assert(false);
                            }
                        } else {
                            assert(off < 0);
                            assert(s * w >= 0) by (nonlinear_arith)
                                requires
                                    s >= 0,
                                    w >= 0,
                            ;
                            assert(0 <= l_rec) by {
                                lemma_next_off_active_nonneg(old_focus, h - 1);
                            }
                            assert(off < l);
                        }
                    }
                } else {
                    lemma_next_off_active_le_span(sf2, h - 1, base as int);
                    assert(wf_active(n2, h, base as int));
                    assert(hash_active(n2) == hash_active(old_n)) by {
                        match sibs {
                            Three::Zero => {},
                            Three::One(_) => {},
                            Three::Two(_, _) => {},
                            Three::Full(_, _, _) => {},
                        }
                    }
                    let k_err = r->Err_0.1;
                    if k_err == Refuse::FullAt((base - 8) as u8) {
                        let pb = pow4(base as int);
                        lemma_pow4_pos(base as int);
                        lemma_pow4_add(h - 1 - base, base as int);
                        assert(w == pow4(h - 1 - base) * pb);
                        assert(next_off_active(sf2, h - 1) == leafslots_active(
                            old_focus,
                            base as int,
                        ) * pb);
                        assert(leafslots_active(n2, base as int) == s * pow4(h - 1 - base)
                            + leafslots_active(old_focus, base as int));
                        assert((s * pow4(h - 1 - base) + leafslots_active(old_focus, base as int))
                            * pb == s * (pow4(h - 1 - base) * pb) + leafslots_active(
                            old_focus,
                            base as int,
                        ) * pb) by (nonlinear_arith);
                        assert(next_off_active(n2, h) == leafslots_active(n2, base as int) * pb);
                    } else {
                        assert(sf2 == old_focus);
                        assert(n2 == old_n);
                    }
                    assert forall|off: int| #[trigger]
                        kept_active(n2, h, off) == kept_active(old_n, h, off) by {
                        lemma_digit(off, w);
                        let j = off / w;
                        let rr = off % w;
                        assert(kept_active(n2, h, off) == if 0 <= j < s {
                            kept_kid(sib(sibs, j), h - 1, rr)
                        } else if j == s {
                            kept_active(sf2, h - 1, rr)
                        } else {
                            Option::None
                        });
                        assert(kept_active(old_n, h, off) == if 0 <= j < s {
                            kept_kid(sib(sibs, j), h - 1, rr)
                        } else if j == s {
                            kept_active(old_focus, h - 1, rr)
                        } else {
                            Option::None
                        });
                    }
                }
            }
            (n2, r)
        },
    }
}

/// A leaf item's frontier offset is never negative.
pub proof fn lemma_next_off_leaf_nonneg_helper(item: LeafItem, h: int)
    ensures
        next_off_leaf(item, h) >= 0,
{
    match item {
        LeafItem::Note(_) => {},
        LeafItem::Stub(_) => {
            lemma_pow4_pos(h);
        },
        LeafItem::SubTier(t) => {
            assert(next_off_leaf(item, h) == next_off_tier(*t));
            lemma_next_off_tier_nonneg(*t);
        },
    }
}

// Witnessing. Walking down to a kept leaf, each level contributes the
// three sibling hashes beside the path; folding them back up recomputes
// the subtree's hash.

/// The three hashes beside slot `j` of a node whose slots hash to the
/// given four values, in left-to-right order.
pub(crate) fn row_skip(
    j: u64,
    h0: crate::hash::Hash,
    h1: crate::hash::Hash,
    h2: crate::hash::Hash,
    h3: crate::hash::Hash,
) -> (r: [crate::hash::Hash; 3])
    requires
        j < 4,
    ensures
        j == 0 ==> r@ =~= seq![h1, h2, h3],
        j == 1 ==> r@ =~= seq![h0, h2, h3],
        j == 2 ==> r@ =~= seq![h0, h1, h3],
        j == 3 ==> r@ =~= seq![h0, h1, h2],
{
    proof {
        broadcast use vstd::array::group_array_axioms;

    }
    if j == 0 {
        let r = [h1, h2, h3];
        proof {
            assert(r@ =~= seq![h1, h2, h3]);
        }
        r
    } else if j == 1 {
        let r = [h0, h2, h3];
        proof {
            assert(r@ =~= seq![h0, h2, h3]);
        }
        r
    } else if j == 2 {
        let r = [h0, h1, h3];
        proof {
            assert(r@ =~= seq![h0, h1, h3]);
        }
        r
    } else {
        let r = [h0, h1, h2];
        proof {
            assert(r@ =~= seq![h0, h1, h2]);
        }
        r
    }
}

/// Split an offset at a node of height `h` into its top digit and the
/// offset within the chosen child.
pub(crate) fn split_off(off: u64, height: u8, Ghost(h): Ghost<int>) -> (r: (u64, u64))
    requires
        height as int == h,
        1 <= h <= 24,
        (off as int) < pow4(h),
    ensures
        0 <= r.0 < 4,
        r.0 as int == (off as int) / pow4(h - 1),
        r.1 as int == (off as int) % pow4(h - 1),
        off as int == pow4(h - 1) * (r.0 as int) + r.1 as int,
        (r.1 as int) < pow4(h - 1),
        r.0 as int == crate::path::digit(off as int, h - 1),
{
    let w = pow4_u64(height - 1);
    proof {
        lemma_pow4_pos(h - 1);
        assert(pow4(h) == 4 * pow4(h - 1));
    }
    let j = off / w;
    let r_off = off % w;
    proof {
        lemma_digit(off as int, w as int);
        assert(j as int == off as int / w as int) by (nonlinear_arith)
            requires
                w as int > 0,
                j == off / w,
        ;
        assert(r_off as int == off as int % w as int) by (nonlinear_arith)
            requires
                w as int > 0,
                r_off == off % w,
        ;
        assert(0 <= j < 4) by {
            assert(off as int == w as int * (j as int) + r_off as int);
            if j >= 4 {
                lemma_mul_le(4, j as int, w as int);
                assert(w as int * (j as int) == (j as int) * (w as int)) by (nonlinear_arith);
                assert(off as int >= 4 * (w as int));
                assert(false);
            }
        }
        vstd::arithmetic::div_mod::lemma_small_mod(j as nat, 4nat);
        assert(crate::path::digit(off as int, h - 1) == (off as int / pow4(h - 1)) % 4);
    }
    (j, r_off)
}

pub(crate) fn witness_kid(k: &Kid, off: u64, Ghost(h): Ghost<int>) -> (r: Option<
    (Vec<[crate::hash::Hash; 3]>, crate::hash::Hash),
>)
    requires
        wf_kid(*k, h),
        0 <= h <= 24,
        (off as int) < pow4(h),
    ensures
        match r {
            Option::Some(pr) => {
                &&& kept_kid(*k, h, off as int) == Option::Some(pr.1@)
                &&& pr.0@.len() == h
                &&& crate::path::fold_path(pr.0@, h, off as int, pr.1@) == hash_kid(*k)
            },
            Option::None => kept_kid(*k, h, off as int) is None,
        },
    decreases *k,
{
    match k {
        Kid::Stub(_) => Option::None,
        Kid::Keep(n) => witness_complete(n, off, Ghost(h)),
    }
}

pub(crate) fn witness_complete(n: &CompleteNode, off: u64, Ghost(h): Ghost<int>) -> (r: Option<
    (Vec<[crate::hash::Hash; 3]>, crate::hash::Hash),
>)
    requires
        wf_complete(*n, h),
        0 <= h <= 24,
        (off as int) < pow4(h),
    ensures
        match r {
            Option::Some(pr) => {
                &&& kept_complete(*n, h, off as int) == Option::Some(pr.1@)
                &&& pr.0@.len() == h
                &&& crate::path::fold_path(pr.0@, h, off as int, pr.1@) == hash_complete(*n)
            },
            Option::None => kept_complete(*n, h, off as int) is None,
        },
    decreases *n,
{
    match n {
        CompleteNode::Leaf { commitment } => {
            proof {
                assert(h == 0);
                assert(pow4(0) == 1);
                assert(off == 0);
            }
            let rows: Vec<[crate::hash::Hash; 3]> = Vec::new();
            let leaf = crate::hash::Hash::of(*commitment);
            proof {
                assert(crate::path::fold_path(rows@, h, off as int, leaf@) == leaf@);
            }
            Option::Some((rows, leaf))
        },
        CompleteNode::Internal { height, four, .. } => {
            let (j, r_off) = split_off(off, *height, Ghost(h));
            let h0 = kid_hash(&four.k0, Ghost(h - 1));
            let h1 = kid_hash(&four.k1, Ghost(h - 1));
            let h2 = kid_hash(&four.k2, Ghost(h - 1));
            let h3 = kid_hash(&four.k3, Ghost(h - 1));
            let inner = if j == 0 {
                witness_kid(&four.k0, r_off, Ghost(h - 1))
            } else if j == 1 {
                witness_kid(&four.k1, r_off, Ghost(h - 1))
            } else if j == 2 {
                witness_kid(&four.k2, r_off, Ghost(h - 1))
            } else {
                witness_kid(&four.k3, r_off, Ghost(h - 1))
            };
            proof {
                assert(kept_complete(*n, h, off as int) == (if j == 0 {
                    kept_kid(four.k0, h - 1, r_off as int)
                } else if j == 1 {
                    kept_kid(four.k1, h - 1, r_off as int)
                } else if j == 2 {
                    kept_kid(four.k2, h - 1, r_off as int)
                } else {
                    kept_kid(four.k3, h - 1, r_off as int)
                }));
            }
            match inner {
                Option::None => Option::None,
                Option::Some((mut rows, leaf)) => {
                    let row = row_skip(j, h0, h1, h2, h3);
                    let ghost pre = rows@;
                    rows.insert(0, row);
                    proof {
                        assert(rows@[0] == row);
                        assert(rows@.drop_first() =~= pre);
                        crate::path::lemma_fold_mod(pre, h - 1, off as int, leaf@, h - 1);
                        assert((off as int) % pow4(h - 1) == r_off as int);
                        assert(crate::path::fold_path(pre, h - 1, off as int, leaf@) == (if j == 0 {
                            hash_kid(four.k0)
                        } else if j == 1 {
                            hash_kid(four.k1)
                        } else if j == 2 {
                            hash_kid(four.k2)
                        } else {
                            hash_kid(four.k3)
                        }));
                        assert(crate::path::fold_path(rows@, h, off as int, leaf@) == hash_complete(
                            *n,
                        ));
                    }
                    Option::Some((rows, leaf))
                },
            }
        },
    }
}

pub(crate) fn witness_active(n: &ActiveNode, off: u64, Ghost(h): Ghost<int>, Ghost(base): Ghost<
    int,
>) -> (r: Option<(Vec<[crate::hash::Hash; 3]>, crate::hash::Hash)>)
    requires
        wf_active(*n, h, base),
        0 <= base <= 16,
        base <= h <= base + 8,
        (off as int) < pow4(h),
    ensures
        match r {
            Option::Some(pr) => {
                &&& kept_active(*n, h, off as int) == Option::Some(pr.1@)
                &&& pr.0@.len() == h
                &&& crate::path::fold_path(pr.0@, h, off as int, pr.1@) == hash_active(*n)
            },
            Option::None => kept_active(*n, h, off as int) is None,
        },
    decreases *n,
{
    match n {
        ActiveNode::Leaf { height, item } => {
            proof {
                assert(wf_leaf_item(*item, h));
                assert(kept_active(*n, h, off as int) == kept_leaf_item(*item, off as int));
                assert(hash_active(*n) == hash_leaf_item(*item));
            }
            match item {
                LeafItem::Note(c) => {
                    proof {
                        assert(h == 0);
                        assert(pow4(0) == 1);
                        assert(off == 0);
                    }
                    let rows: Vec<[crate::hash::Hash; 3]> = Vec::new();
                    let leaf = crate::hash::Hash::of(*c);
                    proof {
                        assert(crate::path::fold_path(rows@, h, off as int, leaf@) == leaf@);
                    }
                    Option::Some((rows, leaf))
                },
                LeafItem::Stub(_) => Option::None,
                LeafItem::SubTier(t) => {
                    proof {
                        assert(wf_tier(**t));
                        assert((**t).base + 8 == h);
                    }
                    witness_tier(t, off)
                },
            }
        },
        ActiveNode::Internal { height, siblings, focus } => {
            let (j, r_off) = split_off(off, *height, Ghost(h));
            let ghost s = sib_count(*siblings);
            let fh = active_hash(focus, Ghost(h - 1), Ghost(base));
            let d = crate::hash::Hash::default();
            proof {
                assert(wf_three(*siblings, h - 1));
            }
            let (h0, h1, h2, h3, scount) = match siblings {
                Three::Zero => (fh, d, d, d, 0u64),
                Three::One(a) => (kid_hash(a, Ghost(h - 1)), fh, d, d, 1u64),
                Three::Two(a, b) => (
                    kid_hash(a, Ghost(h - 1)),
                    kid_hash(b, Ghost(h - 1)),
                    fh,
                    d,
                    2u64,
                ),
                Three::Full(a, b, c) => (
                    kid_hash(a, Ghost(h - 1)),
                    kid_hash(b, Ghost(h - 1)),
                    kid_hash(c, Ghost(h - 1)),
                    fh,
                    3u64,
                ),
            };
            proof {
                assert(hash_active(*n) == node_hash(h, h0@, h1@, h2@, h3@));
                assert(kept_active(*n, h, off as int) == (if 0 <= j < s {
                    kept_kid(sib(*siblings, j as int), h - 1, r_off as int)
                } else if j == s {
                    kept_active(**focus, h - 1, r_off as int)
                } else {
                    Option::None
                }));
            }
            let inner = if j < scount {
                match siblings {
                    Three::Zero => Option::None,
                    Three::One(a) => witness_kid(a, r_off, Ghost(h - 1)),
                    Three::Two(a, b) => if j == 0 {
                        witness_kid(a, r_off, Ghost(h - 1))
                    } else {
                        witness_kid(b, r_off, Ghost(h - 1))
                    },
                    Three::Full(a, b, c) => if j == 0 {
                        witness_kid(a, r_off, Ghost(h - 1))
                    } else if j == 1 {
                        witness_kid(b, r_off, Ghost(h - 1))
                    } else {
                        witness_kid(c, r_off, Ghost(h - 1))
                    },
                }
            } else if j == scount {
                witness_active(focus, r_off, Ghost(h - 1), Ghost(base))
            } else {
                Option::None
            };
            match inner {
                Option::None => {
                    proof {
                        if 0 <= j as int && (j as int) < s {
                        } else if j as int == s {
                        } else {
                            assert(kept_active(*n, h, off as int) is None);
                        }
                    }
                    Option::None
                },
                Option::Some((mut rows, leaf)) => {
                    let row = row_skip(j, h0, h1, h2, h3);
                    let ghost pre = rows@;
                    rows.insert(0, row);
                    proof {
                        assert(rows@[0] == row);
                        assert(rows@.drop_first() =~= pre);
                        crate::path::lemma_fold_mod(pre, h - 1, off as int, leaf@, h - 1);
                        assert((off as int) % pow4(h - 1) == r_off as int);
                        let islot = if (j as int) < s {
                            hash_kid(sib(*siblings, j as int))
                        } else {
                            hash_active(**focus)
                        };
                        assert(crate::path::fold_path(pre, h - 1, off as int, leaf@) == islot);
                        assert(j == 0 ==> islot == h0@ && j == 1 ==> islot == h1@ && j == 2
                            ==> islot == h2@ && j == 3 ==> islot == h3@);
                        assert(crate::path::fold_path(rows@, h, off as int, leaf@) == hash_active(
                            *n,
                        ));
                    }
                    Option::Some((rows, leaf))
                },
            }
        },
    }
}

/// Produce the authentication path to the commitment kept at the given
/// offset of this tier, with the commitment's leaf hash: the path has one
/// row per level of the tier and of everything nested beneath it, and
/// folds back up to the tier's root hash.
pub fn witness_tier(t: &Tier, off: u64) -> (r: Option<
    (Vec<[crate::hash::Hash; 3]>, crate::hash::Hash),
>)
    requires
        wf_tier(*t),
        (off as int) < pow4(t.base + 8),
    ensures
        match r {
            Option::Some(pr) => {
                &&& kept_tier(*t, off as int) == Option::Some(pr.1@)
                &&& pr.0@.len() == t.base + 8
                &&& crate::path::fold_path(pr.0@, t.base + 8, off as int, pr.1@) == hash_tier(*t)
            },
            Option::None => kept_tier(*t, off as int) is None,
        },
    decreases *t,
{
    match &t.inner {
        Inner::Active(o) => match o {
            Option::None => Option::None,
            Option::Some(n) => witness_active(n, off, Ghost(t.base + 8), Ghost(t.base as int)),
        },
        Inner::Complete(c) => witness_complete(c, off, Ghost(t.base + 8)),
        Inner::Hash(_) => Option::None,
    }
}

/// Collapse completeness: in a well-formed tree, no complete internal
/// node exists whose four children are all bare hashes — such a node is
/// collapsed to a single hash when it is built.
pub proof fn lemma_collapse_completeness(n: CompleteNode, h: int)
    requires
        wf_complete(n, h),
        n is Internal,
    ensures
        one_keep(*n->Internal_four),
{
}

/// Cache correctness: every stored node hash equals the hash recomputed
/// from the node's children.
pub proof fn lemma_cache_correct(n: CompleteNode, h: int)
    requires
        wf_complete(n, h),
        n is Internal,
    ensures
        n->Internal_cache@ == hash_complete(n),
{
}

// Heterogeneous equality: an active subtree and a frozen one are equal
// when they hold the same witnesses and hashes, level by level. A bare
// hash is never equal to an active subtree, whatever its value.

pub open spec fn eq_kid(a: Kid, b: Kid) -> bool
    decreases a,
{
    match (a, b) {
        (Kid::Stub(x), Kid::Stub(y)) => x@ == y@,
        (Kid::Keep(x), Kid::Keep(y)) => eq_complete(*x, *y),
        _ => false,
    }
}

pub open spec fn eq_complete(a: CompleteNode, b: CompleteNode) -> bool
    decreases a,
{
    match (a, b) {
        (CompleteNode::Leaf { commitment: x }, CompleteNode::Leaf { commitment: y }) => x@ == y@,
        (
            CompleteNode::Internal { height: ha, four: fa, .. },
            CompleteNode::Internal { height: hb, four: fb, .. },
        ) => ha == hb && eq_kid(fa.k0, fb.k0) && eq_kid(fa.k1, fb.k1) && eq_kid(fa.k2, fb.k2)
            && eq_kid(fa.k3, fb.k3),
        _ => false,
    }
}

/// A slot holding the blank hash, standing for a never-touched child.
pub open spec fn stub_blank(k: Kid) -> bool {
    k matches Kid::Stub(s) && s@ == blank_hash()
}

// Whether a subtree holds no witness at all: it is nothing but bare
// hashes, and freezing it collapses it to a single hash. A bare-hash slot
// is equal exactly to such a subtree with the same hash — never to one
// holding a witness.

pub open spec fn witnessless_active(n: ActiveNode) -> bool
    decreases n, 0int,
{
    match n {
        ActiveNode::Leaf { item, .. } => witnessless_item(item),
        ActiveNode::Internal { siblings, focus, .. } => sibs_all_stub(siblings)
            && witnessless_active(*focus),
    }
}

pub open spec fn sibs_all_stub(s: Three) -> bool {
    match s {
        Three::Zero => true,
        Three::One(a) => a is Stub,
        Three::Two(a, b) => a is Stub && b is Stub,
        Three::Full(a, b, c) => a is Stub && b is Stub && c is Stub,
    }
}

pub open spec fn witnessless_item(item: LeafItem) -> bool
    decreases item, 1int,
{
    match item {
        LeafItem::Note(_) => false,
        LeafItem::Stub(_) => true,
        LeafItem::SubTier(t) => witnessless_tier(*t),
    }
}

pub open spec fn witnessless_tier(t: Tier) -> bool
    decreases t, 2int,
{
    match t.inner {
        Inner::Active(o) => match o {
            Option::Some(m) => witnessless_active(*m),
            Option::None => true,
        },
        Inner::Complete(_) => false,
        Inner::Hash(_) => true,
    }
}

pub open spec fn eq_active_kid(a: ActiveNode, k: Kid) -> bool
    decreases a, 1int,
{
    match k {
        Kid::Stub(s) => witnessless_active(a) && hash_active(a) == s@,
        Kid::Keep(c) => eq_active_complete(a, *c),
    }
}

pub open spec fn eq_active_complete(a: ActiveNode, c: CompleteNode) -> bool
    decreases a, 0int,
{
    match a {
        ActiveNode::Leaf { item, .. } => eq_leaf_complete(item, c),
        ActiveNode::Internal { height, siblings, focus } => match c {
            CompleteNode::Internal { height: hc, four, .. } => height == hc && (match siblings {
                Three::Zero => eq_active_kid(*focus, four.k0) && stub_blank(four.k1) && stub_blank(
                    four.k2,
                ) && stub_blank(four.k3),
                Three::One(s0) => eq_kid(s0, four.k0) && eq_active_kid(*focus, four.k1)
                    && stub_blank(four.k2) && stub_blank(four.k3),
                Three::Two(s0, s1) => eq_kid(s0, four.k0) && eq_kid(s1, four.k1) && eq_active_kid(
                    *focus,
                    four.k2,
                ) && stub_blank(four.k3),
                Three::Full(s0, s1, s2) => eq_kid(s0, four.k0) && eq_kid(s1, four.k1) && eq_kid(
                    s2,
                    four.k2,
                ) && eq_active_kid(*focus, four.k3),
            }),
            _ => false,
        },
    }
}

pub open spec fn eq_leaf_complete(item: LeafItem, c: CompleteNode) -> bool
    decreases item, 2int,
{
    match item {
        LeafItem::Note(x) => c matches CompleteNode::Leaf { commitment } && commitment@ == x@,
        LeafItem::Stub(_) => false,
        LeafItem::SubTier(t) => match t.inner {
            Inner::Active(o) => match o {
                Option::Some(n) => eq_active_complete(*n, c),
                Option::None => false,
            },
            Inner::Complete(x) => eq_complete(*x, c),
            Inner::Hash(_) => false,
        },
    }
}

// Equality between two active subtrees, two tiers, or a tier and either:
// structural, except that two bare hashes compare by value, and a bare
// hash never equals a subtree that holds witnesses.

pub open spec fn eq_active_active(a: ActiveNode, b: ActiveNode) -> bool
    decreases a, 0int,
{
    match (a, b) {
        (ActiveNode::Leaf { item: x, .. }, ActiveNode::Leaf { item: y, .. }) => eq_item_item(x, y),
        (
            ActiveNode::Internal { height: ha, siblings: sa, focus: fa },
            ActiveNode::Internal { height: hb, siblings: sb, focus: fb },
        ) => ha == hb && eq_three(sa, sb) && eq_active_active(*fa, *fb),
        _ => false,
    }
}

pub open spec fn eq_three(a: Three, b: Three) -> bool {
    match (a, b) {
        (Three::Zero, Three::Zero) => true,
        (Three::One(x0), Three::One(y0)) => eq_kid(x0, y0),
        (Three::Two(x0, x1), Three::Two(y0, y1)) => eq_kid(x0, y0) && eq_kid(x1, y1),
        (Three::Full(x0, x1, x2), Three::Full(y0, y1, y2)) => eq_kid(x0, y0) && eq_kid(x1, y1)
            && eq_kid(x2, y2),
        _ => false,
    }
}

pub open spec fn eq_item_item(a: LeafItem, b: LeafItem) -> bool
    decreases a, 1int,
{
    match (a, b) {
        (LeafItem::Note(x), LeafItem::Note(y)) => x@ == y@,
        (LeafItem::Stub(x), LeafItem::Stub(y)) => x@ == y@,
        (LeafItem::SubTier(x), LeafItem::SubTier(y)) => eq_tier(*x, *y),
        _ => false,
    }
}

/// Two tiers are equal when their counters match and their insides hold
/// the same contents — comparing a still-active inside against a frozen
/// one level by level, so a tier frozen by a failed insertion still
/// equals the same tier built elsewhere and not yet frozen.
pub open spec fn eq_tier(a: Tier, b: Tier) -> bool
    decreases a, 2int,
{
    a.base == b.base && a.len == b.len && a.witnessed == b.witnessed && eq_inner(a.inner, b.inner)
}

pub open spec fn eq_inner(a: Inner, b: Inner) -> bool
    decreases a, 1int,
{
    match (a, b) {
        (Inner::Hash(x), Inner::Hash(y)) => x@ == y@,
        (Inner::Hash(_), _) => false,
        (_, Inner::Hash(_)) => false,
        (Inner::Active(x), Inner::Active(y)) => match (x, y) {
            (Option::None, Option::None) => true,
            (Option::Some(m), Option::Some(n)) => eq_active_active(*m, *n),
            _ => false,
        },
        (Inner::Complete(x), Inner::Complete(y)) => eq_complete(*x, *y),
        (Inner::Active(x), Inner::Complete(y)) => match x {
            Option::Some(m) => eq_active_complete(*m, *y),
            Option::None => false,
        },
        (Inner::Complete(x), Inner::Active(y)) => match y {
            Option::Some(n) => eq_active_complete(*n, *x),
            Option::None => false,
        },
    }
}

/// Heterogeneous equality of a leaf item with a frozen child slot.
pub open spec fn eq_item_kid(item: LeafItem, k: Kid) -> bool {
    match k {
        Kid::Stub(s) => witnessless_item(item) && hash_leaf_item(item) == s@,
        Kid::Keep(c) => eq_leaf_complete(item, *c),
    }
}

/// Heterogeneous equality of a whole tier with a frozen child slot.
pub open spec fn eq_tier_kid(t: Tier, k: Kid) -> bool {
    eq_item_kid(LeafItem::SubTier(Box::new(t)), k)
}

/// Equality between frozen subtrees is reflexive.
pub proof fn lemma_eq_kid_refl(k: Kid)
    ensures
        eq_kid(k, k),
    decreases k,
{
    match k {
        Kid::Stub(_) => {},
        Kid::Keep(n) => lemma_eq_complete_refl(*n),
    }
}

pub proof fn lemma_eq_complete_refl(n: CompleteNode)
    ensures
        eq_complete(n, n),
    decreases n,
{
    match n {
        CompleteNode::Leaf { .. } => {},
        CompleteNode::Internal { four, .. } => {
            lemma_eq_kid_refl(four.k0);
            lemma_eq_kid_refl(four.k1);
            lemma_eq_kid_refl(four.k2);
            lemma_eq_kid_refl(four.k3);
        },
    }
}

/// The other half of the finalization law: a subtree holding no witness —
/// in particular one whose finalization collapsed to a bare hash — is
/// never equal to a complete subtree, for a well-formed complete subtree
/// always holds a witness.
pub proof fn lemma_witnessless_unequal_complete(n: ActiveNode, c: CompleteNode, h: int)
    requires
        wf_complete(c, h),
        witnessless_active(n),
    ensures
        !eq_active_complete(n, c),
    decreases n, 0int,
{
    match n {
        ActiveNode::Leaf { item, .. } => {
            lemma_witnessless_item_unequal(item, c, h);
        },
        ActiveNode::Internal { height, siblings, focus } => {
            match c {
                CompleteNode::Leaf { .. } => {},
                CompleteNode::Internal { height: hc, four, .. } => {
                    if eq_active_complete(n, c) {
                        assert(sibs_all_stub(siblings) && witnessless_active(*focus));
                        let fslot = match siblings {
                            Three::Zero => four.k0,
                            Three::One(_) => four.k1,
                            Three::Two(_, _) => four.k2,
                            Three::Full(_, _, _) => four.k3,
                        };
                        assert(eq_active_kid(*focus, fslot));
                        match fslot {
                            Kid::Stub(_) => {},
                            Kid::Keep(cc) => {
                                assert(wf_kid(fslot, h - 1));
                                lemma_witnessless_unequal_complete(*focus, *cc, h - 1);
                                assert(false);
                            },
                        }
                        // every other slot is pinned to a stub as well
                        match siblings {
                            Three::Zero => {
                                assert(stub_blank(four.k1) && stub_blank(four.k2) && stub_blank(
                                    four.k3,
                                ));
                            },
                            Three::One(a) => {
                                assert(eq_kid(a, four.k0) && a is Stub);
                                assert(stub_blank(four.k2) && stub_blank(four.k3));
                            },
                            Three::Two(a, b) => {
                                assert(eq_kid(a, four.k0) && eq_kid(b, four.k1));
                                assert(a is Stub && b is Stub);
                                assert(stub_blank(four.k3));
                            },
                            Three::Full(a, b, cc) => {
                                assert(eq_kid(a, four.k0) && eq_kid(b, four.k1) && eq_kid(
                                    cc,
                                    four.k2,
                                ));
                                assert(a is Stub && b is Stub && cc is Stub);
                            },
                        }
                        assert(!one_keep(*four));
                        assert(false);
                    }
                },
            }
        },
    }
}

pub proof fn lemma_witnessless_item_unequal(item: LeafItem, c: CompleteNode, h: int)
    requires
        wf_complete(c, h),
        witnessless_item(item),
    ensures
        !eq_leaf_complete(item, c),
    decreases item, 1int,
{
    match item {
        LeafItem::Note(_) => {
            assert(false);
        },
        LeafItem::Stub(_) => {},
        LeafItem::SubTier(t) => {
            match t.inner {
                Inner::Active(o) => match o {
                    Option::Some(m) => {
                        assert(witnessless_active(*m));
                        lemma_witnessless_unequal_complete(*m, c, h);
                    },
                    Option::None => {},
                },
                Inner::Complete(_) => {
                    assert(false);
                },
                Inner::Hash(_) => {},
            }
        },
    }
}

/// The law at tier granularity: a tier holding no witness — one whose
/// finalization yields a bare hash — equals no frozen subtree.
pub proof fn lemma_witnessless_tier_unequal(t: Tier, c: CompleteNode, h: int)
    requires
        wf_complete(c, h),
        witnessless_tier(t),
    ensures
        !eq_tier_kid(t, Kid::Keep(Box::new(c))),
{
    assert(witnessless_item(LeafItem::SubTier(Box::new(t))));
    lemma_witnessless_item_unequal(LeafItem::SubTier(Box::new(t)), c, h);
}

// Hashes recomputed from scratch, reading no stored value: equality must
// not presuppose well-formedness, so these walk the whole subtree.

pub(crate) fn raw_kid_hash(k: &Kid) -> (r: crate::hash::Hash)
    ensures
        r@ == hash_kid(*k),
    decreases *k,
{
    match k {
        Kid::Stub(s) => *s,
        Kid::Keep(n) => raw_complete_hash(n),
    }
}

pub(crate) fn raw_complete_hash(n: &CompleteNode) -> (r: crate::hash::Hash)
    ensures
        r@ == hash_complete(*n),
    decreases *n,
{
    match n {
        CompleteNode::Leaf { commitment } => crate::hash::Hash::of(*commitment),
        CompleteNode::Internal { height, four, .. } => {
            let h0 = raw_kid_hash(&four.k0);
            let h1 = raw_kid_hash(&four.k1);
            let h2 = raw_kid_hash(&four.k2);
            let h3 = raw_kid_hash(&four.k3);
            crate::hash::hash_node(*height, &h0, &h1, &h2, &h3)
        },
    }
}

pub(crate) fn raw_leaf_item_hash(item: &LeafItem) -> (r: crate::hash::Hash)
    ensures
        r@ == hash_leaf_item(*item),
    decreases *item,
{
    match item {
        LeafItem::Note(c) => crate::hash::Hash::of(*c),
        LeafItem::Stub(s) => *s,
        LeafItem::SubTier(t) => raw_tier_hash(t),
    }
}

pub(crate) fn raw_active_hash(n: &ActiveNode) -> (r: crate::hash::Hash)
    ensures
        r@ == hash_active(*n),
    decreases *n,
{
    match n {
        ActiveNode::Leaf { item, .. } => raw_leaf_item_hash(item),
        ActiveNode::Internal { height, siblings, focus } => {
            let f = raw_active_hash(focus);
            let d = crate::hash::Hash::default();
            match siblings {
                Three::Zero => crate::hash::hash_node(*height, &f, &d, &d, &d),
                Three::One(a) => {
                    let ha = raw_kid_hash(a);
                    crate::hash::hash_node(*height, &ha, &f, &d, &d)
                },
                Three::Two(a, b) => {
                    let ha = raw_kid_hash(a);
                    let hb = raw_kid_hash(b);
                    crate::hash::hash_node(*height, &ha, &hb, &f, &d)
                },
                Three::Full(a, b, c) => {
                    let ha = raw_kid_hash(a);
                    let hb = raw_kid_hash(b);
                    let hc = raw_kid_hash(c);
                    crate::hash::hash_node(*height, &ha, &hb, &hc, &f)
                },
            }
        },
    }
}

pub(crate) fn raw_tier_hash(t: &Tier) -> (r: crate::hash::Hash)
    ensures
        r@ == hash_tier(*t),
    decreases *t,
{
    match &t.inner {
        Inner::Active(o) => match o {
            Option::None => crate::hash::Hash::default(),
            Option::Some(n) => raw_active_hash(n),
        },
        Inner::Complete(c) => raw_complete_hash(c),
        Inner::Hash(s) => *s,
    }
}

// Whether a subtree is witness-free, decided by walking it.

pub(crate) fn is_witnessless_active(n: &ActiveNode) -> (r: bool)
    ensures
        r == witnessless_active(*n),
    decreases *n, 0int,
{
    match n {
        ActiveNode::Leaf { item, .. } => is_witnessless_item(item),
        ActiveNode::Internal { siblings, focus, .. } => {
            let sibs_ok = match siblings {
                Three::Zero => true,
                Three::One(a) => matches!(a, Kid::Stub(_)),
                Three::Two(a, b) => matches!(a, Kid::Stub(_)) && matches!(b, Kid::Stub(_)),
                Three::Full(a, b, c) => matches!(a, Kid::Stub(_)) && matches!(b, Kid::Stub(_))
                    && matches!(c, Kid::Stub(_)),
            };
            sibs_ok && is_witnessless_active(focus)
        },
    }
}

pub(crate) fn is_witnessless_item(item: &LeafItem) -> (r: bool)
    ensures
        r == witnessless_item(*item),
    decreases *item, 1int,
{
    match item {
        LeafItem::Note(_) => false,
        LeafItem::Stub(_) => true,
        LeafItem::SubTier(t) => is_witnessless_tier(t),
    }
}

pub(crate) fn is_witnessless_tier(t: &Tier) -> (r: bool)
    ensures
        r == witnessless_tier(*t),
    decreases *t, 2int,
{
    match &t.inner {
        Inner::Active(o) => match o {
            Option::Some(m) => is_witnessless_active(m),
            Option::None => true,
        },
        Inner::Complete(_) => false,
        Inner::Hash(_) => true,
    }
}

pub(crate) fn kid_eq(a: &Kid, b: &Kid) -> (r: bool)
    ensures
        r == eq_kid(*a, *b),
    decreases *a,
{
    match (a, b) {
        (Kid::Stub(x), Kid::Stub(y)) => x.value_eq(y),
        (Kid::Keep(x), Kid::Keep(y)) => complete_eq(x, y),
        _ => false,
    }
}

pub(crate) fn complete_eq(a: &CompleteNode, b: &CompleteNode) -> (r: bool)
    ensures
        r == eq_complete(*a, *b),
    decreases *a,
{
    match (a, b) {
        (CompleteNode::Leaf { commitment: x }, CompleteNode::Leaf { commitment: y }) => x.value_eq(
            y,
        ),
        (
            CompleteNode::Internal { height: ha, four: fa, .. },
            CompleteNode::Internal { height: hb, four: fb, .. },
        ) => *ha == *hb && kid_eq(&fa.k0, &fb.k0) && kid_eq(&fa.k1, &fb.k1) && kid_eq(
            &fa.k2,
            &fb.k2,
        ) && kid_eq(&fa.k3, &fb.k3),
        _ => false,
    }
}

pub(crate) fn active_complete_eq(a: &ActiveNode, c: &CompleteNode) -> (r: bool)
    ensures
        r == eq_active_complete(*a, *c),
    decreases *a, 0int,
{
    match a {
        ActiveNode::Leaf { item, .. } => leaf_complete_eq(item, c),
        ActiveNode::Internal { height, siblings, focus } => match c {
            CompleteNode::Internal { height: hc, four, .. } => *height == *hc && (match siblings {
                Three::Zero => active_complete_kid_eq(focus, &four.k0) && stub_blank_eq(&four.k1)
                    && stub_blank_eq(&four.k2) && stub_blank_eq(&four.k3),
                Three::One(s0) => kid_eq(s0, &four.k0) && active_complete_kid_eq(focus, &four.k1)
                    && stub_blank_eq(&four.k2) && stub_blank_eq(&four.k3),
                Three::Two(s0, s1) => kid_eq(s0, &four.k0) && kid_eq(s1, &four.k1)
                    && active_complete_kid_eq(focus, &four.k2) && stub_blank_eq(&four.k3),
                Three::Full(s0, s1, s2) => kid_eq(s0, &four.k0) && kid_eq(s1, &four.k1) && kid_eq(
                    s2,
                    &four.k2,
                ) && active_complete_kid_eq(focus, &four.k3),
            }),
            CompleteNode::Leaf { .. } => false,
        },
    }
}

/// Whether a slot holds the blank hash.
pub(crate) fn stub_blank_eq(k: &Kid) -> (r: bool)
    ensures
        r == stub_blank(*k),
{
    match k {
        Kid::Stub(s) => s.value_eq(&crate::hash::Hash::default()),
        Kid::Keep(_) => false,
    }
}

pub(crate) fn active_complete_kid_eq(a: &ActiveNode, k: &Kid) -> (r: bool)
    ensures
        r == eq_active_kid(*a, *k),
    decreases *a, 1int,
{
    match k {
        Kid::Stub(s) => is_witnessless_active(a) && raw_active_hash(a).value_eq(s),
        Kid::Keep(c) => active_complete_eq(a, c),
    }
}

pub(crate) fn leaf_complete_eq(item: &LeafItem, c: &CompleteNode) -> (r: bool)
    ensures
        r == eq_leaf_complete(*item, *c),
    decreases *item, 2int,
{
    match item {
        LeafItem::Note(x) => match c {
            CompleteNode::Leaf { commitment } => commitment.value_eq(x),
            CompleteNode::Internal { .. } => false,
        },
        LeafItem::Stub(_) => false,
        LeafItem::SubTier(t) => match &t.inner {
            Inner::Active(o) => match o {
                Option::Some(n) => active_complete_eq(n, c),
                Option::None => false,
            },
            Inner::Complete(x) => complete_eq(x, c),
            Inner::Hash(_) => false,
        },
    }
}

pub(crate) fn active_active_eq(a: &ActiveNode, b: &ActiveNode) -> (r: bool)
    ensures
        r == eq_active_active(*a, *b),
    decreases *a, 0int,
{
    match (a, b) {
        (ActiveNode::Leaf { item: x, .. }, ActiveNode::Leaf { item: y, .. }) => item_item_eq(x, y),
        (
            ActiveNode::Internal { height: ha, siblings: sa, focus: fa },
            ActiveNode::Internal { height: hb, siblings: sb, focus: fb },
        ) => *ha == *hb && three_eq(sa, sb) && active_active_eq(fa, fb),
        _ => false,
    }
}

pub(crate) fn three_eq(a: &Three, b: &Three) -> (r: bool)
    ensures
        r == eq_three(*a, *b),
{
    match (a, b) {
        (Three::Zero, Three::Zero) => true,
        (Three::One(x0), Three::One(y0)) => kid_eq(x0, y0),
        (Three::Two(x0, x1), Three::Two(y0, y1)) => kid_eq(x0, y0) && kid_eq(x1, y1),
        (Three::Full(x0, x1, x2), Three::Full(y0, y1, y2)) => kid_eq(x0, y0) && kid_eq(x1, y1)
            && kid_eq(x2, y2),
        _ => false,
    }
}

pub(crate) fn item_item_eq(a: &LeafItem, b: &LeafItem) -> (r: bool)
    ensures
        r == eq_item_item(*a, *b),
    decreases *a, 1int,
{
    match (a, b) {
        (LeafItem::Note(x), LeafItem::Note(y)) => x.value_eq(y),
        (LeafItem::Stub(x), LeafItem::Stub(y)) => x.value_eq(y),
        (LeafItem::SubTier(x), LeafItem::SubTier(y)) => tier_eq(x, y),
        _ => false,
    }
}

/// Whether two tiers hold the same logical contents, comparing an active
/// inside against a frozen one level by level where they meet.
pub fn tier_eq(a: &Tier, b: &Tier) -> (r: bool)
    ensures
        r == eq_tier(*a, *b),
    decreases *a, 2int,
{
    a.base == b.base && a.len == b.len && a.witnessed == b.witnessed && inner_eq(
        &a.inner,
        &b.inner,
    )
}

pub(crate) fn inner_eq(a: &Inner, b: &Inner) -> (r: bool)
    ensures
        r == eq_inner(*a, *b),
    decreases *a, 1int,
{
    match (a, b) {
        (Inner::Hash(x), Inner::Hash(y)) => x.value_eq(y),
        (Inner::Hash(_), _) => false,
        (_, Inner::Hash(_)) => false,
        (Inner::Active(x), Inner::Active(y)) => match (x, y) {
            (Option::None, Option::None) => true,
            (Option::Some(m), Option::Some(n)) => active_active_eq(m, n),
            _ => false,
        },
        (Inner::Complete(x), Inner::Complete(y)) => complete_eq(x, y),
        (Inner::Active(x), Inner::Complete(y)) => match x {
            Option::Some(m) => active_complete_eq(m, y),
            Option::None => false,
        },
        (Inner::Complete(x), Inner::Active(y)) => match y {
            Option::Some(n) => active_complete_eq(n, x),
            Option::None => false,
        },
    }
}

impl CompleteNode {
    /// The four child slots of a frozen internal node, each a witnessed
    /// subtree or a bare hash; `None` at a leaf.
    pub fn children(&self) -> (r: Option<(&Kid, &Kid, &Kid, &Kid)>)
        ensures
            match r {
                Option::Some(t) => self is Internal && *t.0 == self->Internal_four.k0 && *t.1
                    == self->Internal_four.k1 && *t.2 == self->Internal_four.k2 && *t.3
                    == self->Internal_four.k3,
                Option::None => self is Leaf,
            },
    {
        match self {
            CompleteNode::Leaf { .. } => Option::None,
            CompleteNode::Internal { four, .. } => Option::Some(
                (&four.k0, &four.k1, &four.k2, &four.k3),
            ),
        }
    }
}

impl PartialEq for Tier {
    /// Tier equality is the heterogeneous structural equality: an active
    /// tier equals a frozen one holding the same contents.
    fn eq(&self, other: &Tier) -> (r: bool) {
        tier_eq(self, other)
    }
}

impl vstd::std_specs::cmp::PartialEqSpecImpl for Tier {
    open spec fn obeys_eq_spec() -> bool {
        true
    }

    open spec fn eq_spec(&self, other: &Tier) -> bool {
        eq_tier(*self, *other)
    }
}

impl Eq for Tier {

}

/// Replace the item in the focused leaf, handing the previous one back.
/// The leaf keeps its slot: everything to its left is untouched, and the
/// tier's frontier moves to the new item's own frontier within the slot.
pub(crate) fn active_update(n: ActiveNode, item: LeafItem, base: u8, Ghost(h): Ghost<int>) -> (res: (
    ActiveNode,
    LeafItem,
))
    requires
        wf_active(n, h, base as int),
        wf_leaf_item(item, base as int),
        base == 0 || base == 8 || base == 16,
        base <= h <= base + 8,
    ensures
        wf_active(res.0, h, base as int),
        res.1 == focus_item(n),
        focus_item(res.0) == item,
        leafslots_active(res.0, base as int) == leafslots_active(n, base as int),
        next_off_active(res.0, h) == (leafslots_active(n, base as int) - 1) * pow4(base as int)
            + next_off_leaf(item, base as int),
        forall|off: int| #[trigger]
            kept_active(res.0, h, off) == (if (leafslots_active(n, base as int) - 1) * pow4(
                base as int,
            ) <= off < leafslots_active(n, base as int) * pow4(base as int) {
                kept_leaf_item(item, off - (leafslots_active(n, base as int) - 1) * pow4(
                    base as int,
                ))
            } else {
                kept_active(n, h, off)
            }),
    decreases n,
{
    let ghost old_n = n;
    let ghost bb = base as int;
    let ghost ww = pow4(bb);
    match n {
        ActiveNode::Leaf { height, item: old_item } => {
            let n2 = ActiveNode::Leaf { height, item };
            proof {
                lemma_pow4_pos(bb);
                assert(wf_active(n2, h, bb));
                assert(leafslots_active(n2, bb) == 1);
                assert(next_off_active(n2, h) == next_off_leaf(item, bb));
                assert(0 * ww == 0) by (nonlinear_arith);
                assert(1 * ww == ww) by (nonlinear_arith);
                assert forall|off: int| #[trigger]
                    kept_active(n2, h, off) == (if 0 <= off < ww {
                        kept_leaf_item(item, off - 0)
                    } else {
                        kept_active(old_n, h, off)
                    }) by {
                    assert(kept_active(n2, h, off) == kept_leaf_item(item, off));
                    assert(kept_active(old_n, h, off) == kept_leaf_item(old_item, off));
                    if !(0 <= off < ww) {
                        if kept_leaf_item(item, off) is Some {
                            lemma_kept_leaf_item_bound(item, bb, off);
                            lemma_next_off_leaf_le_span(item, bb);
                            assert(false);
                        }
                        if kept_leaf_item(old_item, off) is Some {
                            lemma_kept_leaf_item_bound(old_item, bb, off);
                            lemma_next_off_leaf_le_span(old_item, bb);
                            assert(false);
                        }
                    }
                }
            }
            (n2, old_item)
        },
        ActiveNode::Internal { height, siblings, focus } => {
            let ghost sibs = siblings;
            let ghost old_focus = *focus;
            let ghost s = sib_count(sibs);
            let ghost w = pow4(h - 1);
            let ghost mm = pow4(h - 1 - bb);
            let ghost lf = leafslots_active(old_focus, bb);
            let (f2, prev) = active_update(*focus, item, base, Ghost(h - 1));
            let ghost sf2 = f2;
            let n2 = ActiveNode::Internal { height, siblings, focus: Box::new(f2) };
            proof {
                lemma_pow4_pos(h - 1);
                lemma_pow4_pos(bb);
                lemma_pow4_pos(h - 1 - bb);
                lemma_pow4_add(h - 1 - bb, bb);
                assert(w == mm * ww);
                lemma_leafslots_bounds(old_focus, h - 1, bb);
                lemma_next_off_leaf_le_span(item, bb);
                lemma_next_off_leaf_nonneg_helper(item, bb);
                // the rebuilt focus still fits under this node
                assert(next_off_active(sf2, h - 1) == (lf - 1) * ww + next_off_leaf(item, bb));
                assert((lf - 1) * ww + ww == lf * ww) by (nonlinear_arith);
                lemma_mul_le(lf, mm, ww);
                assert(next_off_active(sf2, h - 1) <= pow4(h - 1));
                assert(wf_active(n2, h, bb));
                assert(leafslots_active(n2, bb) == s * mm + lf);
                let ls = leafslots_active(old_n, bb);
                assert(ls == s * mm + lf);
                let ll = (ls - 1) * ww;
                assert(ll == s * w + (lf - 1) * ww) by (nonlinear_arith)
                    requires
                        ll == (s * mm + lf - 1) * ww,
                        w == mm * ww,
                ;
                assert(next_off_active(n2, h) == s * w + next_off_active(sf2, h - 1));
                assert(ls * ww == s * w + lf * ww) by (nonlinear_arith)
                    requires
                        ls == s * mm + lf,
                        w == mm * ww,
                ;
                assert forall|off: int| #[trigger]
                    kept_active(n2, h, off) == (if ll <= off < ls * ww {
                        kept_leaf_item(item, off - ll)
                    } else {
                        kept_active(old_n, h, off)
                    }) by {
                    lemma_digit(off, w);
                    let j = off / w;
                    let rr = off % w;
                    assert(w * j == j * w) by (nonlinear_arith);
                    assert(kept_active(n2, h, off) == if 0 <= j < s {
                        kept_kid(sib(sibs, j), h - 1, rr)
                    } else if j == s {
                        kept_active(sf2, h - 1, rr)
                    } else {
                        Option::None
                    });
                    assert(kept_active(old_n, h, off) == if 0 <= j < s {
                        kept_kid(sib(sibs, j), h - 1, rr)
                    } else if j == s {
                        kept_active(old_focus, h - 1, rr)
                    } else {
                        Option::None
                    });
                    assert(0 <= (lf - 1) * ww) by {
                        lemma_mul_le(0, lf - 1, ww);
                    }
                    assert(lf * ww <= w) by {
                        lemma_mul_le(lf, mm, ww);
                    }
                    if j == s {
                        assert(off == s * w + rr);
                        assert(ll <= off < ls * ww <==> (lf - 1) * ww <= rr < lf * ww);
                        assert(off - ll == rr - (lf - 1) * ww);
                    } else if 0 <= j < s {
                        lemma_mul_le(j + 1, s, w);
                        assert(j * w + w == (j + 1) * w) by (nonlinear_arith);
                        assert(off < s * w);
                        assert(off < ll);
                    } else if j > s {
                        lemma_mul_le(s + 1, j, w);
                        assert(s * w + w == (s + 1) * w) by (nonlinear_arith);
                        assert(off >= s * w + w);
                        assert(off >= ls * ww);
                    } else {
                        assert(off < 0);
                        lemma_mul_le(0, s, w);
                        assert(off < ll);
                    }
                }
            }
            (n2, prev)
        },
    }
}

/// The item in the focused leaf: the most recently inserted one.
pub open spec fn focus_item(n: ActiveNode) -> LeafItem
    decreases n,
{
    match n {
        ActiveNode::Leaf { item, .. } => item,
        ActiveNode::Internal { focus, .. } => focus_item(*focus),
    }
}

/// Walk the spine down to the focused leaf's item.
pub fn active_focus_ref(n: &ActiveNode) -> (r: &LeafItem)
    ensures
        *r == focus_item(*n),
    decreases *n,
{
    match n {
        ActiveNode::Leaf { item, .. } => item,
        ActiveNode::Internal { focus, .. } => active_focus_ref(focus),
    }
}

impl Tier {
    /// A new, empty tier with the given base height.
    pub fn new(base: u8) -> (r: Tier)
        requires
            base == 0 || base == 8 || base == 16,
        ensures
            wf_tier(r),
            r.base == base,
            r.len == 0,
            r.witnessed == 0,
            r.inner is Active,
            next_off_tier(r) == 0,
            leafslots_tier(r) == 0,
            hash_tier(r) == blank_hash(),
            forall|off: int| #[trigger] kept_tier(r, off) is None,
    {
        Tier { base, len: 0, witnessed: 0, inner: Inner::Active(Option::None) }
    }

    /// Insert an item at this tier's own leaf level. While the tier has
    /// room, the item is appended at the frontier and becomes the focus;
    /// a full tier freezes — to a complete subtree if a witness survives,
    /// to a bare hash otherwise, either way keeping its hash — and hands
    /// the item back unconsumed. A frozen tier is terminal: it is left
    /// exactly as it was.
    pub fn insert(&mut self, item: LeafItem) -> (r: Result<(), LeafItem>)
        requires
            wf_tier(*old(self)),
            wf_leaf_item(item, old(self).base as int),
        ensures
            wf_tier(*final(self)),
            final(self).base == old(self).base,
            r is Ok <==> leafslots_tier(*old(self)) < pow4(8),
            match r {
                Result::Ok(_) => {
                    &&& leafslots_tier(*final(self)) == leafslots_tier(*old(self)) + 1
                    &&& next_off_tier(*final(self)) == leafslots_tier(*old(self)) * pow4(
                        old(self).base as int,
                    ) + next_off_leaf(item, old(self).base as int)
                    &&& forall|off: int| #[trigger]
                        kept_tier(*final(self), off) == (if off < leafslots_tier(*old(self))
                            * pow4(old(self).base as int) {
                            kept_tier(*old(self), off)
                        } else {
                            kept_leaf_item(item, off - leafslots_tier(*old(self)) * pow4(
                                old(self).base as int,
                            ))
                        })
                    &&& final(self).len as int == (old(self).len as int + 1) % 0x10000
                    &&& final(self).witnessed as int == if is_keep_item(item) {
                        (old(self).witnessed as int + 1) % 0x10000
                    } else {
                        old(self).witnessed as int
                    }
                    &&& final(self).inner matches Inner::Active(Option::Some(n)) && focus_item(
                        *n,
                    ) == item
                },
                Result::Err(item2) => {
                    &&& item2 == item
                    &&& hash_tier(*final(self)) == hash_tier(*old(self))
                    &&& forall|off: int| #[trigger]
                        kept_tier(*final(self), off) == kept_tier(*old(self), off)
                    &&& next_off_tier(*final(self)) == pow4(old(self).base + 8)
                    &&& leafslots_tier(*final(self)) == pow4(8)
                    &&& final(self).len == old(self).len
                    &&& final(self).witnessed == old(self).witnessed
                    &&& !(final(self).inner is Active)
                    &&& !(old(self).inner is Active) ==> *final(self) == *old(self)
                },
            },
    {
        tier_insert(self, item)
    }

    /// The total number of insertions performed on this tier, counted in
    /// 16-bit wrapping arithmetic.
    pub fn len(&self) -> (r: u16)
        ensures
            r == self.len,
    {
        self.len
    }

    /// The number of insertions that kept a witness, counted in 16-bit
    /// wrapping arithmetic. Of the true counts, the witnessed insertions
    /// never exceed the total; the stored 16-bit values can compare the
    /// other way only at the wrap, when a tier filled to capacity reads
    /// `len == 0` again.
    pub fn size(&self) -> (r: u16)
        ensures
            r == self.witnessed,
    {
        self.witnessed
    }

    /// Whether this tier has never been inserted into.
    pub fn is_empty(&self) -> (r: bool)
        ensures
            r == (self.inner matches Inner::Active(Option::None)),
    {
        matches!(&self.inner, Inner::Active(Option::None))
    }

    /// Update the focused item — the most recently inserted one —
    /// replacing it with the given item and handing back the one it held.
    /// The leaf keeps its slot, so everything left of it is untouched.
    /// When the tier is empty or finished there is no focus: nothing
    /// changes and `None` comes back.
    pub fn update(&mut self, item: LeafItem) -> (r: Option<LeafItem>)
        requires
            wf_tier(*old(self)),
            wf_leaf_item(item, old(self).base as int),
        ensures
            wf_tier(*final(self)),
            final(self).base == old(self).base,
            final(self).len == old(self).len,
            final(self).witnessed == old(self).witnessed,
            match r {
                Option::Some(prev) => {
                    &&& old(self).inner matches Inner::Active(Option::Some(n)) && prev
                        == focus_item(*n)
                    &&& final(self).inner matches Inner::Active(Option::Some(n2)) && focus_item(
                        *n2,
                    ) == item
                    &&& leafslots_tier(*final(self)) == leafslots_tier(*old(self))
                    &&& next_off_tier(*final(self)) == (leafslots_tier(*old(self)) - 1) * pow4(
                        old(self).base as int,
                    ) + next_off_leaf(item, old(self).base as int)
                    &&& forall|off: int| #[trigger]
                        kept_tier(*final(self), off) == (if (leafslots_tier(*old(self)) - 1)
                            * pow4(old(self).base as int) <= off < leafslots_tier(*old(self))
                            * pow4(old(self).base as int) {
                            kept_leaf_item(item, off - (leafslots_tier(*old(self)) - 1) * pow4(
                                old(self).base as int,
                            ))
                        } else {
                            kept_tier(*old(self), off)
                        })
                },
                Option::None => !(old(self).inner matches Inner::Active(Option::Some(_)))
                    && *final(self) == *old(self),
            },
    {
        let ghost old_t = *self;
        let base = self.base;
        let mut inner = Inner::Active(Option::None);
        core::mem::swap(&mut self.inner, &mut inner);
        match inner {
            Inner::Active(o) => match o {
                Option::Some(n) => {
                    let ghost old_n = *n;
                    let (n2, prev) = active_update(*n, item, base, Ghost(base as int + 8));
                    let ghost sn2 = n2;
                    self.inner = Inner::Active(Option::Some(Box::new(n2)));
                    proof {
                        assert(leafslots_tier(*self) == leafslots_active(sn2, base as int));
                        assert(leafslots_tier(old_t) == leafslots_active(old_n, base as int));
                        assert(next_off_tier(*self) == next_off_active(sn2, base as int + 8));
                        assert forall|off: int| #[trigger]
                            kept_tier(*self, off) == (if (leafslots_tier(old_t) - 1) * pow4(
                                old_t.base as int,
                            ) <= off < leafslots_tier(old_t) * pow4(old_t.base as int) {
                                kept_leaf_item(item, off - (leafslots_tier(old_t) - 1) * pow4(
                                    old_t.base as int,
                                ))
                            } else {
                                kept_tier(old_t, off)
                            }) by {
                            assert(kept_tier(*self, off) == kept_active(sn2, base as int + 8, off));
                            assert(kept_tier(old_t, off) == kept_active(
                                old_n,
                                base as int + 8,
                                off,
                            ));
                        }
                    }
                    Option::Some(prev)
                },
                Option::None => {
                    self.inner = Inner::Active(Option::None);
                    proof {
                        assert(*self == old_t);
                    }
                    Option::None
                },
            },
            Inner::Complete(c) => {
                self.inner = Inner::Complete(c);
                proof {
                    assert(*self == old_t);
                }
                Option::None
            },
            Inner::Hash(s) => {
                self.inner = Inner::Hash(s);
                proof {
                    assert(*self == old_t);
                }
                Option::None
            },
        }
    }

    /// The focused item: the most recently inserted one, when the tier is
    /// still active and non-empty.
    pub fn focus(&self) -> (r: Option<&LeafItem>)
        ensures
            match r {
                Option::Some(item) => (self.inner matches Inner::Active(Option::Some(n))
                    && *item == focus_item(*n)),
                Option::None => !(self.inner matches Inner::Active(Option::Some(_))),
            },
    {
        match &self.inner {
            Inner::Active(o) => match o {
                Option::Some(n) => Option::Some(active_focus_ref(n)),
                Option::None => Option::None,
            },
            Inner::Complete(_) => Option::None,
            Inner::Hash(_) => Option::None,
        }
    }
}

} // verus!
