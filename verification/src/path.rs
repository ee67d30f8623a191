//! Authentication paths: a sequence of levels, each carrying the three
//! sibling hashes beside the path, and the fold that recomputes the root
//! from a leaf.

use vstd::prelude::*;

use crate::hash::node_hash;
use crate::tree::{lemma_digit, lemma_digit_converse, lemma_mul_le, lemma_pow4_add, lemma_pow4_pos, pow4, pow4_u64};

verus! {

/// The base-4 digit of a position at the given level: which of the four
/// child slots the path takes below a node at height `k + 1`.
pub open spec fn digit(pos: int, k: int) -> int {
    (pos / pow4(k)) % 4
}

/// Fold an authentication path from the leaf back up to the root. The rows
/// run from the top level down; at each level the hash computed so far is
/// placed at the slot the position's digit selects, among the three
/// sibling hashes of that row.
pub open spec fn fold_path(
    rows: Seq<[crate::hash::Hash; 3]>,
    h_top: int,
    pos: int,
    leaf: Seq<u8>,
) -> Seq<u8>
    decreases rows.len(),
{
    if rows.len() == 0 {
        leaf
    } else {
        let row = rows[0];
        let inner = fold_path(rows.drop_first(), h_top - 1, pos, leaf);
        let j = digit(pos, h_top - 1);
        if j == 0 {
            node_hash(h_top, inner, row@[0]@, row@[1]@, row@[2]@)
        } else if j == 1 {
            node_hash(h_top, row@[0]@, inner, row@[1]@, row@[2]@)
        } else if j == 2 {
            node_hash(h_top, row@[0]@, row@[1]@, inner, row@[2]@)
        } else {
            node_hash(h_top, row@[0]@, row@[1]@, row@[2]@, inner)
        }
    }
}

/// Digits below level `m` are unchanged by reducing the position modulo
/// `4^m`.
pub proof fn lemma_digit_mod(pos: int, m: int, k: int)
    requires
        0 <= k < m,
    ensures
        digit(pos % pow4(m), k) == digit(pos, k),
{
    let mm = pow4(m);
    let w = pow4(k);
    let d = pow4(m - k);
    lemma_pow4_pos(m);
    lemma_pow4_pos(k);
    lemma_pow4_pos(m - k);
    lemma_pow4_add(m - k, k);
    assert(mm == d * w);
    lemma_digit(pos, mm);
    let q = pos / mm;
    let rem = pos % mm;
    lemma_digit(rem, w);
    // pos / w == q * d + rem / w
    assert(pos == w * (q * d + rem / w) + rem % w) by (nonlinear_arith)
        requires
            pos == mm * q + rem,
            mm == d * w,
            rem == w * (rem / w) + rem % w,
    ;
    vstd::arithmetic::div_mod::lemma_fundamental_div_mod_converse(
        pos,
        w,
        q * d + rem / w,
        rem % w,
    );
    assert(pos / w == q * d + rem / w);
    // d is a multiple of 4, so the extra term vanishes modulo 4
    assert(d == 4 * pow4(m - k - 1));
    assert((q * d + rem / w) % 4 == (4 * (q * pow4(m - k - 1)) + rem / w) % 4) by (nonlinear_arith)
        requires
            d == 4 * pow4(m - k - 1),
    ;
    vstd::arithmetic::div_mod::lemma_mod_multiples_vanish(q * pow4(m - k - 1), rem / w, 4);
}

/// Folding a path of `h_top` rows only reads the digits below `h_top`, so
/// the position may be reduced modulo `4^h_top`.
pub proof fn lemma_fold_mod(rows: Seq<[crate::hash::Hash; 3]>, h_top: int, pos: int, leaf: Seq<u8>, m: int)
    requires
        rows.len() <= h_top <= m,
    ensures
        fold_path(rows, h_top, pos % pow4(m), leaf) == fold_path(rows, h_top, pos, leaf),
    decreases rows.len(),
{
    if rows.len() == 0 {
    } else {
        lemma_fold_mod(rows.drop_first(), h_top - 1, pos, leaf, m);
        lemma_digit_mod(pos, m, h_top - 1);
    }
}

/// The base-4 digit of a position at the given level.
pub fn digit_u64(pos: u64, k: u8) -> (r: u64)
    requires
        k <= 23,
    ensures
        r as int == digit(pos as int, k as int),
        r < 4,
{
    let w = pow4_u64(k);
    proof {
        lemma_pow4_pos(k as int);
        assert((pos as int / w as int) % 4 == digit(pos as int, k as int));
    }
    (pos / w) % 4
}

/// Recompute the root hash from a leaf hash, a position and a path of
/// sibling rows running from the top level down.
pub fn fold_rows(rows: &Vec<[crate::hash::Hash; 3]>, h_top: u8, pos: u64, leaf: &crate::hash::Hash) -> (r:
    crate::hash::Hash)
    requires
        rows@.len() == h_top as int,
        h_top <= 24,
    ensures
        r@ == fold_path(rows@, h_top as int, pos as int, leaf@),
{
    let mut cur = *leaf;
    let mut i: usize = rows.len();
    proof {
        assert(rows@.subrange(i as int, rows@.len() as int) =~= Seq::<
            [crate::hash::Hash; 3],
        >::empty());
    }
    while i > 0
        invariant
            i <= rows@.len(),
            rows@.len() == h_top as int,
            h_top <= 24,
            cur@ == fold_path(
                rows@.subrange(i as int, rows@.len() as int),
                h_top as int - i as int,
                pos as int,
                leaf@,
            ),
        decreases i,
    {
        i = i - 1;
        let row = rows[i];
        let height = h_top - (i as u8);
        let j = digit_u64(pos, height - 1);
        let ghost pre = rows@.subrange(i as int + 1, rows@.len() as int);
        let ghost now = rows@.subrange(i as int, rows@.len() as int);
        cur = if j == 0 {
            crate::hash::hash_node(height, &cur, &row[0], &row[1], &row[2])
        } else if j == 1 {
            crate::hash::hash_node(height, &row[0], &cur, &row[1], &row[2])
        } else if j == 2 {
            crate::hash::hash_node(height, &row[0], &row[1], &cur, &row[2])
        } else {
            crate::hash::hash_node(height, &row[0], &row[1], &row[2], &cur)
        };
        proof {
            assert(now[0] == rows@[i as int]);
            assert(now.drop_first() =~= pre);
            assert(now.len() == rows@.len() - i as int);
        }
    }
    proof {
        assert(rows@.subrange(0, rows@.len() as int) =~= rows@);
    }
    cur
}

/// A proof of inclusion did not check out against the root it was checked
/// against: the recomputed root differed.
#[derive(Clone, Copy, Debug, PartialEq, Eq)]
pub struct VerifyError;

} // verus!
