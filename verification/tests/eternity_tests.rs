//! End-to-end behaviour of the whole tree: insertion, witnessing,
//! forgetting, and proofs of inclusion against the root.

use tct::{Commitment, Eternity, InsertError, Witness};

fn c(byte: u8) -> Commitment {
    let mut bytes = [0u8; 32];
    bytes[0] = byte;
    Commitment::new(bytes)
}

#[test]
fn empty_tree() {
    let tree = Eternity::new();
    assert_eq!(tree.position().to_u64(), 0);
    assert_eq!(tree.witnessed_count(), 0);
    assert!(tree.is_empty());
    // the empty tree hashes to the blank (all-zero) root, stable across reads
    let r0 = tree.root();
    let r1 = tree.root();
    assert_eq!(r0, r1);
    assert_eq!(r0.encode(), vec![0u8; 32]);
    assert!(tree.witness(c(7)).is_none());
}

#[test]
fn insert_three_and_witness() {
    let mut tree = Eternity::new();
    let p0 = tree.insert(Witness::Keep, c(0)).unwrap();
    let p1 = tree.insert(Witness::Keep, c(1)).unwrap();
    let p2 = tree.insert(Witness::Keep, c(2)).unwrap();
    assert_eq!(p0.to_u64(), 0);
    assert_eq!(p1.to_u64(), 1);
    assert_eq!(p2.to_u64(), 2);
    assert_eq!(tree.position().to_u64(), 3);
    let proof = tree.witness(c(1)).expect("witnessed commitment");
    assert_eq!(proof.auth_path().len(), 24);
    assert_eq!(proof.position().to_u64(), 1);
    assert_eq!(proof.commitment(), c(1));
    assert!(proof.verify(&tree.root()).is_ok());
}

#[test]
fn forgotten_insert_leaves_same_root() {
    // keep, forget, keep: the forgotten commitment contributes the same
    // leaf hash, so the root matches the all-keep tree's
    let mut kept = Eternity::new();
    kept.insert(Witness::Keep, c(0)).unwrap();
    kept.insert(Witness::Keep, c(1)).unwrap();
    kept.insert(Witness::Keep, c(2)).unwrap();

    let mut mixed = Eternity::new();
    mixed.insert(Witness::Keep, c(0)).unwrap();
    mixed.insert(Witness::Forget, c(1)).unwrap();
    mixed.insert(Witness::Keep, c(2)).unwrap();

    assert_eq!(mixed.witnessed_count(), 2);
    assert!(mixed.witness(c(0)).is_some());
    assert!(mixed.witness(c(2)).is_some());
    assert!(mixed.witness(c(1)).is_none());
    assert_eq!(kept.root(), mixed.root());
}

#[test]
fn forget_preserves_root_and_is_idempotent() {
    let mut tree = Eternity::new();
    tree.insert(Witness::Keep, c(5)).unwrap();
    let r0 = tree.root();
    assert!(tree.forget(c(5)));
    assert_eq!(tree.root(), r0);
    assert!(!tree.forget(c(5)));
    assert_eq!(tree.root(), r0);
    assert!(tree.witness(c(5)).is_none());
}

#[test]
fn duplicate_insert_moves_witness() {
    let mut tree = Eternity::new();
    tree.insert(Witness::Keep, c(9)).unwrap();
    tree.insert(Witness::Keep, c(3)).unwrap();
    tree.insert(Witness::Keep, c(9)).unwrap();
    // the index points at the newer position
    let pos = tree.position_of(c(9)).unwrap();
    assert_eq!(pos.to_u64(), 2);
    assert_eq!(tree.witnessed_count(), 2);
    let proof = tree.witness(c(9)).unwrap();
    assert_eq!(proof.position().to_u64(), 2);
    assert!(proof.verify(&tree.root()).is_ok());
}

#[test]
fn position_increases_by_one_per_insert() {
    let mut tree = Eternity::new();
    let mut last = tree.position().to_u64();
    assert_eq!(last, 0);
    for i in 0..20u8 {
        let w = if i % 2 == 0 { Witness::Keep } else { Witness::Forget };
        tree.insert(w, c(i)).unwrap();
        let now = tree.position().to_u64();
        assert_eq!(now, last + 1);
        last = now;
    }
    assert!(tree.witnessed_count() as u64 <= tree.position().to_u64());
}

#[test]
fn verify_rejects_wrong_root() {
    let mut tree = Eternity::new();
    tree.insert(Witness::Keep, c(1)).unwrap();
    let proof = tree.witness(c(1)).unwrap();
    let mut other = Eternity::new();
    other.insert(Witness::Keep, c(2)).unwrap();
    assert!(proof.verify(&other.root()).is_err());
}

#[test]
fn root_is_not_the_commitment_nor_blank() {
    // the node hash truly mixes its inputs: a one-leaf tree's root is
    // neither the leaf itself nor the empty root
    let mut tree = Eternity::new();
    tree.insert(Witness::Keep, c(1)).unwrap();
    let root = tree.root().encode();
    assert_ne!(root, vec![0u8; 32]);
    assert_ne!(root, c(1).bytes.to_vec());
}

#[test]
fn epoch_root_insert_forbids_appending() {
    let mut tree = Eternity::new();
    let fake = tct::epoch::Root(tct::hash::Hash { bytes: [3u8; 32] });
    tree.insert_epoch_root(fake).unwrap();
    match tree.insert(Witness::Keep, c(1)) {
        Err(InsertError::EpochForgotten) => {}
        other => panic!("expected EpochForgotten, got {:?}", other),
    }
}

#[test]
fn block_root_insert_forbids_appending() {
    let mut tree = Eternity::new();
    let fake = tct::block::Root(tct::hash::Hash { bytes: [4u8; 32] });
    tree.insert_block_root(fake).unwrap();
    match tree.insert(Witness::Keep, c(1)) {
        Err(InsertError::BlockForgotten) => {}
        other => panic!("expected BlockForgotten, got {:?}", other),
    }
}

#[test]
fn forgotten_fill_collapses_to_same_root_as_kept_fill() {
    // a run of all-forgotten insertions collapses whole subtrees to bare
    // hashes; the root must match a tree that kept every witness
    let mut kept = Eternity::new();
    let mut forgot = Eternity::new();
    let mut bytes = [0u8; 32];
    for i in 0..256u32 {
        bytes[0] = (i & 0xff) as u8;
        bytes[1] = ((i >> 8) & 0xff) as u8;
        kept.insert(Witness::Keep, Commitment::new(bytes)).unwrap();
        forgot.insert(Witness::Forget, Commitment::new(bytes)).unwrap();
    }
    assert_eq!(kept.root(), forgot.root());
    assert_eq!(forgot.witnessed_count(), 0);
    assert_eq!(forgot.position().to_u64(), 256);
    // a late witness in the kept tree still verifies
    bytes[0] = 17;
    bytes[1] = 0;
    let proof = kept.witness(Commitment::new(bytes)).unwrap();
    assert!(proof.verify(&kept.root()).is_ok());
}

#[test]
fn block_root_insert_advances_the_block() {
    let mut tree = Eternity::new();
    tree.insert(Witness::Keep, c(1)).unwrap();
    assert_eq!(tree.position().block(), 0);
    let fake = tct::block::Root(tct::hash::Hash { bytes: [9u8; 32] });
    tree.insert_block_root(fake).unwrap();
    // the position has moved past the whole span of the opaque block
    assert!(tree.position().block() > 0);
    assert_eq!(tree.position().commitment(), 0);
    // and the root reflects the inserted block root
    let mut other = Eternity::new();
    other.insert(Witness::Keep, c(1)).unwrap();
    assert_ne!(tree.root(), other.root());
    // the kept witness from before the block root still verifies
    let proof = tree.witness(c(1)).unwrap();
    assert!(proof.verify(&tree.root()).is_ok());
}

#[test]
fn witness_forget_witness_roundtrip() {
    let mut tree = Eternity::new();
    for i in 0..7u8 {
        tree.insert(Witness::Keep, c(i)).unwrap();
    }
    for i in 0..7u8 {
        let proof = tree.witness(c(i)).unwrap();
        assert!(proof.verify(&tree.root()).is_ok());
    }
    let r0 = tree.root();
    assert!(tree.forget(c(3)));
    assert_eq!(tree.root(), r0);
    assert!(tree.witness(c(3)).is_none());
    // the others still verify against the unchanged root
    let proof = tree.witness(c(6)).unwrap();
    assert!(proof.verify(&tree.root()).is_ok());
}

#[test]
fn root_decode_roundtrip() {
    let mut tree = Eternity::new();
    tree.insert(Witness::Keep, c(1)).unwrap();
    let root = tree.root();
    let bytes = root.encode();
    assert_eq!(bytes.len(), 32);
    let back = tct::Root::decode(&bytes).expect("canonical root bytes");
    assert_eq!(back, root);
    // wrong length is refused
    assert!(tct::Root::decode(&vec![0u8; 31]).is_err());
    // a non-canonical field encoding is refused
    assert!(tct::Root::decode(&vec![0xffu8; 32]).is_err());
    // the blank (all-zero) root of an empty tree decodes
    assert!(tct::Root::decode(&vec![0u8; 32]).is_ok());
}

#[test]
fn position_packing_roundtrip() {
    let p = tct::Position::from_u64(0x0001_0002_0003);
    assert_eq!(p.epoch(), 1);
    assert_eq!(p.block(), 2);
    assert_eq!(p.commitment(), 3);
    assert_eq!(p.to_u64(), 0x0001_0002_0003);
}
