//! The epoch and block facades, the epoch proofs, the rate arithmetic,
//! and the auxiliary types.

use tct::block::Block;
use tct::epoch::Epoch;
use tct::rate::{BaseRateData, FundingStream, IdentityKey, RateData, BASE_REWARD_RATE};
use tct::{Commitment, Witness};

fn c(byte: u8) -> Commitment {
    let mut bytes = [0u8; 32];
    bytes[0] = byte;
    Commitment::new(bytes)
}

fn require_sync_send<T: Sync + Send>() {}

fn require_eq<T: Eq>() {}

#[test]
fn check_eq_impl() {
    require_eq::<tct::tree::Tier>();
    let a = tct::tree::Tier::new(0);
    let b = tct::tree::Tier::new(0);
    assert!(a == b);
    let other_base = tct::tree::Tier::new(8);
    assert!(a != other_base);
    let mut bytes = [0u8; 32];
    bytes[0] = 1;
    let mut filled = tct::tree::Tier::new(0);
    assert!(filled.insert(tct::tree::LeafItem::Note(Commitment::new(bytes))).is_ok());
    assert!(filled != b);
    let mut filled_again = tct::tree::Tier::new(0);
    assert!(filled_again.insert(tct::tree::LeafItem::Note(Commitment::new(bytes))).is_ok());
    assert!(filled == filled_again);
}

#[test]
fn insert_errors_sync_send() {
    require_sync_send::<tct::epoch::InsertError>();
    require_sync_send::<tct::epoch::InsertBlockError>();
    require_sync_send::<tct::epoch::InsertBlockRootError>();
}

#[test]
fn epoch_witness_verifies() {
    let mut epoch = Epoch::new();
    epoch.insert(Witness::Keep, c(0)).unwrap();
    epoch.insert(Witness::Keep, c(1)).unwrap();
    let proof = epoch.witness(c(1)).expect("witnessed");
    assert_eq!(proof.auth_path().len(), 16);
    assert!(proof.verify(&epoch.root()).is_ok());
    // the proof fails against the root of a different epoch
    let other = Epoch::new();
    assert!(proof.verify(&other.root()).is_err());
}

#[test]
fn epoch_proof_rebuilds_from_parts() {
    let mut epoch = Epoch::new();
    epoch.insert(Witness::Keep, c(2)).unwrap();
    epoch.insert(Witness::Keep, c(3)).unwrap();
    let proof = epoch.witness(c(3)).unwrap();
    let mut rows = [[tct::hash::Hash { bytes: [0u8; 32] }; 3]; 16];
    for (i, row) in proof.auth_path().iter().enumerate() {
        rows[i] = *row;
    }
    let rebuilt = tct::epoch::Proof::new(proof.commitment(), proof.position(), rows);
    assert!(rebuilt.verify(&epoch.root()).is_ok());
    assert_eq!(rebuilt.commitment(), c(3));
    assert_eq!(rebuilt.position().block(), proof.position().block());
    assert_eq!(rebuilt.position().commitment(), proof.position().commitment());
}

#[test]
fn epoch_block_root_forbids_appending() {
    let mut epoch = Epoch::new();
    let fake = tct::block::Root(tct::hash::Hash { bytes: [8u8; 32] });
    epoch.insert_block_root(fake).unwrap();
    match epoch.insert(Witness::Keep, c(1)) {
        Err(tct::epoch::InsertError::BlockForgotten) => {}
        other => panic!("expected BlockForgotten, got {:?}", other),
    }
}

#[test]
fn epoch_forget_keeps_root() {
    let mut epoch = Epoch::new();
    epoch.insert(Witness::Keep, c(0)).unwrap();
    epoch.insert(Witness::Keep, c(1)).unwrap();
    let r0 = epoch.root();
    assert!(epoch.forget(c(0)));
    assert_eq!(epoch.root(), r0);
    assert!(!epoch.forget(c(0)));
}

#[test]
fn block_built_alone_then_inserted_into_epoch() {
    let mut block = Block::new();
    block.insert(Witness::Keep, c(10)).unwrap();
    block.insert(Witness::Forget, c(11)).unwrap();
    block.insert(Witness::Keep, c(12)).unwrap();
    assert_eq!(block.witnessed_count(), 2);

    let mut epoch = Epoch::new();
    match epoch.insert_block(block) {
        Ok(()) => {}
        Err(_) => panic!("epoch has room"),
    }
    // the block's witnesses are now available under the epoch
    let proof = epoch.witness(c(12)).expect("merged witness");
    assert!(proof.verify(&epoch.root()).is_ok());
    assert!(epoch.witness(c(11)).is_none());
}

#[test]
fn block_inserted_into_eternity() {
    let mut block = Block::new();
    block.insert(Witness::Keep, c(20)).unwrap();
    block.insert(Witness::Keep, c(21)).unwrap();

    let mut tree = tct::Eternity::new();
    match tree.insert_block(block) {
        Ok(()) => {}
        Err(_) => panic!("empty tree takes a block"),
    }
    let proof = tree.witness(c(20)).expect("merged witness");
    assert_eq!(proof.auth_path().len(), 24);
    assert!(proof.verify(&tree.root()).is_ok());
    // appending continues after the inserted block
    tree.insert(Witness::Keep, c(22)).unwrap();
    let proof2 = tree.witness(c(22)).unwrap();
    assert!(proof2.verify(&tree.root()).is_ok());
    // the earlier witness still verifies against the new root
    let proof3 = tree.witness(c(21)).unwrap();
    assert!(proof3.verify(&tree.root()).is_ok());
}

#[test]
fn epoch_inserted_into_eternity() {
    let mut epoch = Epoch::new();
    epoch.insert(Witness::Keep, c(30)).unwrap();
    epoch.insert(Witness::Forget, c(31)).unwrap();
    epoch.insert(Witness::Keep, c(32)).unwrap();
    let epoch_root = epoch.root();

    let mut tree = tct::Eternity::new();
    match tree.insert_epoch(epoch) {
        Ok(()) => {}
        Err(_) => panic!("empty tree takes an epoch"),
    }
    // the inserted epoch is the current one, with the same root
    assert_eq!(tree.current_epoch_root(), Some(epoch_root));
    let proof = tree.witness(c(30)).expect("merged witness");
    assert!(proof.verify(&tree.root()).is_ok());
    assert!(tree.witness(c(31)).is_none());
}

#[test]
fn current_roots_track_the_frontier() {
    let mut tree = tct::Eternity::new();
    assert!(tree.current_epoch_root().is_none());
    assert!(tree.current_block_root().is_none());
    tree.insert(Witness::Keep, c(1)).unwrap();
    let ce = tree.current_epoch_root();
    let cb = tree.current_block_root();
    assert!(ce.is_some());
    assert!(cb.is_some());
    // a lone commitment in a lone block: the block root differs from the
    // epoch root, which differs from the tree root
    assert_ne!(ce.unwrap().0.bytes, cb.unwrap().0.bytes);
}

#[test]
fn next_base_rate_compounds() {
    let base = BaseRateData { epoch_index: 4, base_reward_rate: BASE_REWARD_RATE, base_exchange_rate: 100000000 };
    let next = base.next_base_rate();
    assert_eq!(next.epoch_index, 5);
    assert_eq!(next.base_reward_rate, 30000);
    // 1e8 * (3e4 + 1e8) / 1e8 = 100030000
    assert_eq!(next.base_exchange_rate, 100030000);
}

#[test]
fn next_rates_apply_commission() {
    let key = IdentityKey { bytes: [7u8; 32] };
    let rates = RateData {
        identity_key: key,
        epoch_index: 1,
        voting_power: 1000,
        validator_reward_rate: 30000,
        validator_exchange_rate: 100000000,
    };
    let base = BaseRateData { epoch_index: 1, base_reward_rate: BASE_REWARD_RATE, base_exchange_rate: 100000000 };
    let streams = vec![FundingStream { rate_bps: 100 }, FundingStream { rate_bps: 150 }];
    let next = rates.next_rates(&base, streams);
    assert_eq!(next.epoch_index, 2);
    // commission 250 bps: (1e8 - 250*1e4) * 3e4 / 1e8 = 29250
    assert_eq!(next.validator_reward_rate, 29250);
    // 1e8 * (3e4 + 1e8) / 1e8 = 100030000
    assert_eq!(next.validator_exchange_rate, 100030000);
    // adjustment: 100030000 * 1e8 / 1e8 = 100030000; power = 1000 * that
    assert_eq!(next.voting_power, 1000 * 100030000);
    assert_eq!(next.identity_key, key);
}

#[test]
fn tier_update_replaces_the_focus() {
    let mut tier = tct::tree::Tier::new(0);
    let blank = tct::hash::Hash { bytes: [0u8; 32] };
    assert!(tier.update(tct::tree::LeafItem::Stub(blank)).is_none());
    let mut b1 = [0u8; 32];
    b1[0] = 1;
    let mut b2 = [0u8; 32];
    b2[0] = 2;
    assert!(tier.insert(tct::tree::LeafItem::Note(Commitment::new(b1))).is_ok());
    match tier.update(tct::tree::LeafItem::Note(Commitment::new(b2))) {
        Some(tct::tree::LeafItem::Note(c)) => assert_eq!(c.bytes, b1),
        _ => panic!("expected the previous note back"),
    }
    match tier.focus() {
        Some(tct::tree::LeafItem::Note(c)) => assert_eq!(c.bytes, b2),
        _ => panic!("expected the new note in focus"),
    }
}

#[test]
fn tier_counters_track_insertions() {
    let mut tier = tct::tree::Tier::new(0);
    assert!(tier.is_empty());
    assert_eq!(tier.len(), 0);
    assert_eq!(tier.size(), 0);
    assert!(tier.focus().is_none());
    let mut bytes = [0u8; 32];
    bytes[0] = 1;
    assert!(tier.insert(tct::tree::LeafItem::Note(Commitment::new(bytes))).is_ok());
    assert!(!tier.is_empty());
    assert_eq!(tier.len(), 1);
    assert_eq!(tier.size(), 1);
    assert!(tier.focus().is_some());
    assert!(tier.insert(tct::tree::LeafItem::Stub(tct::hash::Hash { bytes: [0u8; 32] })).is_ok());
    assert_eq!(tier.len(), 2);
    assert_eq!(tier.size(), 1);
}
