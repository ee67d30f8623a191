//! A tiered commitment tree: a sparse, append-only Merkle accumulator of note
//! commitments, arranged as three nested tiers (epochs of blocks of items) of
//! 65,536 slots each, witnessing up to 2^48 commitments and producing compact
//! inclusion proofs against a short root hash.

pub mod accumulator;
pub mod block;
pub mod epoch;
pub mod eternity;
pub mod hash;
pub mod index;
pub mod path;
pub mod rate;
pub mod tree;

pub use hash::Commitment;
pub use eternity::{Eternity, InsertError, Position, Proof, Root, RootDecodeError, Witness};
