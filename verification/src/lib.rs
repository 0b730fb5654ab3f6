//! Core of an L1-anchored StarkNet state synchroniser.
//!
//! The library replays the state update that an L1 log witnesses into two
//! layers of Merkle-Patricia tries, checks the resulting global root
//! against L1 and against the sequencer, and records the new state, all as
//! one atomic update. Everything here is verified; I/O stays outside.
//!
//! - [`felt`], [`hash`]: field elements and the Pedersen hash.
//! - [`node`], [`felt_map`]: trie nodes and the content-addressed store.
//! - [`shape`], [`trie`], [`tree`]: the model of a trie, tries as they lie
//!   in a store, and the trie with `get`, `set` and `apply`.
//! - [`types`], [`tables`]: the values passed around and the state tables.
//! - [`deploy`], [`replay`], [`witness`], [`driver`]: the phases of an
//!   update and the update itself.
//! - [`sync`], [`reorg`]: the run over a batch of logs and the way back
//!   after a reorganisation of L1.
//! - [`error`]: what can go wrong.

pub mod deploy;
pub mod driver;
pub mod error;
pub mod felt;
pub mod felt_map;
pub mod hash;
pub mod node;
pub mod reorg;
pub mod replay;
pub mod shape;
pub mod sync;
pub mod tables;
pub mod tree;
pub mod trie;
pub mod types;
pub mod witness;
