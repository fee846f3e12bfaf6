//! A B-tree container over an arena of nodes, with proofs.
//!
//! Nodes live in a slot arena and name each other by integer ids, so that
//! every position in the tree is a plain [`Address`]: a node id and an offset
//! in that node. The engine on top of the arena searches, inserts, removes and
//! rebalances, and every such operation is stated over the map of the items
//! that the tree holds, by the rank of their key.
//!
//! - [`slab`] holds the contract of an arena, an arena and the storage of a
//!   tree over an arena;
//! - [`btree`] holds the nodes, the invariant of the tree and the engine;
//! - [`map`] holds a map from keys to values on top of the engine.
pub mod btree;
pub mod map;
pub mod slab;
pub mod util;

pub use btree::node::{Address, Balance, Offset};
pub use btree::{Comparison, KeyOrd, KeyPartialOrd, ValidationError};
pub use map::TreeMap;
