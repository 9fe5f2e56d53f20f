//! A ledger module for breedable, tradeable assets ("kitties"): each has
//! a 16-byte DNA vector, a generation number and an optional sale price,
//! and belongs to exactly one account at a time.
//!
//! Per-owner collections are kept as intrusive, circular doubly-linked
//! lists whose nodes live in a sparse key-value store (`store`,
//! `linked_item`), so insertion and removal touch at most three entries.
//! The lifecycle engine (`kitties`) mints, breeds, transfers, lists and
//! sells kitties as atomic, invariant-preserving transitions: ownership
//! exclusivity, listing consistency and the link structure itself are
//! stated as invariants and proved for every operation.

pub mod kitties;
pub mod linked_item;
pub mod store;

pub use kitties::Error;
pub use kitties::Kitty;
pub use kitties::KittyInSale;
pub use kitties::Module;
pub use kitties::combine_dna;
pub use linked_item::LinkedItem;
pub use linked_item::OwnedKitties;
pub use store::ItemStore;
pub use store::NodeKey;
