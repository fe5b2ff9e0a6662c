//! Managed ranked-window state: two bounded sorted caches over the extremes of an
//! ordered key space, a pending-write tracker, and a cell-per-column persistence
//! layer over a sorted key-value store.

pub mod bytes;
pub mod row;
pub mod sorted;
pub mod delta;
pub mod merge;
pub mod codec;
pub mod store;
pub mod persist;
pub mod state;
pub mod chain;
pub mod laws;
pub mod durability;
