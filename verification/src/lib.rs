//! An in-memory write buffer for a log-structured store: an ordered map kept
//! as a left-leaning red-black tree over an index-addressed node store, a
//! memtable of values and tombstones on top of it, and the coordinator that
//! hands a frozen memtable over for persistence.

pub mod audit;
mod compact;
pub mod cursor;
pub mod entries;
pub mod flush;
pub mod memtable;
mod mirror;
pub mod node;
pub mod order;
pub mod ranking;
pub mod rbtree;
pub mod removal;
mod shrink;
mod walk;
