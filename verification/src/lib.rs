//! An in-memory ordered key-value map backed by a B-tree of fixed order 5.
//!
//! The tree supports point lookup (`get`, `get_mut`), upsert (`insert`),
//! deletion with rebalancing (`remove`), and ascending in-order traversal
//! (`iter`, `iter_mut`).  Every operation carries a contract relating it to
//! an abstract `Map<i32, V>` view and to the sorted in-order entry sequence,
//! and every operation is proved to preserve the structural invariants:
//! strictly sorted keys, bounded fan-out, minimum fill of non-root nodes,
//! and uniform leaf depth.

mod sorted;
mod node;
mod tree;
mod iter;
mod theorems;

pub use sorted::{entries_sorted, all_keys_lt, all_keys_gt, has_key, lookup, insert_sorted,
    remove_sorted, seq_to_map, tail_from};
pub use tree::Btree;
pub use iter::{Iter, IterMut};
pub use theorems::{lemma_insert_then_get, lemma_insert_size, lemma_remove_then_get,
    lemma_iteration_sorted, remove_all, lemma_remove_all_empty, lemma_remove_all_remainder,
    lemma_empty_tree};
