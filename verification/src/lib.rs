//! Verified data structures: an extendible-hashing index and companion
//! collections.

pub mod bits;
pub mod extendible_hashing;
pub mod order;
pub mod bst;
pub mod avl_tree;
pub mod single_linked_list;
pub mod trie_tree;
pub mod graph;
pub mod lru;
pub mod lfu_hash_avl;
pub mod lfu_two_list;
pub mod range_module;
pub mod concurrent_skiplist;
pub mod linked_list;
pub mod unsafe_queue;
