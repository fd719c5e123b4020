//! A verified library of classic containers: a mergeable binomial forest
//! as the centrepiece, alongside array lists, sorted arrays, binary heaps,
//! search trees, a trie, a hash table, sets, lists and the comparison and
//! hash callbacks they share.

pub mod arraylist;
pub mod binomial_heap;
pub mod avl_tree;
pub mod binary_heap;
pub mod bloom_filter;
pub mod compare_int;
pub mod compare_string;
pub mod hash_string;
pub mod hash_table;
pub mod list;
pub mod queue;
pub mod rb_tree;
pub mod set;
pub mod slist;
pub mod trie;
pub mod sortedarray;
