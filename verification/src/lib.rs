//! Classic algorithmic data structures with verified contracts:
//! a disjoint-set union, a Fenwick tree, a sparse table for idempotent
//! range queries, a randomized balanced search tree, and linear-time
//! substring search.

use vstd::prelude::*;

pub mod fenwick_tree;
pub mod kmp;
pub mod sparse_table;
pub mod treap;
pub mod union_find;

verus! {

/// Common marker for the data-structure engines of this crate.
pub trait DataStructure {
    fn name(&self) -> &'static str;
}

} // verus!
