//! Nodes of a maple tree. Leaves hold up to `CAPACITY` slots in fixed-size
//! arrays; an empty slot is `None`.
pub mod scan;
pub mod sparse_leaf;
pub mod range_leaf;
pub mod laws;

pub use sparse_leaf::SparseLeaf;
pub use range_leaf::RangeLeaf;

use vstd::prelude::*;

verus! {

/// Number of key/value pairs in a sparse leaf, and number of values (ranges)
/// and links in range nodes.
pub const CAPACITY: usize = 8;

/// Number of pivots in a range node.
pub const R_CAPACITY: usize = CAPACITY - 1;

/// Number of values in a dense leaf.
pub const D_CAPACITY: usize = CAPACITY * 2;

/// A leaf whose slot `i` holds the value of key `i`.
#[derive(Debug)]
pub struct DenseLeaf<V> {
    pub value: [Option<V>; D_CAPACITY],
}

/// An inner node: pivots split the key space into `CAPACITY` ranges, each with
/// a link to the child node that covers it.
#[derive(Debug)]
pub struct RangeBranch<V> {
    pub pivot: [Option<usize>; R_CAPACITY],
    pub links: [Option<Box<Node<V>>>; CAPACITY],
}

/// The kinds of node a maple tree is built from.
#[derive(Debug)]
pub enum NodeTag<V> {
    SL(SparseLeaf<V>),
    DL(DenseLeaf<V>),
    RL(RangeLeaf<V>),
    RB(RangeBranch<V>),
}

/// A node of the tree, tagged with the transaction that wrote it.
#[derive(Debug)]
pub struct Node<V> {
    pub tid: u64,
    pub inner: NodeTag<V>,
}

/// Where a range lies among a range node's pivots.
#[derive(Debug, PartialEq, Eq, Structural)]
pub enum FoundRange {
    /// The range goes from the node's minimum to the pivot at this index.
    Min(usize),
    /// The range goes from the pivot at this index to the node's maximum.
    Max(usize),
    /// The range goes from the node's minimum to its maximum.
    MinMax,
    /// The range lies between these two pivots.
    Pivots(usize, usize),
}

} // verus!
