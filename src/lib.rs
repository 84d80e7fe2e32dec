//! An arena-based tree: every node lives in one flat store of slots and is
//! addressed by a plain integer handle, so the tree needs neither pointers nor
//! one heap allocation per node.
//!
//! `arena` is the slot allocator with its free list; `tree` keeps a node record
//! per occupied slot and the operations that link, unlink and walk nodes.
use vstd::prelude::*;

pub mod arena;
pub mod tree;

pub use arena::{Arena, Handle};
pub use tree::{Node, TraversalOrder, Tree};

verus! {

/// The one failure that the allocator reports: a handle that was expected to
/// name an occupied slot names a free one, or none at all.
#[derive(Clone, Copy, Debug, PartialEq, Eq, Structural)]
pub enum Error {
    NotAFreeNode,
}

} // verus!
