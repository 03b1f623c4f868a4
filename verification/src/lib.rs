//! An in-memory directed-graph storage engine.
//!
//! Vertices are identified by integers, edges carry compact [`Label`]
//! values, and vertex payloads are binary [`Hex`] values.  Vertices can
//! be created tentatively under a speculative branch and later
//! committed; a discarded branch releases its hold, and a vertex whose
//! holds are gone while it is still tentative is a reclaim candidate.

use vstd::prelude::*;

mod errors;
mod text;
pub mod hex;
pub mod label;
pub mod model;
pub mod graph;

pub use errors::GraphError;
pub use errors::MergeConflict;
pub use hex::Hex;
pub use label::Label;
pub use model::Persistence;
pub use graph::Sodg;

verus! {

/// Most bytes a `Hex` can hold inline, without heap allocation.
pub const HEX_SIZE: usize = 8;

/// Most characters a `Label::Str` name can hold.
pub const MAX_LABEL: usize = 8;

/// Most distinct edge labels a single vertex can carry.
pub const MAX_EDGES: usize = 16;

/// Most branches that can be open at the same time.
pub const MAX_BRANCHES: usize = 16;

/// Most branch ids one vertex's branch stack can hold.
pub const MAX_BRANCH_SIZE: usize = 16;

/// Reserved branch value: the vertex belongs to no branch and is a
/// permanent root, never reclaimed.
pub const BRANCH_NONE: usize = 0;

/// Reserved branch value: the vertex is static and never reclaimed.
pub const BRANCH_STATIC: usize = 1;

} // verus!
