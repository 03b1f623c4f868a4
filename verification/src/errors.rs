use vstd::prelude::*;

verus! {

/// Everything that can go wrong inside the graph engine.  All failures
/// are ordinary values returned to the caller; no operation panics and
/// no failure leaves the graph partially mutated.
#[derive(Debug, Clone, PartialEq, Eq)]
pub enum GraphError {
    /// The named vertex does not exist.
    NoSuchVertex(usize),
    /// A vertex with the named id already exists.
    DuplicateVertex(usize),
    /// The named vertex already carries the most distinct edge labels
    /// it can, and the label being bound is new.
    EdgeCapacityExceeded(usize),
    /// The most branches that can be open at once are already open.
    BranchLimitExceeded,
    /// The named vertex's branch stack is full.
    BranchDepthExceeded(usize),
    /// A hex or label text does not decode, or a typed extraction asked
    /// for a width the stored bytes do not have.
    FormatMismatch,
}

/// One conflict found while merging a graph into another: the two
/// graphs disagree, and the default policy keeps the base graph's side
/// and reports the disagreement instead of overwriting.
#[derive(Debug, Clone, PartialEq, Eq)]
pub enum MergeConflict {
    /// Both graphs bind the same label from the same vertex to
    /// different targets: `(vertex, label, target in base, target in
    /// the incoming graph)`.
    Edge(usize, crate::label::Label, usize, usize),
    /// The same vertex holds different non-empty data in both graphs.
    Payload(usize),
}

} // verus!
