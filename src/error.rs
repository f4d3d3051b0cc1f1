//! Errors of graph operations.
use vstd::prelude::*;

verus! {

/// What can go wrong in a graph operation; every error is returned to the
/// caller, none is fatal.
#[derive(Clone, Copy, Debug, PartialEq, Eq, Structural)]
pub enum GraphError {
    /// no vertex carries the identifier looked for
    VertexNotFound,
    /// no edge carries the identifier looked for
    EdgeNotFound,
    /// an argument is not part of the graph queried
    NotInGraph,
    /// the edges given do not form a simple path
    MalformedPath,
    /// the operation needs at least one edge or vertex
    EmptyInput,
}

} // verus!
