//! Orientation of an edge.
use vstd::prelude::*;

verus! {

/// Indicates whether an edge is directed or undirected.
#[derive(Clone, Copy, Debug, PartialEq, Eq, Structural)]
pub enum EdgeType {
    /// the edge goes from its start to its end
    Directed,
    /// the edge joins its two end vertices without orientation
    Undirected,
}

impl EdgeType {
    /// Name of the variant, as text.
    pub fn to_text(&self) -> (r: String)
        ensures
            *self == EdgeType::Directed ==> r@ == "Directed"@,
            *self == EdgeType::Undirected ==> r@ == "Undirected"@,
    {
        match self {
            EdgeType::Directed => String::from_str("Directed"),
            EdgeType::Undirected => String::from_str("Undirected"),
        }
    }
}

} // verus!
