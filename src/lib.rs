//! In-memory graph toolkit: nodes, edges, graphs, set algebra over them,
//! induced subgraphs, paths, and a depth-first forest engine that stamps
//! discovery and finish times, partitions vertices into components and
//! reports back edges.

pub mod edge;
pub mod edgetype;
pub mod error;
pub mod graph;
pub mod node;
pub mod ops;
pub mod order;
pub mod path;
pub mod search;
pub mod setops;
pub mod traits;
