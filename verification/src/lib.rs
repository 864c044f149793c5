//! A graph container with directed and undirected edges, breadth-first and
//! depth-first traversals, and a line-oriented text persistence format.
//!
//! A [`Graph`] is built once from a fixed set of node values and then grows
//! only by edge insertion.  Traversals report their work as a sequence of
//! events (vertex visits and edge observations) whose order is pinned down
//! exactly by their contracts.

pub mod bfs;
pub mod dfs;
pub mod errors;
pub mod graph;
pub mod graph_builders;
pub mod node_value;
pub mod numtext;
pub mod textlines;

pub use bfs::BFSEvent;
pub use bfs::BFSTraversalState;
pub use dfs::DFSEdgeType;
pub use dfs::DFSEvent;
pub use dfs::DFSTraversalState;
pub use errors::GraphError;
pub use graph::Graph;
pub use node_value::NodeDisplay;
pub use node_value::NodeKey;
pub use node_value::NodeParse;
