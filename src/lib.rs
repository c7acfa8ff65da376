//! A small graph library: a graph is stored as two columnar tables (nodes
//! and edges), and searched with breadth-first, depth-first, Dijkstra and
//! uniform-cost best-first traversals.
pub mod types;
pub mod table;
pub mod node;
pub mod edge;
pub mod graph;
pub mod paths;
pub mod breadth_first;
pub mod depth_first;
pub mod cost_search;
pub mod graph_type;
pub mod laws;

pub use breadth_first::breath_first_search;
pub use cost_search::{a_search, dijkstra_search};
pub use depth_first::depth_first_search;
pub use graph::{Graph, GraphBuilder, GraphError};
