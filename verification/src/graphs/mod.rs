pub mod algorithms;
pub mod graph;
pub mod render;
pub mod routes;
pub mod trees;

pub use graph::{EdgeType, Graph, GraphView, Node, NodeView};
pub use render::display_id;
