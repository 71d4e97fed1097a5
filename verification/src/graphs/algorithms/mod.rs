pub mod dijkstras;
pub mod dijkstras_lemmas;
pub mod dijkstras_state;
pub mod prims;
pub mod prims_lemmas;
pub mod prims_state;

pub use dijkstras::{Dijkstras, PathError};
pub use dijkstras_state::{DijkstraState, Distance, WorkingNode};
pub use prims::{create_empty_node_from_node, Prims};
pub use prims_state::PrimState;
