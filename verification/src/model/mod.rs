pub mod eval;
pub mod graph;
pub mod state;

pub use graph::{build_graph, build_graph_with_options, BuildOptions, ModelGraph};
pub use state::{State, Value};
