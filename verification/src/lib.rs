//! Generic branch-and-bound search, instantiated for the maximum-clique
//! problem on an undirected graph.

pub mod bits;
pub mod bound;
pub mod clique;
pub mod state;
pub mod adapters;
pub mod engine;

pub use bound::BoundOrd;
pub use bound::Rev;
pub use state::State;
pub use adapters::Maximize;
pub use adapters::MonotoneLb;
pub use engine::find_minimum;
pub use clique::MaxCliqueState;
pub use clique::graph_from_edges;
pub use clique::max_clique_value;
