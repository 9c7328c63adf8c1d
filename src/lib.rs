//! An ant colony search for a short closed tour through required waypoints
//! of a weighted undirected graph.
//!
//! The library holds the parts of the search that are decided on integers:
//! the weight matrix and its checks, the random graph generator, each ant's
//! walk as a state machine, and the best-tour bookkeeping. The pheromone
//! arithmetic (real exponents) and the scheduling of ants on threads are
//! driven by the caller through these types.

mod random;

pub mod ant;
pub mod graph;
pub mod tour;
