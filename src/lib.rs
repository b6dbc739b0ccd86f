//! Projections of a weighted hypergraph onto ordinary graphs that keep the
//! stationary behaviour of the two-step hypergraph random walk.
//!
//! Weights are exact: edge weights and affinities are fixed-point integers
//! counted in units of `1 / UNIT`, and every link weight is an exact fraction.

pub mod bipartite;
pub mod config;
pub mod hyperedge_similarity;
pub mod hypergraph;
pub mod input;
pub mod js_similarity;
pub mod laws;
pub mod multilayer;
pub mod network;
pub mod preprocess;
pub mod representation;
pub mod unipartite;

