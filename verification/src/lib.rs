//! Vertex coloring of undirected simple graphs: a saturation-degree greedy
//! constructor, an exhaustive branch-and-bound solver and a tabu-search
//! refiner, each with a machine-checked contract.

pub mod branch_and_bound;
pub mod cli_args;
pub mod coloring;
pub mod graph;
pub mod greedy;
pub mod tabu;
