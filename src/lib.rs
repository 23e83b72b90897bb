//! Shortest chains of countries over land borders.
//!
//! A list of border pairs becomes an undirected [`graph::Graph`]; a
//! breadth-first search over it yields a shortest chain of country codes
//! from one country to another, or none when no chain exists.

mod bfs;
pub mod graph;
pub mod model;
