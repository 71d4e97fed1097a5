//! A small in-memory graph library: nodes with weighted or unweighted,
//! directed or undirected edges, kept in an arena, and two stepped
//! algorithms over them: shortest path and spanning tree.

pub mod algorithm;
pub mod graphs;
