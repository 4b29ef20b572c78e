//! Homophily analysis over a set of social-media account records.
//!
//! The pipeline builds an undirected relationship graph connecting accounts
//! that share a country, measures shortest-path hop distances from each
//! account by breadth-first traversal, and aggregates per-country statistics
//! (follower totals and average intra-group distances, both kept as exact
//! integer data so that no precision is lost inside the library).
//!
//! Because the relationship rule is pure country equality, every connected
//! component of the graph is a clique, and the average-distance statistic
//! degenerates to exactly one (or zero for a lone account) — see
//! `aggregate::lemma_clique_average`, which proves this. The distance engine
//! nevertheless performs a general breadth-first traversal, so the analysis
//! stays correct if the relationship rule is ever generalized.

pub mod account;
pub mod aggregate;
pub mod bfs;
pub mod error;
pub mod graph;
