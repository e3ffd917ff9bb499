//! Analysis of functional graphs: finite directed graphs on the vertices
//! `0..n` in which every vertex has exactly one outgoing edge.
//!
//! A [`FunctionalGraph`] is built once from a vertex count and a transition
//! function.  Construction classifies every vertex into the one cycle that it
//! eventually reaches, records its distance to that cycle, and finds the
//! vertices that no edge enters.  Everything the queries return is stated
//! against the mathematical model in [`model`].

pub mod census;
mod classify;
pub mod graph;
pub mod laws;
pub mod model;
pub mod orbit;
mod sources;

pub use graph::FunctionalGraph;
