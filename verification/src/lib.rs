//! Core of an interactive fence-building tool: a graph of posts connected by
//! fences, the geometry derived for each fence from its endpoint positions,
//! a generic cycle detector, and the placement state machine that commits
//! preview entities into the permanent graph.

pub mod geometry;
pub mod graph;
pub mod cycle;
pub mod placement;
