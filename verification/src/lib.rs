//! Presenter core for a graph-editor front end.
//!
//! The library keeps an in-memory program graph (nodes, connections,
//! per-expression type information) in sync between a backend graph
//! controller and an on-screen graph view.  It has three parts:
//!
//! * [`span_tree`]: maps expression source text to a tree of byte spans,
//!   so that the view can attach affordances to each sub-expression;
//! * [`expression`]: pairs source code with its input and output span trees;
//! * [`state`] and [`presenter`]: the mapping between backend node and
//!   connection identifiers and view-side identifiers, and the refresh
//!   cycle that diffs a backend snapshot against the displayed state and
//!   yields the events the view must replay.

pub mod expression;
pub mod presenter;
pub mod state;
pub mod span_tree;
