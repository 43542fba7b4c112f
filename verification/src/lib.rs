//! A first-order weighted Markov chain over whitespace-delimited word tokens.
//!
//! The chain is a directed multigraph: nodes are tokens (a start sentinel, an
//! end sentinel, or an interned word), and each node owns a weighted set of
//! outgoing transitions. Corpus lines are ingested by threading
//! start -> word ... word -> end through the graph, incrementing edge weights;
//! once construction is complete the per-node edge sets are frozen into
//! order-stable snapshots, and text is generated by weighted random walks over
//! those snapshots.

pub mod chain;
pub mod edges;
pub mod laws;
pub mod rng;
pub mod registry;
pub mod text;
pub mod token;
