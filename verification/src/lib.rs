//! An in-memory graph of parent-to-child relationships among the pending
//! transactions of a node's pool, the refresh cycle that keeps it current,
//! and the report that shows a window of it.
//!
//! Every identifier is modelled by its text, a `Seq<char>`; the graph is
//! modelled by its rows, a sequence of parents with their children in the
//! order in which they were recorded.

pub mod discovery;
pub mod graph;
pub mod membership;
pub mod report;
