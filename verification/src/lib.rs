//! A dependency-graph scheduler: nodes are identified by their creation
//! index, edges say which nodes must run before which, and `solve` produces
//! a linear order that respects every dependency whenever the graph is
//! acyclic, breaking cycles deterministically when it is not.

pub mod count;
pub mod graph;
pub mod history;
pub mod order;
pub mod samples;
