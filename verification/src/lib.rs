//! A borrow-check dataflow engine built on an edge-contracting relation.
//!
//! The [`relation::Relation`] stores a directed graph over a fixed set of
//! nodes in a slab of edge slots threaded by intrusive linked lists;
//! removing a node contracts every path through it. The dataflow in
//! [`dataflow`] keeps one subset relation over regions per control-flow
//! point, hands pairs on along the control-flow edges until nothing
//! changes, and derives from that fixpoint which loans are live where;
//! [`output`] holds the result.

pub mod indices;
pub mod vec_family;
pub mod relation;
pub mod reach;
pub mod fx;
pub mod facts;
pub mod subset;
pub mod edge_relation;
pub mod liveness;
pub mod dataflow;
pub mod tracking;
pub mod output;
