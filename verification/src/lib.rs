//! State of an interactive node-graph canvas: a forest of nodes, the visual
//! state of every node and the state of every fold button, kept in step as
//! nodes are added, deleted and folded away.
//!
//! The nodes live in a slot map and are named by the keys it hands out
//! ([`keys`], [`store`]). [`node`] says what a single node and its fold
//! button answer to the pointer, [`forest`] what it means for one node to
//! hang below another, [`node_graph`] and [`graph_state`] hold the graph and
//! the states that go with it, [`responses`] holds what a frame asked for,
//! and [`handlers`] carries it out. [`my_app`] bundles the lot for the
//! window around it.
//! Positions, sizes and transforms are no part of this state: they belong to
//! whoever draws it.

pub mod keys;
pub mod node;
pub mod store;
pub mod responses;
pub mod forest;
pub mod node_graph;
pub mod graph_state;
pub mod handlers;
pub mod my_app;
