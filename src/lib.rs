//! Compiles a declared bus network (nodes, typed messages, commands and streams)
//! into a bit-exact, cross-linked model.

pub mod builder;
pub mod decl;
pub mod descriptor;
pub mod elaborate;
pub mod error;
pub mod flatten;
pub mod link;
pub mod message;
pub mod network;
pub mod order;
pub mod text;
pub mod typegraph;
pub mod types;
