//! Buck2 build rules made from a resolved Cargo package graph.

pub mod metadata;
pub mod names;
pub mod rules;
pub mod store;
pub mod synth;
pub mod text;
