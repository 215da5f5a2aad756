//! The disjoint-set engine and its mathematical model.

pub mod client;
pub mod laws;
pub mod model;
