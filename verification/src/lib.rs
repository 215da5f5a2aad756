//! A disjoint-set (union-find) store over named entities.
//!
//! Callers register entities by name, declare pairwise connections, and ask
//! whether two entities belong to the same connected group or how many
//! disjoint groups remain. Merges follow the union-by-size rule, and a bulk
//! path works on pre-assigned positions to skip name lookups.

pub mod records;
pub mod union_find;
