//! Conflict-shaped term sequences and the optional labels that name their sides.

pub mod labels;
pub mod merge;
