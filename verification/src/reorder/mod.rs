//! Spreading the active nodes of a genotype with ordered positions evenly
//! over the positions.

pub mod linspace;
pub mod node_reorder;
pub mod chromosome_reorder_equidistant;
