//! Genotypes in which every connection names an earlier position.

pub mod node;
pub mod chromosome;
