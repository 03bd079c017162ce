//! The node of a genotype whose active nodes are spread.

use crate::standard_cgp::node::Node;
use vstd::prelude::*;

verus! {

/// The node of a genotype whose active nodes are spread over the positions
/// from time to time. It is the node of a genotype with ordered positions.
pub type NodeReorder = Node;

} // verus!
