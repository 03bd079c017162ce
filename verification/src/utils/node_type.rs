//! The three roles of a node.

use vstd::prelude::*;

verus! {

/// The role of a vertex in a genotype.
#[derive(Clone, Copy, Debug, PartialEq, Eq, Structural)]
pub enum NodeType {
    InputNode,
    ComputationalNode,
    OutputNode,
}

impl NodeType {
    /// The role that a position has in a genotype with `nbr_inputs` input
    /// nodes followed by `graph_width` computational nodes.
    pub open spec fn spec_of_position(position: int, nbr_inputs: int, graph_width: int) -> NodeType {
        if position < nbr_inputs {
            NodeType::InputNode
        } else if position < nbr_inputs + graph_width {
            NodeType::ComputationalNode
        } else {
            NodeType::OutputNode
        }
    }

    /// Name of the role, as it is printed in diagnostics.
    pub fn name(&self) -> (s: &'static str)
        ensures
            s@ == (match *self {
                NodeType::InputNode => "Input_Node"@,
                NodeType::ComputationalNode => "Computational_Node"@,
                NodeType::OutputNode => "Output_Node"@,
            }),
    {
        match self {
            NodeType::InputNode => "Input_Node",
            NodeType::ComputationalNode => "Computational_Node",
            NodeType::OutputNode => "Output_Node",
        }
    }
}

} // verus!
