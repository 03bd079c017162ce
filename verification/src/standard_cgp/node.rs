//! The node of a genotype with ordered positions.

use crate::dag::node_dag::NodeDAG;
use crate::global_params::MAX_NODES;
use crate::utils::boolean_functions;
use crate::utils::boolean_functions::apply_boolean;
use crate::utils::function_set::FunctionSet;
use crate::utils::node_type::NodeType;
use crate::utils::utility_funcs::{gen_random_number_for_node, random_below};
use vstd::prelude::*;

verus! {

/// One vertex of a genotype in which every connection names an earlier
/// position, so that the order of the positions is an execution order.
#[derive(Clone, Copy, Debug, PartialEq, Eq, Structural)]
pub struct Node {
    pub position: usize,
    pub node_type: NodeType,
    pub nbr_inputs: usize,
    pub graph_width: usize,
    pub function_set: FunctionSet,
    pub function_id: usize,
    pub connection0: usize,
    pub connection1: usize,
}

impl Node {
    /// The node as a vertex of a dependency graph: the same fields.
    pub open spec fn genes(&self) -> NodeDAG {
        NodeDAG {
            position: self.position,
            node_type: self.node_type,
            nbr_inputs: self.nbr_inputs,
            graph_width: self.graph_width,
            function_set: self.function_set,
            function_id: self.function_id,
            connection0: self.connection0,
            connection1: self.connection1,
        }
    }

    /// One more than the highest position that a connection may name.
    pub open spec fn spec_nbr_inner(&self) -> int {
        self.nbr_inputs + self.graph_width
    }

    /// The node's fields agree with its role, and every connection that it
    /// has names a position before its own.
    pub open spec fn well_formed(&self) -> bool {
        &&& self.genes().well_formed()
        &&& self.node_type == NodeType::ComputationalNode ==> self.connection0 < self.position
            && self.connection1 < self.position
    }

    /// How the node `new` may have come from `self` by one mutation:
    /// exactly one of the two connections and the function id has been
    /// redrawn, and nothing else has changed. A connection stays only where
    /// it has no other value to take.
    pub open spec fn mutated_to(&self, new: Node) -> bool {
        match self.node_type {
            NodeType::InputNode => false,
            NodeType::OutputNode => {
                &&& new == (Node { connection0: new.connection0, ..*self })
                &&& new.connection0 < self.spec_nbr_inner()
                &&& self.spec_nbr_inner() >= 2 ==> new.connection0 != self.connection0
            },
            NodeType::ComputationalNode => {
                ||| {
                    &&& new == (Node { function_id: new.function_id, ..*self })
                    &&& new.function_id < self.function_set.spec_size()
                    &&& new.function_id != self.function_id
                }
                ||| {
                    &&& new == (Node { connection0: new.connection0, ..*self })
                    &&& new.connection0 < self.position
                    &&& self.position >= 2 ==> new.connection0 != self.connection0
                }
                ||| {
                    &&& new == (Node { connection1: new.connection1, ..*self })
                    &&& new.connection1 < self.position
                    &&& self.position >= 2 ==> new.connection1 != self.connection1
                }
            },
        }
    }

    /// The node as a vertex of a dependency graph.
    pub fn to_dag(&self) -> (genes: NodeDAG)
        ensures
            genes == self.genes(),
    {
        NodeDAG {
            position: self.position,
            node_type: self.node_type,
            nbr_inputs: self.nbr_inputs,
            graph_width: self.graph_width,
            function_set: self.function_set,
            function_id: self.function_id,
            connection0: self.connection0,
            connection1: self.connection1,
        }
    }

    /// A node with random genes. An input node has no connection, a
    /// computational node reads from two positions before its own, an
    /// output node from an input or a computational node.
    pub fn new(
        position: usize,
        nbr_inputs: usize,
        graph_width: usize,
        node_type: NodeType,
        function_set: FunctionSet,
    ) -> (node: Node)
        requires
            nbr_inputs + graph_width <= MAX_NODES,
            node_type == NodeType::ComputationalNode ==> position > 0,
            node_type == NodeType::OutputNode ==> nbr_inputs + graph_width > 0,
        ensures
            node.position == position,
            node.node_type == node_type,
            node.nbr_inputs == nbr_inputs,
            node.graph_width == graph_width,
            node.function_set == function_set,
            node.function_id < function_set.spec_size(),
            match node_type {
                NodeType::InputNode => node.connection0 == usize::MAX && node.connection1
                    == usize::MAX,
                NodeType::ComputationalNode => node.connection0 < position && node.connection1
                    < position,
                NodeType::OutputNode => node.connection0 < nbr_inputs + graph_width
                    && node.connection1 == usize::MAX,
            },
    {
        let function_id = random_below(function_set.size());
        let connection0: usize;
        let connection1: usize;
        match node_type {
            NodeType::InputNode => {
                connection0 = usize::MAX;
                connection1 = usize::MAX;
            },
            NodeType::ComputationalNode => {
                connection0 = random_below(position);
                connection1 = random_below(position);
            },
            NodeType::OutputNode => {
                connection0 = random_below(nbr_inputs + graph_width);
                connection1 = usize::MAX;
            },
        }
        Node {
            position,
            node_type,
            nbr_inputs,
            graph_width,
            function_set,
            function_id,
            connection0,
            connection1,
        }
    }

    /// What the node computes from the operand columns `conn1_value` and
    /// `conn2_value`, row by row, with the boolean operation that its
    /// function id names.
    pub fn execute(&self, conn1_value: &Vec<bool>, conn2_value: &Vec<bool>) -> (out: Vec<bool>)
        requires
            self.node_type != NodeType::InputNode,
            self.function_id < 4,
            conn1_value@.len() == conn2_value@.len(),
        ensures
            out@.len() == conn1_value@.len(),
            forall|i: int|
                0 <= i < out@.len() ==> out@[i] == apply_boolean(
                    self.function_id,
                    conn1_value@[i],
                    conn2_value@[i],
                ),
    {
        if self.function_id == 0 {
            boolean_functions::and(conn1_value, conn2_value)
        } else if self.function_id == 1 {
            boolean_functions::or(conn1_value, conn2_value)
        } else if self.function_id == 2 {
            boolean_functions::nand(conn1_value, conn2_value)
        } else {
            boolean_functions::nor(conn1_value, conn2_value)
        }
    }

    /// Redraws one gene of the node: of an output node its connection, of
    /// a computational node one of its two connections or its function id,
    /// each with the same chance. A connection of a computational node is
    /// redrawn among the positions before the node.
    pub fn mutate(&mut self)
        requires
            old(self).well_formed(),
            old(self).node_type != NodeType::InputNode,
        ensures
            old(self).mutated_to(*final(self)),
            final(self).well_formed(),
    {
        match self.node_type {
            NodeType::OutputNode => self.mutate_output_node(),
            _ => self.mutate_computational_node(),
        }
    }

    /// Redraws `*connection` among the numbers below `upper_range` other
    /// than its value, each with the same chance; with `upper_range` at
    /// most 1 it becomes 0.
    pub fn mutate_connection(connection: &mut usize, upper_range: usize)
        ensures
            upper_range <= 1 ==> *final(connection) == 0,
            upper_range >= 2 ==> *final(connection) < upper_range && *final(connection) != *old(connection),
    {
        *connection = gen_random_number_for_node(*connection, upper_range);
    }

    /// Redraws the function id among the other ids of the table, each with
    /// the same chance.
    pub fn mutate_function(&mut self)
        ensures
            *final(self) == (Node { function_id: final(self).function_id, ..*old(self) }),
            final(self).function_id < old(self).function_set.spec_size(),
            final(self).function_id != old(self).function_id,
    {
        self.function_id = gen_random_number_for_node(self.function_id, self.function_set.size());
    }

    /// Redraws the connection of an output node among the other input and
    /// computational nodes, each with the same chance.
    fn mutate_output_node(&mut self)
        requires
            old(self).well_formed(),
            old(self).node_type == NodeType::OutputNode,
        ensures
            old(self).mutated_to(*final(self)),
            final(self).well_formed(),
    {
        Node::mutate_connection(&mut self.connection0, self.graph_width + self.nbr_inputs);
    }

    /// Redraws the first connection, the second connection or the function
    /// id of a computational node, each with the same chance.
    fn mutate_computational_node(&mut self)
        requires
            old(self).well_formed(),
            old(self).node_type == NodeType::ComputationalNode,
        ensures
            old(self).mutated_to(*final(self)),
            final(self).well_formed(),
    {
        let rand_nbr = random_below(3);
        if rand_nbr == 0 {
            Node::mutate_connection(&mut self.connection0, self.position);
        } else if rand_nbr == 1 {
            Node::mutate_connection(&mut self.connection1, self.position);
        } else {
            self.mutate_function();
        }
    }

    /// Moves the node to `new_pos`. With `mutate_new_connections`, a
    /// connection that names `new_pos` or a later position is redrawn among
    /// the positions two or more before `new_pos`, so that afterwards both
    /// connections name positions before the node.
    pub fn set_new_position(&mut self, new_pos: usize, mutate_new_connections: bool)
        requires
            new_pos >= 1,
        ensures
            final(self).position == new_pos,
            *final(self) == (Node {
                position: new_pos,
                connection0: final(self).connection0,
                connection1: final(self).connection1,
                ..*old(self)
            }),
            !mutate_new_connections || old(self).connection0 < new_pos ==> final(self).connection0
                == old(self).connection0,
            !mutate_new_connections || old(self).connection1 < new_pos ==> final(self).connection1
                == old(self).connection1,
            mutate_new_connections ==> final(self).connection0 < new_pos && final(self).connection1
                < new_pos,
            mutate_new_connections && old(self).connection0 >= new_pos && new_pos >= 3
                ==> final(self).connection0 < new_pos - 1,
            mutate_new_connections && old(self).connection1 >= new_pos && new_pos >= 3
                ==> final(self).connection1 < new_pos - 1,
    {
        if mutate_new_connections {
            if self.connection0 >= new_pos {
                Node::mutate_connection(&mut self.connection0, new_pos - 1);
            }
            if self.connection1 >= new_pos {
                Node::mutate_connection(&mut self.connection1, new_pos - 1);
            }
        }
        self.position = new_pos;
    }

    /// Makes the first connection name `new_con`.
    pub fn set_connection0(&mut self, new_con: usize)
        ensures
            *final(self) == (Node { connection0: new_con, ..*old(self) }),
    {
        self.connection0 = new_con;
    }

    /// Makes the second connection name `new_con`.
    pub fn set_connection1(&mut self, new_con: usize)
        ensures
            *final(self) == (Node { connection1: new_con, ..*old(self) }),
    {
        self.connection1 = new_con;
    }
}

} // verus!
