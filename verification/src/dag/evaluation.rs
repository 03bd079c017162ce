//! The value of a node for given inputs, and the evaluation of a node
//! array along an execution order.

use crate::dag::genotype::{
    grid_ok, is_active_order, lemma_active_in_range, lemma_output_is_active, node_in_place,
    used_edges, uses,
};
use crate::dag::node_dag::NodeDAG;
use crate::global_params::CgpParameters;
use crate::utils::boolean_functions::apply_boolean;
use crate::utils::fitness_metrics::table_view;
use crate::utils::function_set::FunctionSet;
use crate::utils::node_type::NodeType;
use vstd::prelude::*;

verus! {

/// What has to be done for one node when a genotype is evaluated.
#[derive(Clone, Copy, Debug, PartialEq, Eq, Structural)]
pub enum EvaluationStep {
    /// The node at `position` takes the values of the input of the same
    /// number.
    ReadInput { position: usize },
    /// The node at `position` takes the values of the node at `source`.
    CopyValue { position: usize, source: usize },
    /// The node at `position` applies the operation `function_id` to the
    /// values of the node at `first` and, where the operation has two
    /// operands, of the node at `second`.
    Apply { position: usize, function_id: usize, first: usize, second: Option<usize> },
}

impl EvaluationStep {
    /// The position of the node that the step computes.
    pub open spec fn spec_position(&self) -> usize {
        match *self {
            EvaluationStep::ReadInput { position } => position,
            EvaluationStep::CopyValue { position, .. } => position,
            EvaluationStep::Apply { position, .. } => position,
        }
    }

    /// Whether the step reads the values of the node at `source`.
    pub open spec fn spec_reads(&self, source: int) -> bool {
        match *self {
            EvaluationStep::ReadInput { .. } => false,
            EvaluationStep::CopyValue { source: from, .. } => source == from,
            EvaluationStep::Apply { first, second, .. } => source == first || second == Some(
                source as usize,
            ) && 0 <= source <= usize::MAX,
        }
    }

    /// The position of the node that the step computes.
    pub fn position(&self) -> (position: usize)
        ensures
            position == self.spec_position(),
    {
        match self {
            EvaluationStep::ReadInput { position } => *position,
            EvaluationStep::CopyValue { position, .. } => *position,
            EvaluationStep::Apply { position, .. } => *position,
        }
    }
}

/// The step that computes `node`.
pub open spec fn step_of(node: NodeDAG) -> EvaluationStep {
    match node.node_type {
        NodeType::InputNode => EvaluationStep::ReadInput { position: node.position },
        NodeType::OutputNode => EvaluationStep::CopyValue {
            position: node.position,
            source: node.connection0,
        },
        NodeType::ComputationalNode => EvaluationStep::Apply {
            position: node.position,
            function_id: node.function_id,
            first: node.connection0,
            second: if node.function_set.spec_arity(node.function_id) == 2 {
                Some(node.connection1)
            } else {
                None
            },
        },
    }
}

/// The step that computes `node`.
pub fn make_step(node: &NodeDAG) -> (made: EvaluationStep)
    ensures
        made == step_of(*node),
{
    match node.node_type {
        NodeType::InputNode => EvaluationStep::ReadInput { position: node.position },
        NodeType::OutputNode => EvaluationStep::CopyValue {
            position: node.position,
            source: node.connection0,
        },
        NodeType::ComputationalNode => EvaluationStep::Apply {
            position: node.position,
            function_id: node.function_id,
            first: node.connection0,
            second: if node.function_set.arity(node.function_id) == 2 {
                Some(node.connection1)
            } else {
                None
            },
        },
    }
}

/// The boolean value of the node at position `p` for one row of inputs,
/// followed through at most `fuel` nodes: an input node has the value of
/// its input, an output node the value that it reads, a computational node
/// the value of its operation on the two values that it reads.
pub open spec fn node_value(nodes: Seq<NodeDAG>, row: Seq<bool>, p: int, fuel: nat) -> bool
    decreases fuel,
{
    if fuel == 0 || p < 0 || p >= nodes.len() {
        false
    } else {
        match nodes[p].node_type {
            NodeType::InputNode => row[p],
            NodeType::OutputNode => node_value(
                nodes,
                row,
                nodes[p].connection0 as int,
                (fuel - 1) as nat,
            ),
            NodeType::ComputationalNode => apply_boolean(
                nodes[p].function_id,
                node_value(nodes, row, nodes[p].connection0 as int, (fuel - 1) as nat),
                node_value(nodes, row, nodes[p].connection1 as int, (fuel - 1) as nat),
            ),
        }
    }
}

/// The boolean value of the node at position `p` for one row of inputs. In
/// a graph without a cycle no chain of connections is longer than the
/// number of nodes.
pub open spec fn value_of(nodes: Seq<NodeDAG>, row: Seq<bool>, p: int) -> bool {
    node_value(nodes, row, p, nodes.len())
}

/// For every row of inputs the values of the output nodes, which stand at
/// the positions from `first_output` on.
pub open spec fn predictions(
    nodes: Seq<NodeDAG>,
    inputs: Seq<Seq<bool>>,
    first_output: int,
    nbr_outputs: nat,
) -> Seq<Seq<bool>> {
    Seq::new(
        inputs.len(),
        |r: int| Seq::new(nbr_outputs, |k: int| value_of(nodes, inputs[r], first_output + k)),
    )
}

/// `column` holds for every row of inputs the value of the node at
/// position `p`, however far beyond `k` nodes the value is followed.
spec fn column_right(
    nodes: Seq<NodeDAG>,
    inputs: Seq<Seq<bool>>,
    column: Seq<bool>,
    p: int,
    k: int,
) -> bool {
    forall|r: int, fuel: nat|
        0 <= r < inputs.len() && fuel > k ==> column[r] == #[trigger] node_value(
            nodes,
            inputs[r],
            p,
            fuel,
        )
}

/// Different numbers below `n` are at most `n`.
proof fn lemma_distinct_below(s: Seq<usize>, n: nat)
    requires
        s.no_duplicates(),
        forall|i: int| 0 <= i < s.len() ==> s[i] < n,
    ensures
        s.len() <= n,
    decreases n,
{
    if n == 0 {
        if s.len() > 0 {
            assert(s[0] < 0);
        }
    } else {
        let top = (n - 1) as usize;
        if s.contains(top) {
            let i = choose|i: int| 0 <= i < s.len() && s[i] == top;
            let t = s.remove(i);
            assert forall|a: int, b: int| 0 <= a < t.len() && 0 <= b < t.len() && a != b implies t[a]
                != t[b] by {
                let a2 = if a < i { a } else { a + 1 };
                let b2 = if b < i { b } else { b + 1 };
                assert(t[a] == s[a2] && t[b] == s[b2]);
            }
            assert forall|a: int| 0 <= a < t.len() implies t[a] < n - 1 by {
                let a2 = if a < i { a } else { a + 1 };
                assert(t[a] == s[a2]);
            }
            lemma_distinct_below(t, (n - 1) as nat);
        } else {
            assert forall|a: int| 0 <= a < s.len() implies s[a] < n - 1 by {
                assert(s.contains(s[a]));
            }
            lemma_distinct_below(s, (n - 1) as nat);
        }
    }
}

/// For every row of `inputs` the values of the output nodes of the node
/// array, computed node by node along `order`, an execution order of the
/// active nodes.
pub fn run_order(
    params: &CgpParameters,
    nodes_grid: &Vec<NodeDAG>,
    order: &Vec<usize>,
    inputs: &Vec<Vec<bool>>,
) -> (outs: Vec<Vec<bool>>)
    requires
        grid_ok(*params, nodes_grid@),
        is_active_order(nodes_grid@, order@),
        params.function_set == FunctionSet::Boolean,
        forall|r: int| 0 <= r < inputs@.len() ==> inputs@[r]@.len() == params.nbr_inputs,
    ensures
        table_view(outs@) == predictions(
            nodes_grid@,
            table_view(inputs@),
            params.spec_nbr_inner(),
            params.nbr_outputs as nat,
        ),
{
    let ghost nodes = nodes_grid@;
    let ghost ins = table_view(inputs@);
    let nbr_rows = inputs.len();
    let nbr_nodes = nodes_grid.len();
    let nbr_inner = params.nbr_inputs + params.nbr_computational_nodes;
    let mut outputs: Vec<Vec<bool>> = Vec::new();
    let mut p: usize = 0;
    while p < nbr_nodes
        invariant
            p <= nbr_nodes,
            outputs@.len() == p,
            forall|q: int| 0 <= q < p ==> outputs@[q]@.len() == nbr_rows,
        decreases nbr_nodes - p,
    {
        outputs.push(filled_column(nbr_rows, true));
        p += 1;
    }
    proof {
        assert forall|i: int| 0 <= i < order@.len() implies order@[i] < nbr_nodes by {
            assert(order@.contains(order@[i]));
            lemma_active_in_range(*params, nodes, order@[i] as int);
        }
        lemma_distinct_below(order@, nbr_nodes as nat);
    }
    let mut idx: usize = 0;
    while idx < order.len()
        invariant
            grid_ok(*params, nodes),
            is_active_order(nodes, order@),
            params.function_set == FunctionSet::Boolean,
            nodes == nodes_grid@,
            ins == table_view(inputs@),
            nbr_rows == inputs@.len(),
            nbr_nodes == nodes.len(),
            forall|r: int| 0 <= r < inputs@.len() ==> inputs@[r]@.len() == params.nbr_inputs,
            idx <= order@.len(),
            forall|i: int| 0 <= i < order@.len() ==> order@[i] < nbr_nodes,
            outputs@.len() == nbr_nodes,
            forall|q: int| 0 <= q < nbr_nodes ==> outputs@[q]@.len() == nbr_rows,
            forall|k: int|
                0 <= k < idx ==> column_right(
                    nodes,
                    ins,
                    outputs@[#[trigger] order@[k] as int]@,
                    order@[k] as int,
                    k,
                ),
        decreases order@.len() - idx,
    {
        let node_id = order[idx];
        let current_node = nodes_grid[node_id];
        let ghost table_before = outputs@;
        proof {
            assert(node_in_place(*params, current_node, node_id as int));
        }
        let column: Vec<bool>;
        match current_node.node_type {
            NodeType::InputNode => {
                column = input_column(inputs, node_id);
            },
            NodeType::OutputNode => {
                let con0 = current_node.connection0;
                proof {
                    assert(uses(current_node, con0 as int));
                    assert(used_edges(nodes).contains((con0 as int, order@[idx as int] as int)));
                    let i0 = choose|i: int| 0 <= i < idx && order@[i] == con0;
                    assert(column_right(
                        nodes,
                        ins,
                        outputs@[order@[i0] as int]@,
                        order@[i0] as int,
                        i0,
                    ));
                }
                column = copy_column(&outputs[con0]);
            },
            NodeType::ComputationalNode => {
                let con0 = current_node.connection0;
                let con1 = current_node.connection1;
                proof {
                    assert(uses(current_node, con0 as int));
                    assert(uses(current_node, con1 as int));
                    assert(used_edges(nodes).contains((con0 as int, order@[idx as int] as int)));
                    assert(used_edges(nodes).contains((con1 as int, order@[idx as int] as int)));
                    let i0 = choose|i: int| 0 <= i < idx && order@[i] == con0;
                    let i1 = choose|i: int| 0 <= i < idx && order@[i] == con1;
                    assert(column_right(
                        nodes,
                        ins,
                        outputs@[order@[i0] as int]@,
                        order@[i0] as int,
                        i0,
                    ));
                    assert(column_right(
                        nodes,
                        ins,
                        outputs@[order@[i1] as int]@,
                        order@[i1] as int,
                        i1,
                    ));
                }
                column = current_node.execute(&outputs[con0], &outputs[con1]);
            },
        }
        proof {
            assert forall|r: int, fuel: nat| 0 <= r < ins.len() && fuel > idx implies column@[r]
                == #[trigger] node_value(nodes, ins[r], node_id as int, fuel) by {
                let rest = (fuel - 1) as nat;
                match current_node.node_type {
                    NodeType::InputNode => {},
                    NodeType::OutputNode => {
                        let con0 = current_node.connection0;
                        let i0 = choose|i: int| 0 <= i < idx && order@[i] == con0;
                        assert(table_before[con0 as int]@[r] == node_value(
                            nodes,
                            ins[r],
                            con0 as int,
                            rest,
                        ));
                    },
                    NodeType::ComputationalNode => {
                        let con0 = current_node.connection0;
                        let con1 = current_node.connection1;
                        let i0 = choose|i: int| 0 <= i < idx && order@[i] == con0;
                        let i1 = choose|i: int| 0 <= i < idx && order@[i] == con1;
                        assert(table_before[con0 as int]@[r] == node_value(
                            nodes,
                            ins[r],
                            con0 as int,
                            rest,
                        ));
                        assert(table_before[con1 as int]@[r] == node_value(
                            nodes,
                            ins[r],
                            con1 as int,
                            rest,
                        ));
                    },
                }
            }
        }
        outputs[node_id] = column;
        proof {
            assert forall|k: int| 0 <= k < idx + 1 implies column_right(
                nodes,
                ins,
                outputs@[#[trigger] order@[k] as int]@,
                order@[k] as int,
                k,
            ) by {
                if k < idx {
                    assert(order@[k] != order@[idx as int]);
                    assert(outputs@[order@[k] as int] == table_before[order@[k] as int]);
                }
            }
        }
        idx += 1;
    }
    let mut outs: Vec<Vec<bool>> = Vec::new();
    let mut r: usize = 0;
    while r < nbr_rows
        invariant
            grid_ok(*params, nodes),
            is_active_order(nodes, order@),
            nodes == nodes_grid@,
            ins == table_view(inputs@),
            nbr_rows == inputs@.len(),
            nbr_nodes == nodes.len(),
            nbr_inner == params.spec_nbr_inner(),
            idx == order@.len(),
            order@.len() <= nbr_nodes,
            outputs@.len() == nbr_nodes,
            forall|q: int| 0 <= q < nbr_nodes ==> outputs@[q]@.len() == nbr_rows,
            forall|k: int|
                0 <= k < idx ==> column_right(
                    nodes,
                    ins,
                    outputs@[#[trigger] order@[k] as int]@,
                    order@[k] as int,
                    k,
                ),
            r <= nbr_rows,
            outs@.len() == r,
            forall|i: int|
                0 <= i < r ==> outs@[i]@ == Seq::new(
                    params.nbr_outputs as nat,
                    |k: int| value_of(nodes, ins[i], nbr_inner + k),
                ),
        decreases nbr_rows - r,
    {
        let mut row: Vec<bool> = Vec::new();
        let mut k: usize = 0;
        while k < params.nbr_outputs
            invariant
                grid_ok(*params, nodes),
            is_active_order(nodes, order@),
                    nodes == nodes_grid@,
                ins == table_view(inputs@),
                nbr_rows == inputs@.len(),
                nbr_nodes == nodes.len(),
                nbr_inner == params.spec_nbr_inner(),
                idx == order@.len(),
                order@.len() <= nbr_nodes,
                outputs@.len() == nbr_nodes,
                forall|q: int| 0 <= q < nbr_nodes ==> outputs@[q]@.len() == nbr_rows,
                forall|j: int|
                    0 <= j < idx ==> column_right(
                        nodes,
                        ins,
                        outputs@[#[trigger] order@[j] as int]@,
                        order@[j] as int,
                        j,
                    ),
                r < nbr_rows,
                k <= params.nbr_outputs,
                row@.len() == k,
                forall|j: int| 0 <= j < k ==> row@[j] == value_of(nodes, ins[r as int], nbr_inner + j),
            decreases params.nbr_outputs - k,
        {
            let output_id = nbr_inner + k;
            proof {
                assert(node_in_place(*params, nodes[output_id as int], output_id as int));
                lemma_output_is_active(nodes, output_id as int);
                assert(order@.contains(output_id));
                let j = choose|j: int| 0 <= j < order@.len() && order@[j] == output_id;
                assert(column_right(nodes, ins, outputs@[order@[j] as int]@, order@[j] as int, j));
                assert(outputs@[output_id as int]@[r as int] == node_value(
                    nodes,
                    ins[r as int],
                    output_id as int,
                    nbr_nodes as nat,
                ));
            }
            row.push(outputs[output_id][r]);
            k += 1;
        }
        proof {
            assert(row@ =~= Seq::new(
                params.nbr_outputs as nat,
                |k: int| value_of(nodes, ins[r as int], nbr_inner + k),
            ));
        }
        outs.push(row);
        r += 1;
    }
    proof {
        assert(table_view(outs@) =~= predictions(
            nodes,
            ins,
            nbr_inner as int,
            params.nbr_outputs as nat,
        ));
    }
    outs
}

/// A column of `nbr_rows` entries, each of them `value`.
fn filled_column(nbr_rows: usize, value: bool) -> (column: Vec<bool>)
    ensures
        column@.len() == nbr_rows,
        forall|r: int| 0 <= r < nbr_rows ==> column@[r] == value,
{
    let mut column: Vec<bool> = Vec::new();
    let mut r: usize = 0;
    while r < nbr_rows
        invariant
            r <= nbr_rows,
            column@.len() == r,
            forall|i: int| 0 <= i < r ==> column@[i] == value,
        decreases nbr_rows - r,
    {
        column.push(value);
        r += 1;
    }
    column
}

/// The entries of `column`, in a vector of its own.
fn copy_column(column: &Vec<bool>) -> (copy: Vec<bool>)
    ensures
        copy@ == column@,
{
    let mut copy: Vec<bool> = Vec::new();
    let mut r: usize = 0;
    while r < column.len()
        invariant
            r <= column@.len(),
            copy@ == column@.take(r as int),
        decreases column@.len() - r,
    {
        copy.push(column[r]);
        proof {
            assert(column@.take(r + 1) =~= column@.take(r as int).push(column@[r as int]));
        }
        r += 1;
    }
    proof {
        assert(column@.take(r as int) =~= column@);
    }
    copy
}

/// The values that the rows of `inputs` hold for the input `input_id`.
fn input_column(inputs: &Vec<Vec<bool>>, input_id: usize) -> (column: Vec<bool>)
    requires
        forall|r: int| 0 <= r < inputs@.len() ==> input_id < inputs@[r]@.len(),
    ensures
        column@.len() == inputs@.len(),
        forall|r: int| 0 <= r < inputs@.len() ==> column@[r] == inputs@[r]@[input_id as int],
{
    let mut column: Vec<bool> = Vec::new();
    let mut r: usize = 0;
    while r < inputs.len()
        invariant
            forall|i: int| 0 <= i < inputs@.len() ==> input_id < inputs@[i]@.len(),
            r <= inputs@.len(),
            column@.len() == r,
            forall|i: int| 0 <= i < r ==> column@[i] == inputs@[i]@[input_id as int],
        decreases inputs@.len() - r,
    {
        column.push(inputs[r][input_id]);
        r += 1;
    }
    column
}

/// `plan` evaluates the node array along `order`: it has one step for
/// each entry of `order`, the step that computes the node at that position,
/// and every step reads only what an earlier step computes.
pub open spec fn is_plan_of(nodes: Seq<NodeDAG>, order: Seq<usize>, plan: Seq<EvaluationStep>) -> bool {
    &&& plan.len() == order.len()
    &&& forall|j: int|
        0 <= j < plan.len() ==> (#[trigger] plan[j]) == step_of(nodes[order[j] as int])
            && plan[j].spec_position() == order[j]
    &&& forall|j: int, source: int|
        0 <= j < plan.len() && #[trigger] plan[j].spec_reads(source) ==> exists|i: int|
            0 <= i < j && plan[i].spec_position() == source
}

/// The steps that evaluate the node array, one for each entry of `order`,
/// an execution order of the active nodes.
pub fn plan_order(params: &CgpParameters, nodes_grid: &Vec<NodeDAG>, order: &Vec<usize>) -> (plan:
    Vec<EvaluationStep>)
    requires
        grid_ok(*params, nodes_grid@),
        is_active_order(nodes_grid@, order@),
    ensures
        is_plan_of(nodes_grid@, order@, plan@),
{
    let ghost nodes = nodes_grid@;
    let mut plan: Vec<EvaluationStep> = Vec::new();
    let mut j: usize = 0;
    while j < order.len()
        invariant
            grid_ok(*params, nodes),
            is_active_order(nodes, order@),
            nodes == nodes_grid@,
            j <= order@.len(),
            plan@.len() == j,
            forall|k: int|
                0 <= k < j ==> (#[trigger] plan@[k]) == step_of(nodes[order@[k] as int])
                    && plan@[k].spec_position() == order@[k],
        decreases order@.len() - j,
    {
        proof {
            assert(order@.contains(order@[j as int]));
            lemma_active_in_range(*params, nodes, order@[j as int] as int);
            assert(node_in_place(*params, nodes[order@[j as int] as int], order@[j as int] as int));
        }
        plan.push(make_step(&nodes_grid[order[j]]));
        j += 1;
    }
    proof {
        assert forall|j: int, source: int|
            0 <= j < plan@.len() && #[trigger] plan@[j].spec_reads(source) implies exists|i: int|
            0 <= i < j && plan@[i].spec_position() == source by {
            let p = order@[j];
            assert(order@.contains(p));
            lemma_active_in_range(*params, nodes, p as int);
            assert(uses(nodes[p as int], source));
            assert(used_edges(nodes).contains((source, order@[j] as int)));
            let i = choose|i: int| 0 <= i < j && order@[i] == source;
            assert(plan@[i].spec_position() == source);
        }
    }
    plan
}

} // verus!
