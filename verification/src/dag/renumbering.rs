//! Renumbering the computational nodes by a topological order, and what
//! it keeps and establishes.

use crate::dag::evaluation::{node_value, predictions};
use crate::dag::genotype::{causal, dependency_edges, grid_ok, node_in_place, reads};
use crate::dag::node_dag::NodeDAG;
use crate::global_params::CgpParameters;
use crate::utils::node_type::NodeType;
use vstd::prelude::*;

verus! {

/// Whether `p` is the position of a computational node.
pub open spec fn is_computational(params: CgpParameters, p: int) -> bool {
    params.nbr_inputs <= p < params.spec_nbr_inner()
}

/// `order` is a topological order of the computational nodes: it lists
/// their positions, each once, and every node after the computational
/// nodes that it has a connection to.
pub open spec fn is_computational_order(
    params: CgpParameters,
    nodes: Seq<NodeDAG>,
    order: Seq<usize>,
) -> bool {
    &&& order.no_duplicates()
    &&& forall|p: usize| #[trigger] order.contains(p) <==> is_computational(params, p as int)
    &&& forall|i: int, j: int|
        0 <= i < order.len() && 0 <= j < order.len() && #[trigger] dependency_edges(nodes).contains(
            (order[i] as int, order[j] as int),
        ) ==> i < j
}

/// The positions of the computational nodes in rising order.
pub open spec fn position_order(params: CgpParameters) -> Seq<usize> {
    Seq::new(params.nbr_computational_nodes as nat, |k: int| (params.nbr_inputs + k) as usize)
}

/// Where the node at position `p` stands after renumbering by `order`: a
/// computational node at its rank in `order`, counted from the first
/// position behind the inputs; an input or output node where it was.
pub open spec fn new_location(params: CgpParameters, order: Seq<usize>, p: int) -> int {
    if is_computational(params, p) {
        params.nbr_inputs + order.index_of(p as usize)
    } else {
        p
    }
}

/// Where the node that renumbering by `order` puts at position `q` stood
/// before.
pub open spec fn old_location(params: CgpParameters, order: Seq<usize>, q: int) -> int {
    if is_computational(params, q) {
        order[q - params.nbr_inputs] as int
    } else {
        q
    }
}

/// The node after renumbering by `order`: its position and its connections
/// name the new locations. An input node has no connection, and an output
/// node keeps its position.
pub open spec fn relocated_node(params: CgpParameters, order: Seq<usize>, node: NodeDAG) -> NodeDAG {
    match node.node_type {
        NodeType::InputNode => node,
        NodeType::ComputationalNode => NodeDAG {
            position: new_location(params, order, node.position as int) as usize,
            connection0: new_location(params, order, node.connection0 as int) as usize,
            connection1: new_location(params, order, node.connection1 as int) as usize,
            ..node
        },
        NodeType::OutputNode => NodeDAG {
            connection0: new_location(params, order, node.connection0 as int) as usize,
            ..node
        },
    }
}

/// The node array after renumbering by `order`.
pub open spec fn renumbered(params: CgpParameters, nodes: Seq<NodeDAG>, order: Seq<usize>) -> Seq<
    NodeDAG,
> {
    Seq::new(
        nodes.len(),
        |q: int| relocated_node(params, order, nodes[old_location(params, order, q)]),
    )
}

/// In a sequence without repetitions an entry is found where it stands.
pub proof fn lemma_index_of_entry(order: Seq<usize>, k: int)
    requires
        order.no_duplicates(),
        0 <= k < order.len(),
    ensures
        order.index_of(order[k]) == k,
{
    let i = order.index_of(order[k]);
    assert(0 <= i < order.len() && order[i] == order[k]);
}

/// An entry of a sequence stands at the index at which it is found.
pub proof fn lemma_entry_at_index(order: Seq<usize>, p: usize)
    requires
        order.contains(p),
    ensures
        0 <= order.index_of(p) < order.len(),
        order[order.index_of(p)] == p,
{
}

/// A topological order of the computational nodes has one entry for each
/// of them.
pub proof fn lemma_order_length(params: CgpParameters, nodes: Seq<NodeDAG>, order: Seq<usize>)
    requires
        params.valid(),
        is_computational_order(params, nodes, order),
    ensures
        order.len() == params.nbr_computational_nodes,
{
    let lo = params.nbr_inputs as int;
    let hi = params.spec_nbr_inner();
    let s = order.map_values(|x: usize| x as int);
    assert(s.no_duplicates());
    assert forall|x: int| s.to_set().contains(x) <==> vstd::set_lib::set_int_range(
        lo,
        hi,
    ).contains(x) by {
        if s.contains(x) {
            let i = choose|i: int| 0 <= i < s.len() && s[i] == x;
            assert(order.contains(order[i]));
        }
        if lo <= x < hi {
            assert(order.contains(x as usize));
            let i = choose|i: int| 0 <= i < order.len() && order[i] == x as usize;
            assert(s[i] == x);
        }
    }
    assert(s.to_set() =~= vstd::set_lib::set_int_range(lo, hi));
    s.unique_seq_to_set();
    vstd::set_lib::lemma_int_range(lo, hi);
}

/// Every location before and after renumbering is a position, and the two
/// directions undo each other.
pub proof fn lemma_locations(params: CgpParameters, nodes: Seq<NodeDAG>, order: Seq<usize>, p: int)
    requires
        grid_ok(params, nodes),
        is_computational_order(params, nodes, order),
        0 <= p < nodes.len(),
    ensures
        0 <= new_location(params, order, p) < nodes.len(),
        0 <= old_location(params, order, p) < nodes.len(),
        is_computational(params, new_location(params, order, p)) == is_computational(params, p),
        is_computational(params, old_location(params, order, p)) == is_computational(params, p),
        old_location(params, order, new_location(params, order, p)) == p,
        new_location(params, order, old_location(params, order, p)) == p,
{
    lemma_order_length(params, nodes, order);
    if is_computational(params, p) {
        assert(order.contains(p as usize));
        lemma_entry_at_index(order, p as usize);
        let k = p - params.nbr_inputs;
        assert(order.contains(order[k]));
        lemma_index_of_entry(order, k);
    }
}

/// After renumbering by a topological order of the computational nodes
/// every node is in place again, and every connection of a computational
/// or output node names a position before the node's own.
pub proof fn lemma_renumbered_causal(params: CgpParameters, nodes: Seq<NodeDAG>, order: Seq<usize>)
    requires
        grid_ok(params, nodes),
        is_computational_order(params, nodes, order),
    ensures
        grid_ok(params, renumbered(params, nodes, order)),
        causal(renumbered(params, nodes, order)),
{
    let new = renumbered(params, nodes, order);
    lemma_order_length(params, nodes, order);
    assert forall|q: int| 0 <= q < new.len() implies node_in_place(params, #[trigger] new[q], q)
        && (forall|c: int| reads(new[q], c) ==> c < q) by {
        lemma_locations(params, nodes, order, q);
        let p = old_location(params, order, q);
        let old_node = nodes[p];
        assert(node_in_place(params, old_node, p));
        if old_node.node_type != NodeType::InputNode {
            let c0 = old_node.connection0 as int;
            lemma_locations(params, nodes, order, c0);
            assert(dependency_edges(nodes).contains((c0, p)));
            if is_computational(params, c0) && is_computational(params, p) {
                lemma_entry_at_index(order, c0 as usize);
                lemma_entry_at_index(order, p as usize);
            }
        }
        if old_node.node_type == NodeType::ComputationalNode {
            let c1 = old_node.connection1 as int;
            lemma_locations(params, nodes, order, c1);
            assert(dependency_edges(nodes).contains((c1, p)));
            if is_computational(params, c1) {
                lemma_entry_at_index(order, c1 as usize);
                lemma_entry_at_index(order, p as usize);
            }
        }
    }
}

/// In a node array whose connections all name earlier positions, the
/// positions in rising order are a topological order of the computational
/// nodes.
pub proof fn lemma_position_order(params: CgpParameters, nodes: Seq<NodeDAG>)
    requires
        grid_ok(params, nodes),
        causal(nodes),
    ensures
        is_computational_order(params, nodes, position_order(params)),
{
    let order = position_order(params);
    assert forall|p: usize| #[trigger] order.contains(p) <==> is_computational(
        params,
        p as int,
    ) by {
        if is_computational(params, p as int) {
            assert(order[p - params.nbr_inputs] == p);
        }
    }
}

/// Renumbering by the positions in rising order changes nothing: a node
/// array that is in this order already is a fixed point.
pub proof fn lemma_renumber_fixed_point(params: CgpParameters, nodes: Seq<NodeDAG>)
    requires
        grid_ok(params, nodes),
    ensures
        renumbered(params, nodes, position_order(params)) == nodes,
{
    let order = position_order(params);
    let new = renumbered(params, nodes, order);
    assert forall|p: int| is_computational(params, p) implies new_location(params, order, p)
        == p by {
        lemma_index_of_entry(order, p - params.nbr_inputs);
    }
    assert forall|q: int| 0 <= q < nodes.len() implies new[q] == nodes[q] by {
        assert(node_in_place(params, nodes[q], q));
    }
    assert(new =~= nodes);
}

/// Renumbering changes no value: for every row of boolean inputs, the node
/// that stood at position `p` has at its new position the value that it had
/// before.
pub proof fn lemma_renumbering_keeps_values(
    params: CgpParameters,
    nodes: Seq<NodeDAG>,
    order: Seq<usize>,
    row: Seq<bool>,
    p: int,
    fuel: nat,
)
    requires
        grid_ok(params, nodes),
        is_computational_order(params, nodes, order),
        0 <= p < nodes.len(),
    ensures
        node_value(renumbered(params, nodes, order), row, new_location(params, order, p), fuel)
            == node_value(nodes, row, p, fuel),
    decreases fuel,
{
    if fuel > 0 {
        let new = renumbered(params, nodes, order);
        let q = new_location(params, order, p);
        lemma_locations(params, nodes, order, p);
        assert(node_in_place(params, nodes[p], p));
        assert(new[q] == relocated_node(params, order, nodes[p]));
        let rest = (fuel - 1) as nat;
        match nodes[p].node_type {
            NodeType::InputNode => {},
            NodeType::OutputNode => {
                let c0 = nodes[p].connection0 as int;
                lemma_locations(params, nodes, order, c0);
                lemma_renumbering_keeps_values(params, nodes, order, row, c0, rest);
            },
            NodeType::ComputationalNode => {
                let c0 = nodes[p].connection0 as int;
                let c1 = nodes[p].connection1 as int;
                lemma_locations(params, nodes, order, c0);
                lemma_locations(params, nodes, order, c1);
                lemma_renumbering_keeps_values(params, nodes, order, row, c0, rest);
                lemma_renumbering_keeps_values(params, nodes, order, row, c1, rest);
            },
        }
    }
}

/// Renumbering changes nothing of what a genotype computes: the output
/// nodes have the same values for all boolean inputs.
pub proof fn lemma_renumbering_keeps_predictions(
    params: CgpParameters,
    nodes: Seq<NodeDAG>,
    order: Seq<usize>,
    inputs: Seq<Seq<bool>>,
)
    requires
        grid_ok(params, nodes),
        is_computational_order(params, nodes, order),
    ensures
        predictions(
            renumbered(params, nodes, order),
            inputs,
            params.spec_nbr_inner(),
            params.nbr_outputs as nat,
        ) == predictions(nodes, inputs, params.spec_nbr_inner(), params.nbr_outputs as nat),
{
    let first = params.spec_nbr_inner();
    let new = renumbered(params, nodes, order);
    let before = predictions(nodes, inputs, first, params.nbr_outputs as nat);
    let after = predictions(new, inputs, first, params.nbr_outputs as nat);
    assert forall|r: int| 0 <= r < inputs.len() implies after[r] == before[r] by {
        assert forall|k: int| 0 <= k < params.nbr_outputs implies after[r][k] == before[r][k] by {
            lemma_renumbering_keeps_values(
                params,
                nodes,
                order,
                inputs[r],
                first + k,
                nodes.len(),
            );
        }
        assert(after[r] =~= before[r]);
    }
    assert(after =~= before);
}

} // verus!
