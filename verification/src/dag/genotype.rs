//! What a node array means as a graph: which node reads which, which nodes
//! are active, and when an order of the positions is an execution order.

use crate::dag::node_dag::NodeDAG;
use crate::global_params::CgpParameters;
use crate::utils::node_type::NodeType;
use crate::utils::reachability::{has_cycle, is_cycle, reaches, step};
use vstd::multiset::Multiset;
use vstd::prelude::*;

verus! {

/// Whether `node` reads from position `source` through one of the
/// connections that it has.
pub open spec fn reads(node: NodeDAG, source: int) -> bool {
    match node.node_type {
        NodeType::InputNode => false,
        NodeType::ComputationalNode => source == node.connection0 || source == node.connection1,
        NodeType::OutputNode => source == node.connection0,
    }
}

/// Whether `node` reads from position `source` through a connection that
/// its operation uses: an operation on one operand leaves the second
/// connection unused.
pub open spec fn uses(node: NodeDAG, source: int) -> bool {
    match node.node_type {
        NodeType::InputNode => false,
        NodeType::ComputationalNode => source == node.connection0 || (source == node.connection1
            && node.function_set.spec_arity(node.function_id) == 2),
        NodeType::OutputNode => source == node.connection0,
    }
}

/// The dependency graph of a node array: the edge `(c, p)` says that the
/// node at position `p` has a connection to position `c`.
pub open spec fn dependency_edges(nodes: Seq<NodeDAG>) -> Set<(int, int)> {
    Set::new(|e: (int, int)| 0 <= e.1 < nodes.len() && reads(nodes[e.1], e.0))
}

/// The part of the dependency graph that evaluation follows: the edge
/// `(c, p)` says that the node at position `p` uses the value of position
/// `c`.
pub open spec fn used_edges(nodes: Seq<NodeDAG>) -> Set<(int, int)> {
    Set::new(|e: (int, int)| 0 <= e.1 < nodes.len() && uses(nodes[e.1], e.0))
}

/// Whether `o` is the position of an output node.
pub open spec fn is_output_position(nodes: Seq<NodeDAG>, o: int) -> bool {
    0 <= o < nodes.len() && nodes[o].node_type == NodeType::OutputNode
}

/// A node is active when its value reaches an output node along used
/// connections. Every output node is active.
pub open spec fn is_active(nodes: Seq<NodeDAG>, p: int) -> bool {
    exists|o: int| is_output_position(nodes, o) && reaches(used_edges(nodes), p, o)
}

/// `order` is an execution order of the active nodes: it lists exactly the
/// active positions, each once, and every position after all the positions
/// whose values it uses.
pub open spec fn is_active_order(nodes: Seq<NodeDAG>, order: Seq<usize>) -> bool {
    &&& order.no_duplicates()
    &&& forall|p: usize| #[trigger] order.contains(p) <==> is_active(nodes, p as int)
    &&& forall|j: int, c: int|
        0 <= j < order.len() && #[trigger] used_edges(nodes).contains((c, order[j] as int))
            ==> exists|i: int| 0 <= i < j && order[i] == c
}

/// Every connection of every node names a position before the node's own.
pub open spec fn causal(nodes: Seq<NodeDAG>) -> bool {
    forall|p: int, c: int|
        0 <= p < nodes.len() && #[trigger] reads(nodes[p], c) ==> c < p
}

/// The node at position `p` of a genotype with the settings `params` has
/// the role and the settings that belong to that position, and its fields
/// agree with its role.
pub open spec fn node_in_place(params: CgpParameters, node: NodeDAG, p: int) -> bool {
    &&& node.position == p
    &&& node.nbr_inputs == params.nbr_inputs
    &&& node.graph_width == params.nbr_computational_nodes
    &&& node.function_set == params.function_set
    &&& node.node_type == NodeType::spec_of_position(
        p,
        params.nbr_inputs as int,
        params.nbr_computational_nodes as int,
    )
    &&& node.well_formed()
}

/// The node array of a genotype with the settings `params`: one node for
/// every position, inputs first, outputs last, each in place.
pub open spec fn grid_ok(params: CgpParameters, nodes: Seq<NodeDAG>) -> bool {
    &&& params.valid()
    &&& nodes.len() == params.spec_nbr_nodes()
    &&& forall|p: int| 0 <= p < nodes.len() ==> node_in_place(params, #[trigger] nodes[p], p)
}

/// The tracker's rows hold the connections of the computational nodes and
/// nothing else.
pub open spec fn rows_match(
    params: CgpParameters,
    nodes: Seq<NodeDAG>,
    rows: Seq<Multiset<usize>>,
) -> bool {
    &&& rows.len() == params.spec_nbr_inner()
    &&& forall|p: int| 0 <= p < rows.len() ==> (#[trigger] nodes[p]).tracked_by(rows)
}

/// In a node array whose every node is in place, a source of data is an
/// input or a computational node, and what reads is none of the inputs.
pub proof fn lemma_edge_ends(params: CgpParameters, nodes: Seq<NodeDAG>, c: int, p: int)
    requires
        grid_ok(params, nodes),
        dependency_edges(nodes).contains((c, p)),
    ensures
        0 <= c < params.spec_nbr_inner(),
        params.nbr_inputs <= p < nodes.len(),
        p < params.spec_nbr_inner() ==> nodes[p].node_type == NodeType::ComputationalNode,
{
    assert(node_in_place(params, nodes[p], p));
}

/// The used connections are among the connections.
pub proof fn lemma_used_are_dependencies(nodes: Seq<NodeDAG>)
    ensures
        used_edges(nodes).subset_of(dependency_edges(nodes)),
{
}

/// Where the tracker agrees with the node array and holds no cycle, the
/// dependency graph of the node array holds none: an output node reads
/// without being read, so a closed walk passes computational nodes only.
pub proof fn lemma_tracked_acyclic(
    params: CgpParameters,
    nodes: Seq<NodeDAG>,
    rows: Seq<Multiset<usize>>,
)
    requires
        grid_ok(params, nodes),
        rows_match(params, nodes, rows),
        !has_cycle(crate::utils::cycle_checker::feed_edges(rows)),
    ensures
        !has_cycle(dependency_edges(nodes)),
{
    let deps = dependency_edges(nodes);
    let feeds = crate::utils::cycle_checker::feed_edges(rows);
    if has_cycle(deps) {
        let w = choose|w: Seq<int>| is_cycle(deps, w);
        assert forall|i: int| 0 <= i < w.len() - 1 implies #[trigger] step(feeds, w, i) by {
            assert(step(deps, w, i));
            lemma_edge_ends(params, nodes, w[i], w[i + 1]);
            if i + 1 < w.len() - 1 {
                assert(step(deps, w, i + 1));
                lemma_edge_ends(params, nodes, w[i + 1], w[i + 2]);
            } else {
                assert(step(deps, w, 0));
                lemma_edge_ends(params, nodes, w[0], w[1]);
            }
            let p = w[i + 1];
            assert(nodes[p].tracked_by(rows));
            assert(rows[p].count(w[i] as usize) > 0);
        }
        assert(is_cycle(feeds, w));
    }
}

/// A node array in which every connection names an earlier position has
/// no cycle in its dependency graph.
pub proof fn lemma_causal_acyclic(nodes: Seq<NodeDAG>)
    requires
        causal(nodes),
    ensures
        !has_cycle(dependency_edges(nodes)),
{
    crate::utils::reachability::lemma_ranked_is_acyclic(dependency_edges(nodes), |x: int| x);
}

/// The tracker's edges are dependencies of the node array that it agrees
/// with.
pub proof fn lemma_feeds_are_dependencies(
    params: CgpParameters,
    nodes: Seq<NodeDAG>,
    rows: Seq<Multiset<usize>>,
)
    requires
        grid_ok(params, nodes),
        rows_match(params, nodes, rows),
    ensures
        crate::utils::cycle_checker::feed_edges(rows).subset_of(dependency_edges(nodes)),
{
    let feeds = crate::utils::cycle_checker::feed_edges(rows);
    assert forall|e: (int, int)| feeds.contains(e) implies dependency_edges(nodes).contains(e) by {
        let p = e.1;
        assert(nodes[p].tracked_by(rows));
        assert(node_in_place(params, nodes[p], p));
    }
}

/// The used connections that lead into active nodes.
pub open spec fn active_edges(nodes: Seq<NodeDAG>) -> Set<(int, int)> {
    Set::new(|e: (int, int)| used_edges(nodes).contains(e) && is_active(nodes, e.1))
}

/// What an active node uses is active.
pub proof fn lemma_source_of_active(nodes: Seq<NodeDAG>, c: int, p: int)
    requires
        used_edges(nodes).contains((c, p)),
        is_active(nodes, p),
    ensures
        is_active(nodes, c),
{
    let o = choose|o: int| is_output_position(nodes, o) && reaches(used_edges(nodes), p, o);
    crate::utils::reachability::lemma_reaches_prepend(used_edges(nodes), c, p, o);
}

/// An output node is active.
pub proof fn lemma_output_is_active(nodes: Seq<NodeDAG>, o: int)
    requires
        is_output_position(nodes, o),
    ensures
        is_active(nodes, o),
{
    crate::utils::reachability::lemma_reaches_self(used_edges(nodes), o);
}

/// Marks that hold every output node, and with a node every node that it
/// uses, hold every active node.
pub proof fn lemma_marks_hold_active(nodes: Seq<NodeDAG>, marks: Seq<bool>, p: int)
    requires
        marks.len() == nodes.len(),
        forall|o: int| is_output_position(nodes, o) ==> marks[o],
        forall|c: int, q: int|
            0 <= q < nodes.len() && marks[q] && #[trigger] used_edges(nodes).contains((c, q))
                ==> 0 <= c < nodes.len() && marks[c],
        is_active(nodes, p),
    ensures
        0 <= p < nodes.len(),
        marks[p],
{
    let o = choose|o: int| is_output_position(nodes, o) && reaches(used_edges(nodes), p, o);
    let inside = Set::new(|x: int| 0 <= x < nodes.len() && marks[x]);
    assert(crate::utils::reachability::closed_backwards(used_edges(nodes), inside));
    crate::utils::reachability::lemma_closed_holds_sources(used_edges(nodes), inside, p, o);
}

/// An active node is a node of the array.
pub proof fn lemma_active_in_range(params: CgpParameters, nodes: Seq<NodeDAG>, p: int)
    requires
        grid_ok(params, nodes),
        is_active(nodes, p),
    ensures
        0 <= p < nodes.len(),
{
    let o = choose|o: int| is_output_position(nodes, o) && reaches(used_edges(nodes), p, o);
    let w = choose|w: Seq<int>|
        crate::utils::reachability::walk_between(used_edges(nodes), w, p, o);
    if w.len() > 1 {
        assert(step(used_edges(nodes), w, 0));
        lemma_edge_ends(params, nodes, w[0], w[1]);
    }
}

/// Whether `node` is in place at `position` of a genotype with the
/// settings `params`.
pub fn check_node(params: &CgpParameters, node: &NodeDAG, position: usize) -> (fits: bool)
    requires
        params.valid(),
    ensures
        fits == node_in_place(*params, *node, position as int),
{
    let nbr_inner = params.nbr_inputs + params.nbr_computational_nodes;
    let role = if position < params.nbr_inputs {
        NodeType::InputNode
    } else if position < nbr_inner {
        NodeType::ComputationalNode
    } else {
        NodeType::OutputNode
    };
    let placed = node.position == position && node.nbr_inputs == params.nbr_inputs
        && node.graph_width == params.nbr_computational_nodes && node.function_set
        == params.function_set && node.node_type == role && node.function_id
        < params.function_set.size();
    let connected = match node.node_type {
        NodeType::InputNode => node.connection0 == usize::MAX && node.connection1 == usize::MAX,
        NodeType::ComputationalNode => node.connection0 < nbr_inner && node.connection1
            < nbr_inner,
        NodeType::OutputNode => node.connection0 < nbr_inner && node.connection1 == usize::MAX,
    };
    placed && connected
}

/// Two rising sequences with the same members are the same.
pub proof fn lemma_rising_with_same_members(s: Seq<usize>, t: Seq<usize>)
    requires
        forall|i: int, j: int| 0 <= i < j < s.len() ==> s[i] < s[j],
        forall|i: int, j: int| 0 <= i < j < t.len() ==> t[i] < t[j],
        forall|p: usize|
            #![trigger s.contains(p)]
            #![trigger t.contains(p)]
            s.contains(p) <==> t.contains(p),
    ensures
        s == t,
    decreases s.len(),
{
    if s.len() == 0 {
        if t.len() > 0 {
            assert(t.contains(t[0]));
        }
        assert(s =~= t);
    } else if t.len() == 0 {
        assert(s.contains(s[0]));
    } else {
        let top_s = s[s.len() - 1];
        let top_t = t[t.len() - 1];
        assert(s.contains(top_s));
        assert(t.contains(top_t));
        assert(t.contains(top_s));
        assert(s.contains(top_t));
        let i = choose|i: int| 0 <= i < t.len() && t[i] == top_s;
        let j = choose|j: int| 0 <= j < s.len() && s[j] == top_t;
        assert(top_s == top_t);
        let s2 = s.drop_last();
        let t2 = t.drop_last();
        assert forall|p: usize|
            #![trigger s2.contains(p)]
            #![trigger t2.contains(p)]
            s2.contains(p) <==> t2.contains(p) by {
            if s2.contains(p) {
                let k = choose|k: int| 0 <= k < s2.len() && s2[k] == p;
                assert(s[k] == p);
                assert(s.contains(p));
                assert(t.contains(p));
                let m = choose|m: int| 0 <= m < t.len() && t[m] == p;
                assert(t2[m] == p);
            }
            if t2.contains(p) {
                let k = choose|k: int| 0 <= k < t2.len() && t2[k] == p;
                assert(t[k] == p);
                assert(t.contains(p));
                assert(s.contains(p));
                let m = choose|m: int| 0 <= m < s.len() && s[m] == p;
                assert(s2[m] == p);
            }
        }
        lemma_rising_with_same_members(s2, t2);
        assert(s =~= s2.push(top_s));
        assert(t =~= t2.push(top_t));
    }
}

} // verus!
