//! The spreading itself: where every node goes, and that the genotype
//! stays valid and computes what it computed.

use crate::dag::active_search::active_marks;
use crate::dag::evaluation::{node_value, predictions};
use crate::dag::genotype::{
    causal, grid_ok, is_active, lemma_output_is_active, lemma_source_of_active, node_in_place,
    reads, used_edges, uses,
};
use crate::dag::node_dag::NodeDAG;
use crate::dag::renumbering::is_computational;
use crate::global_params::CgpParameters;
use crate::reorder::linspace::{linspace, spec_linspace};
use crate::standard_cgp::chromosome::genes_of;
use crate::standard_cgp::node::Node;
use crate::utils::visit_marks::{clear_marks, collect_positions, lemma_positions_with, positions_with};
use vstd::prelude::*;

verus! {

/// The genotype whose active nodes `reorder` spreads evenly over the
/// positions of the computational nodes. It is the genotype with ordered
/// positions; `reorder` spreads where the setting `cgp_type` is 1.
pub type Chromosome = crate::standard_cgp::chromosome::Chromosome;

/// The node array with every operation taken as one on two operands, so
/// that every connection counts as used.
pub open spec fn both_operands(nodes: Seq<NodeDAG>) -> Seq<NodeDAG> {
    Seq::new(nodes.len(), |p: int| NodeDAG { function_id: 0, ..nodes[p] })
}

/// A node is connected when an output node depends on it through
/// connections of any kind, used or not. Every active node is connected.
pub open spec fn is_connected(nodes: Seq<NodeDAG>, p: int) -> bool {
    is_active(both_operands(nodes), p)
}

/// For every computational node, from the first on, whether it is
/// connected.
pub open spec fn connected_marks(params: CgpParameters, nodes: Seq<NodeDAG>) -> Seq<bool> {
    Seq::new(
        params.nbr_computational_nodes as nat,
        |i: int| is_connected(nodes, params.nbr_inputs + i),
    )
}

/// The positions of the connected computational nodes, in rising order.
pub open spec fn old_active(params: CgpParameters, nodes: Seq<NodeDAG>) -> Seq<usize> {
    positions_with(connected_marks(params, nodes), true, params.nbr_inputs as int)
}

/// The positions of the other computational nodes, in rising order.
pub open spec fn old_inactive(params: CgpParameters, nodes: Seq<NodeDAG>) -> Seq<usize> {
    positions_with(connected_marks(params, nodes), false, params.nbr_inputs as int)
}

/// The positions that the connected computational nodes get: as many
/// positions, spread evenly from the first to the last position of a
/// computational node.
pub open spec fn new_active(params: CgpParameters, nodes: Seq<NodeDAG>) -> Seq<usize> {
    Seq::new(
        old_active(params, nodes).len(),
        |k: int|
            spec_linspace(
                params.nbr_inputs as int,
                params.spec_nbr_inner() - 1,
                old_active(params, nodes).len() as int,
                k,
            ) as usize,
    )
}

/// For every computational position, from the first on, whether a
/// connected node comes to stand there.
pub open spec fn taken_marks(params: CgpParameters, nodes: Seq<NodeDAG>) -> Seq<bool> {
    Seq::new(
        params.nbr_computational_nodes as nat,
        |i: int| new_active(params, nodes).contains((params.nbr_inputs + i) as usize),
    )
}

/// The positions that are left for the other computational nodes, in
/// rising order.
pub open spec fn new_inactive(params: CgpParameters, nodes: Seq<NodeDAG>) -> Seq<usize> {
    positions_with(taken_marks(params, nodes), false, params.nbr_inputs as int)
}

/// Where `position` goes when the `k`-th entry of `from` goes to the `k`-th
/// entry of `to` and every other position stays.
pub open spec fn moved_to(from: Seq<usize>, to: Seq<usize>, position: usize) -> usize {
    if from.contains(position) {
        to[from.index_of(position)]
    } else {
        position
    }
}

/// Where the node at position `p` stands after the spreading, if it is
/// connected or no computational node: the `k`-th connected computational
/// node takes the `k`-th of the new positions, and input and output nodes
/// stay.
pub open spec fn swapped_location(params: CgpParameters, nodes: Seq<NodeDAG>, p: usize) -> usize {
    moved_to(old_active(params, nodes), new_active(params, nodes), p)
}

/// `after` is the node `before` moved to position `v`, with every
/// connection that names a position before `v` kept, and every other one
/// replaced by some position before `v`.
pub open spec fn resettled(before: Node, after: Node, v: usize) -> bool {
    &&& after == (Node {
        position: v,
        connection0: after.connection0,
        connection1: after.connection1,
        ..before
    })
    &&& after.connection0 < v
    &&& after.connection1 < v
    &&& before.connection0 < v ==> after.connection0 == before.connection0
    &&& before.connection1 < v ==> after.connection1 == before.connection1
}

/// The node array `new` is `old` with the connected computational nodes
/// spread evenly: they keep their order and their genes, and every
/// connection of a connected node or an output node follows its target.
/// The other computational nodes fill the positions left, in their old
/// order, with connections that name earlier positions. Input nodes stay.
pub open spec fn is_spread(params: CgpParameters, old: Seq<Node>, new: Seq<Node>) -> bool {
    let genes = genes_of(old);
    let a = old_active(params, genes);
    let b = new_active(params, genes);
    let u = old_inactive(params, genes);
    let v = new_inactive(params, genes);
    &&& new.len() == old.len()
    &&& u.len() == v.len()
    &&& forall|q: int| 0 <= q < params.nbr_inputs ==> new[q] == old[q]
    &&& forall|k: int|
        0 <= k < a.len() ==> new[#[trigger] b[k] as int] == (Node {
            position: b[k],
            connection0: swapped_location(params, genes, old[a[k] as int].connection0),
            connection1: swapped_location(params, genes, old[a[k] as int].connection1),
            ..old[a[k] as int]
        })
    &&& forall|j: int|
        0 <= j < u.len() ==> resettled(old[u[j] as int], new[#[trigger] v[j] as int], v[j])
    &&& forall|o: int|
        params.spec_nbr_inner() <= o < old.len() ==> new[o] == (Node {
            connection0: swapped_location(params, genes, old[o].connection0),
            ..old[o]
        })
}

/// The entry of `swapped` for `position`; a number beyond the map stands
/// for itself.
pub open spec fn spec_lookup(swapped: Seq<usize>, position: usize) -> usize {
    if position < swapped.len() {
        swapped[position as int]
    } else {
        position
    }
}

/// Taking every operation as one on two operands leaves every node in
/// place.
pub proof fn lemma_both_operands_ok(params: CgpParameters, nodes: Seq<NodeDAG>)
    requires
        grid_ok(params, nodes),
    ensures
        grid_ok(params, both_operands(nodes)),
{
    let both = both_operands(nodes);
    assert forall|p: int| 0 <= p < both.len() implies node_in_place(params, #[trigger] both[p], p) by {
        assert(node_in_place(params, nodes[p], p));
    }
}

/// What a connected node has a connection to is connected.
pub proof fn lemma_connected_source(nodes: Seq<NodeDAG>, c: int, p: int)
    requires
        0 <= p < nodes.len(),
        reads(nodes[p], c),
        is_connected(nodes, p),
    ensures
        is_connected(nodes, c),
{
    let both = both_operands(nodes);
    assert(uses(both[p], c));
    assert(used_edges(both).contains((c, p)));
    lemma_source_of_active(both, c, p);
}

/// Whether `x` is one of the first `k` entries of `s`.
spec fn among(s: Seq<usize>, k: int, x: int) -> bool {
    exists|i: int| 0 <= i < k && #[trigger] s[i] == x
}

/// Nothing is among no entries.
proof fn lemma_among_none(s: Seq<usize>)
    ensures
        forall|x: int| !#[trigger] among(s, 0, x),
{
}

/// One entry more adds that entry.
proof fn lemma_among_next(s: Seq<usize>, k: int)
    requires
        0 <= k < s.len(),
    ensures
        forall|x: int| #[trigger] among(s, k + 1, x) <==> among(s, k, x) || s[k] == x,
{
    assert forall|x: int| #[trigger] among(s, k + 1, x) <==> among(s, k, x) || s[k] == x by {
        if among(s, k + 1, x) {
            let i = choose|i: int| 0 <= i < k + 1 && #[trigger] s[i] == x;
            if i < k {
                assert(among(s, k, x));
            }
        }
        if among(s, k, x) {
            let i = choose|i: int| 0 <= i < k && #[trigger] s[i] == x;
            assert(0 <= i < k + 1 && s[i] == x);
        }
        if s[k] == x {
            assert(0 <= k < k + 1 && s[k] == x);
        }
    }
}

/// What is among all entries is what the sequence holds.
proof fn lemma_among_all(s: Seq<usize>)
    ensures
        forall|x: int| 0 <= x <= usize::MAX ==> (#[trigger] among(s, s.len() as int, x) <==> s.contains(
            x as usize,
        )),
{
    assert forall|x: int| 0 <= x <= usize::MAX implies (#[trigger] among(s, s.len() as int, x)
        <==> s.contains(x as usize)) by {
        if among(s, s.len() as int, x) {
            let i = choose|i: int| 0 <= i < s.len() && #[trigger] s[i] == x;
            assert(s[i] == x as usize);
        }
        if s.contains(x as usize) {
            let i = choose|i: int| 0 <= i < s.len() && s[i] == x as usize;
            assert(0 <= i < s.len() && s[i] == x);
        }
    }
}

/// Looks `connection` up in `swapped`; a number beyond the map stands for
/// itself.
fn lookup(swapped: &Vec<usize>, connection: usize) -> (found: usize)
    ensures
        found == spec_lookup(swapped@, connection),
{
    if connection < swapped.len() {
        swapped[connection]
    } else {
        connection
    }
}

/// Sends both connections of the node at `node_id` through `swapped`.
fn update_connections(new_nodes_grid: &mut Vec<Node>, node_id: usize, swapped: &Vec<usize>)
    requires
        node_id < old(new_nodes_grid)@.len(),
    ensures
        final(new_nodes_grid)@ == old(new_nodes_grid)@.update(
            node_id as int,
            Node {
                connection0: spec_lookup(swapped@, old(new_nodes_grid)@[node_id as int].connection0),
                connection1: spec_lookup(swapped@, old(new_nodes_grid)@[node_id as int].connection1),
                ..old(new_nodes_grid)@[node_id as int]
            },
        ),
{
    let mut node = new_nodes_grid[node_id];
    node.connection0 = lookup(swapped, node.connection0);
    node.connection1 = lookup(swapped, node.connection1);
    new_nodes_grid[node_id] = node;
}

/// Puts the node of `nodes` at `from[k]` to the position `to[k]` of
/// `new_nodes_grid`, for every `k`, and notes the move in `swapped`.
fn place_active(
    nodes: &Vec<Node>,
    new_nodes_grid: &mut Vec<Node>,
    swapped: &mut Vec<usize>,
    from: &Vec<usize>,
    to: &Vec<usize>,
)
    requires
        old(new_nodes_grid)@ == nodes@,
        old(swapped)@.len() == nodes@.len(),
        forall|p: int| 0 <= p < nodes@.len() ==> old(swapped)@[p] == p,
        from@.len() == to@.len(),
        forall|k: int| 0 <= k < from@.len() ==> from@[k] < nodes@.len(),
        forall|k: int| 0 <= k < to@.len() ==> (#[trigger] to@[k]) >= 1 && to@[k] < nodes@.len(),
        forall|i: int, j: int| 0 <= i < j < from@.len() ==> from@[i] < from@[j],
        forall|i: int, j: int| 0 <= i < j < to@.len() ==> to@[i] < to@[j],
    ensures
        final(new_nodes_grid)@.len() == nodes@.len(),
        final(swapped)@.len() == nodes@.len(),
        forall|k: int|
            0 <= k < to@.len() ==> final(new_nodes_grid)@[#[trigger] to@[k] as int] == (Node {
                position: to@[k],
                ..nodes@[from@[k] as int]
            }),
        forall|q: int|
            0 <= q < nodes@.len() && !to@.contains(q as usize) ==> final(new_nodes_grid)@[q]
                == nodes@[q],
        forall|k: int| 0 <= k < from@.len() ==> final(swapped)@[#[trigger] from@[k] as int] == to@[k],
        forall|p: int|
            0 <= p < nodes@.len() && !from@.contains(p as usize) ==> final(swapped)@[p] == p,
{
    let mut k: usize = 0;
    proof {
        lemma_among_none(to@);
        lemma_among_none(from@);
    }
    while k < from.len()
        invariant
            from@.len() == to@.len(),
            forall|i: int| 0 <= i < from@.len() ==> from@[i] < nodes@.len(),
            forall|i: int| 0 <= i < to@.len() ==> (#[trigger] to@[i]) >= 1 && to@[i] < nodes@.len(),
            forall|i: int, j: int| 0 <= i < j < from@.len() ==> from@[i] < from@[j],
            forall|i: int, j: int| 0 <= i < j < to@.len() ==> to@[i] < to@[j],
            k <= from@.len(),
            new_nodes_grid@.len() == nodes@.len(),
            swapped@.len() == nodes@.len(),
            forall|i: int|
                0 <= i < k ==> new_nodes_grid@[#[trigger] to@[i] as int] == (Node {
                    position: to@[i],
                    ..nodes@[from@[i] as int]
                }),
            forall|q: int|
                0 <= q < nodes@.len() && !among(to@, k as int, q) ==> new_nodes_grid@[q]
                    == nodes@[q],
            forall|i: int| 0 <= i < k ==> swapped@[#[trigger] from@[i] as int] == to@[i],
            forall|p: int| 0 <= p < nodes@.len() && !among(from@, k as int, p) ==> swapped@[p] == p,
        decreases from@.len() - k,
    {
        let old_node_id = from[k];
        let new_node_id = to[k];
        let mut node = nodes[old_node_id];
        node.set_new_position(new_node_id, false);
        proof {
            lemma_among_next(to@, k as int);
            lemma_among_next(from@, k as int);
        }
        new_nodes_grid[new_node_id] = node;
        swapped[old_node_id] = new_node_id;
        k += 1;
    }
    proof {
        lemma_among_all(to@);
        lemma_among_all(from@);
    }
}

/// Puts the node of `nodes` at `from[j]` to the position `to[j]` of
/// `new_nodes_grid`, for every `j`, and redraws each of its connections
/// that does not name a position before the new one.
fn place_inactive(
    nodes: &Vec<Node>,
    new_nodes_grid: &mut Vec<Node>,
    from: &Vec<usize>,
    to: &Vec<usize>,
)
    requires
        old(new_nodes_grid)@.len() == nodes@.len(),
        from@.len() == to@.len(),
        forall|j: int| 0 <= j < from@.len() ==> from@[j] < nodes@.len(),
        forall|j: int| 0 <= j < to@.len() ==> (#[trigger] to@[j]) >= 1 && to@[j] < nodes@.len(),
        forall|i: int, j: int| 0 <= i < j < to@.len() ==> to@[i] < to@[j],
    ensures
        final(new_nodes_grid)@.len() == nodes@.len(),
        forall|j: int|
            0 <= j < to@.len() ==> resettled(
                nodes@[from@[j] as int],
                final(new_nodes_grid)@[#[trigger] to@[j] as int],
                to@[j],
            ),
        forall|q: int|
            0 <= q < nodes@.len() && !to@.contains(q as usize) ==> final(new_nodes_grid)@[q]
                == old(new_nodes_grid)@[q],
{
    let mut j: usize = 0;
    proof {
        lemma_among_none(to@);
    }
    while j < from.len()
        invariant
            from@.len() == to@.len(),
            forall|i: int| 0 <= i < from@.len() ==> from@[i] < nodes@.len(),
            forall|i: int| 0 <= i < to@.len() ==> (#[trigger] to@[i]) >= 1 && to@[i] < nodes@.len(),
            forall|i: int, k: int| 0 <= i < k < to@.len() ==> to@[i] < to@[k],
            j <= from@.len(),
            new_nodes_grid@.len() == nodes@.len(),
            forall|i: int|
                0 <= i < j ==> resettled(
                    nodes@[from@[i] as int],
                    new_nodes_grid@[#[trigger] to@[i] as int],
                    to@[i],
                ),
            forall|q: int|
                0 <= q < nodes@.len() && !among(to@, j as int, q) ==> new_nodes_grid@[q]
                    == old(new_nodes_grid)@[q],
        decreases from@.len() - j,
    {
        let old_node_id = from[j];
        let new_node_id = to[j];
        let mut node = nodes[old_node_id];
        node.set_new_position(new_node_id, true);
        proof {
            lemma_among_next(to@, j as int);
        }
        new_nodes_grid[new_node_id] = node;
        j += 1;
    }
    proof {
        lemma_among_all(to@);
    }
}

/// What is known of the four lists of positions that the spreading works
/// with.
pub proof fn lemma_spread_lists(params: CgpParameters, nodes: Seq<NodeDAG>)
    requires
        grid_ok(params, nodes),
    ensures
        old_active(params, nodes).len() + old_inactive(params, nodes).len()
            == params.nbr_computational_nodes,
        new_active(params, nodes).len() == old_active(params, nodes).len(),
        new_inactive(params, nodes).len() == old_inactive(params, nodes).len(),
        forall|i: int, j: int|
            0 <= i < j < old_active(params, nodes).len() ==> old_active(params, nodes)[i]
                < old_active(params, nodes)[j],
        forall|i: int, j: int|
            0 <= i < j < new_active(params, nodes).len() ==> new_active(params, nodes)[i]
                < new_active(params, nodes)[j],
        forall|i: int, j: int|
            0 <= i < j < new_inactive(params, nodes).len() ==> new_inactive(params, nodes)[i]
                < new_inactive(params, nodes)[j],
        forall|p: usize| #[trigger]
            old_active(params, nodes).contains(p) <==> params.nbr_inputs <= p
                < params.spec_nbr_inner() && is_connected(nodes, p as int),
        forall|p: usize| #[trigger]
            old_inactive(params, nodes).contains(p) <==> params.nbr_inputs <= p
                < params.spec_nbr_inner() && !is_connected(nodes, p as int),
        forall|p: usize| #[trigger]
            new_inactive(params, nodes).contains(p) <==> params.nbr_inputs <= p
                < params.spec_nbr_inner() && !new_active(params, nodes).contains(p),
        forall|k: int|
            0 <= k < new_active(params, nodes).len() ==> params.nbr_inputs <= (
            #[trigger] new_active(params, nodes)[k]) < params.spec_nbr_inner(),
{
    let lo = params.nbr_inputs as int;
    let hi = params.spec_nbr_inner();
    let cm = connected_marks(params, nodes);
    let a = old_active(params, nodes);
    let b = new_active(params, nodes);
    let taken = taken_marks(params, nodes);
    lemma_positions_with(cm, true, lo);
    lemma_positions_with(cm, false, lo);
    lemma_positions_with(taken, false, lo);
    lemma_positions_with(taken, true, lo);
    let n = a.len() as int;
    assert forall|k: int| 0 <= k < b.len() implies lo <= (#[trigger] b[k]) < hi by {
        crate::reorder::linspace::lemma_linspace_range(lo, hi - 1, n, k);
    }
    assert forall|i: int, j: int| 0 <= i < j < b.len() implies b[i] < b[j] by {
        crate::reorder::linspace::lemma_linspace_range(lo, hi - 1, n, i);
        crate::reorder::linspace::lemma_linspace_range(lo, hi - 1, n, j);
        crate::reorder::linspace::lemma_linspace_rises(lo, hi - 1, n, i, j);
    }
    // the positions taken are exactly those of `b`, so as many are left as
    // there are unconnected computational nodes
    let t = positions_with(taken, true, lo);
    assert forall|p: usize| #[trigger] t.contains(p) <==> b.contains(p) by {
        if b.contains(p) {
            let k = choose|k: int| 0 <= k < b.len() && b[k] == p;
            assert(lo <= b[k] < hi);
            assert(taken[p - lo]);
        }
    }
    crate::dag::genotype::lemma_rising_with_same_members(t, b);
}

/// Spreading keeps a genotype valid: afterwards every node is in place,
/// and every connection names an earlier position.
pub proof fn lemma_spread_ok(params: CgpParameters, old: Seq<Node>, new: Seq<Node>)
    requires
        grid_ok(params, genes_of(old)),
        causal(genes_of(old)),
        is_spread(params, old, new),
    ensures
        grid_ok(params, genes_of(new)),
        causal(genes_of(new)),
{
    let genes = genes_of(old);
    let fresh = genes_of(new);
    let a = old_active(params, genes);
    let b = new_active(params, genes);
    let u = old_inactive(params, genes);
    let v = new_inactive(params, genes);
    let lo = params.nbr_inputs as int;
    let hi = params.spec_nbr_inner();
    lemma_spread_lists(params, genes);
    assert forall|c: usize, p: int|
        0 <= p < old.len() && reads(genes[p], c as int) && (p >= hi || a.contains(
            p as usize,
        )) implies swapped_location(params, genes, c) < hi && (p < hi ==> swapped_location(
        params,
        genes,
        c,
    ) < swapped_location(params, genes, p as usize)) by {
        assert(node_in_place(params, genes[p], p));
        if p >= hi {
            lemma_output_is_active(both_operands(genes), p);
        }
        lemma_connected_source(genes, c as int, p);
        if a.contains(c) {
            let i = a.index_of(c);
            if p < hi {
                let k = a.index_of(p as usize);
                if i >= k {
                    if i > k {
                        assert(a[k] < a[i]);
                    }
                }
            }
        }
    }
    assert forall|q: int| 0 <= q < fresh.len() implies node_in_place(params, #[trigger] fresh[q], q)
        && (forall|c: int| reads(fresh[q], c) ==> c < q) by {
        if q < lo {
            assert(node_in_place(params, genes[q], q));
        } else if q >= hi {
            assert(node_in_place(params, genes[q], q));
            assert(reads(genes[q], old[q].connection0 as int));
        } else if b.contains(q as usize) {
            let k = choose|k: int| 0 <= k < b.len() && b[k] == q as usize;
            let p = a[k];
            assert(a.contains(p));
            assert(node_in_place(params, genes[p as int], p as int));
            assert(reads(genes[p as int], old[p as int].connection0 as int));
            assert(reads(genes[p as int], old[p as int].connection1 as int));
            crate::dag::renumbering::lemma_index_of_entry(a, k);
            assert(new[b[k] as int].position == q);
        } else {
            assert(v.contains(q as usize));
            let j = choose|j: int| 0 <= j < v.len() && v[j] == q as usize;
            let p = u[j];
            assert(u.contains(p));
            assert(node_in_place(params, genes[p as int], p as int));
            assert(resettled(old[p as int], new[v[j] as int], v[j]));
        }
    }
}

/// Spreading changes no value that counts: for every row of boolean
/// inputs, an input node, an output node or a connected computational node
/// has at its new position the value that it had before.
pub proof fn lemma_spread_keeps_values(
    params: CgpParameters,
    old: Seq<Node>,
    new: Seq<Node>,
    row: Seq<bool>,
    p: usize,
    fuel: nat,
)
    requires
        grid_ok(params, genes_of(old)),
        causal(genes_of(old)),
        is_spread(params, old, new),
        p < old.len(),
        !is_computational(params, p as int) || is_connected(genes_of(old), p as int),
    ensures
        node_value(genes_of(new), row, swapped_location(params, genes_of(old), p) as int, fuel)
            == node_value(genes_of(old), row, p as int, fuel),
    decreases fuel,
{
    if fuel > 0 {
        let genes = genes_of(old);
        let fresh = genes_of(new);
        let a = old_active(params, genes);
        let b = new_active(params, genes);
        let rest = (fuel - 1) as nat;
        lemma_spread_lists(params, genes);
        assert(node_in_place(params, genes[p as int], p as int));
        if !is_computational(params, p as int) {
            assert(!a.contains(p));
            if p >= params.spec_nbr_inner() {
                let c0 = old[p as int].connection0;
                lemma_output_is_active(both_operands(genes), p as int);
                assert(reads(genes[p as int], c0 as int));
                lemma_connected_source(genes, c0 as int, p as int);
                lemma_spread_keeps_values(params, old, new, row, c0, rest);
            }
        } else {
            assert(a.contains(p));
            let k = a.index_of(p);
            let q = b[k];
            assert(fresh[q as int] == new[q as int].genes());
            let c0 = old[p as int].connection0;
            let c1 = old[p as int].connection1;
            assert(reads(genes[p as int], c0 as int));
            assert(reads(genes[p as int], c1 as int));
            lemma_connected_source(genes, c0 as int, p as int);
            lemma_connected_source(genes, c1 as int, p as int);
            lemma_spread_keeps_values(params, old, new, row, c0, rest);
            lemma_spread_keeps_values(params, old, new, row, c1, rest);
        }
    }
}

/// Spreading changes nothing of what a genotype computes: the output nodes
/// have the same values for all boolean inputs.
pub proof fn lemma_spread_keeps_predictions(
    params: CgpParameters,
    old: Seq<Node>,
    new: Seq<Node>,
    inputs: Seq<Seq<bool>>,
)
    requires
        grid_ok(params, genes_of(old)),
        causal(genes_of(old)),
        is_spread(params, old, new),
    ensures
        predictions(
            genes_of(new),
            inputs,
            params.spec_nbr_inner(),
            params.nbr_outputs as nat,
        ) == predictions(
            genes_of(old),
            inputs,
            params.spec_nbr_inner(),
            params.nbr_outputs as nat,
        ),
{
    let first = params.spec_nbr_inner();
    let genes = genes_of(old);
    let before = predictions(genes, inputs, first, params.nbr_outputs as nat);
    let after = predictions(genes_of(new), inputs, first, params.nbr_outputs as nat);
    lemma_spread_lists(params, genes);
    assert forall|r: int| 0 <= r < inputs.len() implies after[r] == before[r] by {
        assert forall|k: int| 0 <= k < params.nbr_outputs implies after[r][k] == before[r][k] by {
            let o = (first + k) as usize;
            assert(!old_active(params, genes).contains(o));
            lemma_spread_keeps_values(params, old, new, inputs[r], o, old.len());
        }
        assert(after[r] =~= before[r]);
    }
    assert(after =~= before);
}

impl Chromosome {
    /// For every computational node, from the first on, whether an output
    /// node depends on it through connections of any kind.
    pub fn connected_computational(&self) -> (marks: Vec<bool>)
        requires
            self.structure_ok(),
        ensures
            marks@ == connected_marks(self.params, self.genes()),
    {
        let nbr_inputs = self.params.nbr_inputs;
        let nbr_inner = self.params.nbr_inputs + self.params.nbr_computational_nodes;
        let mut both: Vec<NodeDAG> = Vec::new();
        let mut p: usize = 0;
        while p < self.nodes_grid.len()
            invariant
                p <= self.nodes_grid@.len(),
                both@.len() == p,
                forall|q: int|
                    0 <= q < p ==> both@[q] == (NodeDAG {
                        function_id: 0,
                        ..self.nodes_grid@[q].genes()
                    }),
            decreases self.nodes_grid@.len() - p,
        {
            let mut genes = self.nodes_grid[p].to_dag();
            genes.function_id = 0;
            both.push(genes);
            p += 1;
        }
        proof {
            assert(both@ =~= both_operands(self.genes()));
            lemma_both_operands_ok(self.params, self.genes());
        }
        let all = active_marks(&self.params, &both);
        let mut marks: Vec<bool> = Vec::new();
        let mut position: usize = nbr_inputs;
        while position < nbr_inner
            invariant
                self.structure_ok(),
                nbr_inputs == self.params.nbr_inputs,
                nbr_inner == self.params.spec_nbr_inner(),
                nbr_inputs <= position <= nbr_inner,
                all@.len() == self.nodes_grid@.len(),
                forall|q: int| 0 <= q < all@.len() ==> (all@[q] <==> is_connected(self.genes(), q)),
                marks@.len() == position - nbr_inputs,
                forall|i: int|
                    0 <= i < marks@.len() ==> marks@[i] == is_connected(
                        self.genes(),
                        nbr_inputs + i,
                    ),
            decreases nbr_inner - position,
        {
            marks.push(all[position]);
            position += 1;
        }
        proof {
            assert(marks@ =~= connected_marks(self.params, self.genes()));
        }
        marks
    }

    /// Spreads the connected computational nodes evenly over the positions
    /// of the computational nodes. They keep their order and what they
    /// compute; the other computational nodes fill the gaps, with the
    /// connections that no longer name an earlier position redrawn. Then
    /// the list of active nodes is computed anew, unless no computational
    /// node is connected: then nothing changes.
    pub fn reorder_equidistant(&mut self)
        requires
            old(self).wf(),
        ensures
            final(self).wf(),
            final(self).params == old(self).params,
            final(self).output_node_ids == old(self).output_node_ids,
            is_spread(old(self).params, old(self).nodes_grid@, final(self).nodes_grid@),
            old_active(old(self).params, old(self).genes()).len() == 0 ==> *final(self) == *old(self),
    {
        let marks = self.connected_computational();
        let c_active_nodes = collect_positions(&marks, true, self.params.nbr_inputs);
        if c_active_nodes.len() == 0 {
            proof {
                let params = self.params;
                let genes = self.genes();
                let lo = params.nbr_inputs as int;
                lemma_spread_lists(params, genes);
                lemma_positions_with(marks@, true, lo);
                assert(taken_marks(params, genes) =~= marks@) by {
                    assert forall|i: int| 0 <= i < marks@.len() implies !marks@[i] by {
                        if marks@[i] {
                            assert(old_active(params, genes).contains((lo + i) as usize));
                        }
                    }
                }
                let u = old_inactive(params, genes);
                assert forall|j: int| 0 <= j < u.len() implies resettled(
                    self.nodes_grid@[u[j] as int],
                    self.nodes_grid@[#[trigger] u[j] as int],
                    u[j],
                ) by {
                    assert(u.contains(u[j]));
                    let p = u[j] as int;
                    assert(node_in_place(params, genes[p], p));
                    assert(reads(genes[p], self.nodes_grid@[p].connection0 as int));
                    assert(reads(genes[p], self.nodes_grid@[p].connection1 as int));
                }
            }
            return ;
        }
        self.swap_nodes(&c_active_nodes, &marks);
    }

    /// Moves the connected computational nodes, whose positions are
    /// `c_active_nodes`, to evenly spread positions and the others to the
    /// positions left, and computes the list of active nodes anew.
    fn swap_nodes(&mut self, c_active_nodes: &Vec<usize>, marks: &Vec<bool>)
        requires
            old(self).wf(),
            marks@ == connected_marks(old(self).params, old(self).genes()),
            c_active_nodes@ == old_active(old(self).params, old(self).genes()),
        ensures
            final(self).wf(),
            final(self).params == old(self).params,
            final(self).output_node_ids == old(self).output_node_ids,
            is_spread(old(self).params, old(self).nodes_grid@, final(self).nodes_grid@),
    {
        let nbr_inputs = self.params.nbr_inputs;
        let nbr_computational = self.params.nbr_computational_nodes;
        let nbr_inner = nbr_inputs + nbr_computational;
        let ghost params = self.params;
        let ghost nodes = self.nodes_grid@;
        let ghost genes = self.genes();
        proof {
            lemma_spread_lists(params, genes);
        }
        let new_pos_active = linspace(nbr_inputs, nbr_inner - 1, c_active_nodes.len());
        proof {
            assert(new_pos_active@ =~= new_active(params, genes));
        }
        let old_pos_inactive = collect_positions(marks, false, nbr_inputs);
        let taken = mark_taken(&new_pos_active, nbr_inputs, nbr_computational);
        proof {
            assert(taken@ =~= taken_marks(params, genes));
        }
        let new_pos_inactive = collect_positions(&taken, false, nbr_inputs);
        proof {
            assert forall|k: int, j: int|
                0 <= k < new_pos_active@.len() && 0 <= j < new_pos_inactive@.len()
                    implies new_pos_active@[k] != new_pos_inactive@[j] by {
                assert(new_pos_active@.contains(new_pos_active@[k]));
                assert(new_pos_inactive@.contains(new_pos_inactive@[j]));
            }
            assert forall|j: int| 0 <= j < old_pos_inactive@.len() implies (
            #[trigger] old_pos_inactive@[j]) < nodes.len() by {
                assert(old_pos_inactive@.contains(old_pos_inactive@[j]));
            }
            assert forall|j: int| 0 <= j < new_pos_inactive@.len() implies (
            #[trigger] new_pos_inactive@[j]) >= 1 && new_pos_inactive@[j] < nbr_inner by {
                assert(new_pos_inactive@.contains(new_pos_inactive@[j]));
            }
            assert forall|k: int| 0 <= k < c_active_nodes@.len() implies (
            #[trigger] c_active_nodes@[k]) < nodes.len() by {
                assert(c_active_nodes@.contains(c_active_nodes@[k]));
            }
        }
        let new_nodes_grid = spread_grid(
            &self.nodes_grid,
            nbr_inner,
            c_active_nodes,
            &new_pos_active,
            &old_pos_inactive,
            &new_pos_inactive,
        );
        proof {
            lemma_built_is_spread(params, nodes, new_nodes_grid@);
            lemma_spread_ok(params, nodes, new_nodes_grid@);
        }
        self.nodes_grid = new_nodes_grid;
        self.active_nodes = None;
        self.get_active_nodes_id();
    }
}

/// What `spread_grid` builds from the four lists of positions.
spec fn is_built(
    nodes: Seq<Node>,
    nbr_inner: int,
    a: Seq<usize>,
    b: Seq<usize>,
    u: Seq<usize>,
    v: Seq<usize>,
    new: Seq<Node>,
) -> bool {
    &&& new.len() == nodes.len()
    &&& forall|k: int|
        0 <= k < b.len() ==> new[#[trigger] b[k] as int] == (Node {
            position: b[k],
            connection0: moved_to(a, b, nodes[a[k] as int].connection0),
            connection1: moved_to(a, b, nodes[a[k] as int].connection1),
            ..nodes[a[k] as int]
        })
    &&& forall|j: int|
        0 <= j < v.len() ==> resettled(nodes[u[j] as int], new[#[trigger] v[j] as int], v[j])
    &&& forall|q: int|
        nbr_inner <= q < nodes.len() ==> (#[trigger] new[q]) == (Node {
            connection0: moved_to(a, b, nodes[q].connection0),
            connection1: moved_to(a, b, nodes[q].connection1),
            ..nodes[q]
        })
    &&& forall|q: int|
        0 <= q < nbr_inner && q < nodes.len() && !b.contains(q as usize) && !v.contains(
            q as usize,
        ) ==> (#[trigger] new[q]) == nodes[q]
}

/// What is built from the four lists of the spreading is the spread node
/// array.
proof fn lemma_built_is_spread(params: CgpParameters, nodes: Seq<Node>, new: Seq<Node>)
    requires
        grid_ok(params, genes_of(nodes)),
        is_built(
            nodes,
            params.spec_nbr_inner(),
            old_active(params, genes_of(nodes)),
            new_active(params, genes_of(nodes)),
            old_inactive(params, genes_of(nodes)),
            new_inactive(params, genes_of(nodes)),
            new,
        ),
    ensures
        is_spread(params, nodes, new),
{
    let genes = genes_of(nodes);
    let a = old_active(params, genes);
    let b = new_active(params, genes);
    let u = old_inactive(params, genes);
    let v = new_inactive(params, genes);
    lemma_spread_lists(params, genes);
    assert forall|q: int| 0 <= q < params.nbr_inputs implies new[q] == nodes[q] by {
        if b.contains(q as usize) {
            let i = choose|i: int| 0 <= i < b.len() && b[i] == q as usize;
            assert(params.nbr_inputs <= b[i]);
        }
        assert(!v.contains(q as usize));
    }
    assert forall|o: int| params.spec_nbr_inner() <= o < nodes.len() implies new[o] == (Node {
        connection0: swapped_location(params, genes, nodes[o].connection0),
        ..nodes[o]
    }) by {
        assert(node_in_place(params, genes[o], o));
        assert(!a.contains(nodes[o].connection1));
    }
}

/// For every computational position, from the first on, whether it is one
/// of `positions`.
fn mark_taken(positions: &Vec<usize>, nbr_inputs: usize, nbr_computational: usize) -> (taken: Vec<
    bool,
>)
    requires
        nbr_inputs + nbr_computational <= usize::MAX,
        forall|i: int|
            0 <= i < positions@.len() ==> nbr_inputs <= (#[trigger] positions@[i]) < nbr_inputs
                + nbr_computational,
    ensures
        taken@.len() == nbr_computational,
        forall|i: int|
            0 <= i < nbr_computational ==> taken@[i] == positions@.contains((nbr_inputs + i) as usize),
{
    let mut taken = clear_marks(nbr_computational);
    let mut k: usize = 0;
    proof {
        lemma_among_none(positions@);
    }
    while k < positions.len()
        invariant
            nbr_inputs + nbr_computational <= usize::MAX,
            taken@.len() == nbr_computational,
            k <= positions@.len(),
            forall|i: int|
                0 <= i < positions@.len() ==> nbr_inputs <= (#[trigger] positions@[i]) < nbr_inputs
                    + nbr_computational,
            forall|i: int|
                0 <= i < taken@.len() ==> taken@[i] == among(positions@, k as int, nbr_inputs + i),
        decreases positions@.len() - k,
    {
        proof {
            lemma_among_next(positions@, k as int);
        }
        taken[positions[k] - nbr_inputs] = true;
        k += 1;
    }
    proof {
        lemma_among_all(positions@);
    }
    taken
}

/// The map on positions that sends `from[k]` to `to[k]` and leaves every
/// other position where it is.
fn identity_map(size: usize) -> (map: Vec<usize>)
    ensures
        map@.len() == size,
        forall|p: int| 0 <= p < size ==> map@[p] == p,
{
    crate::utils::utility_funcs::position_range(0, size)
}

/// Sends both connections of every node at one of `positions`, and of
/// every node from `nbr_inner` on, through `swapped`.
fn link_connections(
    new_nodes_grid: &mut Vec<Node>,
    positions: &Vec<usize>,
    swapped: &Vec<usize>,
    nbr_inner: usize,
)
    requires
        nbr_inner <= old(new_nodes_grid)@.len(),
        forall|i: int| 0 <= i < positions@.len() ==> (#[trigger] positions@[i]) < nbr_inner,
        forall|i: int, j: int| 0 <= i < j < positions@.len() ==> positions@[i] < positions@[j],
    ensures
        final(new_nodes_grid)@.len() == old(new_nodes_grid)@.len(),
        forall|q: int|
            0 <= q < old(new_nodes_grid)@.len() ==> (#[trigger] final(new_nodes_grid)@[q]) == (if q
                >= nbr_inner || positions@.contains(q as usize) {
                Node {
                    connection0: spec_lookup(swapped@, old(new_nodes_grid)@[q].connection0),
                    connection1: spec_lookup(swapped@, old(new_nodes_grid)@[q].connection1),
                    ..old(new_nodes_grid)@[q]
                }
            } else {
                old(new_nodes_grid)@[q]
            }),
{
    let nbr_nodes = new_nodes_grid.len();
    let ghost placed = new_nodes_grid@;
    let mut k: usize = 0;
    proof {
        lemma_among_none(positions@);
    }
    while k < positions.len()
        invariant
            k <= positions@.len(),
            nbr_inner <= nbr_nodes,
            new_nodes_grid@.len() == nbr_nodes,
            placed.len() == nbr_nodes,
            forall|i: int| 0 <= i < positions@.len() ==> (#[trigger] positions@[i]) < nbr_inner,
            forall|i: int, j: int| 0 <= i < j < positions@.len() ==> positions@[i] < positions@[j],
            forall|q: int|
                0 <= q < nbr_nodes ==> (#[trigger] new_nodes_grid@[q]) == (if among(
                    positions@,
                    k as int,
                    q,
                ) {
                    Node {
                        connection0: spec_lookup(swapped@, placed[q].connection0),
                        connection1: spec_lookup(swapped@, placed[q].connection1),
                        ..placed[q]
                    }
                } else {
                    placed[q]
                }),
        decreases positions@.len() - k,
    {
        proof {
            lemma_among_next(positions@, k as int);
            if among(positions@, k as int, positions@[k as int] as int) {
                lemma_among_witness(positions@, k as int, positions@[k as int] as int);
            }
        }
        update_connections(new_nodes_grid, positions[k], swapped);
        k += 1;
    }
    proof {
        lemma_among_all(positions@);
    }
    let ghost linked = new_nodes_grid@;
    let mut node_id: usize = nbr_inner;
    while node_id < nbr_nodes
        invariant
            nbr_inner <= node_id <= nbr_nodes,
            new_nodes_grid@.len() == nbr_nodes,
            linked.len() == nbr_nodes,
            forall|q: int|
                0 <= q < nbr_nodes ==> (#[trigger] new_nodes_grid@[q]) == (if nbr_inner <= q
                    < node_id {
                    Node {
                        connection0: spec_lookup(swapped@, linked[q].connection0),
                        connection1: spec_lookup(swapped@, linked[q].connection1),
                        ..linked[q]
                    }
                } else {
                    linked[q]
                }),
        decreases nbr_nodes - node_id,
    {
        update_connections(new_nodes_grid, node_id, swapped);
        node_id += 1;
    }
    proof {
        assert forall|q: usize| #[trigger] positions@.contains(q) implies q < nbr_inner by {
            let i = choose|i: int| 0 <= i < positions@.len() && positions@[i] == q;
            assert(positions@[i] < nbr_inner);
        }
    }
}

/// The node array in which the node of `nodes` at `a[k]` stands at `b[k]`
/// and the node at `u[j]` at `v[j]`, with the connections of the former and
/// of the nodes from `nbr_inner` on following the moves from `a` to `b`.
fn spread_grid(
    nodes: &Vec<Node>,
    nbr_inner: usize,
    a: &Vec<usize>,
    b: &Vec<usize>,
    u: &Vec<usize>,
    v: &Vec<usize>,
) -> (new_nodes_grid: Vec<Node>)
    requires
        nbr_inner <= nodes@.len(),
        a@.len() == b@.len(),
        u@.len() == v@.len(),
        forall|k: int| 0 <= k < a@.len() ==> (#[trigger] a@[k]) < nodes@.len(),
        forall|j: int| 0 <= j < u@.len() ==> (#[trigger] u@[j]) < nodes@.len(),
        forall|k: int| 0 <= k < b@.len() ==> (#[trigger] b@[k]) >= 1 && b@[k] < nbr_inner,
        forall|j: int| 0 <= j < v@.len() ==> (#[trigger] v@[j]) >= 1 && v@[j] < nbr_inner,
        forall|i: int, j: int| 0 <= i < j < a@.len() ==> a@[i] < a@[j],
        forall|i: int, j: int| 0 <= i < j < b@.len() ==> b@[i] < b@[j],
        forall|i: int, j: int| 0 <= i < j < v@.len() ==> v@[i] < v@[j],
        forall|k: int, j: int| 0 <= k < b@.len() && 0 <= j < v@.len() ==> b@[k] != v@[j],
    ensures
        is_built(nodes@, nbr_inner as int, a@, b@, u@, v@, new_nodes_grid@),
{
    let mut swapped_pos_indices = identity_map(nodes.len());
    let mut new_nodes_grid = copy_nodes(nodes);
    place_active(nodes, &mut new_nodes_grid, &mut swapped_pos_indices, a, b);
    let ghost with_active = new_nodes_grid@;
    place_inactive(nodes, &mut new_nodes_grid, u, v);
    let ghost placed = new_nodes_grid@;
    proof {
        assert forall|c: usize| spec_lookup(swapped_pos_indices@, c) == #[trigger] moved_to(
            a@,
            b@,
            c,
        ) by {
            if a@.contains(c) {
                let i = choose|i: int| 0 <= i < a@.len() && a@[i] == c;
                crate::dag::renumbering::lemma_index_of_entry(a@, i);
            }
        }
        assert forall|k: int| 0 <= k < b@.len() implies placed[#[trigger] b@[k] as int] == (Node {
            position: b@[k],
            ..nodes@[a@[k] as int]
        }) by {
            if v@.contains(b@[k]) {
                let j = choose|j: int| 0 <= j < v@.len() && v@[j] == b@[k];
                assert(b@[k] != v@[j]);
            }
        }
        assert forall|j: int| 0 <= j < v@.len() implies !b@.contains(#[trigger] v@[j]) by {
            if b@.contains(v@[j]) {
                let k = choose|k: int| 0 <= k < b@.len() && b@[k] == v@[j];
                assert(b@[k] != v@[j]);
            }
        }
    }
    link_connections(&mut new_nodes_grid, b, &swapped_pos_indices, nbr_inner);
    proof {
        let new = new_nodes_grid@;
        assert forall|k: int| 0 <= k < b@.len() implies new[#[trigger] b@[k] as int] == (Node {
            position: b@[k],
            connection0: moved_to(a@, b@, nodes@[a@[k] as int].connection0),
            connection1: moved_to(a@, b@, nodes@[a@[k] as int].connection1),
            ..nodes@[a@[k] as int]
        }) by {
            assert(b@.contains(b@[k]));
        }
        assert forall|q: int|
            0 <= q < nbr_inner && q < nodes@.len() && !b@.contains(q as usize) && !v@.contains(
                q as usize,
            ) implies (#[trigger] new[q]) == nodes@[q] by {
            assert(placed[q] == with_active[q]);
        }
        assert forall|q: int| nbr_inner <= q < nodes@.len() implies (#[trigger] new[q]) == (Node {
            connection0: moved_to(a@, b@, nodes@[q].connection0),
            connection1: moved_to(a@, b@, nodes@[q].connection1),
            ..nodes@[q]
        }) by {
            if b@.contains(q as usize) {
                let k = choose|k: int| 0 <= k < b@.len() && b@[k] == q as usize;
                assert(b@[k] < nbr_inner);
            }
            if v@.contains(q as usize) {
                let j = choose|j: int| 0 <= j < v@.len() && v@[j] == q as usize;
                assert(v@[j] < nbr_inner);
            }
            assert(placed[q] == with_active[q]);
        }
    }
    new_nodes_grid
}

/// A witness for `among`.
proof fn lemma_among_witness(s: Seq<usize>, k: int, x: int)
    requires
        among(s, k, x),
    ensures
        exists|i: int| 0 <= i < k && s[i] == x,
{
}

/// The entries of `nodes`, in a vector of its own.
fn copy_nodes(nodes: &Vec<Node>) -> (copy: Vec<Node>)
    ensures
        copy@ == nodes@,
{
    let mut copy: Vec<Node> = Vec::new();
    let mut p: usize = 0;
    while p < nodes.len()
        invariant
            p <= nodes@.len(),
            copy@ == nodes@.take(p as int),
        decreases nodes@.len() - p,
    {
        copy.push(nodes[p]);
        proof {
            assert(nodes@.take(p + 1) =~= nodes@.take(p as int).push(nodes@[p as int]));
        }
        p += 1;
    }
    proof {
        assert(nodes@.take(p as int) =~= nodes@);
    }
    copy
}

} // verus!
