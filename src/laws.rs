//! Properties that relate several functions of the library.
use crate::edge::{stored_weight, Edge, EdgeRecordBatch};
use crate::node::{Node, NodeRecordBatch};
use crate::paths::{finds_path, has_edge, is_path, reachable};
use crate::table::read_scalar;
use crate::types::NodeId;
use vstd::prelude::*;

verus! {

/// The edges `(1, 2), (2, 3), ..., (k, k + 1)`, in that order.
pub open spec fn chain_edges(k: int) -> Seq<(NodeId, NodeId)> {
    Seq::new(k as nat, |i: int| ((i + 1) as NodeId, (i + 2) as NodeId))
}

/// The nodes `1, 2, ..., j`.
pub open spec fn chain_nodes(j: int) -> Seq<NodeId> {
    Seq::new(j as nat, |i: int| (i + 1) as NodeId)
}

/// On the chain `1 → 2 → ... → k + 1`, every search from `1` to any `j`
/// with `1 <= j <= k` returns `[1, 2, ..., j]`: this holds of any result
/// that meets the contract that breadth-first, depth-first, Dijkstra and
/// best-first search share.
pub proof fn lemma_chain_search(edges: Seq<(NodeId, NodeId)>, k: int, j: int, r: Option<Seq<NodeId>>)
    requires
        1 <= j <= k,
        k < u32::MAX,
        edges == chain_edges(k),
        finds_path(edges, 1, j as NodeId, r),
    ensures
        r == Some(chain_nodes(j)),
{
    let c = chain_nodes(j);
    assert forall|m: int| 0 <= m < c.len() - 1 implies #[trigger] has_edge(edges, c[m], c[m + 1]) by {
        assert(edges[m] == (c[m], c[m + 1]));
    }
    assert(is_path(edges, c, 1, j as NodeId));
    assert(reachable(edges, 1, j as NodeId));
    let p = r->Some_0;
    lemma_chain_walk(edges, k, p, p.len() - 1);
    assert(p.len() == j);
    assert(p =~= c);
}

/// A walk from `1` along the chain has `m + 1` at place `m`.
proof fn lemma_chain_walk(edges: Seq<(NodeId, NodeId)>, k: int, p: Seq<NodeId>, m: int)
    requires
        0 <= k < u32::MAX,
        edges == chain_edges(k),
        p.len() > 0,
        p[0] == 1,
        forall|i: int| 0 <= i < p.len() - 1 ==> #[trigger] has_edge(edges, p[i], p[i + 1]),
        0 <= m < p.len(),
    ensures
        forall|q: int| 0 <= q <= m ==> p[q] == q + 1,
    decreases m,
{
    if m > 0 {
        lemma_chain_walk(edges, k, p, m - 1);
        let i = m - 1;
        assert(has_edge(edges, p[i], p[i + 1]));
        let e = choose|e: int| 0 <= e < edges.len() && edges[e] == (p[i], p[i + 1]);
        assert(edges.len() == k as nat);
        assert(0 <= e < k);
        assert(edges[e] == ((e + 1) as NodeId, (e + 2) as NodeId));
        assert(((e + 1) as NodeId) as int == e + 1);
        assert(((e + 2) as NodeId) as int == e + 2);
        assert(p[i] == i + 1);
        assert(e + 1 == i + 1);
        assert(p[m] == m + 1);
    }
}

/// Where no walk leads from `start` to `end`, each of the four searches
/// returns "no path".
pub proof fn lemma_no_path(edges: Seq<(NodeId, NodeId)>, start: NodeId, end: NodeId, r: Option<Seq<NodeId>>)
    requires
        !reachable(edges, start, end),
        finds_path(edges, start, end, r),
    ensures
        r is None,
{
    if r is Some {
        assert(is_path(edges, r->Some_0, start, end));
    }
}

/// Reading back a node table made from rows gives each row's id exactly,
/// and its weight and position as present values, 0.0 where the row had none.
pub proof fn lemma_node_round_trip(nodes: Seq<Node>, t: NodeRecordBatch)
    requires
        t.readable(),
        t.0.spec_num_rows() == nodes.len(),
        t.ids_read() == nodes.map_values(|n: Node| n.id),
        t.weights_read() == nodes.map_values(|n: Node| read_scalar(n.weight)),
        t.positions_read() == nodes.map_values(|n: Node| read_scalar(n.position)),
    ensures
        forall|i: int| 0 <= i < nodes.len() ==> #[trigger] t.row(i) == (Node {
            id: nodes[i].id,
            weight: Some(read_scalar(nodes[i].weight)),
            position: Some(read_scalar(nodes[i].position)),
        }),
        forall|i: int| 0 <= i < nodes.len() && nodes[i].weight is Some && nodes[i].position is Some
            ==> #[trigger] t.row(i) == nodes[i],
{
}

/// Reading back an edge table made from rows gives each row's source and
/// target exactly, and its weight as a present value, 0.0 where the row had
/// none.
pub proof fn lemma_edge_round_trip(edges: Seq<Edge>, t: EdgeRecordBatch)
    requires
        t.readable(),
        t.0.spec_num_rows() == edges.len(),
        t.sources() == edges.map_values(|e: Edge| e.source_id),
        t.targets() == edges.map_values(|e: Edge| e.target_id),
        t.weights() == edges.map_values(|e: Edge| stored_weight(e)),
    ensures
        forall|i: int| 0 <= i < edges.len() ==> #[trigger] t.row(i) == (Edge {
            source_id: edges[i].source_id,
            target_id: edges[i].target_id,
            weight: Some(stored_weight(edges[i])),
        }),
        forall|i: int| 0 <= i < edges.len() && edges[i].weight is Some ==> #[trigger] t.row(i) == edges[i],
{
}

/// Appending edges to an edge table adds their number to the number of
/// rows, and leaves every earlier row as it was at its index.
pub proof fn lemma_append_keeps_rows(before: EdgeRecordBatch, after: EdgeRecordBatch, added: Seq<Edge>)
    requires
        before.readable(),
        before.0.well_formed(),
        after.readable(),
        after.0.spec_num_rows() == before.0.spec_num_rows() + added.len(),
        after.sources() == before.sources() + added.map_values(|e: Edge| e.source_id),
        after.targets() == before.targets() + added.map_values(|e: Edge| e.target_id),
        after.weights() == before.weights() + added.map_values(|e: Edge| stored_weight(e)),
    ensures
        after.0.spec_num_rows() == before.0.spec_num_rows() + added.len(),
        forall|i: int| 0 <= i < before.0.spec_num_rows() ==> #[trigger] after.row(i) == before.row(i),
        forall|i: int| 0 <= i < added.len() ==> #[trigger] after.row(before.0.spec_num_rows() + i) == (Edge {
            source_id: added[i].source_id,
            target_id: added[i].target_id,
            weight: Some(stored_weight(added[i])),
        }),
{
    crate::table::lemma_column_len(before.0, "source"@);
    crate::table::lemma_column_len(before.0, "target"@);
    crate::table::lemma_column_len(before.0, "weight"@);
}

} // verus!
