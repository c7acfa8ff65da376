//! Paths through a list of directed edges, and the facts about them that the
//! searches rely on.
use crate::types::NodeId;
use vstd::prelude::*;

verus! {

/// Some edge goes from `a` to `b`.
pub open spec fn has_edge(edges: Seq<(NodeId, NodeId)>, a: NodeId, b: NodeId) -> bool {
    exists|i: int| 0 <= i < edges.len() && edges[i] == (a, b)
}

/// `p` is a walk along edges that starts at `start` and ends at `end`.
pub open spec fn is_path(edges: Seq<(NodeId, NodeId)>, p: Seq<NodeId>, start: NodeId, end: NodeId) -> bool {
    &&& p.len() > 0
    &&& p[0] == start
    &&& p[p.len() - 1] == end
    &&& forall|i: int| 0 <= i < p.len() - 1 ==> #[trigger] has_edge(edges, p[i], p[i + 1])
}

/// Some walk leads from `start` to `end`.
pub open spec fn reachable(edges: Seq<(NodeId, NodeId)>, start: NodeId, end: NodeId) -> bool {
    exists|p: Seq<NodeId>| is_path(edges, p, start, end)
}

/// What a search from `start` to `end` owes: a walk from `start` to `end`,
/// and "no path" exactly where none exists.
pub open spec fn finds_path(
    edges: Seq<(NodeId, NodeId)>,
    start: NodeId,
    end: NodeId,
    r: Option<Seq<NodeId>>,
) -> bool {
    match r {
        Some(p) => is_path(edges, p, start, end),
        None => !reachable(edges, start, end),
    }
}

/// The view of a search result.
pub open spec fn path_view(r: Option<Vec<NodeId>>) -> Option<Seq<NodeId>> {
    match r {
        Some(v) => Some(v@),
        None => None,
    }
}

/// Every edge that leaves `s` ends in `s`.
pub open spec fn closed_under(edges: Seq<(NodeId, NodeId)>, s: Set<NodeId>) -> bool {
    forall|i: int| 0 <= i < edges.len() && #[trigger] s.contains(edges[i].0) ==> s.contains(edges[i].1)
}

/// The nodes that a search from `start` can ever hold: `start` and the edges' targets.
pub open spec fn search_space(edges: Seq<(NodeId, NodeId)>, start: NodeId) -> Set<NodeId> {
    edges.map_values(|e: (NodeId, NodeId)| e.1).to_set().insert(start)
}

/// The search space is finite and holds every target.
pub proof fn lemma_search_space(edges: Seq<(NodeId, NodeId)>, start: NodeId)
    ensures
        search_space(edges, start).finite(),
        search_space(edges, start).contains(start),
        forall|i: int| 0 <= i < edges.len() ==> search_space(edges, start).contains(#[trigger] edges[i].1),
{
    let t = edges.map_values(|e: (NodeId, NodeId)| e.1);
    vstd::seq_lib::seq_to_set_is_finite(t);
    assert forall|i: int| 0 <= i < edges.len() implies search_space(edges, start).contains(#[trigger] edges[i].1) by {
        assert(t[i] == edges[i].1);
        assert(t.contains(t[i]));
    }
}

/// One element: a walk from a node to itself.
pub proof fn lemma_path_single(edges: Seq<(NodeId, NodeId)>, v: NodeId)
    ensures
        is_path(edges, seq![v], v, v),
{
}

/// A walk to `a` followed by edge `i` from `a` to `b` is a walk to `b`.
pub proof fn lemma_path_extend(edges: Seq<(NodeId, NodeId)>, p: Seq<NodeId>, start: NodeId, i: int)
    requires
        0 <= i < edges.len(),
        is_path(edges, p, start, edges[i].0),
    ensures
        is_path(edges, p.push(edges[i].1), start, edges[i].1),
{
    let q = p.push(edges[i].1);
    assert forall|k: int| 0 <= k < q.len() - 1 implies #[trigger] has_edge(edges, q[k], q[k + 1]) by {
        if k < p.len() - 1 {
            assert(q[k] == p[k] && q[k + 1] == p[k + 1]);
            assert(has_edge(edges, p[k], p[k + 1]));
        } else {
            assert(edges[i] == (q[k], q[k + 1]));
        }
    }
}

/// A walk from a node of a closed set stays in it.
pub proof fn lemma_walk_stays(edges: Seq<(NodeId, NodeId)>, s: Set<NodeId>, p: Seq<NodeId>, k: int)
    requires
        closed_under(edges, s),
        p.len() > 0,
        s.contains(p[0]),
        forall|i: int| 0 <= i < p.len() - 1 ==> #[trigger] has_edge(edges, p[i], p[i + 1]),
        0 <= k < p.len(),
    ensures
        s.contains(p[k]),
    decreases k,
{
    if k > 0 {
        lemma_walk_stays(edges, s, p, k - 1);
        let i = k - 1;
        assert(has_edge(edges, p[i], p[i + 1]));
        assert(i + 1 == k);
        let j = choose|j: int| 0 <= j < edges.len() && edges[j] == (p[k - 1], p[k]);
        assert(edges[j].0 == p[k - 1] && edges[j].1 == p[k]);
        assert(s.contains(edges[j].0));
        assert(s.contains(edges[j].1));
    }
}

/// No walk leaves a closed set: from a node in it, a node outside is unreachable.
pub proof fn lemma_closed_unreachable(
    edges: Seq<(NodeId, NodeId)>,
    s: Set<NodeId>,
    start: NodeId,
    end: NodeId,
)
    requires
        closed_under(edges, s),
        s.contains(start),
        !s.contains(end),
    ensures
        !reachable(edges, start, end),
{
    if reachable(edges, start, end) {
        let p = choose|p: Seq<NodeId>| is_path(edges, p, start, end);
        lemma_walk_stays(edges, s, p, p.len() - 1);
    }
}

/// `p` followed by `t`.
pub fn extend_path(p: &Vec<NodeId>, t: NodeId) -> (r: Vec<NodeId>)
    ensures
        r@ == p@.push(t),
{
    let mut r: Vec<NodeId> = Vec::new();
    let mut i: usize = 0;
    while i < p.len()
        invariant
            0 <= i <= p@.len(),
            r@ == p@.take(i as int),
        decreases p@.len() - i,
    {
        r.push(p[i]);
        proof {
            assert(p@.take(i + 1) =~= p@.take(i as int).push(p@[i as int]));
        }
        i += 1;
    }
    r.push(t);
    proof {
        assert(p@.take(p@.len() as int) =~= p@);
    }
    r
}

} // verus!
