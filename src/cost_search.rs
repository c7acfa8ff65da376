//! Searches ordered by path cost: Dijkstra's algorithm, and the uniform-cost
//! best-first search that differs from it only in not skipping stale queue
//! entries. The cost of an edge is its weight truncated to `u32`
//! (see [`crate::types::cost_of_bits`]); costs add up saturating at `u32::MAX`.
use crate::edge::out_weighted;
use crate::graph::{pairs_of, Graph};
use crate::paths::{
    finds_path, has_edge, is_path, lemma_closed_unreachable, path_view,
};
use crate::types::{cost_of_bits, NodeId, Scalar};
use std::collections::HashMap;
use vstd::prelude::*;

verus! {

broadcast use vstd::std_specs::hash::group_hash_axioms;

/// `a` comes before `b` in the order that the predecessor links follow:
/// a smaller distance, or the same distance set earlier.
pub open spec fn ranked(dist: Map<NodeId, u32>, stamp: Map<NodeId, nat>, a: NodeId, b: NodeId) -> bool {
    dist[a] < dist[b] || (dist[a] == dist[b] && stamp[a] < stamp[b])
}

/// The predecessor links of a search: each leads along an edge to a node
/// with a distance, strictly earlier in the `ranked` order; each node with a
/// distance but `start` has a link; every stamp is below `clock`.
pub open spec fn links_ok(
    edges: Seq<(NodeId, NodeId)>,
    dist: Map<NodeId, u32>,
    prev: Map<NodeId, NodeId>,
    stamp: Map<NodeId, nat>,
    clock: nat,
    start: NodeId,
) -> bool {
    &&& forall|v: NodeId| #[trigger] prev.contains_key(v) ==> {
        &&& dist.contains_key(v)
        &&& dist.contains_key(prev[v])
        &&& has_edge(edges, prev[v], v)
        &&& ranked(dist, stamp, prev[v], v)
    }
    &&& forall|v: NodeId| #[trigger] dist.contains_key(v) ==> stamp.contains_key(v) && stamp[v] < clock
    &&& forall|v: NodeId| #[trigger] dist.contains_key(v) && v != start ==> prev.contains_key(v)
}

/// A number that strictly decreases along predecessor links.
pub open spec fn rank(dist: Map<NodeId, u32>, stamp: Map<NodeId, nat>, clock: nat, v: NodeId) -> nat {
    (dist[v] * clock + stamp[v]) as nat
}

proof fn lemma_rank_decreases(dist: Map<NodeId, u32>, stamp: Map<NodeId, nat>, clock: nat, a: NodeId, b: NodeId)
    requires
        ranked(dist, stamp, a, b),
        stamp[a] < clock,
        stamp[b] < clock,
    ensures
        rank(dist, stamp, clock, a) < rank(dist, stamp, clock, b),
{
    let da = dist[a] as int;
    let db = dist[b] as int;
    let k = clock as int;
    if da < db {
        assert((da + 1) * k <= db * k) by (nonlinear_arith)
            requires
                da + 1 <= db,
                k >= 0,
        ;
        assert(da * k + k == (da + 1) * k) by (nonlinear_arith);
    }
}

/// The code of a queue entry, unique to its node and cost.
pub open spec fn entry_code(v: NodeId, c: u32) -> int {
    v as int * 0x1_0000_0000 + c as int
}

proof fn lemma_entry_code(v: NodeId, c: u32, w: NodeId, d: u32)
    ensures
        0 <= entry_code(v, c) < 0x1_0000_0000_0000_0000,
        entry_code(v, c) == entry_code(w, d) ==> v == w && c == d,
{
    if entry_code(v, c) == entry_code(w, d) {
        if v < w {
            assert(v as int * 0x1_0000_0000 + 0x1_0000_0000 <= w as int * 0x1_0000_0000);
        } else if w < v {
            assert(w as int * 0x1_0000_0000 + 0x1_0000_0000 <= v as int * 0x1_0000_0000);
        }
    }
}

/// For each neighbor listed for `x`, some edge row from `x` has it as target
/// and weight; and each edge row from `x` is listed with its target and weight.
proof fn lemma_out_weighted(
    src: Seq<NodeId>,
    tgt: Seq<NodeId>,
    w: Seq<Scalar>,
    x: NodeId,
    n: int,
)
    requires
        0 <= n <= src.len(),
        src.len() == tgt.len(),
        tgt.len() == w.len(),
    ensures
        forall|j: int| #![trigger out_weighted(src, tgt, w, x, n)[j]]
            0 <= j < out_weighted(src, tgt, w, x, n).len() ==> exists|e: int|
                0 <= e < n && #[trigger] src[e] == x && tgt[e] == out_weighted(src, tgt, w, x, n)[j].0 && w[e]
                    == out_weighted(src, tgt, w, x, n)[j].1,
        forall|i: int| 0 <= i < n && #[trigger] src[i] == x ==> exists|j: int|
            0 <= j < out_weighted(src, tgt, w, x, n).len() && #[trigger] out_weighted(src, tgt, w, x, n)[j]
                == (tgt[i], w[i]),
    decreases n,
{
    if n > 0 {
        lemma_out_weighted(src, tgt, w, x, n - 1);
        let prev = out_weighted(src, tgt, w, x, n - 1);
        let cur = out_weighted(src, tgt, w, x, n);
        if src[n - 1] == x {
            assert(cur == prev.push((tgt[n - 1], w[n - 1])));
            assert forall|j: int| #![trigger cur[j]] 0 <= j < cur.len() implies exists|e: int|
                0 <= e < n && #[trigger] src[e] == x && tgt[e] == cur[j].0 && w[e] == cur[j].1 by {
                if j < prev.len() {
                    assert(cur[j] == prev[j]);
                    let e = choose|e: int| 0 <= e < n - 1 && #[trigger] src[e] == x && tgt[e] == prev[j].0 && w[e] == prev[j].1;
                    assert(src[e] == x);
                } else {
                    assert(src[n - 1] == x);
                }
            }
            assert forall|i: int| 0 <= i < n && #[trigger] src[i] == x implies exists|j: int|
                0 <= j < cur.len() && #[trigger] cur[j] == (tgt[i], w[i]) by {
                if i < n - 1 {
                    let j = choose|j: int| 0 <= j < prev.len() && #[trigger] prev[j] == (tgt[i], w[i]);
                    assert(cur[j] == prev[j]);
                } else {
                    assert(cur[prev.len() as int] == (tgt[i], w[i]));
                }
            }
        } else {
            assert(cur == prev);
            assert forall|j: int| #![trigger cur[j]] 0 <= j < cur.len() implies exists|e: int|
                0 <= e < n && #[trigger] src[e] == x && tgt[e] == cur[j].0 && w[e] == cur[j].1 by {
                assert(cur[j] == prev[j]);
                let e = choose|e: int| 0 <= e < n - 1 && #[trigger] src[e] == x && tgt[e] == prev[j].0 && w[e] == prev[j].1;
                assert(src[e] == x);
            }
        }
    }
}

/// Removes an entry of least cost from a non-empty queue; returns its index
/// and the entry.
fn pop_min(heap: &mut Vec<(u32, NodeId)>) -> (r: (usize, (u32, NodeId)))
    requires
        old(heap)@.len() > 0,
    ensures
        r.0 < old(heap)@.len(),
        r.1 == old(heap)@[r.0 as int],
        final(heap)@ == old(heap)@.remove(r.0 as int),
        forall|k: int| 0 <= k < old(heap)@.len() ==> r.1.0 <= (#[trigger] old(heap)@[k]).0,
{
    let mut best: usize = 0;
    let mut i: usize = 1;
    while i < heap.len()
        invariant
            heap@ == old(heap)@,
            0 < i <= heap@.len(),
            best < i,
            forall|k: int| 0 <= k < i ==> heap@[best as int].0 <= (#[trigger] heap@[k]).0,
        decreases heap@.len() - i,
    {
        if heap[i].0 < heap[best].0 {
            best = i;
        }
        i += 1;
    }
    let e = heap.remove(best);
    (best, e)
}

/// Each predecessor link names an edge row from the predecessor to the node,
/// whose cost added to the predecessor's distance is at most the node's.
pub open spec fn links_cost_ok(
    src: Seq<NodeId>,
    tgt: Seq<NodeId>,
    w: Seq<Scalar>,
    dist: Map<NodeId, u32>,
    prev: Map<NodeId, NodeId>,
    pe: Map<NodeId, int>,
) -> bool {
    forall|v: NodeId| #[trigger] prev.contains_key(v) ==> {
        &&& pe.contains_key(v)
        &&& 0 <= pe[v] < src.len()
        &&& src[pe[v]] == prev[v]
        &&& tgt[pe[v]] == v
        &&& sat_add(dist[prev[v]], edge_cost(w, pe[v])) <= dist[v]
    }
}

/// Follows predecessor links from `end` back to `start`; returns the walk
/// from `start` to `end`, along edge rows that cost at most `end`'s distance.
fn trace_back(
    prev: &HashMap<NodeId, NodeId>,
    start: NodeId,
    end: NodeId,
    Ghost(edges): Ghost<Seq<(NodeId, NodeId)>>,
    Ghost(src): Ghost<Seq<NodeId>>,
    Ghost(tgt): Ghost<Seq<NodeId>>,
    Ghost(w): Ghost<Seq<Scalar>>,
    Ghost(dist): Ghost<Map<NodeId, u32>>,
    Ghost(pe): Ghost<Map<NodeId, int>>,
    Ghost(stamp): Ghost<Map<NodeId, nat>>,
    Ghost(clock): Ghost<nat>,
) -> (r: Vec<NodeId>)
    requires
        links_ok(edges, dist, prev@, stamp, clock, start),
        links_cost_ok(src, tgt, w, dist, prev@, pe),
        dist.contains_key(end),
        dist.contains_key(start),
        dist[start] == 0,
    ensures
        is_path(edges, r@, start, end),
        exists|es: Seq<int>| #[trigger] edge_walk(src, tgt, es, r@) && walk_cost(w, es) <= dist[end],
        !prev@.contains_key(end) ==> r@ == seq![end],
{
    let mut back: Vec<NodeId> = vec![end];
    let mut current = end;
    let ghost mut fwd: Seq<NodeId> = seq![end];
    let ghost mut tail: Seq<int> = Seq::empty();
    loop
        invariant
            links_ok(edges, dist, prev@, stamp, clock, start),
            links_cost_ok(src, tgt, w, dist, prev@, pe),
            dist.contains_key(current),
            back@.len() > 0,
            back@[0] == end,
            back@[back@.len() - 1] == current,
            forall|j: int| 0 <= j < back@.len() - 1 ==> #[trigger] has_edge(edges, back@[j + 1], back@[j]),
            fwd.len() == back@.len(),
            forall|k: int| 0 <= k < fwd.len() ==> #[trigger] fwd[k] == back@[back@.len() - 1 - k],
            edge_walk(src, tgt, tail, fwd),
            cost_from(w, dist[current], tail) <= dist[end],
            !prev@.contains_key(end) ==> current == end && back@.len() == 1,
        ensures
            !prev@.contains_key(end) ==> current == end && back@.len() == 1,
            !prev@.contains_key(current),
            dist.contains_key(current),
            back@.len() > 0,
            back@[0] == end,
            back@[back@.len() - 1] == current,
            forall|j: int| 0 <= j < back@.len() - 1 ==> #[trigger] has_edge(edges, back@[j + 1], back@[j]),
            fwd.len() == back@.len(),
            forall|k: int| 0 <= k < fwd.len() ==> #[trigger] fwd[k] == back@[back@.len() - 1 - k],
            edge_walk(src, tgt, tail, fwd),
            cost_from(w, dist[current], tail) <= dist[end],
        decreases rank(dist, stamp, clock, current),
    {
        match prev.get(&current) {
            Some(p) => {
                let p = *p;
                proof {
                    lemma_rank_decreases(dist, stamp, clock, p, current);
                }
                let ghost old_back = back@;
                back.push(p);
                proof {
                    assert forall|j: int| 0 <= j < back@.len() - 1 implies #[trigger] has_edge(edges, back@[j + 1], back@[j]) by {
                        if j < old_back.len() - 1 {
                            assert(back@[j] == old_back[j] && back@[j + 1] == old_back[j + 1]);
                        }
                    }
                    let e = pe[current];
                    let old_fwd = fwd;
                    let old_tail = tail;
                    fwd = seq![p] + fwd;
                    tail = seq![e] + tail;
                    assert forall|k: int| 0 <= k < fwd.len() implies #[trigger] fwd[k] == back@[back@.len() - 1 - k] by {
                        if k > 0 {
                            assert(fwd[k] == old_fwd[k - 1]);
                        }
                    }
                    assert forall|i: int| 0 <= i < tail.len() implies 0 <= #[trigger] tail[i] < src.len() && src[tail[i]]
                        == fwd[i] && tgt[tail[i]] == fwd[i + 1] by {
                        if i > 0 {
                            assert(tail[i] == old_tail[i - 1]);
                            assert(fwd[i] == old_fwd[i - 1]);
                            assert(fwd[i + 1] == old_fwd[i]);
                        } else {
                            assert(old_fwd[0] == current);
                        }
                    }
                    assert(tail.drop_first() =~= old_tail);
                    lemma_cost_monotone(w, sat_add(dist[p], edge_cost(w, e)), dist[current], old_tail);
                }
                current = p;
            },
            None => {
                break;
            },
        }
    }
    assert(current == start);
    let mut path: Vec<NodeId> = Vec::new();
    let mut i: usize = back.len();
    let ghost len = back@.len() as int;
    while i > 0
        invariant
            len == back@.len(),
            0 <= i <= len,
            path@.len() == len - i,
            forall|k: int| 0 <= k < path@.len() ==> #[trigger] path@[k] == back@[len - 1 - k],
        decreases i,
    {
        i -= 1;
        path.push(back[i]);
    }
    assert forall|k: int| 0 <= k < path@.len() - 1 implies #[trigger] has_edge(edges, path@[k], path@[k + 1]) by {
        let j = len - 2 - k;
        assert(path@[k] == back@[j + 1]);
        assert(path@[k + 1] == back@[j]);
    }
    assert(path@ =~= fwd);
    assert(edge_walk(src, tgt, tail, path@));
    proof {
        if !prev@.contains_key(end) {
            assert(path@ =~= seq![end]);
        }
    }
    path
}

/// `a + b`, saturating at `u32::MAX`.
pub open spec fn sat_add(a: u32, b: u32) -> u32 {
    if a as int + b as int > u32::MAX as int {
        u32::MAX
    } else {
        (a + b) as u32
    }
}

/// The cost of edge row `e`.
pub open spec fn edge_cost(w: Seq<Scalar>, e: int) -> u32 {
    cost_of_bits(w[e].bits)
}

/// The cost of following edge rows `es` after having spent `base`.
pub open spec fn cost_from(w: Seq<Scalar>, base: u32, es: Seq<int>) -> u32
    decreases es.len(),
{
    if es.len() == 0 {
        base
    } else {
        cost_from(w, sat_add(base, edge_cost(w, es[0])), es.drop_first())
    }
}

/// The cost of a walk along edge rows `es`.
pub open spec fn walk_cost(w: Seq<Scalar>, es: Seq<int>) -> u32 {
    cost_from(w, 0, es)
}

/// `es` are edge rows that lead through the nodes `p` in order.
pub open spec fn edge_walk(src: Seq<NodeId>, tgt: Seq<NodeId>, es: Seq<int>, p: Seq<NodeId>) -> bool {
    &&& p.len() == es.len() + 1
    &&& forall|i: int|
        0 <= i < es.len() ==> 0 <= #[trigger] es[i] < src.len() && src[es[i]] == p[i] && tgt[es[i]] == p[i + 1]
}

/// Some edge rows through the nodes `p` cost no more than any edge rows
/// that lead from `start` to `end`.
pub open spec fn least_cost(
    src: Seq<NodeId>,
    tgt: Seq<NodeId>,
    w: Seq<Scalar>,
    p: Seq<NodeId>,
    start: NodeId,
    end: NodeId,
) -> bool {
    exists|es: Seq<int>| #[trigger] edge_walk(src, tgt, es, p) && forall|other_es: Seq<int>, other_nodes: Seq<NodeId>|
        #[trigger] edge_walk(src, tgt, other_es, other_nodes) && other_nodes[0] == start && other_nodes[other_nodes.len() - 1] == end ==> walk_cost(w, es)
            <= walk_cost(w, other_es)
}

proof fn lemma_cost_monotone(w: Seq<Scalar>, b1: u32, b2: u32, es: Seq<int>)
    requires
        b1 <= b2,
    ensures
        cost_from(w, b1, es) <= cost_from(w, b2, es),
    decreases es.len(),
{
    if es.len() > 0 {
        lemma_cost_monotone(w, sat_add(b1, edge_cost(w, es[0])), sat_add(b2, edge_cost(w, es[0])), es.drop_first());
    }
}

proof fn lemma_cost_push(w: Seq<Scalar>, b: u32, es: Seq<int>, e: int)
    ensures
        cost_from(w, b, es.push(e)) == sat_add(cost_from(w, b, es), edge_cost(w, e)),
    decreases es.len(),
{
    if es.len() == 0 {
        assert(es.push(e).drop_first() =~= Seq::<int>::empty());
        assert(es.push(e)[0] == e);
        let b2 = sat_add(b, edge_cost(w, e));
        assert(cost_from(w, b2, Seq::<int>::empty()) == b2);
    } else {
        assert(es.push(e).drop_first() =~= es.drop_first().push(e));
        assert(es.push(e)[0] == es[0]);
        lemma_cost_push(w, sat_add(b, edge_cost(w, es[0])), es.drop_first(), e);
    }
}

proof fn lemma_prefix_cost(w: Seq<Scalar>, es: Seq<int>, j: int)
    requires
        0 <= j <= es.len(),
    ensures
        walk_cost(w, es.take(j)) <= walk_cost(w, es),
    decreases es.len() - j,
{
    if j == es.len() {
        assert(es.take(j) =~= es);
    } else {
        assert(es.take(j + 1) =~= es.take(j).push(es[j]));
        lemma_cost_push(w, 0, es.take(j), es[j]);
        lemma_prefix_cost(w, es, j + 1);
    }
}

/// Where an entry of least cost `c` is taken, no walk from `start` to `end`
/// costs less than `c`: follow the walk to its first node still queued with
/// its distance.
proof fn lemma_frontier_cost(
    src: Seq<NodeId>,
    tgt: Seq<NodeId>,
    w: Seq<Scalar>,
    dist: Map<NodeId, u32>,
    heap: Seq<(u32, NodeId)>,
    start: NodeId,
    end: NodeId,
    c: u32,
    es: Seq<int>,
    p: Seq<NodeId>,
    j: int,
)
    requires
        forall|v: NodeId| #[trigger] dist.contains_key(v) ==> settled(src, tgt, w, dist, heap, end, v),
        forall|k: int| 0 <= k < heap.len() ==> c <= (#[trigger] heap[k]).0,
        edge_walk(src, tgt, es, p),
        p[p.len() - 1] == end,
        0 <= j < p.len(),
        dist.contains_key(p[j]),
        dist[p[j]] <= walk_cost(w, es.take(j)),
    ensures
        c <= walk_cost(w, es),
    decreases p.len() - j,
{
    reveal(settled);
    assert(settled(src, tgt, w, dist, heap, end, p[j]));
    if exists|k: int| 0 <= k < heap.len() && heap[k] == (dist[p[j]], p[j]) {
        let k = choose|k: int| 0 <= k < heap.len() && heap[k] == (dist[p[j]], p[j]);
        assert(c <= heap[k].0);
        lemma_prefix_cost(w, es, j);
    } else {
        assert(j < p.len() - 1);
        let e = es[j];
        assert(0 <= e < src.len() && src[e] == p[j] && tgt[e] == p[j + 1]);
        assert(es.take(j + 1) =~= es.take(j).push(e));
        lemma_cost_push(w, 0, es.take(j), e);
        lemma_frontier_cost(src, tgt, w, dist, heap, start, end, c, es, p, j + 1);
    }
}

/// Where a search stands with a node that has a distance: an entry with that
/// distance is still queued, or the node is expanded (it is not `end`, and
/// every edge row leaving it ends at a node whose distance is at most this
/// node's plus the edge's cost).
#[verifier::opaque]
pub open spec fn settled(
    src: Seq<NodeId>,
    tgt: Seq<NodeId>,
    w: Seq<Scalar>,
    dist: Map<NodeId, u32>,
    heap: Seq<(u32, NodeId)>,
    end: NodeId,
    v: NodeId,
) -> bool {
    (exists|k: int| 0 <= k < heap.len() && heap[k] == (dist[v], v)) || (v != end && forall|e: int|
        0 <= e < src.len() && #[trigger] src[e] == v ==> dist.contains_key(tgt[e]) && dist[tgt[e]] <= sat_add(
            dist[v],
            edge_cost(w, e),
        ))
}

/// Setting the distance of `nb` to `next` through `x` keeps the links in order.
proof fn lemma_links_update(
    edges: Seq<(NodeId, NodeId)>,
    dist: Map<NodeId, u32>,
    prev: Map<NodeId, NodeId>,
    stamp: Map<NodeId, nat>,
    clock: nat,
    start: NodeId,
    x: NodeId,
    nb: NodeId,
    next: u32,
)
    requires
        links_ok(edges, dist, prev, stamp, clock, start),
        dist.contains_key(x),
        has_edge(edges, x, nb),
        dist[x] <= next,
        dist.contains_key(nb) ==> next < dist[nb],
    ensures
        x != nb,
        links_ok(
            edges,
            dist.insert(nb, next),
            prev.insert(nb, x),
            stamp.insert(nb, clock),
            clock + 1,
            start,
        ),
{
    let dist2 = dist.insert(nb, next);
    let prev2 = prev.insert(nb, x);
    let stamp2 = stamp.insert(nb, clock);
    assert forall|v: NodeId| #[trigger] prev2.contains_key(v) implies {
        &&& dist2.contains_key(v)
        &&& dist2.contains_key(prev2[v])
        &&& has_edge(edges, prev2[v], v)
        &&& ranked(dist2, stamp2, prev2[v], v)
    } by {
        if v != nb {
            assert(prev.contains_key(v));
            if prev[v] == nb {
                assert(ranked(dist, stamp, nb, v));
            }
        } else {
            assert(stamp.contains_key(x) && stamp[x] < clock);
        }
    }
    assert forall|v: NodeId| #[trigger] dist2.contains_key(v) && v != start implies prev2.contains_key(v) by {
        if v != nb {
            assert(dist.contains_key(v));
        }
    }
    assert forall|v: NodeId| #[trigger] dist2.contains_key(v) implies stamp2.contains_key(v) && stamp2[v] < clock + 1 by {
        if v != nb {
            assert(dist.contains_key(v));
        }
    }
}

/// When an entry for `end` of least cost is taken, a walk to `end` that
/// costs at most `end`'s distance costs least.
proof fn lemma_end_least_cost(
    src: Seq<NodeId>,
    tgt: Seq<NodeId>,
    w: Seq<Scalar>,
    dist: Map<NodeId, u32>,
    heap: Seq<(u32, NodeId)>,
    start: NodeId,
    end: NodeId,
    c: u32,
    path: Seq<NodeId>,
)
    requires
        forall|v: NodeId| #[trigger] dist.contains_key(v) ==> settled(src, tgt, w, dist, heap, end, v),
        forall|k: int| 0 <= k < heap.len() ==> c <= (#[trigger] heap[k]).0,
        dist.contains_key(start),
        dist[start] == 0,
        dist.contains_key(end),
        dist[end] <= c,
        exists|es: Seq<int>| #[trigger] edge_walk(src, tgt, es, path) && walk_cost(w, es) <= dist[end],
    ensures
        least_cost(src, tgt, w, path, start, end),
{
    let es = choose|es: Seq<int>| #[trigger] edge_walk(src, tgt, es, path) && walk_cost(w, es) <= dist[end];
    assert forall|other_es: Seq<int>, other_nodes: Seq<NodeId>|
        #[trigger] edge_walk(src, tgt, other_es, other_nodes) && other_nodes[0] == start && other_nodes[other_nodes.len() - 1] == end implies walk_cost(
        w,
        es,
    ) <= walk_cost(w, other_es) by {
        assert(other_es.take(0) =~= Seq::<int>::empty());
        lemma_frontier_cost(src, tgt, w, dist, heap, start, end, c, other_es, other_nodes, 0);
    }
}

/// Setting the distance of `nb` to `next` through edge row `e` from `x`
/// keeps the links' costs in order.
proof fn lemma_links_cost_update(
    src: Seq<NodeId>,
    tgt: Seq<NodeId>,
    w: Seq<Scalar>,
    dist: Map<NodeId, u32>,
    prev: Map<NodeId, NodeId>,
    pe: Map<NodeId, int>,
    x: NodeId,
    nb: NodeId,
    next: u32,
    e: int,
)
    requires
        links_cost_ok(src, tgt, w, dist, prev, pe),
        x != nb,
        0 <= e < src.len(),
        src[e] == x,
        tgt[e] == nb,
        next == sat_add(dist[x], edge_cost(w, e)),
        dist.contains_key(nb) ==> next < dist[nb],
        forall|v: NodeId| #[trigger] prev.contains_key(v) && prev[v] == nb ==> dist.contains_key(nb),
    ensures
        links_cost_ok(src, tgt, w, dist.insert(nb, next), prev.insert(nb, x), pe.insert(nb, e)),
{
}

/// The search shared by [`dijkstra_search`] and [`a_search`]. Entries
/// (cost, node) are taken least cost first; when `skip_stale`, an entry whose
/// cost exceeds its node's best distance is dropped unexpanded. Expanding a
/// node relaxes each edge leaving it, in row order: where the cost through
/// it improves on the target's distance (or the target has none yet), the
/// target gets that distance and this node as predecessor, and is queued.
#[verifier::spinoff_prover]
#[verifier::rlimit(100)]
fn search_by_cost(graph: &Graph, start: NodeId, end: NodeId, skip_stale: bool) -> (r: Option<Vec<NodeId>>)
    ensures
        finds_path(graph.edge_pairs(), start, end, path_view(r)),
        r matches Some(p) ==> least_cost(graph.sources(), graph.targets(), graph.weights(), p@, start, end),
        start == end ==> path_view(r) == Some(seq![start]),
{
    let n = graph.num_edges();
    let ghost edges = graph.edge_pairs();
    let ghost src = graph.sources();
    let ghost tgt = graph.targets();
    let ghost wts = graph.weights();
    let ghost mut pe: Map<NodeId, int> = Map::empty();
    let mut dist: HashMap<NodeId, u32> = HashMap::new();
    let mut prev: HashMap<NodeId, NodeId> = HashMap::new();
    let mut heap: Vec<(u32, NodeId)> = Vec::new();
    let ghost mut stamp: Map<NodeId, nat> = Map::empty().insert(start, 0nat);
    let ghost mut clock: nat = 1;
    let ghost mut pushed: Set<int> = Set::empty().insert(entry_code(start, 0));
    dist.insert(start, 0);
    heap.push((0, start));
    proof {
        vstd::set_lib::lemma_int_range(0, 0x1_0000_0000_0000_0000);
        lemma_entry_code(start, 0, start, 0);
        assert forall|v: NodeId, c: u32| #[trigger] pushed.contains(entry_code(v, c)) implies dist@.contains_key(v)
            && c >= dist@[v] by {
            lemma_entry_code(v, c, start, 0);
        }
        assert(heap@[0] == (dist@[start], start));
        assert forall|v: NodeId| #[trigger] dist@.contains_key(v) implies settled(src, tgt, wts, dist@, heap@, end, v) by {
            reveal(settled);
            assert(v == start);
            assert(heap@[0] == (dist@[v], v));
        }
        vstd::set_lib::lemma_len_subset(pushed, vstd::set_lib::set_int_range(0, 0x1_0000_0000_0000_0000));
    }
    while heap.len() > 0
        invariant
            start == end ==> heap@ == seq![(0u32, start)] && prev@ == Map::<NodeId, NodeId>::empty(),
            graph.columns_valid(),
            n == graph.sources().len(),
            edges == graph.edge_pairs(),
            src == graph.sources(),
            tgt == graph.targets(),
            wts == graph.weights(),
            links_cost_ok(src, tgt, wts, dist@, prev@, pe),
            dist@[start] == 0,
            links_ok(edges, dist@, prev@, stamp, clock, start),
            dist@.contains_key(start),
            forall|k: int| 0 <= k < heap@.len() ==> dist@.contains_key((#[trigger] heap@[k]).1) && heap@[k].0
                >= dist@[heap@[k].1] && pushed.contains(entry_code(heap@[k].1, heap@[k].0)),
            pushed.subset_of(vstd::set_lib::set_int_range(0, 0x1_0000_0000_0000_0000)),
            pushed.finite(),
            pushed.len() <= 0x1_0000_0000_0000_0000,
            forall|v: NodeId, c: u32| #[trigger] pushed.contains(entry_code(v, c)) ==> dist@.contains_key(v)
                && c >= dist@[v],
            forall|v: NodeId| #[trigger] dist@.contains_key(v) ==> settled(src, tgt, wts, dist@, heap@, end, v),
        decreases 0x1_0000_0000_0000_0000 - pushed.len(), heap@.len(),
    {
        let ghost h0 = heap@;
        let (m, (cost, x)) = pop_min(&mut heap);
        assert(h0[m as int] == (cost, x));
        if x == end {
            let path = trace_back(
                &prev,
                start,
                end,
                Ghost(edges),
                Ghost(src),
                Ghost(tgt),
                Ghost(wts),
                Ghost(dist@),
                Ghost(pe),
                Ghost(stamp),
                Ghost(clock),
            );
            proof {
                lemma_end_least_cost(src, tgt, wts, dist@, h0, start, end, cost, path@);
                if start == end {
                    assert(!prev@.contains_key(end));
                }
            }
            return Some(path);
        }
        let base: u32 = match dist.get(&x) {
            Some(d) => *d,
            None => cost,
        };
        assert(base == dist@[x]);
        // Entries other than the one taken keep their witnesses.
        assert forall|v: NodeId| #[trigger] dist@.contains_key(v) && (v != x || cost != dist@[x]) implies settled(src, tgt, wts, dist@, heap@, end, v) by {
            reveal(settled);
            assert(settled(src, tgt, wts, dist@, h0, end, v));
            if exists|k: int| 0 <= k < h0.len() && h0[k] == (dist@[v], v) {
                let k = choose|k: int| 0 <= k < h0.len() && h0[k] == (dist@[v], v);
                if k < m {
                    assert(heap@[k] == h0[k]);
                } else {
                    assert(k != m);
                    assert(heap@[k - 1] == h0[k]);
                }
            }
        }
        assert forall|k: int| 0 <= k < heap@.len() implies dist@.contains_key((#[trigger] heap@[k]).1) && heap@[k].0
            >= dist@[heap@[k].1] && pushed.contains(entry_code(heap@[k].1, heap@[k].0)) by {
            if k < m {
                assert(heap@[k] == h0[k]);
            } else {
                assert(heap@[k] == h0[k + 1]);
            }
        }
        if skip_stale && cost > base {
            continue;
        }
        let nbrs = match graph.neighbors_with_weights(x) {
            Ok(v) => v,
            Err(_) => Vec::new(),
        };
        proof {
            lemma_out_weighted(graph.sources(), graph.targets(), graph.weights(), x, n as int);
            assert forall|jj: int| 0 <= jj < nbrs@.len() implies has_edge(edges, x, (#[trigger] nbrs@[jj]).0) by {
                let e = choose|e: int| 0 <= e < n && #[trigger] src[e] == x && tgt[e] == nbrs@[jj].0 && wts[e] == nbrs@[jj].1;
                assert(edges[e] == (x, nbrs@[jj].0));
            }
        }
        let ghost pushed_before = pushed;
        let ghost hs = heap@;
        let mut j: usize = 0;
        while j < nbrs.len()
            invariant
                graph.columns_valid(),
                n == graph.sources().len(),
                edges == graph.edge_pairs(),
                src == graph.sources(),
                tgt == graph.targets(),
                wts == graph.weights(),
                links_cost_ok(src, tgt, wts, dist@, prev@, pe),
                dist@[start] == 0,
                nbrs@ == out_weighted(graph.sources(), graph.targets(), graph.weights(), x, n as int),
                forall|jj: int| 0 <= jj < nbrs@.len() ==> has_edge(edges, x, (#[trigger] nbrs@[jj]).0),
                0 <= j <= nbrs@.len(),
                x != end,
                dist@.contains_key(x),
                dist@[x] == base,
                links_ok(edges, dist@, prev@, stamp, clock, start),
                dist@.contains_key(start),
                forall|k: int| 0 <= k < heap@.len() ==> dist@.contains_key((#[trigger] heap@[k]).1) && heap@[k].0
                    >= dist@[heap@[k].1] && pushed.contains(entry_code(heap@[k].1, heap@[k].0)),
                pushed.subset_of(vstd::set_lib::set_int_range(0, 0x1_0000_0000_0000_0000)),
                pushed.finite(),
                pushed.len() <= 0x1_0000_0000_0000_0000,
                pushed_before.subset_of(pushed),
                pushed.len() >= pushed_before.len(),
                heap@.len() == hs.len() + pushed.len() - pushed_before.len(),
                heap@.len() >= hs.len(),
                forall|k: int| 0 <= k < hs.len() ==> heap@[k] == hs[k],
                forall|v: NodeId, c: u32| #[trigger] pushed.contains(entry_code(v, c)) ==> dist@.contains_key(v)
                    && c >= dist@[v],
                forall|v: NodeId| #[trigger] dist@.contains_key(v) && v != x ==> settled(src, tgt, wts, dist@, heap@, end, v),
                forall|jj: int| 0 <= jj < j ==> dist@.contains_key((#[trigger] nbrs@[jj]).0) && dist@[nbrs@[jj].0]
                    <= sat_add(base, cost_of_bits(nbrs@[jj].1.bits)),
            decreases nbrs@.len() - j,
        {
            let (nb, wt) = nbrs[j];
            let c = wt.cost();
            let next: u32 = if base > u32::MAX - c { u32::MAX } else { base + c };
            let better = match dist.get(&nb) {
                None => true,
                Some(d) => next < *d,
            };
            if better {
                let ghost d0 = dist@;
                let ghost hb = heap@;
                let ghost pb = pushed;
                proof {
                    lemma_out_weighted(src, tgt, wts, x, n as int);
                    assert(nbrs@[j as int] == (nb, wt));
                }
                let ghost e = choose|e: int| 0 <= e < n && #[trigger] src[e] == x && tgt[e] == nb && wts[e] == wt;
                proof {
                    assert(nbrs@[j as int] == (nb, wt));
                    assert(0 <= e < n && src[e] == x && tgt[e] == nb && wts[e] == wt);
                    assert(next == sat_add(base, edge_cost(wts, e)));
                    assert(forall|v: NodeId| #[trigger] prev@.contains_key(v) && prev@[v] == nb ==> dist@.contains_key(nb));
                    lemma_links_update(edges, dist@, prev@, stamp, clock, start, x, nb, next);
                    lemma_links_cost_update(src, tgt, wts, dist@, prev@, pe, x, nb, next, e);
                    lemma_entry_code(nb, next, nb, next);
                    if pushed.contains(entry_code(nb, next)) {
                        assert(dist@.contains_key(nb) && next >= dist@[nb]);
                    }
                }
                heap.push((next, nb));
                dist.insert(nb, next);
                prev.insert(nb, x);
                proof {
                    pe = pe.insert(nb, e);
                    stamp = stamp.insert(nb, clock);
                    clock = clock + 1;
                    pushed = pushed.insert(entry_code(nb, next));
                    vstd::set_lib::lemma_int_range(0, 0x1_0000_0000_0000_0000);
                    vstd::set_lib::lemma_len_subset(pushed, vstd::set_lib::set_int_range(0, 0x1_0000_0000_0000_0000));
                    vstd::set_lib::lemma_len_subset(pushed_before, pushed);
                    assert(pushed.len() == pb.len() + 1);
                    assert forall|v: NodeId, cc: u32| #[trigger] pushed.contains(entry_code(v, cc)) implies dist@.contains_key(v)
                        && cc >= dist@[v] by {
                        lemma_entry_code(v, cc, nb, next);
                        if v != nb {
                            assert(pb.contains(entry_code(v, cc)));
                        } else if cc != next {
                            assert(pb.contains(entry_code(v, cc)));
                        }
                    }
                    assert forall|k: int| 0 <= k < heap@.len() implies dist@.contains_key((#[trigger] heap@[k]).1)
                        && heap@[k].0 >= dist@[heap@[k].1] && pushed.contains(entry_code(heap@[k].1, heap@[k].0)) by {
                        if k < hb.len() {
                            assert(heap@[k] == hb[k]);
                        }
                    }
                    assert forall|v: NodeId| #[trigger] dist@.contains_key(v) && v != x implies settled(src, tgt, wts, dist@, heap@, end, v) by {
                        reveal(settled);
                        if v == nb {
                            assert(heap@[heap@.len() - 1] == (dist@[v], v));
                        } else {
                            assert(d0.contains_key(v));
                            assert(settled(src, tgt, wts, d0, hb, end, v));
                            if exists|k: int| 0 <= k < hb.len() && hb[k] == (d0[v], v) {
                                let k = choose|k: int| 0 <= k < hb.len() && hb[k] == (d0[v], v);
                                assert(heap@[k] == hb[k]);
                            } else {
                                assert forall|e2: int| 0 <= e2 < src.len() && #[trigger] src[e2] == v implies dist@.contains_key(
                                    tgt[e2],
                                ) && dist@[tgt[e2]] <= sat_add(dist@[v], edge_cost(wts, e2)) by {
                                    assert(d0.contains_key(tgt[e2]));
                                }
                            }
                        }
                    }
                    assert forall|jj: int| 0 <= jj < j implies dist@.contains_key((#[trigger] nbrs@[jj]).0)
                        && dist@[nbrs@[jj].0] <= sat_add(base, cost_of_bits(nbrs@[jj].1.bits)) by {
                        assert(d0.contains_key(nbrs@[jj].0));
                    }
                }
            }
            assert(nbrs@[j as int] == (nb, wt));
            assert(dist@.contains_key(nb) && dist@[nb] <= sat_add(base, cost_of_bits(wt.bits)));
            j += 1;
        }
        proof {
            assert forall|e: int| 0 <= e < src.len() && #[trigger] src[e] == x implies dist@.contains_key(tgt[e])
                && dist@[tgt[e]] <= sat_add(dist@[x], edge_cost(wts, e)) by {
                let jj = choose|jj: int| 0 <= jj < nbrs@.len() && #[trigger] nbrs@[jj] == (tgt[e], wts[e]);
                assert(dist@.contains_key(nbrs@[jj].0));
            }
            assert(settled(src, tgt, wts, dist@, heap@, end, x)) by {
                reveal(settled);
            }
        }
    }
    proof {
        assert forall|i: int| 0 <= i < edges.len() && #[trigger] dist@.dom().contains(edges[i].0) implies dist@.dom().contains(
            edges[i].1,
        ) by {
            reveal(settled);
            assert(settled(src, tgt, wts, dist@, heap@, end, edges[i].0));
            assert(src[i] == edges[i].0 && tgt[i] == edges[i].1);
        }
        assert(!dist@.contains_key(end)) by {
            reveal(settled);
            if dist@.contains_key(end) {
                assert(settled(src, tgt, wts, dist@, heap@, end, end));
            }
        }
        lemma_closed_unreachable(edges, dist@.dom(), start, end);
    }
    None
}

/// Dijkstra's algorithm from `start` to `end`: a least-cost-first search
/// that drops stale queue entries.
///
/// Returns a walk from `start` to `end` along the graph's edges that costs
/// no more than any other, or `None` exactly where no such walk exists.
pub fn dijkstra_search(graph: &Graph, start: NodeId, end: NodeId) -> (r: Option<Vec<NodeId>>)
    ensures
        finds_path(graph.edge_pairs(), start, end, path_view(r)),
        r matches Some(p) ==> least_cost(graph.sources(), graph.targets(), graph.weights(), p@, start, end),
        start == end ==> path_view(r) == Some(seq![start]),
{
    search_by_cost(graph, start, end, true)
}

/// Uniform-cost best-first search from `start` to `end`: as
/// [`dijkstra_search`], but every entry taken is expanded, stale or not. No
/// heuristic is consulted.
///
/// Returns a walk from `start` to `end` along the graph's edges that costs
/// no more than any other, or `None` exactly where no such walk exists.
pub fn a_search(graph: &Graph, start: NodeId, end: NodeId) -> (r: Option<Vec<NodeId>>)
    ensures
        finds_path(graph.edge_pairs(), start, end, path_view(r)),
        r matches Some(p) ==> least_cost(graph.sources(), graph.targets(), graph.weights(), p@, start, end),
        start == end ==> path_view(r) == Some(seq![start]),
{
    search_by_cost(graph, start, end, false)
}

} // verus!
