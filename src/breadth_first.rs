//! Breadth-first search.
use crate::graph::Graph;
use crate::paths::{
    extend_path, finds_path, has_edge, is_path, lemma_closed_unreachable, lemma_path_extend,
    lemma_path_single, lemma_search_space, path_view, search_space,
};
use crate::types::NodeId;
use std::collections::{HashSet, VecDeque};
use vstd::prelude::*;

verus! {

broadcast use vstd::std_specs::hash::group_hash_axioms;

/// No walk from `start` to `end` has fewer nodes than `p`.
pub open spec fn is_shortest(edges: Seq<(NodeId, NodeId)>, p: Seq<NodeId>, start: NodeId, end: NodeId) -> bool {
    forall|w: Seq<NodeId>| #[trigger] is_path(edges, w, start, end) ==> p.len() <= w.len()
}

/// The queue's path lengths never decrease from front to back.
spec fn sorted_lengths(q: Seq<(NodeId, Vec<NodeId>)>) -> bool {
    forall|a: int, b: int| 0 <= a <= b < q.len() ==> (#[trigger] q[a]).1@.len() <= (#[trigger] q[b]).1@.len()
}

/// Each edge leaving a visited node reaches a node visited at most one
/// level deeper, or one queued with a path at most one node longer.
spec fn level_closed(
    edges: Seq<(NodeId, NodeId)>,
    visited: Set<NodeId>,
    lvl: Map<NodeId, nat>,
    q: Seq<(NodeId, Vec<NodeId>)>,
) -> bool {
    forall|e: int|
        0 <= e < edges.len() && #[trigger] visited.contains(edges[e].0) ==> (visited.contains(edges[e].1)
            ==> lvl[edges[e].1] <= lvl[edges[e].0] + 1) && (!visited.contains(edges[e].1) ==> exists|k: int|
            0 <= k < q.len() && (#[trigger] q[k]).0 == edges[e].1 && q[k].1@.len() <= lvl[edges[e].0] + 1)
}

/// Along a walk from `start` whose first `j + 1` nodes are visited, node `j`
/// was visited at level at most `j + 1`.
proof fn lemma_prefix_levels(
    edges: Seq<(NodeId, NodeId)>,
    visited: Set<NodeId>,
    lvl: Map<NodeId, nat>,
    q: Seq<(NodeId, Vec<NodeId>)>,
    start: NodeId,
    w: Seq<NodeId>,
    j: int,
)
    requires
        level_closed(edges, visited, lvl, q),
        visited.contains(start) ==> lvl[start] == 1,
        w.len() > 0,
        w[0] == start,
        forall|i: int| 0 <= i < w.len() - 1 ==> #[trigger] has_edge(edges, w[i], w[i + 1]),
        0 <= j < w.len(),
        forall|jj: int| 0 <= jj <= j ==> visited.contains(#[trigger] w[jj]),
    ensures
        lvl[w[j]] <= j + 1,
    decreases j,
{
    if j > 0 {
        lemma_prefix_levels(edges, visited, lvl, q, start, w, j - 1);
        let i = j - 1;
        assert(has_edge(edges, w[i], w[i + 1]));
        let e = choose|e: int| 0 <= e < edges.len() && edges[e] == (w[i], w[i + 1]);
        assert(visited.contains(edges[e].0));
    }
}

/// With `end` not visited, the queue's front path is no longer than any
/// walk from `start` to `end`.
proof fn lemma_front_is_shortest(
    edges: Seq<(NodeId, NodeId)>,
    visited: Set<NodeId>,
    lvl: Map<NodeId, nat>,
    q: Seq<(NodeId, Vec<NodeId>)>,
    start: NodeId,
    end: NodeId,
    w: Seq<NodeId>,
    j: int,
)
    requires
        level_closed(edges, visited, lvl, q),
        sorted_lengths(q),
        q.len() > 0,
        visited.contains(start) ==> lvl[start] == 1,
        !visited.contains(start) ==> q[0].0 == start && q[0].1@.len() == 1,
        !visited.contains(end),
        is_path(edges, w, start, end),
        0 <= j < w.len(),
        forall|jj: int| 0 <= jj < j ==> visited.contains(#[trigger] w[jj]),
    ensures
        q[0].1@.len() <= w.len(),
    decreases w.len() - j,
{
    if visited.contains(w[j]) {
        assert(j < w.len() - 1);
        lemma_front_is_shortest(edges, visited, lvl, q, start, end, w, j + 1);
    } else if j > 0 {
        let i = j - 1;
        lemma_prefix_levels(edges, visited, lvl, q, start, w, i);
        assert(has_edge(edges, w[i], w[i + 1]));
        let e = choose|e: int| 0 <= e < edges.len() && edges[e] == (w[i], w[i + 1]);
        assert(visited.contains(edges[e].0));
        let k = choose|k: int| 0 <= k < q.len() && (#[trigger] q[k]).0 == edges[e].1 && q[k].1@.len() <= lvl[edges[e].0] + 1;
        assert(q[0].1@.len() <= q[k].1@.len());
    }
}

/// The queue of a breadth-first search, as node and path.
pub open spec fn queue_view(q: Seq<(NodeId, Vec<NodeId>)>) -> Seq<(NodeId, Seq<NodeId>)> {
    q.map_values(|e: (NodeId, Vec<NodeId>)| (e.0, e.1@))
}

/// The queue after expanding `node` (reached by `path`) over the first `i`
/// edge rows: each row from `node` queues its target with `path` extended
/// by it.
pub open spec fn bfs_pushes(
    edges: Seq<(NodeId, NodeId)>,
    node: NodeId,
    path: Seq<NodeId>,
    queue: Seq<(NodeId, Seq<NodeId>)>,
    i: int,
) -> Seq<(NodeId, Seq<NodeId>)>
    decreases i,
{
    if i <= 0 {
        queue
    } else {
        let q = bfs_pushes(edges, node, path, queue, i - 1);
        if edges[i - 1].0 == node {
            q.push((edges[i - 1].1, path.push(edges[i - 1].1)))
        } else {
            q
        }
    }
}

/// Runs at most `fuel` steps of breadth-first search towards `end` from the
/// given queue and visited set: `Some(result)` where the search ends within
/// them, `None` where it has not ended yet. A step takes the front entry;
/// if its node is `end` its path is the result; if the node is visited the
/// entry is dropped; otherwise the node is marked visited and expanded.
/// An empty queue ends the search with no path.
pub open spec fn bfs_run(
    edges: Seq<(NodeId, NodeId)>,
    end: NodeId,
    queue: Seq<(NodeId, Seq<NodeId>)>,
    visited: Set<NodeId>,
    fuel: nat,
) -> Option<Option<Seq<NodeId>>>
    decreases fuel,
{
    if fuel == 0 {
        None
    } else if queue.len() == 0 {
        Some(None)
    } else {
        let (c, p) = queue[0];
        let rest = queue.drop_first();
        if c == end {
            Some(Some(p))
        } else if visited.contains(c) {
            bfs_run(edges, end, rest, visited, (fuel - 1) as nat)
        } else {
            bfs_run(
                edges,
                end,
                bfs_pushes(edges, c, p, rest, edges.len() as int),
                visited.insert(c),
                (fuel - 1) as nat,
            )
        }
    }
}

/// Breadth-first search from `start` to `end`. Entries (node, path so far)
/// are taken from a FIFO queue; a node is marked visited when it is taken,
/// and then every edge leaving it, in row order, queues its target. The
/// first entry taken whose node is `end` gives the result.
///
/// Returns a walk from `start` to `end` along the graph's edges with as few
/// nodes as any such walk, or `None` exactly where no such walk exists.
#[verifier::spinoff_prover]
#[verifier::rlimit(100)]
pub fn breath_first_search(graph: &Graph, start: NodeId, end: NodeId) -> (r: Option<Vec<NodeId>>)
    ensures
        finds_path(graph.edge_pairs(), start, end, path_view(r)),
        r matches Some(p) ==> is_shortest(graph.edge_pairs(), p@, start, end),
        start == end ==> path_view(r) == Some(seq![start]),
        exists|fuel: nat| bfs_run(graph.edge_pairs(), end, seq![(start, seq![start])], Set::empty(), fuel)
            == Some(path_view(r)),
{
    let ghost init = seq![(start, seq![start])];
    let ghost mut count: nat = 0;
    let n = graph.num_edges();
    let ghost edges = graph.edge_pairs();
    let ghost space = search_space(edges, start);
    let ghost mut lvl: Map<NodeId, nat> = Map::empty();
    proof {
        lemma_search_space(edges, start);
        lemma_path_single(edges, start);
    }
    let mut visited: HashSet<NodeId> = HashSet::new();
    let mut queue: VecDeque<(NodeId, Vec<NodeId>)> = VecDeque::new();
    queue.push_back((start, vec![start]));
    proof {
        assert(queue@[0].1@ =~= seq![start]);
        assert(queue_view(queue@) =~= init);
        assert(visited@ =~= Set::<NodeId>::empty());
    }
    while queue.len() > 0
        invariant
            init == seq![(start, seq![start])],
            forall|f: nat| #[trigger] bfs_run(edges, end, init, Set::empty(), count + f) == bfs_run(
                edges,
                end,
                queue_view(queue@),
                visited@,
                f,
            ),
            start == end ==> queue@.len() == 1 && queue@[0].0 == start && queue@[0].1@ == seq![start],
            graph.columns_valid(),
            n == graph.sources().len(),
            edges == graph.edge_pairs(),
            space == search_space(edges, start),
            space.finite(),
            forall|i: int| 0 <= i < edges.len() ==> space.contains(#[trigger] edges[i].1),
            space.contains(start),
            visited@.subset_of(space),
            !visited@.contains(end),
            forall|k: int| 0 <= k < queue@.len() ==> is_path(edges, (#[trigger] queue@[k]).1@, start, queue@[k].0),
            forall|k: int| 0 <= k < queue@.len() ==> space.contains((#[trigger] queue@[k]).0),
            visited@.contains(start) ==> lvl[start] == 1,
            !visited@.contains(start) ==> queue@.len() > 0 && queue@[0].0 == start && queue@[0].1@.len() == 1,
            sorted_lengths(queue@),
            queue@.len() > 0 ==> forall|k: int| 0 <= k < queue@.len() ==> (#[trigger] queue@[k]).1@.len() <= queue@[0].1@.len() + 1,
            queue@.len() > 0 ==> forall|v: NodeId| #[trigger] visited@.contains(v) ==> lvl[v] <= queue@[0].1@.len(),
            level_closed(edges, visited@, lvl, queue@),
        decreases space.difference(visited@).len(), queue@.len(),
    {
        let ghost q0 = queue@;
        let (current, current_path) = match queue.pop_front() {
            Some(e) => e,
            None => return None,
        };
        assert(q0[0] == (current, current_path));
        proof {
            assert(queue_view(q0)[0] == (current, current_path@));
            assert(queue_view(q0).drop_first() =~= queue_view(queue@));
        }
        let ghost len = current_path@.len();
        if current == end {
            proof {
                assert forall|w: Seq<NodeId>| #[trigger] is_path(edges, w, start, end) implies current_path@.len() <= w.len() by {
                    lemma_front_is_shortest(edges, visited@, lvl, q0, start, end, w, 0);
                }
            }
            proof {
                assert(bfs_run(edges, end, init, Set::empty(), count + 1) == bfs_run(edges, end, queue_view(q0), visited@, 1));
                assert(bfs_run(edges, end, queue_view(q0), visited@, 1) == Some(Some(current_path@)));
            }
            return Some(current_path);
        }
        // Entries behind the front keep their places, one earlier.
        assert forall|k: int| 0 <= k < queue@.len() implies (#[trigger] queue@[k]) == q0[k + 1] by {}
        assert forall|k: int| 0 <= k < queue@.len() implies len <= (#[trigger] queue@[k]).1@.len() <= len + 1 by {
            assert(queue@[k] == q0[k + 1]);
            assert(q0[0].1@.len() <= q0[k + 1].1@.len());
        }
        let ghost before = visited@;
        if visited.contains(&current) {
            proof {
                assert(lvl[current] <= len);
                assert forall|e: int|
                    0 <= e < edges.len() && #[trigger] visited@.contains(edges[e].0) implies (visited@.contains(edges[e].1)
                        ==> lvl[edges[e].1] <= lvl[edges[e].0] + 1) && (!visited@.contains(edges[e].1) ==> exists|k: int|
                        0 <= k < queue@.len() && (#[trigger] queue@[k]).0 == edges[e].1 && queue@[k].1@.len() <= lvl[edges[e].0] + 1) by {
                    if !visited@.contains(edges[e].1) {
                        let k = choose|k: int| 0 <= k < q0.len() && (#[trigger] q0[k]).0 == edges[e].1 && q0[k].1@.len() <= lvl[edges[e].0] + 1;
                        assert(k > 0);
                        assert(queue@[k - 1] == q0[k]);
                    }
                }
                assert forall|a: int, b: int| 0 <= a <= b < queue@.len() implies (#[trigger] queue@[a]).1@.len() <= (#[trigger] queue@[b]).1@.len() by {
                    assert(q0[a + 1].1@.len() <= q0[b + 1].1@.len());
                }
                assert forall|f: nat| #[trigger] bfs_run(edges, end, init, Set::empty(), (count + 1) + f) == bfs_run(
                    edges,
                    end,
                    queue_view(queue@),
                    visited@,
                    f,
                ) by {
                    assert(bfs_run(edges, end, init, Set::empty(), count + (f + 1)) == bfs_run(edges, end, queue_view(q0), visited@, f + 1));
                }
                count = count + 1;
            }
            continue;
        }
        visited.insert(current);
        proof {
            assert(space.difference(visited@) =~= space.difference(before).remove(current));
            // The entry just taken is no longer than any witness for `current`.
            assert forall|e: int| 0 <= e < edges.len() && #[trigger] before.contains(edges[e].0) && edges[e].1 == current
                implies len <= lvl[edges[e].0] + 1 by {
                let k = choose|k: int| 0 <= k < q0.len() && (#[trigger] q0[k]).0 == edges[e].1 && q0[k].1@.len() <= lvl[edges[e].0] + 1;
                assert(q0[0].1@.len() <= q0[k].1@.len());
            }
            let ghost old_lvl = lvl;
            lvl = lvl.insert(current, len);
            assert forall|e: int|
                0 <= e < edges.len() && #[trigger] before.contains(edges[e].0) implies (visited@.contains(edges[e].1)
                    ==> lvl[edges[e].1] <= lvl[edges[e].0] + 1) && (!visited@.contains(edges[e].1) ==> exists|k: int|
                    0 <= k < queue@.len() && (#[trigger] queue@[k]).0 == edges[e].1 && queue@[k].1@.len() <= lvl[edges[e].0] + 1) by {
                assert(edges[e].0 != current);
                assert(lvl[edges[e].0] == old_lvl[edges[e].0]);
                if edges[e].1 == current {
                    assert(len <= old_lvl[edges[e].0] + 1);
                } else if before.contains(edges[e].1) {
                    assert(lvl[edges[e].1] == old_lvl[edges[e].1]);
                } else {
                    let k = choose|k: int| 0 <= k < q0.len() && (#[trigger] q0[k]).0 == edges[e].1 && q0[k].1@.len() <= old_lvl[edges[e].0] + 1;
                    assert(k > 0);
                    assert(queue@[k - 1] == q0[k]);
                }
            }
            assert forall|a: int, b: int| 0 <= a <= b < queue@.len() implies (#[trigger] queue@[a]).1@.len() <= (#[trigger] queue@[b]).1@.len() by {
                assert(q0[a + 1].1@.len() <= q0[b + 1].1@.len());
            }
            assert forall|v: NodeId| #[trigger] visited@.contains(v) implies lvl[v] <= len by {
                if v != current {
                    assert(before.contains(v));
                }
            }
        }
        let ghost q1 = queue@;
        let mut idx: usize = 0;
        while idx < n
            invariant
                queue_view(queue@) == bfs_pushes(edges, current, current_path@, queue_view(q1), idx as int),
                init == seq![(start, seq![start])],
                forall|f: nat| #[trigger] bfs_run(edges, end, init, Set::empty(), count + f) == bfs_run(
                    edges,
                    end,
                    queue_view(q0),
                    before,
                    f,
                ),
                queue_view(q0)[0] == (current, current_path@),
                queue_view(q0).drop_first() == queue_view(q1),
                queue_view(q0).len() > 0,
                graph.columns_valid(),
                n == graph.sources().len(),
                edges == graph.edge_pairs(),
                0 <= idx <= n,
                space == search_space(edges, start),
                forall|i: int| 0 <= i < edges.len() ==> space.contains(#[trigger] edges[i].1),
                space.contains(current),
                current != end,
                visited@ == before.insert(current),
                !before.contains(current),
                lvl[current] == len,
                len == current_path@.len(),
                is_path(edges, current_path@, start, current),
                queue@.len() >= q1.len(),
                forall|k: int| 0 <= k < q1.len() ==> queue@[k] == q1[k],
                forall|k: int| 0 <= k < queue@.len() ==> is_path(edges, (#[trigger] queue@[k]).1@, start, queue@[k].0),
                forall|k: int| 0 <= k < queue@.len() ==> space.contains((#[trigger] queue@[k]).0),
                forall|k: int| 0 <= k < queue@.len() ==> len <= (#[trigger] queue@[k]).1@.len() <= len + 1,
                sorted_lengths(queue@),
                forall|v: NodeId| #[trigger] visited@.contains(v) ==> lvl[v] <= len,
                forall|e: int|
                    0 <= e < edges.len() && #[trigger] before.contains(edges[e].0) ==> (visited@.contains(edges[e].1)
                        ==> lvl[edges[e].1] <= lvl[edges[e].0] + 1) && (!visited@.contains(edges[e].1) ==> exists|k: int|
                        0 <= k < q1.len() && (#[trigger] q1[k]).0 == edges[e].1 && q1[k].1@.len() <= lvl[edges[e].0] + 1),
                forall|e: int|
                    0 <= e < idx && edges[e].0 == current ==> exists|k: int|
                        0 <= k < queue@.len() && (#[trigger] queue@[k]).0 == edges[e].1 && queue@[k].1@.len() <= len + 1,
            decreases n - idx,
        {
            let ghost qprev = queue@;
            let s = match graph.source_id(idx) { Ok(v) => v, Err(_) => current };
            if s == current {
                let t = match graph.target_id(idx) { Ok(v) => v, Err(_) => current };
                assert(edges[idx as int] == (current, t));
                let new_path = extend_path(&current_path, t);
                proof {
                    lemma_path_extend(edges, current_path@, start, idx as int);
                }
                queue.push_back((t, new_path));
                assert(queue@[queue@.len() - 1].0 == t);
                assert forall|a: int, b: int| 0 <= a <= b < queue@.len() implies (#[trigger] queue@[a]).1@.len() <= (#[trigger] queue@[b]).1@.len() by {
                    if b < qprev.len() {
                        assert(queue@[a] == qprev[a] && queue@[b] == qprev[b]);
                    } else if a < qprev.len() {
                        assert(queue@[a] == qprev[a]);
                    }
                }
            }
            assert forall|e: int| 0 <= e < idx + 1 && edges[e].0 == current implies exists|k: int|
                0 <= k < queue@.len() && (#[trigger] queue@[k]).0 == edges[e].1 && queue@[k].1@.len() <= len + 1 by {
                if e == idx {
                    assert(queue@[queue@.len() - 1].0 == edges[e].1);
                } else {
                    let k = choose|k: int| 0 <= k < qprev.len() && (#[trigger] qprev[k]).0 == edges[e].1 && qprev[k].1@.len() <= len + 1;
                    assert(queue@[k] == qprev[k]);
                }
            }
            proof {
                if s == current {
                    assert(queue_view(queue@) =~= queue_view(qprev).push((edges[idx as int].1, current_path@.push(edges[idx as int].1))));
                } else {
                    assert(queue_view(queue@) =~= queue_view(qprev));
                }
            }
            idx += 1;
        }
        proof {
            assert forall|f: nat| #[trigger] bfs_run(edges, end, init, Set::empty(), (count + 1) + f) == bfs_run(
                edges,
                end,
                queue_view(queue@),
                visited@,
                f,
            ) by {
                assert(bfs_run(edges, end, init, Set::empty(), count + (f + 1)) == bfs_run(edges, end, queue_view(q0), before, f + 1));
            }
            count = count + 1;
        }
        proof {
            assert forall|e: int|
                0 <= e < edges.len() && #[trigger] visited@.contains(edges[e].0) implies (visited@.contains(edges[e].1)
                    ==> lvl[edges[e].1] <= lvl[edges[e].0] + 1) && (!visited@.contains(edges[e].1) ==> exists|k: int|
                    0 <= k < queue@.len() && (#[trigger] queue@[k]).0 == edges[e].1 && queue@[k].1@.len() <= lvl[edges[e].0] + 1) by {
                if edges[e].0 != current {
                    assert(before.contains(edges[e].0));
                    if !visited@.contains(edges[e].1) {
                        let k = choose|k: int| 0 <= k < q1.len() && (#[trigger] q1[k]).0 == edges[e].1 && q1[k].1@.len() <= lvl[edges[e].0] + 1;
                        assert(queue@[k] == q1[k]);
                    }
                } else if !visited@.contains(edges[e].1) {
                    let k = choose|k: int| 0 <= k < queue@.len() && (#[trigger] queue@[k]).0 == edges[e].1 && queue@[k].1@.len() <= len + 1;
                }
            }
            if queue@.len() > 0 {
                assert(len <= queue@[0].1@.len());
                assert forall|k: int| 0 <= k < queue@.len() implies (#[trigger] queue@[k]).1@.len() <= queue@[0].1@.len() + 1 by {}
            }
            if visited@.contains(start) && start != current {
                assert(before.contains(start));
            }
        }
    }
    proof {
        assert forall|i: int| 0 <= i < edges.len() && #[trigger] visited@.contains(edges[i].0) implies visited@.contains(edges[i].1) by {}
        lemma_closed_unreachable(edges, visited@, start, end);
        assert(queue_view(queue@).len() == 0);
        assert(bfs_run(edges, end, init, Set::empty(), count + 1) == bfs_run(edges, end, queue_view(queue@), visited@, 1));
    }
    None
}

} // verus!
