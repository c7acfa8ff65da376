//! Depth-first search.
use crate::graph::Graph;
use crate::paths::{
    extend_path, finds_path, is_path, lemma_closed_unreachable, lemma_path_extend,
    lemma_path_single, lemma_search_space, path_view, search_space,
};
use crate::types::NodeId;
use std::collections::HashSet;
use vstd::prelude::*;

verus! {

broadcast use vstd::std_specs::hash::group_hash_axioms;

/// The stack of a depth-first search, as node and path.
pub open spec fn stack_view(q: Seq<(NodeId, Vec<NodeId>)>) -> Seq<(NodeId, Seq<NodeId>)> {
    q.map_values(|e: (NodeId, Vec<NodeId>)| (e.0, e.1@))
}

/// The stack after expanding `node` (reached by `path`) over the first `i`
/// edge rows: each row from `node` whose target is not in `visited` pushes
/// that target with `path` extended by it.
pub open spec fn dfs_pushes(
    edges: Seq<(NodeId, NodeId)>,
    node: NodeId,
    path: Seq<NodeId>,
    visited: Set<NodeId>,
    stack: Seq<(NodeId, Seq<NodeId>)>,
    i: int,
) -> Seq<(NodeId, Seq<NodeId>)>
    decreases i,
{
    if i <= 0 {
        stack
    } else {
        let s = dfs_pushes(edges, node, path, visited, stack, i - 1);
        if edges[i - 1].0 == node && !visited.contains(edges[i - 1].1) {
            s.push((edges[i - 1].1, path.push(edges[i - 1].1)))
        } else {
            s
        }
    }
}

/// Runs at most `fuel` steps of depth-first search towards `end` from the
/// given stack and visited set: `Some(result)` where the search ends within
/// them, `None` where it has not ended yet. A step takes the top entry;
/// if its node is `end` its path is the result; if the node is visited the
/// entry is dropped; otherwise the node is marked visited and expanded.
/// An empty stack ends the search with no path.
pub open spec fn dfs_run(
    edges: Seq<(NodeId, NodeId)>,
    end: NodeId,
    stack: Seq<(NodeId, Seq<NodeId>)>,
    visited: Set<NodeId>,
    fuel: nat,
) -> Option<Option<Seq<NodeId>>>
    decreases fuel,
{
    if fuel == 0 {
        None
    } else if stack.len() == 0 {
        Some(None)
    } else {
        let (c, p) = stack.last();
        let rest = stack.drop_last();
        if c == end {
            Some(Some(p))
        } else if visited.contains(c) {
            dfs_run(edges, end, rest, visited, (fuel - 1) as nat)
        } else {
            dfs_run(
                edges,
                end,
                dfs_pushes(edges, c, p, visited.insert(c), rest, edges.len() as int),
                visited.insert(c),
                (fuel - 1) as nat,
            )
        }
    }
}

/// Depth-first search from `start` to `end`. Entries (node, path so far)
/// are taken from a LIFO stack; a node is marked visited when it is taken,
/// and then every edge leaving it, in row order, pushes its target unless
/// that target is visited already. The first entry taken whose node is
/// `end` gives the result.
///
/// Returns a walk from `start` to `end` along the graph's edges, or `None`
/// exactly where no such walk exists.
pub fn depth_first_search(graph: &Graph, start: NodeId, end: NodeId) -> (r: Option<Vec<NodeId>>)
    ensures
        finds_path(graph.edge_pairs(), start, end, path_view(r)),
        r matches Some(p) ==> p@.no_duplicates(),
        start == end ==> path_view(r) == Some(seq![start]),
        exists|fuel: nat| dfs_run(graph.edge_pairs(), end, seq![(start, seq![start])], Set::empty(), fuel)
            == Some(path_view(r)),
{
    let ghost init = seq![(start, seq![start])];
    let ghost mut count: nat = 0;
    let n = graph.num_edges();
    let ghost edges = graph.edge_pairs();
    let ghost space = search_space(edges, start);
    proof {
        lemma_search_space(edges, start);
        lemma_path_single(edges, start);
    }
    let mut visited: HashSet<NodeId> = HashSet::new();
    let mut queue: Vec<(NodeId, Vec<NodeId>)> = Vec::new();
    queue.push((start, vec![start]));
    proof {
        assert(queue@[0].1@ =~= seq![start]);
        assert(stack_view(queue@) =~= init);
        assert(visited@ =~= Set::<NodeId>::empty());
    }
    while queue.len() > 0
        invariant
            start == end ==> queue@.len() == 1 && queue@[0].0 == start && queue@[0].1@ == seq![start],
            init == seq![(start, seq![start])],
            forall|f: nat| #[trigger] dfs_run(edges, end, init, Set::empty(), count + f) == dfs_run(
                edges,
                end,
                stack_view(queue@),
                visited@,
                f,
            ),
            forall|k: int| 0 <= k < queue@.len() ==> (#[trigger] queue@[k]).1@.no_duplicates(),
            forall|k: int, m: int| #![trigger queue@[k].1@[m]]
                0 <= k < queue@.len() && 0 <= m < queue@[k].1@.len() - 1 ==> visited@.contains(queue@[k].1@[m]),
            graph.columns_valid(),
            n == graph.sources().len(),
            edges == graph.edge_pairs(),
            space == search_space(edges, start),
            space.finite(),
            forall|i: int| 0 <= i < edges.len() ==> space.contains(#[trigger] edges[i].1),
            space.contains(start),
            visited@.subset_of(space),
            !visited@.contains(end),
            forall|k: int| 0 <= k < queue@.len() ==> is_path(edges, (#[trigger] queue@[k]).1@, start, queue@[k].0),
            forall|k: int| 0 <= k < queue@.len() ==> space.contains((#[trigger] queue@[k]).0),
            visited@.contains(start) || (queue@.len() > 0 && queue@[0].0 == start),
            forall|i: int|
                0 <= i < edges.len() && #[trigger] visited@.contains(edges[i].0) ==> visited@.contains(edges[i].1)
                    || exists|k: int| 0 <= k < queue@.len() && (#[trigger] queue@[k]).0 == edges[i].1,
        decreases space.difference(visited@).len(), queue@.len(),
    {
        let ghost q0 = queue@;
        let (current, current_path) = match queue.pop() {
            Some(e) => e,
            None => return None,
        };
        assert(q0[q0.len() - 1] == (current, current_path));
        proof {
            if q0.len() > 1 {
                assert(queue@[0] == q0[0]);
            }
        }
        assert(current_path@ == q0[q0.len() - 1].1@);
        proof {
            assert(stack_view(q0).last() == (current, current_path@));
            assert(stack_view(q0).drop_last() =~= stack_view(queue@));
        }
        if current == end {
            proof {
                assert(dfs_run(edges, end, init, Set::empty(), count + 1) == dfs_run(edges, end, stack_view(q0), visited@, 1));
                assert(dfs_run(edges, end, stack_view(q0), visited@, 1) == Some(Some(current_path@)));
            }
            return Some(current_path);
        }
        assert forall|k: int| 0 <= k < queue@.len() implies (#[trigger] queue@[k]) == q0[k] by {}
        // Entries below the top keep their witnesses.
        assert forall|i: int|
            0 <= i < edges.len() && #[trigger] visited@.contains(edges[i].0) implies visited@.contains(edges[i].1)
                || edges[i].1 == current
                || exists|k: int| 0 <= k < queue@.len() && (#[trigger] queue@[k]).0 == edges[i].1 by {
            if !visited@.contains(edges[i].1) && edges[i].1 != current {
                let k = choose|k: int| 0 <= k < q0.len() && (#[trigger] q0[k]).0 == edges[i].1;
                assert(k < q0.len() - 1);
                assert(queue@[k] == q0[k]);
            }
        }
        let ghost before = visited@;
        if visited.contains(&current) {
            // Already visited: only this entry goes.
            proof {
                assert forall|f: nat| #[trigger] dfs_run(edges, end, init, Set::empty(), (count + 1) + f) == dfs_run(
                    edges,
                    end,
                    stack_view(queue@),
                    visited@,
                    f,
                ) by {
                    assert(dfs_run(edges, end, init, Set::empty(), count + (f + 1)) == dfs_run(edges, end, stack_view(q0), visited@, f + 1));
                }
                count = count + 1;
            }
            continue;
        }
        visited.insert(current);
        proof {
            assert(space.difference(visited@) =~= space.difference(before).remove(current));
        }
        assert forall|m: int| 0 <= m < current_path@.len() implies visited@.contains(#[trigger] current_path@[m]) by {
            if m < current_path@.len() - 1 {
                assert(q0[q0.len() - 1].1@[m] == current_path@[m]);
            }
        }
        let ghost q1 = queue@;
        let mut idx: usize = 0;
        while idx < n
            invariant
                stack_view(queue@) == dfs_pushes(edges, current, current_path@, visited@, stack_view(q1), idx as int),
                init == seq![(start, seq![start])],
                forall|f: nat| #[trigger] dfs_run(edges, end, init, Set::empty(), count + f) == dfs_run(
                    edges,
                    end,
                    stack_view(q0),
                    before,
                    f,
                ),
                stack_view(q0).last() == (current, current_path@),
                stack_view(q0).drop_last() == stack_view(q1),
                stack_view(q0).len() > 0,
                current_path@.no_duplicates(),
                forall|m: int| 0 <= m < current_path@.len() ==> visited@.contains(#[trigger] current_path@[m]),
                forall|k: int| 0 <= k < queue@.len() ==> (#[trigger] queue@[k]).1@.no_duplicates(),
                forall|k: int, m: int| #![trigger queue@[k].1@[m]]
                    0 <= k < queue@.len() && 0 <= m < queue@[k].1@.len() - 1 ==> visited@.contains(queue@[k].1@[m]),
                graph.columns_valid(),
                n == graph.sources().len(),
                edges == graph.edge_pairs(),
                0 <= idx <= n,
                space == search_space(edges, start),
                forall|i: int| 0 <= i < edges.len() ==> space.contains(#[trigger] edges[i].1),
                space.contains(current),
                visited@ == before.insert(current),
                is_path(edges, current_path@, start, current),
                queue@.len() >= q1.len(),
                forall|k: int| 0 <= k < q1.len() ==> queue@[k] == q1[k],
                forall|k: int| 0 <= k < queue@.len() ==> is_path(edges, (#[trigger] queue@[k]).1@, start, queue@[k].0),
                forall|k: int| 0 <= k < queue@.len() ==> space.contains((#[trigger] queue@[k]).0),
                forall|i: int|
                    0 <= i < edges.len() && #[trigger] before.contains(edges[i].0) ==> before.contains(edges[i].1)
                        || edges[i].1 == current
                        || exists|k: int| 0 <= k < q1.len() && (#[trigger] q1[k]).0 == edges[i].1,
                forall|i: int|
                    0 <= i < idx && edges[i].0 == current && !visited@.contains(edges[i].1) ==> exists|k: int|
                        0 <= k < queue@.len() && (#[trigger] queue@[k]).0 == edges[i].1,
            decreases n - idx,
        {
            let ghost qprev = queue@;
            let s = match graph.source_id(idx) { Ok(v) => v, Err(_) => current };
            let t = match graph.target_id(idx) { Ok(v) => v, Err(_) => current };
            if s == current && !visited.contains(&t) {
                assert(edges[idx as int] == (current, t));
                let new_path = extend_path(&current_path, t);
                proof {
                    lemma_path_extend(edges, current_path@, start, idx as int);
                }
                assert(new_path@.no_duplicates()) by {
                    assert forall|a: int, b: int| 0 <= a < new_path@.len() && 0 <= b < new_path@.len() && a != b implies new_path@[a] != new_path@[b] by {
                        if a < current_path@.len() && b < current_path@.len() {
                        } else if a < current_path@.len() {
                            assert(visited@.contains(current_path@[a]));
                        } else {
                            assert(visited@.contains(current_path@[b]));
                        }
                    }
                }
                let ghost qb = queue@;
                queue.push((t, new_path));
                assert forall|k: int, m: int| #![trigger queue@[k].1@[m]]
                    0 <= k < queue@.len() && 0 <= m < queue@[k].1@.len() - 1 implies visited@.contains(queue@[k].1@[m]) by {
                    if k < qb.len() {
                        assert(queue@[k] == qb[k]);
                    } else {
                        assert(queue@[k].1@[m] == current_path@[m]);
                    }
                }
                assert forall|k: int| 0 <= k < queue@.len() implies (#[trigger] queue@[k]).1@.no_duplicates() by {
                    if k < qb.len() {
                        assert(queue@[k] == qb[k]);
                    }
                }
                assert(queue@[queue@.len() - 1].0 == t);
            }
            assert forall|i: int| 0 <= i < idx + 1 && edges[i].0 == current && !visited@.contains(edges[i].1) implies exists|k: int|
                0 <= k < queue@.len() && (#[trigger] queue@[k]).0 == edges[i].1 by {
                if i == idx {
                    assert(queue@[queue@.len() - 1].0 == edges[i].1);
                } else {
                    let k = choose|k: int| 0 <= k < qprev.len() && (#[trigger] qprev[k]).0 == edges[i].1;
                    assert(queue@[k] == qprev[k]);
                }
            }
            proof {
                if s == current && !visited@.contains(edges[idx as int].1) {
                    assert(stack_view(queue@) =~= stack_view(qprev).push((edges[idx as int].1, current_path@.push(edges[idx as int].1))));
                } else {
                    assert(stack_view(queue@) =~= stack_view(qprev));
                }
            }
            idx += 1;
        }
        proof {
            assert forall|f: nat| #[trigger] dfs_run(edges, end, init, Set::empty(), (count + 1) + f) == dfs_run(
                edges,
                end,
                stack_view(queue@),
                visited@,
                f,
            ) by {
                assert(dfs_run(edges, end, init, Set::empty(), count + (f + 1)) == dfs_run(edges, end, stack_view(q0), before, f + 1));
            }
            count = count + 1;
        }
        assert forall|i: int|
            0 <= i < edges.len() && #[trigger] visited@.contains(edges[i].0) implies visited@.contains(edges[i].1)
                || exists|k: int| 0 <= k < queue@.len() && (#[trigger] queue@[k]).0 == edges[i].1 by {
            if edges[i].0 != current && !visited@.contains(edges[i].1) {
                assert(before.contains(edges[i].0));
                if edges[i].1 != current {
                    let k = choose|k: int| 0 <= k < q1.len() && (#[trigger] q1[k]).0 == edges[i].1;
                    assert(queue@[k] == q1[k]);
                }
            }
        }
    }
    proof {
        lemma_closed_unreachable(edges, visited@, start, end);
        assert(stack_view(queue@).len() == 0);
        assert(dfs_run(edges, end, init, Set::empty(), count + 1) == dfs_run(edges, end, stack_view(queue@), visited@, 1));
    }
    None
}

} // verus!
