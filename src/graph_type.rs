//! Structural predicates on a graph: completeness, the connectivity check
//! between the least and the greatest node id, and the acyclicity check.
use crate::breadth_first::breath_first_search;
use crate::edge::out_targets;
use crate::graph::Graph;
use crate::paths::{has_edge, is_path, reachable, lemma_search_space, search_space};
use crate::types::NodeId;
use std::collections::HashSet;
use vstd::prelude::*;

verus! {

broadcast use vstd::std_specs::hash::group_hash_axioms;

/// The number of edges of a complete graph on `n` nodes.
pub open spec fn complete_edge_count(n: int) -> int {
    n * (n - 1) / 2
}

/// The least element of a non-empty sequence.
pub open spec fn seq_min(s: Seq<NodeId>) -> NodeId
    decreases s.len(),
{
    if s.len() <= 1 {
        s[0]
    } else {
        let m = seq_min(s.drop_last());
        if s.last() < m {
            s.last()
        } else {
            m
        }
    }
}

/// The greatest element of a non-empty sequence.
pub open spec fn seq_max(s: Seq<NodeId>) -> NodeId
    decreases s.len(),
{
    if s.len() <= 1 {
        s[0]
    } else {
        let m = seq_max(s.drop_last());
        if s.last() > m {
            s.last()
        } else {
            m
        }
    }
}

/// No two edge rows share a target.
#[verifier::opaque]
pub open spec fn distinct_targets(tgt: Seq<NodeId>) -> bool {
    forall|a: int, b: int| 0 <= a < b < tgt.len() ==> tgt[a] != tgt[b]
}

/// No node reachable from a listed node lies on a cycle.
#[verifier::opaque]
pub open spec fn no_reachable_cycle(edges: Seq<(NodeId, NodeId)>, ids: Seq<NodeId>) -> bool {
    forall|k: int, v: NodeId| 0 <= k < ids.len() && #[trigger] reachable(edges, ids[k], v) ==> !on_cycle(edges, v)
}

/// Each edge from `x` among the first `n` has its target listed, each
/// listed node is the target of one of them, and where no two rows share a
/// target no node is listed twice.
proof fn lemma_out_targets(src: Seq<NodeId>, tgt: Seq<NodeId>, x: NodeId, n: int)
    requires
        0 <= n <= src.len(),
        src.len() == tgt.len(),
    ensures
        forall|i: int| 0 <= i < n && #[trigger] src[i] == x ==> exists|j: int|
            0 <= j < out_targets(src, tgt, x, n).len() && #[trigger] out_targets(src, tgt, x, n)[j] == tgt[i],
        forall|j: int| #![trigger out_targets(src, tgt, x, n)[j]] 0 <= j < out_targets(src, tgt, x, n).len() ==> exists|i: int|
            0 <= i < n && src[i] == x && #[trigger] tgt[i] == out_targets(src, tgt, x, n)[j],
    decreases n,
{
    if n <= 0 {
        assert(out_targets(src, tgt, x, n).len() == 0);
    }
    if n > 0 {
        lemma_out_targets(src, tgt, x, n - 1);
        let prev = out_targets(src, tgt, x, n - 1);
        let cur = out_targets(src, tgt, x, n);
        if src[n - 1] == x {
            assert(cur == prev.push(tgt[n - 1]));
            assert forall|i: int| 0 <= i < n && #[trigger] src[i] == x implies exists|j: int|
                0 <= j < cur.len() && #[trigger] cur[j] == tgt[i] by {
                if i < n - 1 {
                    let j = choose|j: int| 0 <= j < prev.len() && #[trigger] prev[j] == tgt[i];
                    assert(cur[j] == prev[j]);
                } else {
                    assert(cur[prev.len() as int] == tgt[i]);
                }
            }
            assert forall|j: int| #![trigger cur[j]] 0 <= j < cur.len() implies exists|i: int|
                0 <= i < n && src[i] == x && #[trigger] tgt[i] == cur[j] by {
                if j < prev.len() {
                    assert(cur[j] == prev[j]);
                    let i = choose|i: int| 0 <= i < n - 1 && src[i] == x && #[trigger] tgt[i] == prev[j];
                    assert(0 <= i < n && src[i] == x && tgt[i] == cur[j]);
                } else {
                    assert(cur[j] == tgt[n - 1]);
                    assert(0 <= n - 1 < n && src[n - 1] == x && tgt[n - 1] == cur[j]);
                }
            }
        } else {
            assert(cur == prev);
            assert forall|j: int| #![trigger cur[j]] 0 <= j < cur.len() implies exists|i: int|
                0 <= i < n && src[i] == x && #[trigger] tgt[i] == cur[j] by {
                assert(cur[j] == prev[j]);
                assert(exists|i: int| 0 <= i < n - 1 && src[i] == x && #[trigger] tgt[i] == prev[j]);
                let i = choose|i: int| 0 <= i < n - 1 && src[i] == x && #[trigger] tgt[i] == prev[j];
                assert(0 <= i < n && src[i] == x && tgt[i] == cur[j]);
            }
        }
        assert forall|j: int| #![trigger out_targets(src, tgt, x, n)[j]] 0 <= j < out_targets(src, tgt, x, n).len() implies exists|i: int|
            0 <= i < n && src[i] == x && #[trigger] tgt[i] == out_targets(src, tgt, x, n)[j] by {
            assert(cur[j] == out_targets(src, tgt, x, n)[j]);
            let i = choose|i: int| 0 <= i < n && src[i] == x && #[trigger] tgt[i] == cur[j];
            assert(tgt[i] == out_targets(src, tgt, x, n)[j]);
        }
    }
}

/// Where no two rows share a target, no node is listed twice among the
/// targets of the first `n` rows from `x`.
proof fn lemma_out_targets_distinct(src: Seq<NodeId>, tgt: Seq<NodeId>, x: NodeId, n: int)
    requires
        0 <= n <= src.len(),
        src.len() == tgt.len(),
        distinct_targets(tgt),
    ensures
        out_targets(src, tgt, x, n).no_duplicates(),
    decreases n,
{
    reveal(distinct_targets);
    if n > 0 {
        lemma_out_targets_distinct(src, tgt, x, n - 1);
        lemma_out_targets(src, tgt, x, n - 1);
        let prev = out_targets(src, tgt, x, n - 1);
        let cur = out_targets(src, tgt, x, n);
        if src[n - 1] == x {
            assert(cur == prev.push(tgt[n - 1]));
            {
                assert forall|a: int, b: int| 0 <= a < cur.len() && 0 <= b < cur.len() && a != b implies cur[a] != cur[b] by {
                    if a < prev.len() && b < prev.len() {
                        assert(cur[a] == prev[a] && cur[b] == prev[b]);
                    } else if a < prev.len() {
                        assert(cur[a] == prev[a]);
                        let i = choose|i: int| 0 <= i < n - 1 && src[i] == x && #[trigger] tgt[i] == prev[a];
                        assert(tgt[i] != tgt[n - 1]);
                    } else {
                        assert(cur[b] == prev[b]);
                        let i = choose|i: int| 0 <= i < n - 1 && src[i] == x && #[trigger] tgt[i] == prev[b];
                        assert(tgt[i] != tgt[n - 1]);
                    }
                }
            }
        } else {
            assert(cur == prev);
        }
    }
}

/// Some edge row from a node of `vis` ends at `v`.
#[verifier::opaque]
pub open spec fn has_parent(src: Seq<NodeId>, tgt: Seq<NodeId>, vis: Set<NodeId>, v: NodeId) -> bool {
    exists|e: int| 0 <= e < src.len() && #[trigger] tgt[e] == v && vis.contains(src[e])
}

/// How the acyclicity check came to visit `v`: as the first node of its
/// walk, or from a node visited before it.
#[verifier::opaque]
pub open spec fn visit_origin(
    src: Seq<NodeId>,
    tgt: Seq<NodeId>,
    ids: Seq<NodeId>,
    vis: Set<NodeId>,
    comp: Map<NodeId, nat>,
    tm: Map<NodeId, nat>,
    v: NodeId,
) -> bool {
    v == ids[comp[v] as int] || exists|e: int|
        0 <= e < src.len() && #[trigger] tgt[e] == v && vis.contains(src[e]) && tm[src[e]] < tm[v]
}

/// A node reachable from `a` reaches, along edge `e` leaving it, its target.
proof fn lemma_reach_step(edges: Seq<(NodeId, NodeId)>, a: NodeId, e: int)
    requires
        0 <= e < edges.len(),
        reachable(edges, a, edges[e].0),
    ensures
        reachable(edges, a, edges[e].1),
{
    let p = choose|p: Seq<NodeId>| is_path(edges, p, a, edges[e].0);
    crate::paths::lemma_path_extend(edges, p, a, e);
}

/// An edge from a node that `a` reaches back to `a` puts `a` on a cycle.
proof fn lemma_close_cycle(edges: Seq<(NodeId, NodeId)>, a: NodeId, e: int)
    requires
        0 <= e < edges.len(),
        reachable(edges, a, edges[e].0),
        edges[e].1 == a,
    ensures
        on_cycle(edges, a),
{
    let p = choose|p: Seq<NodeId>| is_path(edges, p, a, edges[e].0);
    crate::paths::lemma_path_extend(edges, p, a, e);
    assert(p.push(a).len() > 1);
}

/// Some walk of at least one edge leads from `v` back to `v`.
pub open spec fn on_cycle(edges: Seq<(NodeId, NodeId)>, v: NodeId) -> bool {
    exists|p: Seq<NodeId>| p.len() > 1 && is_path(edges, p, v, v)
}

/// The order that the acyclicity check visits nodes in, as it bears on an
/// edge `b -> a`: `a` was visited in an earlier walk, or later in the same one.
pub open spec fn before_in_order(comp: Map<NodeId, nat>, tm: Map<NodeId, nat>, a: NodeId, b: NodeId) -> bool {
    comp[a] < comp[b] || (comp[a] == comp[b] && tm[a] > tm[b])
}

/// A number that strictly decreases along the edges of the visited set.
spec fn order_key(comp: Map<NodeId, nat>, tm: Map<NodeId, nat>, clock: nat, v: NodeId) -> int {
    comp[v] * (clock + 1) + (clock - tm[v])
}

proof fn lemma_order_key(comp: Map<NodeId, nat>, tm: Map<NodeId, nat>, clock: nat, a: NodeId, b: NodeId)
    requires
        before_in_order(comp, tm, a, b),
        tm[a] < clock,
        tm[b] < clock,
    ensures
        order_key(comp, tm, clock, a) < order_key(comp, tm, clock, b),
{
    let ca = comp[a] as int;
    let cb = comp[b] as int;
    let k = clock as int + 1;
    if ca < cb {
        assert((ca + 1) * k <= cb * k) by (nonlinear_arith)
            requires
                ca + 1 <= cb,
                k >= 0,
        ;
        assert(ca * k + k == (ca + 1) * k) by (nonlinear_arith);
    }
}

/// Along a walk inside a set closed under edges that go down in
/// `before_in_order`, the key at place `m` is below the key at the start.
proof fn lemma_key_descends(
    edges: Seq<(NodeId, NodeId)>,
    s: Set<NodeId>,
    comp: Map<NodeId, nat>,
    tm: Map<NodeId, nat>,
    clock: nat,
    p: Seq<NodeId>,
    m: int,
)
    requires
        forall|e: int| 0 <= e < edges.len() && #[trigger] s.contains(edges[e].0) ==> s.contains(edges[e].1)
            && before_in_order(comp, tm, edges[e].1, edges[e].0),
        forall|v: NodeId| #[trigger] s.contains(v) ==> tm[v] < clock,
        p.len() > 0,
        s.contains(p[0]),
        forall|i: int| 0 <= i < p.len() - 1 ==> #[trigger] has_edge(edges, p[i], p[i + 1]),
        0 < m < p.len(),
    ensures
        s.contains(p[m]),
        order_key(comp, tm, clock, p[m]) < order_key(comp, tm, clock, p[0]),
    decreases m,
{
    let i = m - 1;
    if m > 1 {
        lemma_key_descends(edges, s, comp, tm, clock, p, m - 1);
    }
    assert(has_edge(edges, p[i], p[i + 1]));
    let e = choose|e: int| 0 <= e < edges.len() && edges[e] == (p[i], p[i + 1]);
    assert(edges[e].0 == p[i] && edges[e].1 == p[m]);
    assert(s.contains(edges[e].0));
    lemma_order_key(comp, tm, clock, p[m], p[i]);
}

/// Where the visited set holds the listed nodes and every edge leaving it
/// stays in it going down in `before_in_order`, no node reachable from a
/// listed node lies on a cycle.
proof fn lemma_ordered_no_cycle(
    edges: Seq<(NodeId, NodeId)>,
    ids: Seq<NodeId>,
    s: Set<NodeId>,
    comp: Map<NodeId, nat>,
    tm: Map<NodeId, nat>,
    clock: nat,
    n: nat,
)
    requires
        n == ids.len(),
        forall|v: NodeId| #[trigger] s.contains(v) ==> tm.contains_key(v) && tm[v] < clock,
        forall|e: int| 0 <= e < edges.len() && #[trigger] s.contains(edges[e].0) ==> s.contains(edges[e].1)
            && before_in_order(comp, tm, edges[e].1, edges[e].0),
        forall|k: int| 0 <= k < n ==> s.contains(#[trigger] ids[k]),
    ensures
        forall|k: int, v: NodeId|
            0 <= k < ids.len() && #[trigger] reachable(edges, ids[k], v) ==> !on_cycle(edges, v),
{
    assert forall|k: int, v: NodeId|
        0 <= k < ids.len() && #[trigger] reachable(edges, ids[k], v) implies !on_cycle(edges, v) by {
        let a = ids[k];
        assert(s.contains(a));
        let w = choose|w: Seq<NodeId>| is_path(edges, w, a, v);
        if w.len() > 1 {
            lemma_key_descends(edges, s, comp, tm, clock, w, w.len() - 1);
        }
        assert(s.contains(v));
        if on_cycle(edges, v) {
            let p = choose|p: Seq<NodeId>| p.len() > 1 && is_path(edges, p, v, v);
            lemma_key_descends(edges, s, comp, tm, clock, p, p.len() - 1);
        }
    }
}

/// Expanding a node whose neighbors are `nbrs`, over the first `j` of them,
/// with `vis` the visited set: an unvisited neighbor is pushed and joins
/// `rec`; a visited one in `rec` ends the check (`None`).
pub open spec fn acyclic_expand(
    nbrs: Seq<NodeId>,
    vis: Set<NodeId>,
    stack: Seq<NodeId>,
    rec: Set<NodeId>,
    j: int,
) -> Option<(Seq<NodeId>, Set<NodeId>)>
    decreases j,
{
    if j <= 0 {
        Some((stack, rec))
    } else {
        match acyclic_expand(nbrs, vis, stack, rec, j - 1) {
            None => None,
            Some((st, rc)) => {
                let nb = nbrs[j - 1];
                if !vis.contains(nb) {
                    Some((st.push(nb), rc.insert(nb)))
                } else if rc.contains(nb) {
                    None
                } else {
                    Some((st, rc))
                }
            },
        }
    }
}

/// At most `fuel` steps of the acyclicity check over the listed nodes
/// `ids` and the edge rows `src`/`tgt`: `Some(result)` where it ends within
/// them. Between walks (`walking` false) a step starts a walk from the next
/// listed node, unless it is visited; during a walk a step takes the top of
/// the stack (a visited node ends the check with false) and expands it, and
/// an empty stack ends the walk and clears the set `rec` of nodes pushed
/// during it.
pub open spec fn acyclic_run(
    src: Seq<NodeId>,
    tgt: Seq<NodeId>,
    ids: Seq<NodeId>,
    i: int,
    stack: Seq<NodeId>,
    vis: Set<NodeId>,
    rec: Set<NodeId>,
    walking: bool,
    fuel: nat,
) -> Option<bool>
    decreases fuel,
{
    if fuel == 0 {
        None
    } else if !walking {
        if i >= ids.len() {
            Some(true)
        } else if vis.contains(ids[i]) {
            acyclic_run(src, tgt, ids, i + 1, stack, vis, rec, false, (fuel - 1) as nat)
        } else {
            acyclic_run(src, tgt, ids, i, seq![ids[i]], vis, rec.insert(ids[i]), true, (fuel - 1) as nat)
        }
    } else if stack.len() == 0 {
        acyclic_run(src, tgt, ids, i + 1, stack, vis, Set::empty(), false, (fuel - 1) as nat)
    } else {
        let c = stack.last();
        if vis.contains(c) {
            Some(false)
        } else {
            let nbrs = out_targets(src, tgt, c, src.len() as int);
            match acyclic_expand(nbrs, vis.insert(c), stack.drop_last(), rec, nbrs.len() as int) {
                None => Some(false),
                Some((st, rc)) => acyclic_run(src, tgt, ids, i, st, vis.insert(c), rc, true, (fuel - 1) as nat),
            }
        }
    }
}

/// Once the expansion has ended the check, it stays ended.
proof fn lemma_expand_ends(nbrs: Seq<NodeId>, vis: Set<NodeId>, stack: Seq<NodeId>, rec: Set<NodeId>, j: int, k: int)
    requires
        0 <= j <= k,
        acyclic_expand(nbrs, vis, stack, rec, j) is None,
    ensures
        acyclic_expand(nbrs, vis, stack, rec, k) is None,
    decreases k - j,
{
    if j < k {
        lemma_expand_ends(nbrs, vis, stack, rec, j + 1, k);
    }
}

impl Graph {
    /// Whether the graph has `n·(n−1)/2` edges for its `n` nodes, with
    /// `n > 1`. A single-node graph is never complete.
    pub fn is_complete(&self) -> (r: bool)
        ensures
            r == (self.node_ids().len() > 1 && self.sources().len() == complete_edge_count(
                self.node_ids().len() as int,
            )),
    {
        let num_nodes = self.num_nodes();
        let num_edges = self.num_edges();
        if num_nodes <= 1 {
            return false;
        }
        let n = num_nodes as u128;
        proof {
            assert(n * (n - 1) <= 0xffff_ffff_ffff_ffff * 0xffff_ffff_ffff_ffff) by (nonlinear_arith)
                requires
                    1 < n <= 0xffff_ffff_ffff_ffff,
            ;
        }
        let expected = n * (n - 1) / 2;
        expected == num_edges as u128
    }

    /// Whether a breadth-first search from the least node id reaches the
    /// greatest; false for a graph without nodes. This looks at those two
    /// nodes only, not at the nodes between them.
    pub fn is_connected(&self) -> (r: bool)
        ensures
            r == (self.node_ids().len() > 0 && reachable(
                self.edge_pairs(),
                seq_min(self.node_ids()),
                seq_max(self.node_ids()),
            )),
    {
        let n = self.num_nodes();
        if n == 0 {
            return false;
        }
        let ghost ids = self.node_ids();
        let first = match self.node_id(0) {
            Ok(v) => v,
            Err(_) => 0,
        };
        let mut lo = first;
        let mut hi = first;
        let mut i: usize = 1;
        proof {
            assert(ids.take(1).len() == 1);
        }
        while i < n
            invariant
                ids == self.node_ids(),
                n == ids.len(),
                1 <= i <= n,
                lo == seq_min(ids.take(i as int)),
                hi == seq_max(ids.take(i as int)),
            decreases n - i,
        {
            let v = match self.node_id(i) {
                Ok(v) => v,
                Err(_) => lo,
            };
            proof {
                assert(ids.take(i + 1).drop_last() =~= ids.take(i as int));
                assert(ids.take(i + 1).last() == v);
            }
            if v < lo {
                lo = v;
            }
            if v > hi {
                hi = v;
            }
            i += 1;
        }
        proof {
            assert(ids.take(n as int) =~= ids);
        }
        let result = breath_first_search(self, lo, hi);
        result.is_some()
    }

    /// The acyclicity check. From each listed node not yet visited, a
    /// depth-first walk with an explicit stack: a node taken from the stack
    /// that is visited already means a cycle; otherwise it is marked visited,
    /// and each of its neighbors is pushed if not visited, or means a cycle if
    /// visited and pushed during this walk. The set of nodes pushed during a
    /// walk is cleared only when the walk ends.
    ///
    /// The result is the outcome of [`acyclic_run`], which models this check
    /// step by step. A true result means that no node reachable from a listed
    /// node lies on a cycle; where that holds and no two edge rows share a
    /// target, the result is true. (False may also come where two walks of
    /// one search meet without a cycle.)
    #[verifier::spinoff_prover]
    #[verifier::rlimit(100)]
    pub fn is_acyclic(&self) -> (r: bool)
        ensures
            r ==> no_reachable_cycle(self.edge_pairs(), self.node_ids()),
            no_reachable_cycle(self.edge_pairs(), self.node_ids()) && distinct_targets(self.targets()) ==> r,
            exists|fuel: nat| acyclic_run(
                self.sources(),
                self.targets(),
                self.node_ids(),
                0,
                seq![],
                Set::empty(),
                Set::empty(),
                false,
                fuel,
            ) == Some(r),
    {
        let num = self.num_nodes();
        let ghost ids = self.node_ids();
        let ghost edges = self.edge_pairs();
        let ghost space = search_space(edges, 0).union(ids.to_set());
        let ghost mut comp: Map<NodeId, nat> = Map::empty();
        let ghost mut tm: Map<NodeId, nat> = Map::empty();
        let ghost mut clock: nat = 0;
        let ghost src = self.sources();
        let ghost tgt = self.targets();
        let ghost h = no_reachable_cycle(edges, ids) && distinct_targets(tgt);
        let ghost mut count: nat = 0;
        proof {
            lemma_search_space(edges, 0);
            vstd::seq_lib::seq_to_set_is_finite(ids);
        }
        let mut visited: HashSet<NodeId> = HashSet::new();
        let mut stack: Vec<NodeId> = Vec::new();
        let mut recursion_stack: HashSet<NodeId> = HashSet::new();
        let mut i: usize = 0;
        proof {
            assert(stack@ =~= seq![]);
            assert(visited@ =~= Set::<NodeId>::empty());
            assert(recursion_stack@ =~= Set::<NodeId>::empty());
        }
        while i < num
            invariant
                self.columns_valid(),
                ids == self.node_ids(),
                edges == self.edge_pairs(),
                num == ids.len(),
                0 <= i <= num,
                space == search_space(edges, 0).union(ids.to_set()),
                space.finite(),
                forall|e: int| 0 <= e < edges.len() ==> space.contains(#[trigger] edges[e].1),
                visited@.subset_of(space),
                stack@.len() == 0,
                forall|v: NodeId| #[trigger] visited@.contains(v) ==> comp.contains_key(v) && tm.contains_key(v)
                    && comp[v] < i && tm[v] < clock,
                forall|e: int| 0 <= e < edges.len() && #[trigger] visited@.contains(edges[e].0) ==> visited@.contains(
                    edges[e].1,
                ) && before_in_order(comp, tm, edges[e].1, edges[e].0),
                forall|k: int| 0 <= k < i ==> visited@.contains(#[trigger] ids[k]),
                src == self.sources(),
                tgt == self.targets(),
                h == (no_reachable_cycle(edges, ids) && distinct_targets(tgt)),
                forall|v: NodeId| !recursion_stack@.contains(v),
                forall|f: nat| #[trigger] acyclic_run(src, tgt, ids, 0, seq![], Set::empty(), Set::empty(), false, count + f)
                    == acyclic_run(src, tgt, ids, i as int, stack@, visited@, recursion_stack@, false, f),
                h ==> forall|v: NodeId| #[trigger] visited@.contains(v) ==> visit_origin(src, tgt, ids, visited@, comp, tm, v),
            decreases num - i,
        {
            let start = match self.node_id(i) {
                Ok(v) => v,
                Err(_) => 0,
            };
            proof {
                assert(ids.contains(ids[i as int]));
            }
            if !visited.contains(&start) {
                let ghost st0 = stack@;
                let ghost rc0 = recursion_stack@;
                stack.push(start);
                recursion_stack.insert(start);
                proof {
                    assert(rc0 =~= Set::<NodeId>::empty());
                    assert(recursion_stack@ =~= rc0.insert(start));
                    assert(stack@ =~= seq![ids[i as int]]);
                    assert forall|f: nat| #[trigger] acyclic_run(src, tgt, ids, 0, seq![], Set::empty(), Set::empty(), false, (count + 1) + f)
                        == acyclic_run(src, tgt, ids, i as int, stack@, visited@, recursion_stack@, true, f) by {
                        assert(acyclic_run(src, tgt, ids, 0, seq![], Set::empty(), Set::empty(), false, count + (f + 1))
                            == acyclic_run(src, tgt, ids, i as int, st0, visited@, rc0, false, f + 1));
                    }
                    count = count + 1;
                    assert(stack@ =~= seq![start]);
                    crate::paths::lemma_path_single(edges, start);
                    assert(is_path(edges, seq![start], start, start));
                }
                while stack.len() > 0
                    invariant
                        self.columns_valid(),
                        ids == self.node_ids(),
                        edges == self.edge_pairs(),
                        num == ids.len(),
                        i < num,
                        start == ids[i as int],
                        space.finite(),
                        forall|e: int| 0 <= e < edges.len() ==> space.contains(#[trigger] edges[e].1),
                        visited@.subset_of(space),
                        forall|k: int| 0 <= k < stack@.len() ==> space.contains(#[trigger] stack@[k]),
                        forall|k: int| 0 <= k < stack@.len() ==> recursion_stack@.contains(#[trigger] stack@[k]),
                        visited@.contains(start) || (stack@.len() > 0 && stack@[0] == start),
                        forall|v: NodeId| #[trigger] visited@.contains(v) ==> comp.contains_key(v) && tm.contains_key(v)
                            && comp[v] <= i && tm[v] < clock && (comp[v] == i ==> recursion_stack@.contains(v)),
                        forall|e: int| 0 <= e < edges.len() && #[trigger] visited@.contains(edges[e].0) ==> (
                        visited@.contains(edges[e].1) && before_in_order(comp, tm, edges[e].1, edges[e].0)) || (
                        comp[edges[e].0] == i && !visited@.contains(edges[e].1) && exists|k: int|
                            0 <= k < stack@.len() && #[trigger] stack@[k] == edges[e].1),
                        forall|k: int| 0 <= k < i ==> visited@.contains(#[trigger] ids[k]),
                        src == self.sources(),
                        tgt == self.targets(),
                        h == (no_reachable_cycle(edges, ids) && distinct_targets(tgt)),
                        h ==> (stack@ == seq![start] && !visited@.contains(start)) || forall|k: int|
                            0 <= k < stack@.len() ==> !visited@.contains(#[trigger] stack@[k]) && has_parent(
                                src,
                                tgt,
                                visited@,
                                stack@[k],
                            ),
                        h ==> stack@.no_duplicates(),
                        h ==> forall|k: int| 0 <= k < stack@.len() ==> reachable(edges, start, #[trigger] stack@[k]),
                        h ==> forall|v: NodeId| #[trigger] visited@.contains(v) ==> (comp[v] == i ==> reachable(
                            edges,
                            start,
                            v,
                        )) && visit_origin(src, tgt, ids, visited@, comp, tm, v),
                        forall|v: NodeId| #[trigger] recursion_stack@.contains(v) && visited@.contains(v) ==> comp[v] == i,
                        forall|f: nat| #[trigger] acyclic_run(src, tgt, ids, 0, seq![], Set::empty(), Set::empty(), false, count + f)
                            == acyclic_run(src, tgt, ids, i as int, stack@, visited@, recursion_stack@, true, f),
                    decreases space.difference(visited@).len(), stack@.len(),
                {
                    let ghost s0 = stack@;
                    let current = match stack.pop() {
                        Some(v) => v,
                        None => return true,
                    };
                    proof {
                        assert(s0[s0.len() - 1] == current);
                        if s0.len() > 1 {
                            assert(stack@[0] == s0[0]);
                        }
                    }
                    let ghost before = visited@;
                    let ghost rec0 = recursion_stack@;
                    if !visited.insert(current) {
                        proof {
                            assert(acyclic_run(src, tgt, ids, 0, seq![], Set::empty(), Set::empty(), false, count + 1)
                                == acyclic_run(src, tgt, ids, i as int, s0, before, rec0, true, 1));
                            if h {
                                if s0 != seq![start] {
                                    assert(!before.contains(s0[s0.len() - 1]));
                                }
                            }
                        }
                        return false;
                    }
                    proof {
                        assert(space.difference(visited@) =~= space.difference(before).remove(current));
                        assert(recursion_stack@.contains(current));
                        let ghost old_tm = tm;
                        let ghost old_comp = comp;
                        comp = comp.insert(current, i as nat);
                        tm = tm.insert(current, clock);
                        clock = clock + 1;
                        if h {
                            reveal(has_parent);
                            reveal(visit_origin);
                            assert(reachable(edges, start, current));
                            assert forall|v: NodeId| #[trigger] visited@.contains(v) implies (comp[v] == i ==> reachable(
                                edges,
                                start,
                                v,
                            )) && visit_origin(src, tgt, ids, visited@, comp, tm, v) by {
                                if v == current {
                                    if s0 != seq![start] {
                                        assert(has_parent(src, tgt, before, current));
                                        let e = choose|e: int| 0 <= e < src.len() && #[trigger] tgt[e] == current && before.contains(src[e]);
                                        assert(tm[src[e]] == old_tm[src[e]]);
                                        assert(tm[src[e]] < tm[current]);
                                    } else {
                                        assert(current == start);
                                    }
                                } else {
                                    assert(before.contains(v));
                                    assert(visit_origin(src, tgt, ids, before, old_comp, old_tm, v));
                                    if v != ids[comp[v] as int] {
                                        let e = choose|e: int| 0 <= e < src.len() && #[trigger] tgt[e] == v && before.contains(src[e]) && old_tm[src[e]] < old_tm[v];
                                        assert(tm[src[e]] == old_tm[src[e]]);
                                    }
                                }
                            }
                            assert forall|k: int| 0 <= k < stack@.len() implies !visited@.contains(#[trigger] stack@[k]) && has_parent(
                                src,
                                tgt,
                                before,
                                stack@[k],
                            ) by {
                                assert(stack@[k] == s0[k]);
                                assert(s0 != seq![start]);
                                assert(s0[k] != s0[s0.len() - 1]);
                            }
                            assert forall|k: int| 0 <= k < stack@.len() implies reachable(edges, start, #[trigger] stack@[k]) by {
                                assert(stack@[k] == s0[k]);
                            }
                            assert(stack@.no_duplicates()) by {
                                assert forall|a: int, b: int| 0 <= a < stack@.len() && 0 <= b < stack@.len() && a != b implies stack@[a] != stack@[b] by {
                                    assert(stack@[a] == s0[a] && stack@[b] == s0[b]);
                                }
                            }
                        }
                        assert forall|e: int| 0 <= e < edges.len() && #[trigger] visited@.contains(edges[e].0)
                            && edges[e].0 != current implies (visited@.contains(edges[e].1) && before_in_order(
                            comp,
                            tm,
                            edges[e].1,
                            edges[e].0,
                        )) || (comp[edges[e].0] == i && !visited@.contains(edges[e].1) && exists|k: int|
                            0 <= k < stack@.len() && #[trigger] stack@[k] == edges[e].1) by {
                            assert(before.contains(edges[e].0));
                            if !before.contains(edges[e].1) && edges[e].1 != current {
                                let k = choose|k: int| 0 <= k < s0.len() && #[trigger] s0[k] == edges[e].1;
                                assert(k < s0.len() - 1);
                                assert(stack@[k] == s0[k]);
                            }
                        }
                    }
                    let neighbors = match self.neighbors(current) {
                        Ok(v) => v,
                        Err(_) => Vec::new(),
                    };
                    proof {
                        lemma_out_targets(self.sources(), self.targets(), current, self.sources().len() as int);
                        if h {
                            lemma_out_targets_distinct(self.sources(), self.targets(), current, self.sources().len() as int);
                        }
                        assert forall|jj: int| 0 <= jj < neighbors@.len() implies space.contains(#[trigger] neighbors@[jj]) by {
                            let e = choose|e: int| 0 <= e < self.sources().len() && #[trigger] self.targets()[e] == neighbors@[jj];
                            assert(edges[e].1 == self.targets()[e]);
                        }
                        assert forall|e: int| 0 <= e < edges.len() && edges[e].0 == current implies exists|jj: int|
                            0 <= jj < neighbors@.len() && #[trigger] neighbors@[jj] == edges[e].1 by {
                            assert(self.sources()[e] == current);
                        }
                    }
                    let ghost s1 = stack@;
                    proof {
                        assert(s0.drop_last() =~= s1);
                        if h {
                            assert forall|v: NodeId| #[trigger] before.contains(v) implies tm[v] < tm[current] by {
                                assert(v != current);
                            }
                        }
                    }
                    let mut j: usize = 0;
                    while j < neighbors.len()
                        invariant
                            self.columns_valid(),
                            edges == self.edge_pairs(),
                            neighbors@ == crate::edge::out_targets(self.sources(), self.targets(), current, self.sources().len() as int),
                            forall|e: int| 0 <= e < edges.len() && edges[e].0 == current ==> exists|jj: int|
                                0 <= jj < neighbors@.len() && #[trigger] neighbors@[jj] == edges[e].1,
                            forall|jj: int| 0 <= jj < neighbors@.len() ==> space.contains(#[trigger] neighbors@[jj]),
                            0 <= j <= neighbors@.len(),
                            visited@.contains(current),
                            comp.contains_key(current) && comp[current] == i && tm.contains_key(current),
                            visited@.subset_of(space),
                            ids == self.node_ids(),
                            i < num,
                            num == ids.len(),
                            start == ids[i as int],
                            visited@.contains(start) || (stack@.len() > 0 && stack@[0] == start),
                            forall|k: int| 0 <= k < stack@.len() ==> space.contains(#[trigger] stack@[k]),
                            forall|k: int| 0 <= k < stack@.len() ==> recursion_stack@.contains(#[trigger] stack@[k]),
                            forall|v: NodeId| #[trigger] visited@.contains(v) ==> comp.contains_key(v) && tm.contains_key(v)
                                && comp[v] <= i && tm[v] < clock && (comp[v] == i ==> recursion_stack@.contains(v)),
                            stack@.len() >= s1.len(),
                            forall|k: int| 0 <= k < s1.len() ==> stack@[k] == s1[k],
                            forall|e: int| 0 <= e < edges.len() && #[trigger] visited@.contains(edges[e].0)
                                && edges[e].0 != current ==> (visited@.contains(edges[e].1) && before_in_order(
                                comp,
                                tm,
                                edges[e].1,
                                edges[e].0,
                            )) || (comp[edges[e].0] == i && !visited@.contains(edges[e].1) && exists|k: int|
                                0 <= k < s1.len() && #[trigger] s1[k] == edges[e].1),
                            forall|jj: int| 0 <= jj < j ==> (visited@.contains(#[trigger] neighbors@[jj]) && before_in_order(
                                comp,
                                tm,
                                neighbors@[jj],
                                current,
                            )) || (!visited@.contains(neighbors@[jj]) && exists|k: int|
                                0 <= k < stack@.len() && #[trigger] stack@[k] == neighbors@[jj]),
                            forall|k: int| 0 <= k < i ==> visited@.contains(#[trigger] ids[k]),
                            src == self.sources(),
                            tgt == self.targets(),
                            h == (no_reachable_cycle(edges, ids) && distinct_targets(tgt)),
                            !before.contains(current),
                            visited@ == before.insert(current),
                            h ==> neighbors@.no_duplicates(),
                            h ==> forall|v: NodeId| #[trigger] before.contains(v) ==> tm[v] < tm[current],
                            h ==> forall|k: int| 0 <= k < s1.len() ==> !visited@.contains(#[trigger] stack@[k]) && has_parent(
                                src,
                                tgt,
                                before,
                                stack@[k],
                            ),
                            h ==> forall|k: int| s1.len() <= k < stack@.len() ==> !visited@.contains(#[trigger] stack@[k])
                                && exists|jj: int| 0 <= jj < j && neighbors@[jj] == stack@[k],
                            h ==> stack@.no_duplicates(),
                            h ==> forall|k: int| 0 <= k < stack@.len() ==> reachable(edges, start, #[trigger] stack@[k]),
                            h ==> reachable(edges, start, current),
                            h ==> forall|v: NodeId| #[trigger] visited@.contains(v) ==> (comp[v] == i ==> reachable(
                                edges,
                                start,
                                v,
                            )) && visit_origin(src, tgt, ids, visited@, comp, tm, v),
                            forall|v: NodeId| #[trigger] recursion_stack@.contains(v) && visited@.contains(v) ==> comp[v] == i,
                            forall|f: nat| #[trigger] acyclic_run(src, tgt, ids, 0, seq![], Set::empty(), Set::empty(), false, count + f)
                                == acyclic_run(src, tgt, ids, i as int, s0, before, rec0, true, f),
                            s0.len() > 0 && s0.last() == current && s0.drop_last() == s1,
                            acyclic_expand(neighbors@, visited@, s1, rec0, j as int) == Some((stack@, recursion_stack@)),
                        decreases neighbors@.len() - j,
                    {
                        let nb = neighbors[j];
                        let ghost sb = stack@;
                        proof {
                            lemma_out_targets(src, tgt, current, src.len() as int);
                            assert(neighbors@[j as int] == nb);
                        }
                        let ghost e0 = choose|e: int| 0 <= e < src.len() && src[e] == current && #[trigger] tgt[e] == nb;
                        proof {
                            assert(0 <= e0 < src.len() && src[e0] == current && tgt[e0] == nb);
                            assert(edges[e0] == (current, nb));
                        }
                        if !visited.contains(&nb) {
                            stack.push(nb);
                            recursion_stack.insert(nb);
                            proof {
                                assert(stack@[stack@.len() - 1] == nb);
                                if sb.len() > 0 {
                                    assert(stack@[0] == sb[0]);
                                }
                                if h {
                                    reveal(has_parent);
                                    reveal(distinct_targets);
                                    lemma_reach_step(edges, start, e0);
                                    assert forall|k: int| 0 <= k < sb.len() implies stack@[k] != nb by {
                                        assert(stack@[k] == sb[k]);
                                        if k < s1.len() {
                                            if sb[k] == nb {
                                                let e = choose|e: int| 0 <= e < src.len() && #[trigger] tgt[e] == nb && before.contains(src[e]);
                                                assert(e == e0);
                                            }
                                        } else {
                                            let jj = choose|jj: int| 0 <= jj < j && neighbors@[jj] == sb[k];
                                            assert(neighbors@[jj] != neighbors@[j as int]);
                                        }
                                    }
                                    assert(stack@.no_duplicates()) by {
                                        assert forall|a: int, b: int| 0 <= a < stack@.len() && 0 <= b < stack@.len() && a != b implies stack@[a] != stack@[b] by {
                                            if a < sb.len() && b < sb.len() {
                                                assert(stack@[a] == sb[a] && stack@[b] == sb[b]);
                                            }
                                        }
                                    }
                                    assert forall|k: int| 0 <= k < stack@.len() implies reachable(edges, start, #[trigger] stack@[k]) by {
                                        if k < sb.len() {
                                            assert(stack@[k] == sb[k]);
                                        }
                                    }
                                    assert forall|k: int| 0 <= k < s1.len() implies !visited@.contains(#[trigger] stack@[k]) && has_parent(
                                        src,
                                        tgt,
                                        before,
                                        stack@[k],
                                    ) by {
                                        assert(stack@[k] == sb[k]);
                                    }
                                    assert forall|k: int| s1.len() <= k < stack@.len() implies !visited@.contains(#[trigger] stack@[k])
                                        && exists|jj: int| 0 <= jj < j + 1 && neighbors@[jj] == stack@[k] by {
                                        if k < sb.len() {
                                            assert(stack@[k] == sb[k]);
                                            let jj = choose|jj: int| 0 <= jj < j && neighbors@[jj] == sb[k];
                                            assert(neighbors@[jj] == stack@[k]);
                                        } else {
                                            assert(neighbors@[j as int] == stack@[k]);
                                        }
                                    }
                                }
                            }
                        } else if recursion_stack.contains(&nb) {
                            proof {
                                if h {
                                    reveal(visit_origin);
                                    reveal(distinct_targets);
                                    reveal(no_reachable_cycle);
                                    assert(visit_origin(src, tgt, ids, visited@, comp, tm, nb));
                                    if nb != ids[comp[nb] as int] {
                                        let e = choose|e: int| 0 <= e < src.len() && #[trigger] tgt[e] == nb && visited@.contains(src[e]) && tm[src[e]] < tm[nb];
                                        assert(e == e0);
                                        if nb != current {
                                            assert(before.contains(nb));
                                        }
                                    }
                                    assert(comp[nb] == i);
                                    assert(nb == start);
                                    lemma_close_cycle(edges, start, e0);
                                    crate::paths::lemma_path_single(edges, start);
                                    assert(is_path(edges, seq![start], start, start));
                                    assert(reachable(edges, ids[i as int], start));
                                }
                                assert(acyclic_expand(neighbors@, visited@, s1, rec0, j + 1) is None);
                                lemma_expand_ends(neighbors@, visited@, s1, rec0, j + 1, neighbors@.len() as int);
                                assert(acyclic_run(src, tgt, ids, 0, seq![], Set::empty(), Set::empty(), false, count + 1)
                                    == acyclic_run(src, tgt, ids, i as int, s0, before, rec0, true, 1));
                            }
                            return false;
                        }
                        proof {
                            assert forall|jj: int| 0 <= jj < j + 1 implies (visited@.contains(#[trigger] neighbors@[jj])
                                && before_in_order(comp, tm, neighbors@[jj], current)) || (!visited@.contains(
                                neighbors@[jj],
                            ) && exists|k: int| 0 <= k < stack@.len() && #[trigger] stack@[k] == neighbors@[jj]) by {
                                if jj < j {
                                    if !visited@.contains(neighbors@[jj]) {
                                        let k = choose|k: int| 0 <= k < sb.len() && #[trigger] sb[k] == neighbors@[jj];
                                        assert(stack@[k] == sb[k]);
                                    }
                                } else if !visited@.contains(nb) {
                                    assert(stack@[stack@.len() - 1] == nb);
                                }
                            }
                        }
                        proof {
                            assert(acyclic_expand(neighbors@, visited@, s1, rec0, j + 1) == Some((stack@, recursion_stack@)));
                        }
                        j += 1;
                    }
                    proof {
                        assert forall|f: nat| #[trigger] acyclic_run(src, tgt, ids, 0, seq![], Set::empty(), Set::empty(), false, (count + 1) + f)
                            == acyclic_run(src, tgt, ids, i as int, stack@, visited@, recursion_stack@, true, f) by {
                            assert(acyclic_run(src, tgt, ids, 0, seq![], Set::empty(), Set::empty(), false, count + (f + 1))
                                == acyclic_run(src, tgt, ids, i as int, s0, before, rec0, true, f + 1));
                        }
                        count = count + 1;
                    }
                    proof {
                        assert forall|e: int| 0 <= e < edges.len() && #[trigger] visited@.contains(edges[e].0) implies (
                        visited@.contains(edges[e].1) && before_in_order(comp, tm, edges[e].1, edges[e].0)) || (
                        comp[edges[e].0] == i && !visited@.contains(edges[e].1) && exists|k: int|
                            0 <= k < stack@.len() && #[trigger] stack@[k] == edges[e].1) by {
                            if edges[e].0 == current {
                                let jj = choose|jj: int| 0 <= jj < neighbors@.len() && #[trigger] neighbors@[jj] == edges[e].1;
                                assert(neighbors@[jj] == edges[e].1);
                            } else if !visited@.contains(edges[e].1) {
                                let k = choose|k: int| 0 <= k < s1.len() && #[trigger] s1[k] == edges[e].1;
                                assert(stack@[k] == s1[k]);
                            }
                        }
                        if h {
                            reveal(has_parent);
                            lemma_out_targets(src, tgt, current, src.len() as int);
                            assert forall|k: int| 0 <= k < stack@.len() implies !visited@.contains(#[trigger] stack@[k])
                                && has_parent(src, tgt, visited@, stack@[k]) by {
                                if k < s1.len() {
                                    let e = choose|e: int| 0 <= e < src.len() && #[trigger] tgt[e] == stack@[k] && before.contains(src[e]);
                                    assert(visited@.contains(src[e]));
                                } else {
                                    let jj = choose|jj: int| 0 <= jj < j && neighbors@[jj] == stack@[k];
                                    assert(neighbors@[jj] == crate::edge::out_targets(src, tgt, current, src.len() as int)[jj]);
                                    let e = choose|e: int| 0 <= e < src.len() && src[e] == current && #[trigger] tgt[e] == neighbors@[jj];
                                    assert(tgt[e] == stack@[k]);
                                }
                            }
                        }
                    }
                }
                let ghost s_end = stack@;
                let ghost r_end = recursion_stack@;
                recursion_stack.clear();
                proof {
                    assert(s_end =~= seq![]);
                    assert forall|f: nat| #[trigger] acyclic_run(src, tgt, ids, 0, seq![], Set::empty(), Set::empty(), false, (count + 1) + f)
                        == acyclic_run(src, tgt, ids, i + 1, stack@, visited@, recursion_stack@, false, f) by {
                        assert(acyclic_run(src, tgt, ids, 0, seq![], Set::empty(), Set::empty(), false, count + (f + 1))
                            == acyclic_run(src, tgt, ids, i as int, s_end, visited@, r_end, true, f + 1));
                        assert(recursion_stack@ =~= Set::<NodeId>::empty());
                    }
                    count = count + 1;
                }
            } else {
                proof {
                    assert forall|f: nat| #[trigger] acyclic_run(src, tgt, ids, 0, seq![], Set::empty(), Set::empty(), false, (count + 1) + f)
                        == acyclic_run(src, tgt, ids, i + 1, stack@, visited@, recursion_stack@, false, f) by {
                        assert(acyclic_run(src, tgt, ids, 0, seq![], Set::empty(), Set::empty(), false, count + (f + 1))
                            == acyclic_run(src, tgt, ids, i as int, stack@, visited@, recursion_stack@, false, f + 1));
                    }
                    count = count + 1;
                }
            }
            i += 1;
        }
        proof {
            lemma_ordered_no_cycle(edges, ids, visited@, comp, tm, clock, num as nat);
            reveal(no_reachable_cycle);
            assert(acyclic_run(src, tgt, ids, 0, seq![], Set::empty(), Set::empty(), false, count + 1)
                == acyclic_run(src, tgt, ids, i as int, stack@, visited@, recursion_stack@, false, 1));
        }
        true
    }
}

} // verus!
