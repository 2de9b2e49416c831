//! Multi-hop traversal over the stored edges.
use vstd::prelude::*;
use crate::ids::NodeId;
use crate::model::{edge_views, node_views, Edge, EdgeView, Node, NodeView};
use crate::store::{lookup_node, lemma_lookup_node, InMemoryStorage};

verus! {

/// The endpoint of `e` across from `x`, if `e` touches `x`.
pub open spec fn across(e: EdgeView, x: NodeId) -> Option<NodeId> {
    if e.from_node_id == x {
        Some(e.to_node_id)
    } else if e.to_node_id == x {
        Some(e.from_node_id)
    } else {
        None
    }
}

/// `x` can be reached from `start` in at most `k` hops, following edges in
/// either direction.
pub open spec fn reachable_within(es: Seq<EdgeView>, start: NodeId, x: NodeId, k: nat) -> bool
    decreases k,
{
    if k == 0 {
        x == start
    } else {
        reachable_within(es, start, x, (k - 1) as nat) || exists|j: int|
            0 <= j < es.len() && (#[trigger] across(es[j], x)) is Some && reachable_within(
                es,
                start,
                across(es[j], x).unwrap(),
                (k - 1) as nat,
            )
    }
}

/// `across` is symmetric: if `e` leads from `x` to `y`, it leads from `y` to `x`.
proof fn lemma_across_back(e: EdgeView, x: NodeId, y: NodeId)
    requires
        across(e, x) == Some(y),
    ensures
        across(e, y) matches Some(z) && (z == x || (e.from_node_id == e.to_node_id && z == y)),
{
}

/// A set of identifiers that holds `start` and is closed under `across` holds
/// everything reachable from `start`.
proof fn lemma_closed_holds_reachable(es: Seq<EdgeView>, start: NodeId, v: Seq<NodeId>, x: NodeId, k: nat)
    requires
        v.contains(start),
        forall|i: int, j: int|
            0 <= i < v.len() && 0 <= j < es.len() ==> (#[trigger] across(es[j], v[i]) matches Some(y) ==> v.contains(y)),
        reachable_within(es, start, x, k),
    ensures
        v.contains(x),
    decreases k,
{
    if k > 0 {
        if reachable_within(es, start, x, (k - 1) as nat) {
            lemma_closed_holds_reachable(es, start, v, x, (k - 1) as nat);
        } else {
            let j = choose|j: int|
                0 <= j < es.len() && (#[trigger] across(es[j], x)) is Some && reachable_within(
                    es,
                    start,
                    across(es[j], x).unwrap(),
                    (k - 1) as nat,
                );
            let y = across(es[j], x).unwrap();
            lemma_closed_holds_reachable(es, start, v, y, (k - 1) as nat);
            let i = choose|i: int| 0 <= i < v.len() && v[i] == y;
            lemma_across_back(es[j], x, y);
            assert(across(es[j], v[i]) is Some);
        }
    }
}

fn contains_id(v: &Vec<NodeId>, x: NodeId) -> (r: bool)
    ensures
        r == v@.contains(x),
{
    let mut i: usize = 0;
    while i < v.len()
        invariant
            i <= v.len(),
            forall|j: int| 0 <= j < i ==> v@[j] != x,
        decreases v.len() - i,
    {
        if v[i] == x {
            return true;
        }
        i = i + 1;
    }
    false
}

fn across_exec(e: &Edge, x: NodeId) -> (r: Option<NodeId>)
    ensures
        r == across(e@, x),
{
    if e.from_node_id == x {
        Some(e.to_node_id)
    } else if e.to_node_id == x {
        Some(e.from_node_id)
    } else {
        None
    }
}

/// The edges of `s` whose two endpoints are within `depth` hops of `center`
/// over the edges `all`.
pub open spec fn edges_within(all: Seq<EdgeView>, s: Seq<EdgeView>, center: NodeId, depth: nat) -> Seq<EdgeView>
    decreases s.len(),
{
    if s.len() == 0 {
        s
    } else {
        let rest = edges_within(all, s.drop_last(), center, depth);
        let e = s.last();
        if reachable_within(all, center, e.from_node_id, depth) && reachable_within(all, center, e.to_node_id, depth) {
            rest.push(e)
        } else {
            rest
        }
    }
}

/// `x` can be reached from `start` in at most `k` hops along outgoing edges.
pub open spec fn reachable_forward(es: Seq<EdgeView>, start: NodeId, x: NodeId, k: nat) -> bool
    decreases k,
{
    if k == 0 {
        x == start
    } else {
        reachable_forward(es, start, x, (k - 1) as nat) || exists|j: int|
            0 <= j < es.len() && (#[trigger] es[j]).to_node_id == x && reachable_forward(
                es,
                start,
                es[j].from_node_id,
                (k - 1) as nat,
            )
    }
}

/// Some edge leads from `a` to `b`.
pub open spec fn linked(es: Seq<EdgeView>, a: NodeId, b: NodeId) -> bool {
    exists|j: int| 0 <= j < es.len() && (#[trigger] es[j]).from_node_id == a && es[j].to_node_id == b
}

/// Each identifier of `p` is linked to the next by an edge.
pub open spec fn is_path(es: Seq<EdgeView>, p: Seq<NodeId>) -> bool {
    forall|i: int| 0 <= i < p.len() - 1 ==> linked(es, #[trigger] p[i], p[i + 1])
}

proof fn lemma_forward_mono(es: Seq<EdgeView>, start: NodeId, x: NodeId, a: nat, b: nat)
    requires
        a <= b,
        reachable_forward(es, start, x, a),
    ensures
        reachable_forward(es, start, x, b),
    decreases b - a,
{
    if a < b {
        lemma_forward_mono(es, start, x, a, (b - 1) as nat);
    }
}

/// A set that holds `start` and the target of every edge leaving it holds
/// everything reachable from `start`.
proof fn lemma_forward_closed(es: Seq<EdgeView>, start: NodeId, v: Seq<NodeId>, x: NodeId, k: nat)
    requires
        v.contains(start),
        forall|j: int| 0 <= j < es.len() && v.contains((#[trigger] es[j]).from_node_id) ==> v.contains(es[j].to_node_id),
        reachable_forward(es, start, x, k),
    ensures
        v.contains(x),
    decreases k,
{
    if k > 0 {
        if reachable_forward(es, start, x, (k - 1) as nat) {
            lemma_forward_closed(es, start, v, x, (k - 1) as nat);
        } else {
            let j = choose|j: int|
                0 <= j < es.len() && (#[trigger] es[j]).to_node_id == x && reachable_forward(
                    es,
                    start,
                    es[j].from_node_id,
                    (k - 1) as nat,
                );
            lemma_forward_closed(es, start, v, es[j].from_node_id, (k - 1) as nat);
        }
    }
}

/// The search tree of a breadth-first walk from `start`: entry `i` was reached
/// from entry `parents[i]` over one edge, at distance `dist[i]`, which no
/// shorter walk reaches.
pub open spec fn bfs_tree(es: Seq<EdgeView>, start: NodeId, v: Seq<NodeId>, parents: Seq<usize>, dist: Seq<nat>, level: nat) -> bool {
    &&& v.len() > 0
    &&& v[0] == start
    &&& no_duplicates(v)
    &&& parents.len() == v.len()
    &&& dist.len() == v.len()
    &&& dist[0] == 0
    &&& forall|i: int|
        0 < i < v.len() ==> (#[trigger] parents[i]) < i && linked(es, v[parents[i] as int], v[i]) && dist[i] == dist[
            parents[i] as int
        ] + 1
    &&& forall|i: int|
        0 <= i < v.len() ==> (#[trigger] dist[i]) <= level && reachable_forward(es, start, v[i], dist[i]) && (dist[i]
            > 0 ==> !reachable_forward(es, start, v[i], (dist[i] - 1) as nat))
}

pub open spec fn no_duplicates(v: Seq<NodeId>) -> bool {
    forall|i: int, j: int| 0 <= i < j < v.len() ==> v[i] != v[j]
}

/// Grows `visited` by every identifier one hop from its first `snapshot`
/// entries that it does not hold yet; returns whether it grew.
fn expand_level(edges: &Vec<Edge>, visited: &mut Vec<NodeId>, Ghost(start): Ghost<NodeId>, Ghost(level): Ghost<nat>) -> (grew: bool)
    requires
        old(visited)@.len() > 0,
        old(visited)@[0] == start,
        no_duplicates(old(visited)@),
        forall|k: int| 0 <= k < old(visited)@.len() ==> reachable_within(edge_views(edges@), start, #[trigger] old(visited)@[k], level),
    ensures
        final(visited)@.len() >= old(visited)@.len(),
        final(visited)@.subrange(0, old(visited)@.len() as int) == old(visited)@,
        grew == (final(visited)@.len() > old(visited)@.len()),
        no_duplicates(final(visited)@),
        forall|k: int| 0 <= k < final(visited)@.len() ==> reachable_within(edge_views(edges@), start, #[trigger] final(visited)@[k], level + 1),
        forall|i: int, j: int|
            0 <= i < old(visited)@.len() && 0 <= j < edges@.len() ==> (#[trigger] across(edge_views(edges@)[j], old(visited)@[i]) matches Some(y)
                ==> final(visited)@.contains(y)),
{
    let ghost es = edge_views(edges@);
    let ghost v0 = visited@;
    let snapshot = visited.len();
    let mut vi: usize = 0;
    while vi < snapshot
        invariant
            es == edge_views(edges@),
            snapshot == v0.len(),
            vi <= snapshot,
            visited@.len() >= snapshot,
            visited@.subrange(0, snapshot as int) == v0,
            no_duplicates(visited@),
            forall|k: int| 0 <= k < v0.len() ==> reachable_within(es, start, #[trigger] v0[k], level),
            forall|k: int| 0 <= k < visited@.len() ==> reachable_within(es, start, #[trigger] visited@[k], level + 1),
            forall|i: int, j: int|
                0 <= i < vi && 0 <= j < es.len() ==> (#[trigger] across(es[j], v0[i]) matches Some(y) ==> visited@.contains(y)),
        decreases snapshot - vi,
    {
        let x = visited[vi];
        assert(x == v0[vi as int]);
        let mut ei: usize = 0;
        while ei < edges.len()
            invariant
                es == edge_views(edges@),
                snapshot == v0.len(),
                vi < snapshot,
                x == v0[vi as int],
                ei <= edges.len(),
                visited@.len() >= snapshot,
                visited@.subrange(0, snapshot as int) == v0,
                no_duplicates(visited@),
                forall|k: int| 0 <= k < v0.len() ==> reachable_within(es, start, #[trigger] v0[k], level),
                forall|k: int| 0 <= k < visited@.len() ==> reachable_within(es, start, #[trigger] visited@[k], level + 1),
                forall|i: int, j: int|
                    0 <= i < vi && 0 <= j < es.len() ==> (#[trigger] across(es[j], v0[i]) matches Some(y) ==> visited@.contains(y)),
                forall|j: int| 0 <= j < ei ==> (#[trigger] across(es[j], x) matches Some(y) ==> visited@.contains(y)),
            decreases edges.len() - ei,
        {
            assert(edges@[ei as int]@ == es[ei as int]);
            match across_exec(&edges[ei], x) {
                Some(y) => {
                    if !contains_id(visited, y) {
                        let ghost before = visited@;
                        visited.push(y);
                        proof {
                            assert(visited@.subrange(0, snapshot as int) =~= before.subrange(0, snapshot as int));
                            assert(reachable_within(es, start, x, level));
                            lemma_across_back(es[ei as int], x, y);
                            assert(reachable_within(es, start, y, level + 1)) by {
                                assert(across(es[ei as int], y) is Some);
                                if across(es[ei as int], y) == Some(x) {
                                } else {
                                    assert(y == x);
                                    assert(reachable_within(es, start, x, (level + 1 - 1) as nat));
                                }
                            }
                            assert forall|k: int| 0 <= k < visited@.len() implies reachable_within(es, start, #[trigger] visited@[k], level + 1) by {
                                if k < before.len() {
                                    assert(visited@[k] == before[k]);
                                }
                            }
                            assert forall|i: int, j: int|
                                0 <= i < vi && 0 <= j < es.len() implies (#[trigger] across(es[j], v0[i]) matches Some(z) ==> visited@.contains(z)) by {
                                if across(es[j], v0[i]) is Some {
                                    let z = across(es[j], v0[i]).unwrap();
                                    assert(before.contains(z));
                                    let m = choose|m: int| 0 <= m < before.len() && before[m] == z;
                                    assert(visited@[m] == z);
                                }
                            }
                            assert forall|j: int| 0 <= j < ei + 1 implies (#[trigger] across(es[j], x) matches Some(z) ==> visited@.contains(z)) by {
                                if j < ei {
                                    if across(es[j], x) is Some {
                                        let z = across(es[j], x).unwrap();
                                        let m = choose|m: int| 0 <= m < before.len() && before[m] == z;
                                        assert(visited@[m] == z);
                                    }
                                } else {
                                    assert(visited@[before.len() as int] == y);
                                }
                            }
                        }
                    }
                },
                None => {},
            }
            ei = ei + 1;
        }
        vi = vi + 1;
    }
    visited.len() > snapshot
}

impl InMemoryStorage {
    /// The identifiers of all nodes other than `start` within `depth` hops of
    /// it over edges of any type and direction, each once, nearest first.
    pub fn related_ids(&self, start: NodeId, depth: usize) -> (r: Vec<NodeId>)
        ensures
            no_duplicates(r@),
            forall|x: NodeId| r@.contains(x) <==> (x != start && reachable_within(self.edges_view(), start, x, depth as nat)),
    {
        let edges = self.edges();
        let ghost es = self.edges_view();
        let mut visited: Vec<NodeId> = Vec::new();
        visited.push(start);
        let mut level: usize = 0;
        let mut closed = false;
        assert forall|x: NodeId| #[trigger] reachable_within(es, start, x, level as nat) implies visited@.contains(x) by {
            assert(visited@[0] == start);
        }
        while level < depth && !closed
            invariant
                es == edge_views(edges@),
                level <= depth,
                visited@.len() > 0,
                visited@[0] == start,
                no_duplicates(visited@),
                forall|k: int| 0 <= k < visited@.len() ==> reachable_within(es, start, #[trigger] visited@[k], level as nat),
                forall|x: NodeId| #[trigger] reachable_within(es, start, x, level as nat) ==> visited@.contains(x),
                closed ==> forall|i: int, j: int|
                    0 <= i < visited@.len() && 0 <= j < es.len() ==> (#[trigger] across(es[j], visited@[i]) matches Some(y) ==> visited@.contains(y)),
            decreases depth - level,
        {
            let ghost v0 = visited@;
            let grew = expand_level(edges, &mut visited, Ghost(start), Ghost(level as nat));
            proof {
                assert(visited@[0] == v0[0]) by {
                    assert(visited@.subrange(0, v0.len() as int)[0] == v0[0]);
                }
                assert forall|x: NodeId| reachable_within(es, start, x, (level + 1) as nat) implies visited@.contains(x) by {
                    if reachable_within(es, start, x, level as nat) {
                        assert(v0.contains(x));
                        let m = choose|m: int| 0 <= m < v0.len() && v0[m] == x;
                        assert(visited@.subrange(0, v0.len() as int)[m] == x);
                    } else {
                        let j = choose|j: int|
                            0 <= j < es.len() && (#[trigger] across(es[j], x)) is Some && reachable_within(es, start, across(es[j], x).unwrap(), level as nat);
                        let y = across(es[j], x).unwrap();
                        assert(v0.contains(y));
                        let m = choose|m: int| 0 <= m < v0.len() && v0[m] == y;
                        lemma_across_back(es[j], x, y);
                        assert(across(es[j], v0[m]) is Some);
                        if across(es[j], y) == Some(x) {
                        } else {
                            assert(x == y);
                            assert(visited@.subrange(0, v0.len() as int)[m] == x);
                        }
                    }
                }
                if !grew {
                    assert(visited@ =~= v0) by {
                        assert(visited@.subrange(0, v0.len() as int) == v0);
                    }
                }
            }
            closed = !grew;
            level = level + 1;
        }
        proof {
            assert forall|x: NodeId| #[trigger] reachable_within(es, start, x, depth as nat) implies visited@.contains(x) by {
                if level == depth {
                } else {
                    assert(visited@.contains(start));
                    lemma_closed_holds_reachable(es, start, visited@, x, depth as nat);
                }
            }
            assert forall|k: int| 0 <= k < visited@.len() implies reachable_within(es, start, #[trigger] visited@[k], depth as nat) by {
                lemma_reachable_mono(es, start, visited@[k], level as nat, depth as nat);
            }
        }
        let mut out: Vec<NodeId> = Vec::new();
        let mut i: usize = 1;
        while i < visited.len()
            invariant
                1 <= i <= visited.len(),
                visited@[0] == start,
                no_duplicates(visited@),
                forall|x: NodeId| #[trigger] reachable_within(es, start, x, depth as nat) ==> visited@.contains(x),
                forall|k: int| 0 <= k < visited@.len() ==> reachable_within(es, start, #[trigger] visited@[k], depth as nat),
                out@ == visited@.subrange(1, i as int),
            decreases visited.len() - i,
        {
            out.push(visited[i]);
            i = i + 1;
            assert(out@ =~= visited@.subrange(1, i as int));
        }
        proof {
            assert(out@ =~= visited@.subrange(1, visited@.len() as int));
            assert forall|x: NodeId| out@.contains(x) <==> (x != start && reachable_within(es, start, x, depth as nat)) by {
                if out@.contains(x) {
                    let m = choose|m: int| 0 <= m < out@.len() && out@[m] == x;
                    assert(visited@[m + 1] == x);
                }
                if x != start && reachable_within(es, start, x, depth as nat) {
                    assert(visited@.contains(x));
                    let m = choose|m: int| 0 <= m < visited@.len() && visited@[m] == x;
                    assert(m != 0);
                    assert(out@[m - 1] == x);
                }
            }
        }
        out
    }
    /// Copies of the stored nodes other than `start` within `depth` hops of it
    /// (over edges of any type, in either direction), each once, nearest first.
    /// Depth 0 finds nothing.
    pub fn related(&self, start: NodeId, depth: usize) -> (r: Vec<Node>)
        requires
            self.wf(),
        ensures
            depth == 0 ==> r@.len() == 0,
            forall|k: int|
                0 <= k < r@.len() ==> (#[trigger] r@[k]).id != start && reachable_within(
                    self.edges_view(),
                    start,
                    r@[k].id,
                    depth as nat,
                ) && lookup_node(self.nodes_view(), r@[k].id) == Some(r@[k]@),
            forall|x: NodeId|
                x != start && reachable_within(self.edges_view(), start, x, depth as nat) && lookup_node(
                    self.nodes_view(),
                    x,
                ) is Some ==> exists|k: int| 0 <= k < r@.len() && (#[trigger] r@[k]).id == x,
            forall|i: int, j: int| 0 <= i < j < r@.len() ==> r@[i].id != r@[j].id,
    {
        let ids = self.related_ids(start, depth);
        let ghost es = self.edges_view();
        let ghost ns = self.nodes_view();
        proof {
            if depth == 0 && ids@.len() > 0 {
                assert(ids@.contains(ids@[0]));
            }
        }
        let out = self.nodes_for_ids(&ids);
        proof {
            assert forall|k: int| 0 <= k < out@.len() implies (#[trigger] out@[k]).id != start && reachable_within(es, start, out@[k].id, depth as nat)
                && lookup_node(ns, out@[k].id) == Some(out@[k]@) by {
                assert(ids@.contains(out@[k].id));
            }
            assert forall|x: NodeId|
                x != start && reachable_within(es, start, x, depth as nat) && lookup_node(ns, x) is Some implies exists|k: int| 0 <= k < out@.len() && (#[trigger] out@[k]).id == x by {
                assert(ids@.contains(x));
                let m = choose|m: int| 0 <= m < ids@.len() && ids@[m] == x;
                assert(lookup_node(ns, ids@[m]) is Some);
            }
        }
        out
    }

    /// Copies of the stored nodes whose identifiers are in `ids`, in that order.
    pub fn nodes_for_ids(&self, ids: &Vec<NodeId>) -> (r: Vec<Node>)
        requires
            self.wf(),
            no_duplicates(ids@),
        ensures
            r@.len() <= ids@.len(),
            forall|k: int| 0 <= k < r@.len() ==> lookup_node(self.nodes_view(), (#[trigger] r@[k]).id) == Some(r@[k]@) && ids@.contains(r@[k].id),
            forall|m: int|
                0 <= m < ids@.len() && lookup_node(self.nodes_view(), #[trigger] ids@[m]) is Some ==> exists|k: int| 0 <= k < r@.len() && (#[trigger] r@[k]).id == ids@[m],
            forall|a: int, b: int| 0 <= a < b < r@.len() ==> r@[a].id != r@[b].id,
    {
        let ghost ns = self.nodes_view();
        let nodes = self.nodes();
        let mut out: Vec<Node> = Vec::new();
        let mut i: usize = 0;
        while i < ids.len()
            invariant
                self.wf(),
                ns == self.nodes_view(),
                ns == node_views(nodes@),
                i <= ids.len(),
                out@.len() <= i,
                no_duplicates(ids@),
                forall|k: int|
                    0 <= k < out@.len() ==> lookup_node(ns, (#[trigger] out@[k]).id) == Some(out@[k]@)
                        && exists|m: int| 0 <= m < i && ids@[m] == out@[k].id,
                forall|m: int|
                    0 <= m < i && lookup_node(ns, #[trigger] ids@[m]) is Some ==> exists|k: int| 0 <= k < out@.len() && (#[trigger] out@[k]).id == ids@[m],
                forall|a: int, b: int| 0 <= a < b < out@.len() ==> out@[a].id != out@[b].id,
            decreases ids.len() - i,
        {
            let x = ids[i];
            let ghost before = out@;
            match self.find_node(x) {
                Some(f) => {
                    out.push(nodes[f].duplicate());
                    proof {
                        assert(out@[out@.len() - 1].id == x);
                        assert forall|a: int, b: int| 0 <= a < b < out@.len() implies out@[a].id != out@[b].id by {
                            assert(out@[a] == before[a]);
                            if b == out@.len() - 1 {
                                let m = choose|m: int| 0 <= m < i && ids@[m] == before[a].id;
                                assert(ids@[m] != ids@[i as int]);
                            } else {
                                assert(out@[b] == before[b]);
                            }
                        }
                        assert forall|m: int|
                            0 <= m < i + 1 && lookup_node(ns, #[trigger] ids@[m]) is Some implies exists|q: int| 0 <= q < out@.len() && (#[trigger] out@[q]).id == ids@[m] by {
                            if m < i {
                                let q = choose|q: int| 0 <= q < before.len() && (#[trigger] before[q]).id == ids@[m];
                                assert(out@[q] == before[q]);
                            } else {
                                assert(out@[out@.len() - 1].id == ids@[m]);
                            }
                        }
                        assert forall|q: int| 0 <= q < out@.len() implies lookup_node(ns, (#[trigger] out@[q]).id) == Some(out@[q]@)
                            && exists|m: int| 0 <= m < i + 1 && ids@[m] == out@[q].id by {
                            if q < before.len() {
                                assert(out@[q] == before[q]);
                                let m = choose|m: int| 0 <= m < i && ids@[m] == before[q].id;
                            } else {
                                assert(ids@[i as int] == out@[q].id);
                            }
                        }
                    }
                },
                None => {
                    proof {
                        assert forall|q: int| 0 <= q < out@.len() implies lookup_node(ns, (#[trigger] out@[q]).id) == Some(out@[q]@)
                            && exists|m: int| 0 <= m < i + 1 && ids@[m] == out@[q].id by {
                            let m = choose|m: int| 0 <= m < i && ids@[m] == out@[q].id;
                        }
                    }
                },
            }
            i = i + 1;
        }
        proof {
            assert forall|k: int| 0 <= k < out@.len() implies lookup_node(ns, (#[trigger] out@[k]).id) == Some(out@[k]@) && ids@.contains(out@[k].id) by {
                let m = choose|m: int| 0 <= m < i && ids@[m] == out@[k].id;
            }
        }
        out
    }

    /// The part of the graph within `depth` hops of `center`: copies of the
    /// stored nodes reachable in that many hops (the center included, if
    /// stored) and of every edge whose two endpoints are both reachable so.
    pub fn subgraph(&self, center: NodeId, depth: usize) -> (r: (Vec<Node>, Vec<Edge>))
        requires
            self.wf(),
        ensures
            forall|k: int|
                0 <= k < r.0@.len() ==> reachable_within(self.edges_view(), center, (#[trigger] r.0@[k]).id, depth as nat)
                    && lookup_node(self.nodes_view(), r.0@[k].id) == Some(r.0@[k]@),
            forall|x: NodeId|
                reachable_within(self.edges_view(), center, x, depth as nat) && lookup_node(self.nodes_view(), x) is Some
                    ==> exists|k: int| 0 <= k < r.0@.len() && (#[trigger] r.0@[k]).id == x,
            edge_views(r.1@) == edges_within(self.edges_view(), self.edges_view(), center, depth as nat),
    {
        let ghost es = self.edges_view();
        let ghost ns = self.nodes_view();
        let mut nodes = self.related(center, depth);
        let ghost rel = nodes@;
        match self.get_node(center) {
            Ok(c) => {
                proof {
                    assert(lookup_node(ns, center) is Some);
                    lemma_lookup_node(ns, center);
                }
                nodes.insert(0, c);
                proof {
                    assert forall|k: int| 0 <= k < nodes@.len() implies reachable_within(es, center, (#[trigger] nodes@[k]).id, depth as nat)
                        && lookup_node(ns, nodes@[k].id) == Some(nodes@[k]@) by {
                        if k == 0 {
                            lemma_reachable_mono(es, center, center, 0, depth as nat);
                        } else {
                            assert(nodes@[k] == rel[k - 1]);
                        }
                    }
                    assert forall|x: NodeId|
                        reachable_within(es, center, x, depth as nat) && lookup_node(ns, x) is Some implies exists|k: int| 0 <= k < nodes@.len() && (#[trigger] nodes@[k]).id == x by {
                        if x == center {
                            assert(nodes@[0].id == x);
                        } else {
                            let k = choose|k: int| 0 <= k < rel.len() && (#[trigger] rel[k]).id == x;
                            assert(nodes@[k + 1] == rel[k]);
                        }
                    }
                }
            },
            Err(_) => {},
        }
        let mut within = self.related_ids(center, depth);
        let ghost rel_ids = within@;
        within.push(center);
        proof {
            lemma_reachable_mono(es, center, center, 0, depth as nat);
            assert forall|x: NodeId| within@.contains(x) <==> reachable_within(es, center, x, depth as nat) by {
                if within@.contains(x) && x != center {
                    let m = choose|m: int| 0 <= m < within@.len() && within@[m] == x;
                    assert(rel_ids[m] == x);
                    assert(rel_ids.contains(x));
                }
                if reachable_within(es, center, x, depth as nat) {
                    if x == center {
                        assert(within@[within@.len() - 1] == x);
                    } else {
                        assert(rel_ids.contains(x));
                        let m = choose|m: int| 0 <= m < rel_ids.len() && rel_ids[m] == x;
                        assert(within@[m] == x);
                    }
                }
            }
        }
        let edges = self.edges();
        let mut kept: Vec<Edge> = Vec::new();
        let mut i: usize = 0;
        while i < edges.len()
            invariant
                es == edge_views(edges@),
                i <= edges.len(),
                forall|x: NodeId| within@.contains(x) <==> reachable_within(es, center, x, depth as nat),
                edge_views(kept@) == edges_within(es, es.subrange(0, i as int), center, depth as nat),
            decreases edges.len() - i,
        {
            let ghost before = edge_views(kept@);
            assert(es.subrange(0, i + 1).drop_last() =~= es.subrange(0, i as int));
            assert(edges@[i as int]@ == es[i as int]);
            if contains_id(&within, edges[i].from_node_id) && contains_id(&within, edges[i].to_node_id) {
                kept.push(edges[i].duplicate());
                assert(edge_views(kept@) =~= before.push(es[i as int]));
            }
            i = i + 1;
        }
        assert(es.subrange(0, i as int) =~= es);
        (nodes, kept)
    }
}

/// Grows the search tree by every target of an edge leaving one of its first
/// entries that it does not hold yet; returns whether it grew.
fn expand_forward(
    edges: &Vec<Edge>,
    visited: &mut Vec<NodeId>,
    parents: &mut Vec<usize>,
    Ghost(dist): Ghost<Seq<nat>>,
    Ghost(start): Ghost<NodeId>,
    Ghost(level): Ghost<nat>,
) -> (r: (bool, Ghost<Seq<nat>>))
    requires
        bfs_tree(edge_views(edges@), start, old(visited)@, old(parents)@, dist, level),
        forall|x: NodeId| #[trigger] reachable_forward(edge_views(edges@), start, x, level) ==> old(visited)@.contains(x),
    ensures
        bfs_tree(edge_views(edges@), start, final(visited)@, final(parents)@, r.1@, level + 1),
        final(visited)@.len() >= old(visited)@.len(),
        final(visited)@.subrange(0, old(visited)@.len() as int) == old(visited)@,
        r.0 == (final(visited)@.len() > old(visited)@.len()),
        forall|i: int, j: int|
            #![trigger edge_views(edges@)[j], old(visited)@[i]]
            0 <= i < old(visited)@.len() && 0 <= j < edges@.len() && edge_views(edges@)[j].from_node_id == old(
                visited,
            )@[i] ==> final(visited)@.contains(edge_views(edges@)[j].to_node_id),
{
    let ghost es = edge_views(edges@);
    let ghost v0 = visited@;
    let ghost mut d = dist;
    let snapshot = visited.len();
    let mut vi: usize = 0;
    while vi < snapshot
        invariant
            es == edge_views(edges@),
            snapshot == v0.len(),
            vi <= snapshot,
            visited@.len() >= snapshot,
            visited@.subrange(0, snapshot as int) == v0,
            bfs_tree(es, start, visited@, parents@, d, level + 1),
            forall|i: int| 0 <= i < snapshot ==> #[trigger] d[i] == dist[i],
            forall|i: int| 0 <= i < snapshot ==> #[trigger] dist[i] <= level,
            forall|x: NodeId| #[trigger] reachable_forward(es, start, x, level) ==> v0.contains(x),
            forall|i: int, j: int|
                #![trigger es[j], v0[i]]
                0 <= i < vi && 0 <= j < es.len() && es[j].from_node_id == v0[i] ==> visited@.contains(es[j].to_node_id),
        decreases snapshot - vi,
    {
        let x = visited[vi];
        assert(x == v0[vi as int]);
        let ghost dx = d[vi as int];
        assert(dx == dist[vi as int]);
        let mut ei: usize = 0;
        while ei < edges.len()
            invariant
                es == edge_views(edges@),
                snapshot == v0.len(),
                vi < snapshot,
                x == v0[vi as int],
                x == visited@[vi as int],
                dx == d[vi as int],
                ei <= edges.len(),
                visited@.len() >= snapshot,
                visited@.subrange(0, snapshot as int) == v0,
                bfs_tree(es, start, visited@, parents@, d, level + 1),
                forall|i: int| 0 <= i < snapshot ==> #[trigger] d[i] == dist[i],
                forall|i: int| 0 <= i < snapshot ==> #[trigger] dist[i] <= level,
                dx <= level,
                forall|x: NodeId| #[trigger] reachable_forward(es, start, x, level) ==> v0.contains(x),
                forall|i: int, j: int|
                    #![trigger es[j], v0[i]]
                0 <= i < vi && 0 <= j < es.len() && es[j].from_node_id == v0[i] ==> visited@.contains(es[j].to_node_id),
                forall|j: int| 0 <= j < ei && (#[trigger] es[j]).from_node_id == x ==> visited@.contains(es[j].to_node_id),
            decreases edges.len() - ei,
        {
            assert(edges@[ei as int]@ == es[ei as int]);
            if edges[ei].from_node_id == x {
                let y = edges[ei].to_node_id;
                if !contains_id(visited, y) {
                    let ghost before = visited@;
                    let ghost pb = parents@;
                    proof {
                        assert(visited@[vi as int] == x);
                        assert(reachable_forward(es, start, x, dx));
                        assert(reachable_forward(es, start, y, dx + 1)) by {
                            assert(es[ei as int].to_node_id == y && reachable_forward(es, start, es[ei as int].from_node_id, (dx + 1 - 1) as nat));
                        }
                        assert(!reachable_forward(es, start, y, dx)) by {
                            if reachable_forward(es, start, y, dx) {
                                lemma_forward_mono(es, start, y, dx, level);
                                let m = choose|m: int| 0 <= m < v0.len() && v0[m] == y;
                                assert(before.subrange(0, snapshot as int)[m] == y);
                                assert(before[m] == y);
                            }
                        }
                    }
                    visited.push(y);
                    parents.push(vi);
                    proof {
                        d = d.push(dx + 1);
                        assert forall|i: int| 0 <= i < snapshot implies #[trigger] d[i] == dist[i] by {
                            assert(d[i] == d.drop_last()[i]);
                        }
                        assert(visited@.subrange(0, snapshot as int) =~= before.subrange(0, snapshot as int));
                        assert(linked(es, visited@[vi as int], y)) by {
                            assert(es[ei as int].from_node_id == x && es[ei as int].to_node_id == y);
                        }
                        assert(bfs_tree(es, start, visited@, parents@, d, level + 1)) by {
                            assert forall|i: int, k: int| 0 <= i < k < visited@.len() implies visited@[i] != visited@[k] by {
                                if k == before.len() {
                                    assert(visited@[i] == before[i]);
                                } else {
                                    assert(visited@[i] == before[i]);
                                    assert(visited@[k] == before[k]);
                                }
                            }
                            assert forall|i: int| 0 < i < visited@.len() implies (#[trigger] parents@[i]) < i && linked(
                                es,
                                visited@[parents@[i] as int],
                                visited@[i],
                            ) && d[i] == d[parents@[i] as int] + 1 by {
                                if i < before.len() {
                                    assert(parents@[i] == pb[i]);
                                    assert(visited@[i] == before[i]);
                                    assert(visited@[pb[i] as int] == before[pb[i] as int]);
                                }
                            }
                            assert forall|i: int| 0 <= i < visited@.len() implies (#[trigger] d[i]) <= level + 1 && reachable_forward(
                                es,
                                start,
                                visited@[i],
                                d[i],
                            ) && (d[i] > 0 ==> !reachable_forward(es, start, visited@[i], (d[i] - 1) as nat)) by {
                                if i < before.len() {
                                    assert(visited@[i] == before[i]);
                                }
                            }
                        }
                        assert forall|i: int, j: int|
                            #![trigger es[j], v0[i]]
                            0 <= i < vi && 0 <= j < es.len() && es[j].from_node_id == v0[i] implies visited@.contains(es[j].to_node_id) by {
                            let m = choose|m: int| 0 <= m < before.len() && before[m] == es[j].to_node_id;
                            assert(visited@[m] == before[m]);
                        }
                        assert forall|j: int| 0 <= j < ei + 1 && (#[trigger] es[j]).from_node_id == x implies visited@.contains(es[j].to_node_id) by {
                            if j < ei {
                                let m = choose|m: int| 0 <= m < before.len() && before[m] == es[j].to_node_id;
                                assert(visited@[m] == before[m]);
                            } else {
                                assert(visited@[before.len() as int] == y);
                            }
                        }
                    }
                }
            }
            ei = ei + 1;
        }
        vi = vi + 1;
    }
    (visited.len() > snapshot, Ghost(d))
}

fn position_of(v: &Vec<NodeId>, x: NodeId) -> (r: Option<usize>)
    ensures
        r matches Some(i) ==> i < v@.len() && v@[i as int] == x,
        r is None ==> !v@.contains(x),
{
    let mut i: usize = 0;
    while i < v.len()
        invariant
            i <= v.len(),
            forall|j: int| 0 <= j < i ==> v@[j] != x,
        decreases v.len() - i,
    {
        if v[i] == x {
            return Some(i);
        }
        i = i + 1;
    }
    None
}

impl InMemoryStorage {
    /// A shortest path from `start` to `end` along outgoing edges of any type,
    /// as the identifiers from `start` to `end` inclusive, if one of at most
    /// `max_depth` hops exists; `[start]` when the two are the same.
    pub fn shortest_path(&self, start: NodeId, end: NodeId, max_depth: usize) -> (r: Option<Vec<NodeId>>)
        ensures
            r matches Some(p) ==> {
                &&& p@.len() > 0
                &&& p@[0] == start
                &&& p@.last() == end
                &&& is_path(self.edges_view(), p@)
                &&& p@.len() <= max_depth + 1 || p@.len() == 1
                &&& (p@.len() >= 2 ==> !reachable_forward(self.edges_view(), start, end, (p@.len() - 2) as nat))
            },
            r is None ==> !reachable_forward(self.edges_view(), start, end, max_depth as nat),
            start == end ==> (r matches Some(p) && p@ == seq![start]),
    {
        let edges = self.edges();
        let ghost es = self.edges_view();
        let mut visited: Vec<NodeId> = Vec::new();
        visited.push(start);
        let mut parents: Vec<usize> = Vec::new();
        parents.push(0);
        let ghost mut dist: Seq<nat> = seq![0nat];
        let mut level: usize = 0;
        let mut closed = false;
        assert forall|x: NodeId| #[trigger] reachable_forward(es, start, x, level as nat) implies visited@.contains(x) by {
            assert(visited@[0] == start);
        }
        assert(bfs_tree(es, start, visited@, parents@, dist, 0)) by {
            assert(visited@[0] == start);
        }
        let mut found = position_of(&visited, end);
        while level < max_depth && !closed && found.is_none()
            invariant
                es == edge_views(edges@),
                level <= max_depth,
                bfs_tree(es, start, visited@, parents@, dist, level as nat),
                forall|x: NodeId| #[trigger] reachable_forward(es, start, x, level as nat) ==> visited@.contains(x),
                closed ==> forall|j: int|
                    0 <= j < es.len() && visited@.contains((#[trigger] es[j]).from_node_id) ==> visited@.contains(es[j].to_node_id),
                found matches Some(i) ==> i < visited@.len() && visited@[i as int] == end,
                found is None ==> !visited@.contains(end),
            decreases max_depth - level,
        {
            let ghost v0 = visited@;
            let (grew, Ghost(d2)) = expand_forward(edges, &mut visited, &mut parents, Ghost(dist), Ghost(start), Ghost(level as nat));
            proof {
                dist = d2;
                assert forall|x: NodeId| #[trigger] reachable_forward(es, start, x, (level + 1) as nat) implies visited@.contains(x) by {
                    if reachable_forward(es, start, x, level as nat) {
                        assert(v0.contains(x));
                        let m = choose|m: int| 0 <= m < v0.len() && v0[m] == x;
                        assert(visited@.subrange(0, v0.len() as int)[m] == x);
                    } else {
                        let j = choose|j: int|
                            0 <= j < es.len() && (#[trigger] es[j]).to_node_id == x && reachable_forward(es, start, es[j].from_node_id, level as nat);
                        assert(v0.contains(es[j].from_node_id));
                        let m = choose|m: int| 0 <= m < v0.len() && v0[m] == es[j].from_node_id;
                        assert(es[j].from_node_id == v0[m]);
                    }
                }
                if !grew {
                    assert(visited@ =~= v0) by {
                        assert(visited@.subrange(0, v0.len() as int) == v0);
                    }
                    assert forall|j: int|
                        0 <= j < es.len() && visited@.contains((#[trigger] es[j]).from_node_id) implies visited@.contains(es[j].to_node_id) by {
                        let m = choose|m: int| 0 <= m < v0.len() && v0[m] == es[j].from_node_id;
                    }
                }
            }
            closed = !grew;
            level = level + 1;
            found = position_of(&visited, end);
        }
        let end_index = match found {
            Some(i) => i,
            None => {
                proof {
                    if reachable_forward(es, start, end, max_depth as nat) {
                        if level == max_depth {
                        } else {
                            assert(visited@.contains(start)) by {
                                assert(visited@[0] == start);
                            }
                            lemma_forward_closed(es, start, visited@, end, max_depth as nat);
                        }
                    }
                }
                return None;
            },
        };
        let mut path: Vec<NodeId> = Vec::new();
        path.push(end);
        let mut idx: usize = end_index;
        while idx != 0
            invariant
                es == edge_views(edges@),
                bfs_tree(es, start, visited@, parents@, dist, level as nat),
                idx < visited@.len(),
                end_index < visited@.len(),
                visited@[end_index as int] == end,
                path@.len() > 0,
                path@[0] == visited@[idx as int],
                path@.last() == end,
                is_path(es, path@),
                path@.len() == dist[end_index as int] - dist[idx as int] + 1,
            decreases idx,
        {
            let p = parents[idx];
            let ghost before = path@;
            path.insert(0, visited[p]);
            proof {
                assert(path@ == seq![visited@[p as int]] + before);
                assert forall|i: int| 0 <= i < path@.len() - 1 implies linked(es, #[trigger] path@[i], path@[i + 1]) by {
                    if i > 0 {
                        assert(path@[i] == before[i - 1]);
                        assert(path@[i + 1] == before[i]);
                    }
                }
            }
            idx = p;
        }
        proof {
            let n = path@.len();
            assert(visited@[0] == start);
            if n >= 2 {
                assert(dist[end_index as int] > 0);
                assert(!reachable_forward(es, start, end, (dist[end_index as int] - 1) as nat));
            }
            if start == end {
                assert(visited@[0] == end);
                assert(end_index == 0) by {
                    if end_index != 0 {
                        assert(visited@[0] != visited@[end_index as int]);
                    }
                }
                assert(path@ =~= seq![start]);
            }
        }
        Some(path)
    }
}

proof fn lemma_reachable_mono(es: Seq<EdgeView>, start: NodeId, x: NodeId, a: nat, b: nat)
    requires
        a <= b,
        reachable_within(es, start, x, a),
    ensures
        reachable_within(es, start, x, b),
    decreases b - a,
{
    if a < b {
        lemma_reachable_mono(es, start, x, a, (b - 1) as nat);
    }
}

} // verus!
