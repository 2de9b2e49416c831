//! The in-process graph store: nodes and edges kept in insertion order, with
//! unique identifiers and every edge between existing nodes.
use vstd::prelude::*;
use crate::ids::{EdgeId, NodeId};
use crate::model::{edge_views, node_views, Edge, EdgeView, Node, NodeView};

verus! {

/// Why a storage operation failed.
#[derive(Debug)]
pub enum StorageError {
    NodeNotFound(NodeId),
    EdgeNotFound(EdgeId),
    AlreadyExists(NodeId),
    DatabaseError(String),
    SerializationError(String),
    ConstraintViolation(String),
}

/// Which edges of a node lead to its neighbours.
#[derive(Debug, Clone, Copy, PartialEq, Eq, Structural)]
pub enum EdgeDirection {
    Outgoing,
    Incoming,
    Both,
}

/// The node with identifier `id`, searching from the most recent entry.
pub open spec fn lookup_node(ns: Seq<NodeView>, id: NodeId) -> Option<NodeView>
    decreases ns.len(),
{
    if ns.len() == 0 {
        None
    } else if ns.last().id == id {
        Some(ns.last())
    } else {
        lookup_node(ns.drop_last(), id)
    }
}

/// The edge with identifier `id`, searching from the most recent entry.
pub open spec fn lookup_edge(es: Seq<EdgeView>, id: EdgeId) -> Option<EdgeView>
    decreases es.len(),
{
    if es.len() == 0 {
        None
    } else if es.last().id == id {
        Some(es.last())
    } else {
        lookup_edge(es.drop_last(), id)
    }
}

pub open spec fn unique_node_ids(ns: Seq<NodeView>) -> bool {
    forall|i: int, j: int| 0 <= i < j < ns.len() ==> ns[i].id != ns[j].id
}

pub open spec fn unique_edge_ids(es: Seq<EdgeView>) -> bool {
    forall|i: int, j: int| 0 <= i < j < es.len() ==> es[i].id != es[j].id
}

/// Both endpoints of every edge are stored nodes.
pub open spec fn endpoints_exist(ns: Seq<NodeView>, es: Seq<EdgeView>) -> bool {
    forall|k: int|
        0 <= k < es.len() ==> lookup_node(ns, #[trigger] es[k].from_node_id) is Some && lookup_node(
            ns,
            es[k].to_node_id,
        ) is Some
}

/// The edges that neither start nor end at `id`, in order.
pub open spec fn edges_not_touching(es: Seq<EdgeView>, id: NodeId) -> Seq<EdgeView>
    decreases es.len(),
{
    if es.len() == 0 {
        es
    } else {
        let rest = edges_not_touching(es.drop_last(), id);
        let e = es.last();
        if e.from_node_id != id && e.to_node_id != id {
            rest.push(e)
        } else {
            rest
        }
    }
}

/// `ns` with the node that has `n`'s identifier replaced by `n`.
pub open spec fn replace_node(ns: Seq<NodeView>, n: NodeView) -> Seq<NodeView> {
    Seq::new(ns.len(), |j: int| if ns[j].id == n.id { n } else { ns[j] })
}

/// `es` with `e` stored under its identifier: an edge with that identifier is
/// replaced, otherwise `e` is appended.
pub open spec fn put_edge(es: Seq<EdgeView>, e: EdgeView) -> Seq<EdgeView> {
    if lookup_edge(es, e.id) is Some {
        Seq::new(es.len(), |j: int| if es[j].id == e.id { e } else { es[j] })
    } else {
        es.push(e)
    }
}

pub proof fn lemma_lookup_node(ns: Seq<NodeView>, id: NodeId)
    ensures
        lookup_node(ns, id) is Some <==> exists|k: int| 0 <= k < ns.len() && ns[k].id == id,
        lookup_node(ns, id) matches Some(n) ==> n.id == id && ns.contains(n),
    decreases ns.len(),
{
    if ns.len() > 0 {
        lemma_lookup_node(ns.drop_last(), id);
        if ns.last().id != id {
            if exists|k: int| 0 <= k < ns.len() && ns[k].id == id {
                let k = choose|k: int| 0 <= k < ns.len() && ns[k].id == id;
                assert(ns.drop_last()[k].id == id);
            }
            if lookup_node(ns, id) is Some {
                let n = lookup_node(ns, id).unwrap();
                let j = choose|j: int| 0 <= j < ns.drop_last().len() && ns.drop_last()[j] == n;
                assert(ns[j] == n);
            }
        } else {
            assert(ns[ns.len() - 1] == ns.last());
        }
    }
}

pub proof fn lemma_lookup_node_at(ns: Seq<NodeView>, id: NodeId, k: int)
    requires
        unique_node_ids(ns),
        0 <= k < ns.len(),
        ns[k].id == id,
    ensures
        lookup_node(ns, id) == Some(ns[k]),
    decreases ns.len(),
{
    if k != ns.len() - 1 {
        assert(ns.last().id != id);
        lemma_lookup_node_at(ns.drop_last(), id, k);
    }
}

proof fn lemma_lookup_edge(es: Seq<EdgeView>, id: EdgeId)
    ensures
        lookup_edge(es, id) is Some <==> exists|k: int| 0 <= k < es.len() && es[k].id == id,
    decreases es.len(),
{
    if es.len() > 0 {
        lemma_lookup_edge(es.drop_last(), id);
        if es.last().id != id {
            if exists|k: int| 0 <= k < es.len() && es[k].id == id {
                let k = choose|k: int| 0 <= k < es.len() && es[k].id == id;
                assert(es.drop_last()[k].id == id);
            }
        } else {
            assert(es[es.len() - 1] == es.last());
        }
    }
}

proof fn lemma_lookup_edge_at(es: Seq<EdgeView>, id: EdgeId, k: int)
    requires
        unique_edge_ids(es),
        0 <= k < es.len(),
        es[k].id == id,
    ensures
        lookup_edge(es, id) == Some(es[k]),
    decreases es.len(),
{
    if k != es.len() - 1 {
        assert(es.last().id != id);
        lemma_lookup_edge_at(es.drop_last(), id, k);
    }
}

proof fn lemma_edges_not_touching(es: Seq<EdgeView>, id: NodeId)
    ensures
        forall|k: int|
            0 <= k < edges_not_touching(es, id).len() ==> {
                let e = #[trigger] edges_not_touching(es, id)[k];
                e.from_node_id != id && e.to_node_id != id && es.contains(e)
            },
    decreases es.len(),
{
    if es.len() > 0 {
        lemma_edges_not_touching(es.drop_last(), id);
        let rest = edges_not_touching(es.drop_last(), id);
        assert forall|k: int| 0 <= k < edges_not_touching(es, id).len() implies {
            let e = #[trigger] edges_not_touching(es, id)[k];
            e.from_node_id != id && e.to_node_id != id && es.contains(e)
        } by {
            let e = edges_not_touching(es, id)[k];
            if k < rest.len() {
                assert(e == rest[k]);
                let j = choose|j: int| 0 <= j < es.drop_last().len() && es.drop_last()[j] == e;
                assert(es[j] == e);
            } else {
                assert(es[es.len() - 1] == e);
            }
        }
    }
}

proof fn lemma_edges_not_touching_unique(es: Seq<EdgeView>, id: NodeId)
    requires
        unique_edge_ids(es),
    ensures
        unique_edge_ids(edges_not_touching(es, id)),
        forall|k: int|
            0 <= k < edges_not_touching(es, id).len() ==> lookup_edge(es.drop_last(), #[trigger] edges_not_touching(es, id)[k].id) is Some || k == edges_not_touching(es, id).len() - 1,
    decreases es.len(),
{
    if es.len() > 0 {
        let d = es.drop_last();
        assert(unique_edge_ids(d));
        lemma_edges_not_touching_unique(d, id);
        lemma_edges_not_touching(d, id);
        let rest = edges_not_touching(d, id);
        assert forall|k: int| 0 <= k < rest.len() implies lookup_edge(d, #[trigger] rest[k].id) is Some by {
            let j = choose|j: int| 0 <= j < d.len() && d[j] == rest[k];
            lemma_lookup_edge(d, rest[k].id);
        }
        if es.last().from_node_id != id && es.last().to_node_id != id {
            assert forall|i: int, j: int| 0 <= i < j < rest.push(es.last()).len() implies rest.push(
                es.last(),
            )[i].id != rest.push(es.last())[j].id by {
                if j == rest.len() {
                    let e = rest[i];
                    let m = choose|m: int| 0 <= m < d.len() && d[m] == e;
                    assert(es[m] == e);
                    assert(es[es.len() - 1] == es.last());
                }
            }
        }
    }
}

/// The view of an optional edge-type filter.
pub open spec fn opt_text(t: Option<&str>) -> Option<Seq<char>> {
    match t {
        Some(x) => Some(x@),
        None => None,
    }
}

/// `e` passes the optional edge-type filter `t`.
pub open spec fn type_ok(e: EdgeView, t: Option<Seq<char>>) -> bool {
    match t {
        Some(x) => e.edge_type == x,
        None => true,
    }
}

/// The edges leaving `id` that pass the type filter, in order.
pub open spec fn edges_from(es: Seq<EdgeView>, id: NodeId, t: Option<Seq<char>>) -> Seq<EdgeView>
    decreases es.len(),
{
    if es.len() == 0 {
        es
    } else {
        let rest = edges_from(es.drop_last(), id, t);
        if es.last().from_node_id == id && type_ok(es.last(), t) {
            rest.push(es.last())
        } else {
            rest
        }
    }
}

/// The edges arriving at `id` that pass the type filter, in order.
pub open spec fn edges_to(es: Seq<EdgeView>, id: NodeId, t: Option<Seq<char>>) -> Seq<EdgeView>
    decreases es.len(),
{
    if es.len() == 0 {
        es
    } else {
        let rest = edges_to(es.drop_last(), id, t);
        if es.last().to_node_id == id && type_ok(es.last(), t) {
            rest.push(es.last())
        } else {
            rest
        }
    }
}

/// The neighbour that the edge `e` gives `id` in direction `d`, if any.
pub open spec fn neighbor_via(e: EdgeView, id: NodeId, t: Option<Seq<char>>, d: EdgeDirection) -> Option<NodeId> {
    if !type_ok(e, t) {
        None
    } else {
        match d {
            EdgeDirection::Outgoing => if e.from_node_id == id {
                Some(e.to_node_id)
            } else {
                None
            },
            EdgeDirection::Incoming => if e.to_node_id == id {
                Some(e.from_node_id)
            } else {
                None
            },
            EdgeDirection::Both => if e.from_node_id == id {
                Some(e.to_node_id)
            } else if e.to_node_id == id {
                Some(e.from_node_id)
            } else {
                None
            },
        }
    }
}

/// The neighbour identifiers of `id`, one per matching edge, in edge order.
pub open spec fn neighbor_ids(es: Seq<EdgeView>, id: NodeId, t: Option<Seq<char>>, d: EdgeDirection) -> Seq<NodeId>
    decreases es.len(),
{
    if es.len() == 0 {
        seq![]
    } else {
        let rest = neighbor_ids(es.drop_last(), id, t, d);
        match neighbor_via(es.last(), id, t, d) {
            Some(x) => rest.push(x),
            None => rest,
        }
    }
}

/// The stored nodes among `ids`, in the order of `ids`.
pub open spec fn existing_nodes(ns: Seq<NodeView>, ids: Seq<NodeId>) -> Seq<NodeView>
    decreases ids.len(),
{
    if ids.len() == 0 {
        seq![]
    } else {
        let rest = existing_nodes(ns, ids.drop_last());
        match lookup_node(ns, ids.last()) {
            Some(n) => rest.push(n),
            None => rest,
        }
    }
}

fn matches_type(e: &Edge, t: Option<&str>) -> (r: bool)
    ensures
        r == type_ok(e@, opt_text(t)),
{
    match t {
        Some(x) => crate::text::str_eq(e.edge_type.as_str(), x),
        None => true,
    }
}

/// Reading a node right after storing it under a fresh identifier gives back
/// exactly that node.
pub proof fn create_then_get(ns: Seq<NodeView>, n: NodeView)
    requires
        lookup_node(ns, n.id) is None,
    ensures
        lookup_node(ns.push(n), n.id) == Some(n),
{
    assert(ns.push(n).last() == n);
}

/// Once a node is stored, storing another under the same identifier is refused
/// (the store's `create_node` fails with `AlreadyExists` exactly when the
/// identifier is found), and reading that identifier still gives the first node.
pub proof fn duplicate_rejected(ns: Seq<NodeView>, first: NodeView, second: NodeView)
    requires
        lookup_node(ns, first.id) is None,
        second.id == first.id,
    ensures
        lookup_node(ns.push(first), second.id) == Some(first),
{
    create_then_get(ns, first);
}

/// Deleting node `a` leaves every other node as it was, and no remaining edge
/// touches `a`; in particular, when every edge into `b` came from `a`, none
/// into `b` remains.
pub proof fn cascade_delete(ns: Seq<NodeView>, es: Seq<EdgeView>, a: NodeId, b: NodeId, t: Option<Seq<char>>)
    requires
        a != b,
    ensures
        lookup_node(ns.filter(|n: NodeView| n.id != a), b) == lookup_node(ns, b),
        forall|k: int|
            0 <= k < edges_not_touching(es, a).len() ==> (#[trigger] edges_not_touching(es, a)[k]).from_node_id != a
                && edges_not_touching(es, a)[k].to_node_id != a,
        (forall|k: int| 0 <= k < edges_to(es, b, t).len() ==> (#[trigger] edges_to(es, b, t)[k]).from_node_id == a)
            ==> edges_to(edges_not_touching(es, a), b, t).len() == 0,
{
    lemma_lookup_filter(ns, a, b);
    lemma_edges_not_touching(es, a);
    lemma_edges_to_after_delete(es, a, b, t);
}

proof fn lemma_lookup_filter(ns: Seq<NodeView>, a: NodeId, b: NodeId)
    requires
        a != b,
    ensures
        lookup_node(ns.filter(|n: NodeView| n.id != a), b) == lookup_node(ns, b),
    decreases ns.len(),
{
    reveal(Seq::filter);
    if ns.len() > 0 {
        lemma_lookup_filter(ns.drop_last(), a, b);
        let f = ns.filter(|n: NodeView| n.id != a);
        let g = ns.drop_last().filter(|n: NodeView| n.id != a);
        if ns.last().id != a {
            assert(f == g.push(ns.last()));
            assert(g.push(ns.last()).drop_last() == g);
        } else {
            assert(f == g);
        }
    }
}

proof fn lemma_edges_to_after_delete(es: Seq<EdgeView>, a: NodeId, b: NodeId, t: Option<Seq<char>>)
    ensures
        (forall|k: int| 0 <= k < edges_to(es, b, t).len() ==> (#[trigger] edges_to(es, b, t)[k]).from_node_id == a)
            ==> edges_to(edges_not_touching(es, a), b, t).len() == 0,
    decreases es.len(),
{
    if es.len() > 0 {
        let d = es.drop_last();
        let e = es.last();
        if forall|k: int| 0 <= k < edges_to(es, b, t).len() ==> (#[trigger] edges_to(es, b, t)[k]).from_node_id == a {
            assert forall|k: int| 0 <= k < edges_to(d, b, t).len() implies (#[trigger] edges_to(d, b, t)[k]).from_node_id == a by {
                let full = edges_to(es, b, t);
                let part = edges_to(d, b, t);
                if e.to_node_id == b && type_ok(e, t) {
                    assert(full == part.push(e));
                    assert(full[k] == part[k]);
                } else {
                    assert(full == part);
                }
                assert(full[k].from_node_id == a);
            }
            lemma_edges_to_after_delete(d, a, b, t);
            let kept = edges_not_touching(d, a);
            if e.from_node_id != a && e.to_node_id != a {
                assert(edges_not_touching(es, a) == kept.push(e));
                assert(kept.push(e).drop_last() == kept);
                if e.to_node_id == b && type_ok(e, t) {
                    let last = edges_to(es, b, t).len() - 1;
                    assert(edges_to(es, b, t)[last] == e);
                }
            }
        }
    }
}

/// An in-process graph store.
pub struct InMemoryStorage {
    nodes: Vec<Node>,
    edges: Vec<Edge>,
}

impl InMemoryStorage {
    /// The stored nodes, oldest first.
    pub closed spec fn nodes_view(&self) -> Seq<NodeView> {
        node_views(self.nodes@)
    }

    /// The stored edges, oldest first.
    pub closed spec fn edges_view(&self) -> Seq<EdgeView> {
        edge_views(self.edges@)
    }

    /// Identifiers are unique and every edge joins two stored nodes.
    pub open spec fn wf(&self) -> bool {
        &&& unique_node_ids(self.nodes_view())
        &&& unique_edge_ids(self.edges_view())
        &&& endpoints_exist(self.nodes_view(), self.edges_view())
    }

    /// An empty store.
    pub fn new() -> (r: InMemoryStorage)
        ensures
            r.wf(),
            r.nodes_view().len() == 0,
            r.edges_view().len() == 0,
    {
        let r = InMemoryStorage { nodes: Vec::new(), edges: Vec::new() };
        assert(r.nodes_view() =~= Seq::<NodeView>::empty());
        assert(r.edges_view() =~= Seq::<EdgeView>::empty());
        r
    }

    /// The stored nodes, oldest first.
    pub fn nodes(&self) -> (r: &Vec<Node>)
        ensures
            node_views(r@) == self.nodes_view(),
    {
        &self.nodes
    }

    /// The stored edges, oldest first.
    pub fn edges(&self) -> (r: &Vec<Edge>)
        ensures
            edge_views(r@) == self.edges_view(),
    {
        &self.edges
    }

    pub(crate) fn find_node(&self, id: NodeId) -> (r: Option<usize>)
        requires
            self.wf(),
        ensures
            r matches Some(k) ==> k < self.nodes_view().len() && self.nodes_view()[k as int].id == id
                && lookup_node(self.nodes_view(), id) == Some(self.nodes_view()[k as int]),
            r is None ==> lookup_node(self.nodes_view(), id) is None,
    {
        let mut i: usize = 0;
        while i < self.nodes.len()
            invariant
                self.wf(),
                i <= self.nodes.len(),
                forall|j: int| 0 <= j < i ==> (#[trigger] self.nodes@[j]).id != id,
            decreases self.nodes.len() - i,
        {
            if self.nodes[i].id == id {
                proof {
                    lemma_lookup_node_at(self.nodes_view(), id, i as int);
                }
                return Some(i);
            }
            i = i + 1;
        }
        proof {
            lemma_lookup_node(self.nodes_view(), id);
            if lookup_node(self.nodes_view(), id) is Some {
                let k = choose|k: int| 0 <= k < self.nodes_view().len() && self.nodes_view()[k].id == id;
                assert(self.nodes@[k].id == id);
            }
        }
        None
    }

    fn find_edge(&self, id: EdgeId) -> (r: Option<usize>)
        requires
            self.wf(),
        ensures
            r matches Some(k) ==> k < self.edges_view().len() && self.edges_view()[k as int].id == id
                && lookup_edge(self.edges_view(), id) == Some(self.edges_view()[k as int]),
            r is None ==> lookup_edge(self.edges_view(), id) is None,
    {
        let mut i: usize = 0;
        while i < self.edges.len()
            invariant
                self.wf(),
                i <= self.edges.len(),
                forall|j: int| 0 <= j < i ==> (#[trigger] self.edges@[j]).id != id,
            decreases self.edges.len() - i,
        {
            if self.edges[i].id == id {
                proof {
                    lemma_lookup_edge_at(self.edges_view(), id, i as int);
                }
                return Some(i);
            }
            i = i + 1;
        }
        proof {
            lemma_lookup_edge(self.edges_view(), id);
            if lookup_edge(self.edges_view(), id) is Some {
                let k = choose|k: int| 0 <= k < self.edges_view().len() && self.edges_view()[k].id == id;
                assert(self.edges@[k].id == id);
            }
        }
        None
    }

    /// Stores a copy of `node`; fails with `AlreadyExists` when a node with its
    /// identifier is stored, leaving the store as it was.
    pub fn create_node(&mut self, node: &Node) -> (r: Result<Node, StorageError>)
        requires
            old(self).wf(),
        ensures
            final(self).wf(),
            lookup_node(old(self).nodes_view(), node.id) is Some ==> (r matches Err(
                StorageError::AlreadyExists(i),
            ) && i == node.id) && final(self).nodes_view() == old(self).nodes_view(),
            lookup_node(old(self).nodes_view(), node.id) is None ==> (r matches Ok(n) && n@ == node@)
                && final(self).nodes_view() == old(self).nodes_view().push(node@),
            final(self).edges_view() == old(self).edges_view(),
    {
        if self.find_node(node.id).is_some() {
            return Err(StorageError::AlreadyExists(node.id));
        }
        let ghost ns = self.nodes_view();
        let ghost es = self.edges_view();
        self.nodes.push(node.duplicate());
        proof {
            assert(self.nodes_view() =~= ns.push(node@));
            lemma_lookup_node(ns, node.id);
            assert forall|k: int| 0 <= k < es.len() implies lookup_node(
                self.nodes_view(),
                #[trigger] es[k].from_node_id,
            ) is Some && lookup_node(self.nodes_view(), es[k].to_node_id) is Some by {
                assert(self.nodes_view().drop_last() == ns);
            }
            assert forall|i: int, j: int| 0 <= i < j < self.nodes_view().len() implies self.nodes_view()[i].id
                != self.nodes_view()[j].id by {
                if j == ns.len() {
                    assert(ns[i].id != node.id);
                }
            }
        }
        Ok(node.duplicate())
    }

    /// A copy of the node with identifier `id`; `NodeNotFound` when none is stored.
    pub fn get_node(&self, id: NodeId) -> (r: Result<Node, StorageError>)
        requires
            self.wf(),
        ensures
            lookup_node(self.nodes_view(), id) matches Some(n) ==> (r matches Ok(x) && x@ == n),
            lookup_node(self.nodes_view(), id) is None ==> (r matches Err(StorageError::NodeNotFound(i))
                && i == id),
    {
        match self.find_node(id) {
            Some(k) => Ok(self.nodes[k].duplicate()),
            None => Err(StorageError::NodeNotFound(id)),
        }
    }

    /// Replaces the stored node that has `node`'s identifier; `NodeNotFound`
    /// when none is stored.
    pub fn update_node(&mut self, node: &Node) -> (r: Result<Node, StorageError>)
        requires
            old(self).wf(),
        ensures
            final(self).wf(),
            lookup_node(old(self).nodes_view(), node.id) is Some ==> (r matches Ok(n) && n@ == node@)
                && final(self).nodes_view() == replace_node(old(self).nodes_view(), node@),
            lookup_node(old(self).nodes_view(), node.id) is None ==> (r matches Err(
                StorageError::NodeNotFound(i),
            ) && i == node.id) && final(self).nodes_view() == old(self).nodes_view(),
            final(self).edges_view() == old(self).edges_view(),
    {
        let k = match self.find_node(node.id) {
            Some(k) => k,
            None => return Err(StorageError::NodeNotFound(node.id)),
        };
        let ghost ns = self.nodes_view();
        let ghost es = self.edges_view();
        self.nodes.set(k, node.duplicate());
        proof {
            assert(self.nodes_view() =~= ns.update(k as int, node@));
            assert(replace_node(ns, node@) =~= ns.update(k as int, node@));
            let ns2 = self.nodes_view();
            assert forall|x: NodeId| lookup_node(ns, x) is Some implies #[trigger] lookup_node(ns2, x) is Some by {
                lemma_lookup_node(ns, x);
                lemma_lookup_node(ns2, x);
                let m = choose|m: int| 0 <= m < ns.len() && ns[m].id == x;
                assert(ns2[m].id == x);
            }
            assert forall|k2: int| 0 <= k2 < es.len() implies lookup_node(
                ns2,
                #[trigger] es[k2].from_node_id,
            ) is Some && lookup_node(ns2, es[k2].to_node_id) is Some by {
                assert(lookup_node(ns, es[k2].from_node_id) is Some);
                assert(lookup_node(ns, es[k2].to_node_id) is Some);
            }
        }
        Ok(node.duplicate())
    }

    /// Removes the node with identifier `id` and every edge that starts or ends
    /// at it; `NodeNotFound` when none is stored.
    pub fn delete_node(&mut self, id: NodeId) -> (r: Result<(), StorageError>)
        requires
            old(self).wf(),
        ensures
            final(self).wf(),
            lookup_node(old(self).nodes_view(), id) is Some ==> r is Ok && final(self).nodes_view()
                == old(self).nodes_view().filter(|n: NodeView| n.id != id) && final(self).edges_view()
                == edges_not_touching(old(self).edges_view(), id),
            lookup_node(old(self).nodes_view(), id) is None ==> (r matches Err(
                StorageError::NodeNotFound(i),
            ) && i == id) && final(self).nodes_view() == old(self).nodes_view()
                && final(self).edges_view() == old(self).edges_view(),
            lookup_node(final(self).nodes_view(), id) is None,
    {
        let k = match self.find_node(id) {
            Some(k) => k,
            None => return Err(StorageError::NodeNotFound(id)),
        };
        let ghost ns = self.nodes_view();
        let ghost es = self.edges_view();
        let mut kept: Vec<Edge> = Vec::new();
        let mut i: usize = 0;
        while i < self.edges.len()
            invariant
                i <= self.edges.len(),
                es == edge_views(self.edges@),
                edge_views(kept@) == edges_not_touching(es.subrange(0, i as int), id),
            decreases self.edges.len() - i,
        {
            let ghost before = kept@;
            if self.edges[i].from_node_id != id && self.edges[i].to_node_id != id {
                kept.push(self.edges[i].duplicate());
                assert(edge_views(kept@) =~= edge_views(before).push(es[i as int]));
            } else {
                assert(edge_views(kept@) =~= edge_views(before));
            }
            assert(es.subrange(0, i + 1).drop_last() =~= es.subrange(0, i as int));
            i = i + 1;
        }
        assert(es.subrange(0, i as int) =~= es);
        self.edges = kept;
        self.nodes.remove(k);
        proof {
            let ns2 = self.nodes_view();
            let es2 = self.edges_view();
            assert(ns2 =~= ns.remove(k as int));
            lemma_remove_is_filter(ns, id, k as int);
            lemma_edges_not_touching(es, id);
            lemma_edges_not_touching_unique(es, id);
            assert forall|x: NodeId| x != id && lookup_node(ns, x) is Some implies #[trigger] lookup_node(ns2, x) is Some by {
                lemma_lookup_node(ns, x);
                lemma_lookup_node(ns2, x);
                let m = choose|m: int| 0 <= m < ns.len() && ns[m].id == x;
                if m < k {
                    assert(ns2[m].id == x);
                } else {
                    assert(m != k);
                    assert(ns2[m - 1].id == x);
                }
            }
            assert forall|k2: int| 0 <= k2 < es2.len() implies lookup_node(
                ns2,
                #[trigger] es2[k2].from_node_id,
            ) is Some && lookup_node(ns2, es2[k2].to_node_id) is Some by {
                let e = es2[k2];
                let j = choose|j: int| 0 <= j < es.len() && es[j] == e;
                assert(lookup_node(ns, es[j].from_node_id) is Some);
                assert(lookup_node(ns, es[j].to_node_id) is Some);
            }
            lemma_lookup_node(ns2, id);
            if lookup_node(ns2, id) is Some {
                let m = choose|m: int| 0 <= m < ns2.len() && ns2[m].id == id;
                if m < k {
                    assert(ns[m].id == id);
                } else {
                    assert(ns[m + 1].id == id);
                }
            }
        }
        Ok(())
    }
    /// Stores a copy of `edge` (replacing a stored edge with its identifier);
    /// `NodeNotFound` names the source, or else the target, when it is not stored.
    pub fn create_edge(&mut self, edge: &Edge) -> (r: Result<Edge, StorageError>)
        requires
            old(self).wf(),
        ensures
            final(self).wf(),
            final(self).nodes_view() == old(self).nodes_view(),
            lookup_node(old(self).nodes_view(), edge.from_node_id) is None ==> (r matches Err(
                StorageError::NodeNotFound(i),
            ) && i == edge.from_node_id) && final(self).edges_view() == old(self).edges_view(),
            lookup_node(old(self).nodes_view(), edge.from_node_id) is Some && lookup_node(
                old(self).nodes_view(),
                edge.to_node_id,
            ) is None ==> (r matches Err(StorageError::NodeNotFound(i)) && i == edge.to_node_id)
                && final(self).edges_view() == old(self).edges_view(),
            lookup_node(old(self).nodes_view(), edge.from_node_id) is Some && lookup_node(
                old(self).nodes_view(),
                edge.to_node_id,
            ) is Some ==> (r matches Ok(e) && e@ == edge@) && final(self).edges_view() == put_edge(
                old(self).edges_view(),
                edge@,
            ),
    {
        if self.find_node(edge.from_node_id).is_none() {
            return Err(StorageError::NodeNotFound(edge.from_node_id));
        }
        if self.find_node(edge.to_node_id).is_none() {
            return Err(StorageError::NodeNotFound(edge.to_node_id));
        }
        let ghost ns = self.nodes_view();
        let ghost es = self.edges_view();
        match self.find_edge(edge.id) {
            Some(k) => {
                self.edges.set(k, edge.duplicate());
                proof {
                    assert(self.edges_view() =~= es.update(k as int, edge@));
                    assert(put_edge(es, edge@) =~= es.update(k as int, edge@));
                }
            },
            None => {
                self.edges.push(edge.duplicate());
                proof {
                    assert(self.edges_view() =~= es.push(edge@));
                    lemma_lookup_edge(es, edge.id);
                    assert forall|i: int, j: int| 0 <= i < j < self.edges_view().len() implies self.edges_view()[i].id
                        != self.edges_view()[j].id by {
                        if j == es.len() {
                            assert(es[i].id != edge.id);
                        }
                    }
                }
            },
        }
        proof {
            let es2 = self.edges_view();
            assert forall|k2: int| 0 <= k2 < es2.len() implies lookup_node(
                ns,
                #[trigger] es2[k2].from_node_id,
            ) is Some && lookup_node(ns, es2[k2].to_node_id) is Some by {
                if k2 < es.len() && es2[k2] == es[k2] {
                    assert(lookup_node(ns, es[k2].from_node_id) is Some);
                    assert(lookup_node(ns, es[k2].to_node_id) is Some);
                }
            }
        }
        Ok(edge.duplicate())
    }

    /// A copy of the edge with identifier `id`; `EdgeNotFound` when none is stored.
    pub fn get_edge(&self, id: EdgeId) -> (r: Result<Edge, StorageError>)
        requires
            self.wf(),
        ensures
            lookup_edge(self.edges_view(), id) matches Some(e) ==> (r matches Ok(x) && x@ == e),
            lookup_edge(self.edges_view(), id) is None ==> (r matches Err(StorageError::EdgeNotFound(i))
                && i == id),
    {
        match self.find_edge(id) {
            Some(k) => Ok(self.edges[k].duplicate()),
            None => Err(StorageError::EdgeNotFound(id)),
        }
    }

    /// Removes the edge with identifier `id`; `EdgeNotFound` when none is stored.
    pub fn delete_edge(&mut self, id: EdgeId) -> (r: Result<(), StorageError>)
        requires
            old(self).wf(),
        ensures
            final(self).wf(),
            final(self).nodes_view() == old(self).nodes_view(),
            lookup_edge(old(self).edges_view(), id) is Some ==> r is Ok && lookup_edge(final(self).edges_view(), id) is None
                && final(self).edges_view() == old(self).edges_view().filter(|e: EdgeView| e.id != id),
            lookup_edge(old(self).edges_view(), id) is None ==> (r matches Err(
                StorageError::EdgeNotFound(i),
            ) && i == id) && final(self).edges_view() == old(self).edges_view(),
    {
        let k = match self.find_edge(id) {
            Some(k) => k,
            None => return Err(StorageError::EdgeNotFound(id)),
        };
        let ghost ns = self.nodes_view();
        let ghost es = self.edges_view();
        self.edges.remove(k);
        proof {
            let es2 = self.edges_view();
            assert(es2 =~= es.remove(k as int));
            lemma_edge_remove_is_filter(es, id, k as int);
            assert forall|k2: int| 0 <= k2 < es2.len() implies lookup_node(
                ns,
                #[trigger] es2[k2].from_node_id,
            ) is Some && lookup_node(ns, es2[k2].to_node_id) is Some by {
                if k2 < k {
                    assert(es2[k2] == es[k2]);
                } else {
                    assert(es2[k2] == es[k2 + 1]);
                }
            }
            lemma_lookup_edge(es2, id);
            if lookup_edge(es2, id) is Some {
                let m = choose|m: int| 0 <= m < es2.len() && es2[m].id == id;
                if m < k {
                    assert(es[m].id == id);
                } else {
                    assert(es[m + 1].id == id);
                }
            }
        }
        Ok(())
    }

    /// Copies of the edges leaving `node_id` (of type `edge_type`, if given), in
    /// the order they were stored.
    pub fn get_edges_from(&self, node_id: NodeId, edge_type: Option<&str>) -> (r: Vec<Edge>)
        ensures
            edge_views(r@) == edges_from(self.edges_view(), node_id, opt_text(edge_type)),
    {
        let ghost es = self.edges_view();
        let mut out: Vec<Edge> = Vec::new();
        let mut i: usize = 0;
        while i < self.edges.len()
            invariant
                i <= self.edges.len(),
                es == edge_views(self.edges@),
                edge_views(out@) == edges_from(es.subrange(0, i as int), node_id, opt_text(edge_type)),
            decreases self.edges.len() - i,
        {
            let ghost before = out@;
            if self.edges[i].from_node_id == node_id && matches_type(&self.edges[i], edge_type) {
                out.push(self.edges[i].duplicate());
                assert(edge_views(out@) =~= edge_views(before).push(es[i as int]));
            } else {
                assert(edge_views(out@) =~= edge_views(before));
            }
            assert(es.subrange(0, i + 1).drop_last() =~= es.subrange(0, i as int));
            i = i + 1;
        }
        assert(es.subrange(0, i as int) =~= es);
        out
    }

    /// Copies of the edges arriving at `node_id` (of type `edge_type`, if
    /// given), in the order they were stored.
    pub fn get_edges_to(&self, node_id: NodeId, edge_type: Option<&str>) -> (r: Vec<Edge>)
        ensures
            edge_views(r@) == edges_to(self.edges_view(), node_id, opt_text(edge_type)),
    {
        let ghost es = self.edges_view();
        let mut out: Vec<Edge> = Vec::new();
        let mut i: usize = 0;
        while i < self.edges.len()
            invariant
                i <= self.edges.len(),
                es == edge_views(self.edges@),
                edge_views(out@) == edges_to(es.subrange(0, i as int), node_id, opt_text(edge_type)),
            decreases self.edges.len() - i,
        {
            let ghost before = out@;
            if self.edges[i].to_node_id == node_id && matches_type(&self.edges[i], edge_type) {
                out.push(self.edges[i].duplicate());
                assert(edge_views(out@) =~= edge_views(before).push(es[i as int]));
            } else {
                assert(edge_views(out@) =~= edge_views(before));
            }
            assert(es.subrange(0, i + 1).drop_last() =~= es.subrange(0, i as int));
            i = i + 1;
        }
        assert(es.subrange(0, i as int) =~= es);
        out
    }

    /// The identifiers of the neighbours of `node_id` in `direction`, one per
    /// matching edge, in edge order.
    pub fn neighbor_id_list(&self, node_id: NodeId, edge_type: Option<&str>, direction: EdgeDirection) -> (r: Vec<NodeId>)
        ensures
            r@ == neighbor_ids(self.edges_view(), node_id, opt_text(edge_type), direction),
    {
        let ghost es = self.edges_view();
        let ghost t = opt_text(edge_type);
        let mut ids: Vec<NodeId> = Vec::new();
        let mut i: usize = 0;
        while i < self.edges.len()
            invariant
                i <= self.edges.len(),
                es == edge_views(self.edges@),
                t == opt_text(edge_type),
                ids@ == neighbor_ids(es.subrange(0, i as int), node_id, t, direction),
            decreases self.edges.len() - i,
        {
            let e = &self.edges[i];
            assert(e@ == es[i as int]);
            if matches_type(e, edge_type) {
                match direction {
                    EdgeDirection::Outgoing => {
                        if e.from_node_id == node_id {
                            ids.push(e.to_node_id);
                        }
                    },
                    EdgeDirection::Incoming => {
                        if e.to_node_id == node_id {
                            ids.push(e.from_node_id);
                        }
                    },
                    EdgeDirection::Both => {
                        if e.from_node_id == node_id {
                            ids.push(e.to_node_id);
                        } else if e.to_node_id == node_id {
                            ids.push(e.from_node_id);
                        }
                    },
                }
            }
            assert(es.subrange(0, i + 1).drop_last() =~= es.subrange(0, i as int));
            i = i + 1;
        }
        assert(es.subrange(0, i as int) =~= es);
        ids
    }

    /// Copies of the neighbours of `node_id` in `direction` (over edges of type
    /// `edge_type`, if given): one per matching edge, in edge order, skipping
    /// identifiers of nodes that are not stored.
    pub fn get_neighbors(&self, node_id: NodeId, edge_type: Option<&str>, direction: EdgeDirection) -> (r: Vec<Node>)
        requires
            self.wf(),
        ensures
            node_views(r@) == existing_nodes(
                self.nodes_view(),
                neighbor_ids(self.edges_view(), node_id, opt_text(edge_type), direction),
            ),
    {
        let ids = self.neighbor_id_list(node_id, edge_type, direction);
        let ghost ns = self.nodes_view();
        let mut out: Vec<Node> = Vec::new();
        let mut i: usize = 0;
        while i < ids.len()
            invariant
                self.wf(),
                ns == self.nodes_view(),
                i <= ids.len(),
                node_views(out@) == existing_nodes(ns, ids@.subrange(0, i as int)),
            decreases ids.len() - i,
        {
            let ghost before = out@;
            assert(ids@.subrange(0, i + 1).drop_last() =~= ids@.subrange(0, i as int));
            match self.find_node(ids[i]) {
                Some(k) => {
                    out.push(self.nodes[k].duplicate());
                    assert(node_views(out@) =~= node_views(before).push(ns[k as int]));
                },
                None => {
                    assert(node_views(out@) =~= node_views(before));
                },
            }
            i = i + 1;
        }
        assert(ids@.subrange(0, i as int) =~= ids@);
        out
    }
}

/// Removing the only node with identifier `id` is filtering it out.
proof fn lemma_remove_is_filter(ns: Seq<NodeView>, id: NodeId, k: int)
    requires
        unique_node_ids(ns),
        0 <= k < ns.len(),
        ns[k].id == id,
    ensures
        ns.remove(k) == ns.filter(|n: NodeView| n.id != id),
    decreases ns.len(),
{
    reveal(Seq::filter);
    let p = |n: NodeView| n.id != id;
    if k == ns.len() - 1 {
        lemma_filter_all(ns.drop_last(), id);
        assert(ns.remove(k) =~= ns.drop_last());
    } else {
        lemma_remove_is_filter(ns.drop_last(), id, k);
        assert(ns.remove(k) =~= ns.drop_last().remove(k).push(ns.last()));
        assert(ns.last().id != id);
    }
}

proof fn lemma_filter_all(ns: Seq<NodeView>, id: NodeId)
    requires
        forall|j: int| 0 <= j < ns.len() ==> (#[trigger] ns[j]).id != id,
    ensures
        ns.filter(|n: NodeView| n.id != id) == ns,
    decreases ns.len(),
{
    reveal(Seq::filter);
    if ns.len() > 0 {
        lemma_filter_all(ns.drop_last(), id);
        assert(ns.drop_last().push(ns.last()) =~= ns);
    }
}

proof fn lemma_edge_remove_is_filter(es: Seq<EdgeView>, id: EdgeId, k: int)
    requires
        unique_edge_ids(es),
        0 <= k < es.len(),
        es[k].id == id,
    ensures
        es.remove(k) == es.filter(|e: EdgeView| e.id != id),
    decreases es.len(),
{
    reveal(Seq::filter);
    if k == es.len() - 1 {
        lemma_edge_filter_all(es.drop_last(), id);
        assert(es.remove(k) =~= es.drop_last());
    } else {
        lemma_edge_remove_is_filter(es.drop_last(), id, k);
        assert(es.remove(k) =~= es.drop_last().remove(k).push(es.last()));
        assert(es.last().id != id);
    }
}

proof fn lemma_edge_filter_all(es: Seq<EdgeView>, id: EdgeId)
    requires
        forall|j: int| 0 <= j < es.len() ==> (#[trigger] es[j]).id != id,
    ensures
        es.filter(|e: EdgeView| e.id != id) == es,
    decreases es.len(),
{
    reveal(Seq::filter);
    if es.len() > 0 {
        lemma_edge_filter_all(es.drop_last(), id);
        assert(es.drop_last().push(es.last()) =~= es);
    }
}

} // verus!
