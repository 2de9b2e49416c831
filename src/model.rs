//! Nodes and edges of the graph.
use vstd::prelude::*;
use crate::ids::{random_id, EdgeId, NodeId};

verus! {

/// A point in time: microseconds since 1970-01-01T00:00:00Z.
pub type Timestamp = i64;

/// Relies on `chrono::Utc::now` and `DateTime::timestamp_micros`: the clock's
/// reading; nothing is promised of its value.
#[verifier::external_body]
pub(crate) fn now_micros() -> (r: Timestamp) {
    chrono::Utc::now().timestamp_micros()
}

/// Property map entries: each key with the JSON text of its value.
pub type Properties = Vec<(String, String)>;

pub type PropsView = Seq<(Seq<char>, Seq<char>)>;

pub open spec fn props_view(p: Seq<(String, String)>) -> PropsView {
    Seq::new(p.len(), |k: int| (p[k].0@, p[k].1@))
}

/// A node as a mathematical value.
pub struct NodeView {
    pub id: NodeId,
    pub node_type: Seq<char>,
    pub properties: PropsView,
    pub created_at: Timestamp,
    pub updated_at: Timestamp,
}

/// An edge as a mathematical value.
pub struct EdgeView {
    pub id: EdgeId,
    pub edge_type: Seq<char>,
    pub from_node_id: NodeId,
    pub to_node_id: NodeId,
    pub properties: PropsView,
    pub created_at: Timestamp,
}

/// A typed node with a schema-less property map.
#[derive(Debug)]
pub struct Node {
    pub id: NodeId,
    pub node_type: String,
    pub properties: Properties,
    pub created_at: Timestamp,
    pub updated_at: Timestamp,
}

/// A directed, typed edge between two nodes.
#[derive(Debug)]
pub struct Edge {
    pub id: EdgeId,
    pub edge_type: String,
    pub from_node_id: NodeId,
    pub to_node_id: NodeId,
    pub properties: Properties,
    pub created_at: Timestamp,
}

impl View for Node {
    type V = NodeView;

    open spec fn view(&self) -> NodeView {
        NodeView {
            id: self.id,
            node_type: self.node_type@,
            properties: props_view(self.properties@),
            created_at: self.created_at,
            updated_at: self.updated_at,
        }
    }
}

impl View for Edge {
    type V = EdgeView;

    open spec fn view(&self) -> EdgeView {
        EdgeView {
            id: self.id,
            edge_type: self.edge_type@,
            from_node_id: self.from_node_id,
            to_node_id: self.to_node_id,
            properties: props_view(self.properties@),
            created_at: self.created_at,
        }
    }
}

pub open spec fn node_views(v: Seq<Node>) -> Seq<NodeView> {
    Seq::new(v.len(), |k: int| v[k]@)
}

pub open spec fn edge_views(v: Seq<Edge>) -> Seq<EdgeView> {
    Seq::new(v.len(), |k: int| v[k]@)
}

/// The value stored under `key`: the first entry with that key.
pub open spec fn prop_lookup(p: PropsView, key: Seq<char>) -> Option<Seq<char>>
    decreases p.len(),
{
    if p.len() == 0 {
        None
    } else if p[0].0 == key {
        Some(p[0].1)
    } else {
        prop_lookup(p.drop_first(), key)
    }
}

/// `p` with `key` set to `value`: the first entry with that key replaced, or
/// a new entry at the end.
pub open spec fn prop_set(p: PropsView, key: Seq<char>, value: Seq<char>) -> PropsView
    decreases p.len(),
{
    if p.len() == 0 {
        seq![(key, value)]
    } else if p[0].0 == key {
        p.update(0, (key, value))
    } else {
        seq![p[0]] + prop_set(p.drop_first(), key, value)
    }
}

pub fn clone_props(p: &Properties) -> (r: Properties)
    ensures
        props_view(r@) == props_view(p@),
{
    let mut r: Properties = Vec::new();
    let mut i: usize = 0;
    while i < p.len()
        invariant
            i <= p.len(),
            r@ == p@.subrange(0, i as int),
        decreases p.len() - i,
    {
        let k = p[i].0.clone();
        let v = p[i].1.clone();
        r.push((k, v));
        i = i + 1;
        assert(r@ =~= p@.subrange(0, i as int));
    }
    assert(p@.subrange(0, i as int) == p@);
    r
}

pub open spec fn value_of_found(f: Option<usize>) -> int {
    match f {
        Some(k) => k as int,
        None => -1,
    }
}

/// `k` is the first index whose key is `key` (or -1: no entry has it).
pub open spec fn first_key_at(p: PropsView, key: Seq<char>, k: int) -> bool {
    &&& -1 <= k < p.len()
    &&& forall|j: int| 0 <= j < p.len() && (k == -1 || j < k) ==> #[trigger] p[j].0 != key
    &&& k >= 0 ==> p[k].0 == key
}

proof fn lemma_first_key(p: PropsView, key: Seq<char>, k: int)
    requires
        first_key_at(p, key, k),
    ensures
        prop_lookup(p, key) == (if k == -1 {
            None
        } else {
            Some(p[k].1)
        }),
    decreases p.len(),
{
    if p.len() > 0 && k != 0 {
        let q = p.drop_first();
        assert(p[0].0 != key);
        let k2 = if k == -1 { -1 } else { k - 1 };
        assert forall|j: int| 0 <= j < q.len() && (k2 == -1 || j < k2) implies #[trigger] q[j].0 != key by {
            assert(q[j] == p[j + 1]);
        }
        lemma_first_key(q, key, k2);
    }
}

proof fn lemma_first_key_set(p: PropsView, key: Seq<char>, value: Seq<char>, k: int)
    requires
        first_key_at(p, key, k),
    ensures
        prop_set(p, key, value) == (if k == -1 {
            p.push((key, value))
        } else {
            p.update(k, (key, value))
        }),
    decreases p.len(),
{
    if p.len() == 0 {
        assert(p.push((key, value)) =~= seq![(key, value)]);
    } else if k != 0 {
        let q = p.drop_first();
        assert(p[0].0 != key);
        let k2 = if k == -1 { -1 } else { k - 1 };
        assert forall|j: int| 0 <= j < q.len() && (k2 == -1 || j < k2) implies #[trigger] q[j].0 != key by {
            assert(q[j] == p[j + 1]);
        }
        lemma_first_key_set(q, key, value, k2);
        if k == -1 {
            assert(seq![p[0]] + q.push((key, value)) =~= p.push((key, value)));
        } else {
            assert(seq![p[0]] + q.update(k2, (key, value)) =~= p.update(k, (key, value)));
        }
    }
}

/// The first index whose key is `key`.
fn find_key(p: &Properties, key: &str) -> (r: Option<usize>)
    ensures
        first_key_at(props_view(p@), key@, value_of_found(r)),
{
    let mut i: usize = 0;
    while i < p.len()
        invariant
            i <= p.len(),
            forall|j: int| 0 <= j < i ==> #[trigger] props_view(p@)[j].0 != key@,
        decreases p.len() - i,
    {
        if crate::text::str_eq(p[i].0.as_str(), key) {
            return Some(i);
        }
        i = i + 1;
    }
    None
}

/// No two entries of a property map share a key.
pub open spec fn keys_unique(p: PropsView) -> bool {
    forall|i: int, j: int| 0 <= i < j < p.len() ==> p[i].0 != p[j].0
}

/// Sets `key` to `value` in a property map: the first entry with that key
/// is replaced, otherwise the entry is appended. Keys stay unique.
pub fn set_entry(p: &mut Properties, key: String, value: String)
    ensures
        props_view(final(p)@) == prop_set(props_view(old(p)@), key@, value@),
        keys_unique(props_view(old(p)@)) ==> keys_unique(props_view(final(p)@)),
{
    let ghost start = props_view(p@);
    let ghost kv = (key@, value@);
    let found = find_key(p, key.as_str());
    proof {
        lemma_first_key(start, key@, value_of_found(found));
        lemma_first_key_set(start, key@, value@, value_of_found(found));
    }
    match found {
        Some(k) => {
            p.set(k, (key, value));
            assert(props_view(p@) =~= start.update(k as int, kv));
        },
        None => {
            p.push((key, value));
            assert(props_view(p@) =~= start.push(kv));
        },
    }
    proof {
        let fin = props_view(p@);
        if keys_unique(start) {
            assert forall|i: int, j: int| 0 <= i < j < fin.len() implies fin[i].0 != fin[j].0 by {
                if j == start.len() {
                    assert(fin[i] == start[i]);
                }
            }
        }
    }
}

/// The update time after a touch at clock reading `now`: never earlier than
/// before, nor than the creation time.
pub open spec fn touched(updated_at: Timestamp, created_at: Timestamp, now: Timestamp) -> Timestamp {
    let t = if now > updated_at { now } else { updated_at };
    if t < created_at { created_at } else { t }
}

impl Node {
    /// A node of type `node_type` with a fresh random identifier, created and
    /// updated now.
    pub fn new(node_type: String, properties: Properties) -> (r: Node)
        ensures
            r.node_type@ == node_type@,
            props_view(r.properties@) == props_view(properties@),
            r.created_at == r.updated_at,
    {
        let now = now_micros();
        Node { id: random_id(), node_type, properties, created_at: now, updated_at: now }
    }

    /// The same node under the identifier `id`.
    pub fn with_id(self, id: NodeId) -> (r: Node)
        ensures
            r@ == (NodeView { id, ..self@ }),
    {
        Node { id, ..self }
    }

    /// The JSON text of the property `key`, if set.
    pub fn get_property(&self, key: &str) -> (r: Option<&String>)
        ensures
            prop_lookup(props_view(self.properties@), key@) == (match r {
                Some(s) => Some(s@),
                None => None,
            }),
    {
        let found = find_key(&self.properties, key);
        proof {
            lemma_first_key(props_view(self.properties@), key@, value_of_found(found));
        }
        match found {
            Some(k) => Some(&self.properties[k].1),
            None => None,
        }
    }

    /// Marks the node as updated at clock reading `now`: `updated_at` moves to
    /// `now` unless that is earlier than it already is or than `created_at`.
    pub fn touch(&mut self, now: Timestamp)
        ensures
            final(self)@ == (NodeView { updated_at: touched(old(self).updated_at, old(self).created_at, now), ..old(self)@ }),
    {
        if now > self.updated_at {
            self.updated_at = now;
        }
        if self.updated_at < self.created_at {
            self.updated_at = self.created_at;
        }
    }

    /// Sets the property `key` to the JSON text `value` and touches the node
    /// at the clock's present reading.
    pub fn set_property(&mut self, key: String, value: String)
        ensures
            props_view(final(self).properties@) == prop_set(props_view(old(self).properties@), key@, value@),
            keys_unique(props_view(old(self).properties@)) ==> keys_unique(props_view(final(self).properties@)),
            final(self).id == old(self).id,
            final(self).node_type@ == old(self).node_type@,
            final(self).created_at == old(self).created_at,
            exists|now: Timestamp| final(self).updated_at == touched(old(self).updated_at, old(self).created_at, now),
    {
        set_entry(&mut self.properties, key, value);
        let now = now_micros();
        self.touch(now);
    }

    /// A copy of this node.
    pub fn duplicate(&self) -> (r: Node)
        ensures
            r@ == self@,
    {
        Node {
            id: self.id,
            node_type: self.node_type.clone(),
            properties: clone_props(&self.properties),
            created_at: self.created_at,
            updated_at: self.updated_at,
        }
    }
}

impl Edge {
    /// An edge of type `edge_type` from one node to another, with a fresh random
    /// identifier, created now.
    pub fn new(edge_type: String, from_node_id: NodeId, to_node_id: NodeId, properties: Properties) -> (r: Edge)
        ensures
            r.edge_type@ == edge_type@,
            r.from_node_id == from_node_id,
            r.to_node_id == to_node_id,
            props_view(r.properties@) == props_view(properties@),
    {
        Edge { id: random_id(), edge_type, from_node_id, to_node_id, properties, created_at: now_micros() }
    }

    /// A copy of this edge.
    pub fn duplicate(&self) -> (r: Edge)
        ensures
            r@ == self@,
    {
        Edge {
            id: self.id,
            edge_type: self.edge_type.clone(),
            from_node_id: self.from_node_id,
            to_node_id: self.to_node_id,
            properties: clone_props(&self.properties),
            created_at: self.created_at,
        }
    }
}

} // verus!
