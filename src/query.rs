//! Simple graph queries: node types, exact property values and a limit.
use vstd::prelude::*;
use crate::model::{keys_unique, node_views, prop_lookup, prop_set, props_view, set_entry, Node, NodeView, Properties, PropsView};
use crate::store::InMemoryStorage;
use crate::text::str_eq;

verus! {

/// A query over nodes; every part that is set must hold.
#[derive(Debug)]
pub struct GraphQuery {
    pub node_types: Option<Vec<String>>,
    pub edge_types: Option<Vec<String>>,
    /// Each property must be set to exactly this JSON text.
    pub property_filters: Option<Properties>,
    pub limit: Option<usize>,
}

pub open spec fn strings_view(v: Seq<String>) -> Seq<Seq<char>> {
    Seq::new(v.len(), |k: int| v[k]@)
}

/// `n` passes the type and property parts of `q`.
pub open spec fn query_matches(n: NodeView, q: &GraphQuery) -> bool {
    &&& (q.node_types matches Some(ts) ==> strings_view(ts@).contains(n.node_type))
    &&& (q.property_filters matches Some(fs) ==> forall|k: int|
        0 <= k < fs@.len() ==> prop_lookup(n.properties, (#[trigger] fs@[k]).0@) == Some(fs@[k].1@))
}

/// The nodes of `ns` that pass `q`, in order.
pub open spec fn query_selection(ns: Seq<NodeView>, q: &GraphQuery) -> Seq<NodeView>
    decreases ns.len(),
{
    if ns.len() == 0 {
        ns
    } else {
        let rest = query_selection(ns.drop_last(), q);
        if query_matches(ns.last(), q) {
            rest.push(ns.last())
        } else {
            rest
        }
    }
}

/// The first `limit` of `s`, or all of `s` without a limit.
pub open spec fn truncated<T>(s: Seq<T>, limit: Option<usize>) -> Seq<T> {
    match limit {
        Some(l) => if l < s.len() {
            s.subrange(0, l as int)
        } else {
            s
        },
        None => s,
    }
}

impl GraphQuery {
    /// A query that accepts every node.
    pub fn new() -> (r: GraphQuery)
        ensures
            r.node_types is None,
            r.edge_types is None,
            r.property_filters is None,
            r.limit is None,
    {
        GraphQuery { node_types: None, edge_types: None, property_filters: None, limit: None }
    }

    /// Accepts only nodes of type `node_type`.
    pub fn with_node_type(self, node_type: String) -> (r: GraphQuery)
        ensures
            r.node_types matches Some(ts) && strings_view(ts@) == seq![node_type@],
            r.edge_types == self.edge_types,
            r.property_filters == self.property_filters,
            r.limit == self.limit,
    {
        let mut ts: Vec<String> = Vec::new();
        ts.push(node_type);
        assert(strings_view(ts@) =~= seq![ts@[0]@]);
        GraphQuery { node_types: Some(ts), ..self }
    }

    /// Accepts only edges of type `edge_type`.
    pub fn with_edge_type(self, edge_type: String) -> (r: GraphQuery)
        ensures
            r.edge_types matches Some(ts) && strings_view(ts@) == seq![edge_type@],
            r.node_types == self.node_types,
            r.property_filters == self.property_filters,
            r.limit == self.limit,
    {
        let mut ts: Vec<String> = Vec::new();
        ts.push(edge_type);
        assert(strings_view(ts@) =~= seq![ts@[0]@]);
        GraphQuery { edge_types: Some(ts), ..self }
    }

    /// Also requires the property `key` to hold the JSON text `value`.
    pub fn with_filter(self, key: String, value: String) -> (r: GraphQuery)
        ensures
            r.property_filters matches Some(fs) && props_view(fs@) == prop_set(
                match self.property_filters {
                    Some(old_fs) => props_view(old_fs@),
                    None => Seq::<(Seq<char>, Seq<char>)>::empty(),
                },
                key@,
                value@,
            ),
            (match self.property_filters {
                Some(old_fs) => keys_unique(props_view(old_fs@)),
                None => true,
            }) ==> (r.property_filters matches Some(fs) && keys_unique(props_view(fs@))),
            r.node_types == self.node_types,
            r.edge_types == self.edge_types,
            r.limit == self.limit,
    {
        let GraphQuery { node_types, edge_types, property_filters, limit } = self;
        let mut fs: Properties = match property_filters {
            Some(f) => f,
            None => Vec::new(),
        };
        proof {
            if self.property_filters is None {
                assert(props_view(fs@) =~= Seq::<(Seq<char>, Seq<char>)>::empty());
                assert(keys_unique(props_view(fs@)));
            }
        }
        set_entry(&mut fs, key, value);
        GraphQuery { node_types, edge_types, property_filters: Some(fs), limit }
    }

    /// Returns at most `limit` nodes.
    pub fn with_limit(self, limit: usize) -> (r: GraphQuery)
        ensures
            r.limit == Some(limit),
            r.node_types == self.node_types,
            r.edge_types == self.edge_types,
            r.property_filters == self.property_filters,
    {
        GraphQuery { limit: Some(limit), ..self }
    }
}

fn listed(v: &Vec<String>, s: &String) -> (r: bool)
    ensures
        r == strings_view(v@).contains(s@),
{
    let mut i: usize = 0;
    while i < v.len()
        invariant
            i <= v.len(),
            forall|j: int| 0 <= j < i ==> strings_view(v@)[j] != s@,
        decreases v.len() - i,
    {
        if str_eq(v[i].as_str(), s.as_str()) {
            assert(strings_view(v@)[i as int] == s@);
            return true;
        }
        i = i + 1;
    }
    false
}

/// Whether `node` passes the type and property parts of `query`.
pub fn matches_query(node: &Node, query: &GraphQuery) -> (r: bool)
    ensures
        r == query_matches(node@, query),
{
    match &query.node_types {
        Some(ts) => {
            if !listed(ts, &node.node_type) {
                return false;
            }
        },
        None => {},
    }
    match &query.property_filters {
        Some(fs) => {
            let mut i: usize = 0;
            while i < fs.len()
                invariant
                    query.property_filters matches Some(f) && f@ == fs@,
                    query.node_types matches Some(ts) ==> strings_view(ts@).contains(node@.node_type),
                    i <= fs.len(),
                    forall|k: int| 0 <= k < i ==> prop_lookup(node@.properties, (#[trigger] fs@[k]).0@) == Some(fs@[k].1@),
                decreases fs.len() - i,
            {
                match node.get_property(fs[i].0.as_str()) {
                    Some(x) => {
                        if !str_eq(x.as_str(), fs[i].1.as_str()) {
                            assert(prop_lookup(node@.properties, fs@[i as int].0@) != Some(fs@[i as int].1@));
                            return false;
                        }
                    },
                    None => {
                        assert(prop_lookup(node@.properties, fs@[i as int].0@) != Some(fs@[i as int].1@));
                        return false;
                    },
                }
                i = i + 1;
            }
        },
        None => {},
    }
    true
}

impl InMemoryStorage {
    /// Copies of the nodes that pass `query`, in the order they were stored,
    /// cut to its limit.
    pub fn query_nodes(&self, query: &GraphQuery) -> (r: Vec<Node>)
        ensures
            node_views(r@) == truncated(query_selection(self.nodes_view(), query), query.limit),
    {
        let nodes = self.nodes();
        let ghost ns = self.nodes_view();
        let mut out: Vec<Node> = Vec::new();
        let mut i: usize = 0;
        while i < nodes.len()
            invariant
                ns == node_views(nodes@),
                i <= nodes.len(),
                node_views(out@) == query_selection(ns.subrange(0, i as int), query),
            decreases nodes.len() - i,
        {
            let ghost before = node_views(out@);
            assert(ns.subrange(0, i + 1).drop_last() =~= ns.subrange(0, i as int));
            if matches_query(&nodes[i], query) {
                out.push(nodes[i].duplicate());
                assert(node_views(out@) =~= before.push(ns[i as int]));
            }
            i = i + 1;
        }
        assert(ns.subrange(0, i as int) =~= ns);
        match query.limit {
            Some(l) => {
                if l < out.len() {
                    out.truncate(l);
                    assert(node_views(out@) =~= query_selection(ns, query).subrange(0, l as int));
                }
            },
            None => {},
        }
        out
    }
}

} // verus!
