//! Filtered, ordered and paginated search over the stored nodes.
use vstd::prelude::*;
use crate::model::{node_views, prop_lookup, Node, NodeView, Properties, PropsView, Timestamp, props_view};
use crate::store::InMemoryStorage;
use crate::text::{push_char, push_str, str_eq};

verus! {

/// Which timestamp orders the results.
#[derive(Debug, Clone, Copy, PartialEq, Eq, Structural)]
pub enum OrderBy {
    CreatedAt,
    UpdatedAt,
    /// Ranks by the update time.
    Relevance,
}

#[derive(Debug, Clone, Copy, PartialEq, Eq, Structural)]
pub enum OrderDirection {
    Asc,
    Desc,
}

/// A search over nodes: every filter that is set must hold.
#[derive(Debug)]
pub struct SearchQuery {
    /// Node types to accept; empty accepts every type.
    pub node_types: Vec<String>,
    /// Text to find, ignoring case, in the JSON text of the property map.
    pub search_text: Option<String>,
    /// Properties the caller means to search in (kept for the relational store).
    pub search_fields: Vec<String>,
    pub created_after: Option<Timestamp>,
    pub created_before: Option<Timestamp>,
    pub updated_after: Option<Timestamp>,
    /// Each property must be set, with the JSON text `value` or `"value"`.
    pub property_filters: Vec<(String, String)>,
    pub limit: usize,
    pub offset: usize,
    pub order_by: OrderBy,
    pub order_direction: OrderDirection,
}

/// One page of search results.
#[derive(Debug)]
pub struct SearchResults<T> {
    pub items: Vec<T>,
    pub total_count: usize,
    pub returned_count: usize,
    pub has_more: bool,
    pub limit: usize,
    pub offset: usize,
}

impl Default for SearchQuery {
    fn default() -> (r: SearchQuery)
        ensures
            r.node_types@.len() == 0,
            r.search_text is None,
            r.search_fields@.len() == 0,
            r.created_after is None,
            r.created_before is None,
            r.updated_after is None,
            r.property_filters@.len() == 0,
            r.limit == 50,
            r.offset == 0,
            r.order_by == OrderBy::UpdatedAt,
            r.order_direction == OrderDirection::Desc,
    {
        SearchQuery {
            node_types: Vec::new(),
            search_text: None,
            search_fields: Vec::new(),
            created_after: None,
            created_before: None,
            updated_after: None,
            property_filters: Vec::new(),
            limit: 50,
            offset: 0,
            order_by: OrderBy::UpdatedAt,
            order_direction: OrderDirection::Desc,
        }
    }
}

/// The lower-case form of a text, as Unicode defines it.
pub uninterp spec fn lowercase_of(s: Seq<char>) -> Seq<char>;

/// Relies on `str::to_lowercase`: the result depends on the characters alone.
#[verifier::external_body]
pub(crate) fn to_lowercase(s: &str) -> (r: String)
    ensures
        r@ == lowercase_of(s@),
{
    s.to_lowercase()
}

/// `needle` occurs in `hay` at some position.
pub open spec fn occurs_in(needle: Seq<char>, hay: Seq<char>) -> bool {
    exists|i: int| 0 <= i && i + needle.len() <= hay.len() && #[trigger] hay.subrange(i, i + needle.len()) == needle
}

/// A lower-case hexadecimal digit.
pub open spec fn hex_digit(d: nat) -> char {
    if d < 10 {
        ((d + 48) as u32) as char
    } else {
        ((d + 87) as u32) as char
    }
}

/// How a JSON string literal writes the character `c`: quote, backslash and
/// control characters escaped (short forms where JSON has them, else
/// `\u00xx`), every other character as it is.
pub open spec fn json_char(c: char) -> Seq<char> {
    if c == '"' {
        seq!['\\', '"']
    } else if c == '\\' {
        seq!['\\', '\\']
    } else if c == '\x08' {
        seq!['\\', 'b']
    } else if c == '\t' {
        seq!['\\', 't']
    } else if c == '\n' {
        seq!['\\', 'n']
    } else if c == '\x0C' {
        seq!['\\', 'f']
    } else if c == '\r' {
        seq!['\\', 'r']
    } else if (c as u32) < 32 {
        seq!['\\', 'u', '0', '0', hex_digit(((c as u32) / 16) as nat), hex_digit(((c as u32) % 16) as nat)]
    } else {
        seq![c]
    }
}

pub open spec fn json_escaped(s: Seq<char>) -> Seq<char>
    decreases s.len(),
{
    if s.len() == 0 {
        seq![]
    } else {
        json_escaped(s.drop_last()) + json_char(s.last())
    }
}

/// The JSON string literal of `s`.
pub open spec fn json_string(s: Seq<char>) -> Seq<char> {
    seq!['"'] + json_escaped(s) + seq!['"']
}

/// Relies on `serde_json::to_string` on a `str`: the JSON string literal,
/// escaped by serde_json's escape table (`ser.rs`, `ESCAPE`). Writing into
/// memory cannot fail, so the default is never used.
#[verifier::external_body]
fn json_string_of(s: &str) -> (r: String)
    ensures
        r@ == json_string(s@),
{
    serde_json::to_string(s).unwrap_or_default()
}

/// The JSON text of one entry: the key as a JSON string, `:`, the value's text.
pub open spec fn entry_text(e: (Seq<char>, Seq<char>)) -> Seq<char> {
    json_string(e.0) + seq![':'] + e.1
}

pub open spec fn entries_text(p: PropsView) -> Seq<char>
    decreases p.len(),
{
    if p.len() == 0 {
        seq![]
    } else if p.len() == 1 {
        entry_text(p[0])
    } else {
        entries_text(p.drop_last()) + seq![','] + entry_text(p.last())
    }
}

/// The JSON text of a property map: `{"k1":v1,"k2":v2}`, keys escaped.
pub open spec fn properties_text(p: PropsView) -> Seq<char> {
    seq!['{'] + entries_text(p) + seq!['}']
}

/// The node types of the query.
pub open spec fn types_view(q: &SearchQuery) -> Seq<Seq<char>> {
    Seq::new(q.node_types@.len(), |k: int| q.node_types@[k]@)
}

pub open spec fn type_accepted(n: NodeView, q: &SearchQuery) -> bool {
    types_view(q).len() == 0 || types_view(q).contains(n.node_type)
}

pub open spec fn text_accepted(n: NodeView, q: &SearchQuery) -> bool {
    match q.search_text {
        Some(t) => occurs_in(lowercase_of(t@), lowercase_of(properties_text(n.properties))),
        None => true,
    }
}

pub open spec fn time_accepted(n: NodeView, q: &SearchQuery) -> bool {
    &&& (q.created_after matches Some(a) ==> n.created_at >= a)
    &&& (q.created_before matches Some(b) ==> n.created_at <= b)
    &&& (q.updated_after matches Some(a) ==> n.updated_at >= a)
}

/// The stored JSON text `x` satisfies the filter value `v`.
pub open spec fn filter_value_ok(x: Seq<char>, v: Seq<char>) -> bool {
    x == seq!['"'] + v + seq!['"'] || x == v
}

pub open spec fn filters_accepted(n: NodeView, q: &SearchQuery) -> bool {
    forall|k: int|
        0 <= k < q.property_filters@.len() ==> match prop_lookup(n.properties, (#[trigger] q.property_filters@[k]).0@) {
            Some(x) => filter_value_ok(x, q.property_filters@[k].1@),
            None => false,
        }
}

/// `n` passes every filter of `q`.
pub open spec fn search_matches(n: NodeView, q: &SearchQuery) -> bool {
    type_accepted(n, q) && text_accepted(n, q) && time_accepted(n, q) && filters_accepted(n, q)
}

/// The nodes of `ns` that pass `q`, in order.
pub open spec fn matching(ns: Seq<NodeView>, q: &SearchQuery) -> Seq<NodeView>
    decreases ns.len(),
{
    if ns.len() == 0 {
        ns
    } else {
        let rest = matching(ns.drop_last(), q);
        if search_matches(ns.last(), q) {
            rest.push(ns.last())
        } else {
            rest
        }
    }
}

pub open spec fn sort_key(n: NodeView, by: OrderBy) -> Timestamp {
    match by {
        OrderBy::CreatedAt => n.created_at,
        _ => n.updated_at,
    }
}

/// `a` comes strictly before `b` in the requested order.
pub open spec fn precedes(a: NodeView, b: NodeView, by: OrderBy, dir: OrderDirection) -> bool {
    match dir {
        OrderDirection::Asc => sort_key(a, by) < sort_key(b, by),
        OrderDirection::Desc => sort_key(a, by) > sort_key(b, by),
    }
}

/// `x` placed before the first element of `s` that it strictly precedes.
pub open spec fn insert_ordered(s: Seq<NodeView>, x: NodeView, by: OrderBy, dir: OrderDirection) -> Seq<NodeView>
    decreases s.len(),
{
    if s.len() == 0 {
        seq![x]
    } else if precedes(x, s[0], by, dir) {
        seq![x] + s
    } else {
        seq![s[0]] + insert_ordered(s.drop_first(), x, by, dir)
    }
}

/// `s` ordered by a stable insertion sort: equal keys keep their order.
pub open spec fn ordered(s: Seq<NodeView>, by: OrderBy, dir: OrderDirection) -> Seq<NodeView>
    decreases s.len(),
{
    if s.len() == 0 {
        s
    } else {
        insert_ordered(ordered(s.drop_last(), by, dir), s.last(), by, dir)
    }
}

/// All results of `q` over `ns`, before pagination.
pub open spec fn ordered_matches(ns: Seq<NodeView>, q: &SearchQuery) -> Seq<NodeView> {
    ordered(matching(ns, q), q.order_by, q.order_direction)
}

/// The page of `s` that skips `offset` items and keeps at most `limit`.
pub open spec fn page<T>(s: Seq<T>, offset: int, limit: int) -> Seq<T> {
    let lo = if offset < s.len() { offset } else { s.len() as int };
    let hi = if offset + limit < s.len() { offset + limit } else { s.len() as int };
    s.subrange(lo, hi)
}

pub open spec fn string_opt(o: Option<String>) -> Option<Seq<char>> {
    match o {
        Some(t) => Some(t@),
        None => None,
    }
}

/// Whether two queries select and order the same nodes.
pub open spec fn same_selection(a: &SearchQuery, b: &SearchQuery) -> bool {
    &&& types_view(a) == types_view(b)
    &&& string_opt(a.search_text) == string_opt(b.search_text)
    &&& a.created_after == b.created_after
    &&& a.created_before == b.created_before
    &&& a.updated_after == b.updated_after
    &&& a.property_filters@.len() == b.property_filters@.len()
    &&& forall|k: int| 0 <= k < a.property_filters@.len() ==> (#[trigger] a.property_filters@[k]).0@ == b.property_filters@[k].0@
        && a.property_filters@[k].1@ == b.property_filters@[k].1@
    &&& a.order_by == b.order_by
    &&& a.order_direction == b.order_direction
}

/// The characters of `s`.
fn chars_of(s: &str) -> (r: Vec<char>)
    ensures
        r@ == s@,
{
    let n = s.unicode_len();
    let mut r: Vec<char> = Vec::new();
    let mut i: usize = 0;
    while i < n
        invariant
            n == s@.len(),
            i <= n,
            r@ == s@.subrange(0, i as int),
        decreases n - i,
    {
        r.push(s.get_char(i));
        i = i + 1;
        assert(r@ =~= s@.subrange(0, i as int));
    }
    assert(s@.subrange(0, n as int) == s@);
    r
}

fn occurs_at(h: &Vec<char>, n: &Vec<char>, i: usize) -> (r: bool)
    requires
        i + n.len() <= h.len(),
    ensures
        r == (h@.subrange(i as int, i + n.len()) == n@),
{
    let mut k: usize = 0;
    while k < n.len()
        invariant
            i + n.len() <= h.len(),
            k <= n.len(),
            h@.subrange(i as int, i + k) == n@.subrange(0, k as int),
        decreases n.len() - k,
    {
        if h[i + k] != n[k] {
            assert(h@.subrange(i as int, i + n.len())[k as int] != n@[k as int]);
            return false;
        }
        k = k + 1;
        assert(h@.subrange(i as int, i + k) =~= n@.subrange(0, k as int));
    }
    assert(n@.subrange(0, k as int) =~= n@);
    true
}

/// Whether `needle` occurs in `hay`.
pub fn text_contains(hay: &str, needle: &str) -> (r: bool)
    ensures
        r == occurs_in(needle@, hay@),
{
    let h = chars_of(hay);
    let n = chars_of(needle);
    if n.len() > h.len() {
        return false;
    }
    let last = h.len() - n.len();
    let mut i: usize = 0;
    while i < last
        invariant
            n.len() <= h.len(),
            last == h.len() - n.len(),
            h@ == hay@,
            n@ == needle@,
            i <= last,
            forall|j: int| 0 <= j < i ==> #[trigger] hay@.subrange(j, j + needle@.len()) != needle@,
        decreases last - i,
    {
        if occurs_at(&h, &n, i) {
            assert(hay@.subrange(i as int, i + needle@.len()) == needle@);
            return true;
        }
        i = i + 1;
    }
    let r = occurs_at(&h, &n, last);
    if r {
        assert(hay@.subrange(last as int, last + needle@.len()) == needle@);
    }
    r
}

/// The JSON text of a property map, entries in stored order.
pub fn properties_json(p: &Properties) -> (r: String)
    ensures
        r@ == properties_text(props_view(p@)),
{
    let ghost pv = props_view(p@);
    let mut out = String::new();
    push_char(&mut out, '{');
    let mut i: usize = 0;
    while i < p.len()
        invariant
            pv == props_view(p@),
            i <= p.len(),
            out@ == seq!['{'] + entries_text(pv.subrange(0, i as int)),
        decreases p.len() - i,
    {
        let ghost before = out@;
        if i > 0 {
            push_char(&mut out, ',');
        }
        let key = json_string_of(p[i].0.as_str());
        push_str(&mut out, key.as_str());
        push_char(&mut out, ':');
        push_str(&mut out, p[i].1.as_str());
        proof {
            let sub = pv.subrange(0, i + 1);
            assert(sub.drop_last() =~= pv.subrange(0, i as int));
            assert(sub.last() == pv[i as int]);
            if i == 0 {
                assert(out@ =~= seq!['{'] + entry_text(pv[0]));
            } else {
                assert(out@ =~= before + seq![','] + entry_text(pv[i as int]));
            }
        }
        i = i + 1;
    }
    push_char(&mut out, '}');
    assert(pv.subrange(0, i as int) =~= pv);
    out
}

fn type_listed(node: &Node, q: &SearchQuery) -> (r: bool)
    ensures
        r == type_accepted(node@, q),
{
    if q.node_types.len() == 0 {
        return true;
    }
    let mut i: usize = 0;
    while i < q.node_types.len()
        invariant
            i <= q.node_types.len(),
            forall|j: int| 0 <= j < i ==> types_view(q)[j] != node@.node_type,
        decreases q.node_types.len() - i,
    {
        if str_eq(q.node_types[i].as_str(), node.node_type.as_str()) {
            assert(types_view(q)[i as int] == node@.node_type);
            return true;
        }
        i = i + 1;
    }
    false
}

fn filters_hold(node: &Node, q: &SearchQuery) -> (r: bool)
    ensures
        r == filters_accepted(node@, q),
{
    let mut i: usize = 0;
    while i < q.property_filters.len()
        invariant
            i <= q.property_filters.len(),
            forall|k: int|
                0 <= k < i ==> match prop_lookup(node@.properties, (#[trigger] q.property_filters@[k]).0@) {
                    Some(x) => filter_value_ok(x, q.property_filters@[k].1@),
                    None => false,
                },
        decreases q.property_filters.len() - i,
    {
        let key = q.property_filters[i].0.as_str();
        let value = q.property_filters[i].1.as_str();
        match node.get_property(key) {
            Some(x) => {
                let mut quoted = String::new();
                push_char(&mut quoted, '"');
                push_str(&mut quoted, value);
                push_char(&mut quoted, '"');
                assert(quoted@ =~= seq!['"'] + value@ + seq!['"']);
                if !str_eq(x.as_str(), quoted.as_str()) && !str_eq(x.as_str(), value) {
                    return false;
                }
            },
            None => {
                return false;
            },
        }
        i = i + 1;
    }
    true
}

/// Whether `node` passes every filter of `query`.
pub fn matches_search_query(node: &Node, query: &SearchQuery) -> (r: bool)
    ensures
        r == search_matches(node@, query),
{
    if !type_listed(node, query) {
        return false;
    }
    match &query.search_text {
        Some(t) => {
            let wanted = to_lowercase(t.as_str());
            let json = properties_json(&node.properties);
            let text = to_lowercase(json.as_str());
            if !text_contains(text.as_str(), wanted.as_str()) {
                return false;
            }
        },
        None => {},
    }
    match query.created_after {
        Some(a) => if node.created_at < a {
            return false;
        },
        None => {},
    }
    match query.created_before {
        Some(b) => if node.created_at > b {
            return false;
        },
        None => {},
    }
    match query.updated_after {
        Some(a) => if node.updated_at < a {
            return false;
        },
        None => {},
    }
    filters_hold(node, query)
}

fn precedes_exec(a: &Node, b: &Node, by: OrderBy, dir: OrderDirection) -> (r: bool)
    ensures
        r == precedes(a@, b@, by, dir),
{
    let (ka, kb) = match by {
        OrderBy::CreatedAt => (a.created_at, b.created_at),
        _ => (a.updated_at, b.updated_at),
    };
    match dir {
        OrderDirection::Asc => ka < kb,
        OrderDirection::Desc => ka > kb,
    }
}

proof fn lemma_insert_ordered_at(s: Seq<NodeView>, x: NodeView, by: OrderBy, dir: OrderDirection, r: int)
    requires
        0 <= r <= s.len(),
        forall|j: int| 0 <= j < r ==> !precedes(x, #[trigger] s[j], by, dir),
        r < s.len() ==> precedes(x, s[r], by, dir),
    ensures
        insert_ordered(s, x, by, dir) == s.subrange(0, r) + seq![x] + s.subrange(r, s.len() as int),
    decreases s.len(),
{
    if s.len() == 0 {
        assert(s.subrange(0, r) + seq![x] + s.subrange(r, s.len() as int) =~= seq![x]);
    } else if r == 0 {
        assert(s.subrange(0, r) + seq![x] + s.subrange(r, s.len() as int) =~= seq![x] + s);
    } else {
        let t = s.drop_first();
        assert forall|j: int| 0 <= j < r - 1 implies !precedes(x, #[trigger] t[j], by, dir) by {
            assert(t[j] == s[j + 1]);
        }
        if r - 1 < t.len() {
            assert(t[r - 1] == s[r]);
        }
        lemma_insert_ordered_at(t, x, by, dir, r - 1);
        assert(seq![s[0]] + (t.subrange(0, r - 1) + seq![x] + t.subrange(r - 1, t.len() as int)) =~= s.subrange(0, r)
            + seq![x] + s.subrange(r, s.len() as int));
    }
}

/// Places a copy of `x` before the first element of `v` that it strictly precedes.
fn insert_in_order(v: &mut Vec<Node>, x: &Node, by: OrderBy, dir: OrderDirection)
    ensures
        node_views(final(v)@) == insert_ordered(node_views(old(v)@), x@, by, dir),
{
    let ghost s = node_views(v@);
    let mut r: usize = 0;
    while r < v.len() && !precedes_exec(x, &v[r], by, dir)
        invariant
            r <= v.len(),
            s == node_views(v@),
            forall|j: int| 0 <= j < r ==> !precedes(x@, #[trigger] s[j], by, dir),
        decreases v.len() - r,
    {
        r = r + 1;
    }
    proof {
        lemma_insert_ordered_at(s, x@, by, dir, r as int);
    }
    v.insert(r, x.duplicate());
    assert(node_views(v@) =~= s.subrange(0, r as int) + seq![x@] + s.subrange(r as int, s.len() as int));
}

/// Whether matches lie past the page that skips `offset` of `total` matches
/// and keeps at most `limit`.
pub fn page_has_more(total: usize, offset: usize, limit: usize) -> (r: bool)
    ensures
        r == (total > offset + limit),
{
    total > offset && total - offset > limit
}

impl InMemoryStorage {
    /// Copies of all nodes that pass `query`, in the query's order (ties keep
    /// the order in which the nodes were stored).
    pub fn ordered_matches_of(&self, query: &SearchQuery) -> (r: Vec<Node>)
        ensures
            node_views(r@) == ordered_matches(self.nodes_view(), query),
    {
        let nodes = self.nodes();
        let ghost ns = self.nodes_view();
        let mut sorted: Vec<Node> = Vec::new();
        let mut i: usize = 0;
        while i < nodes.len()
            invariant
                ns == node_views(nodes@),
                i <= nodes.len(),
                node_views(sorted@) == ordered(
                    matching(ns.subrange(0, i as int), query),
                    query.order_by,
                    query.order_direction,
                ),
            decreases nodes.len() - i,
        {
            let ghost sub = ns.subrange(0, i + 1);
            assert(sub.drop_last() =~= ns.subrange(0, i as int));
            assert(sub.last() == nodes@[i as int]@);
            if matches_search_query(&nodes[i], query) {
                let ghost m = matching(ns.subrange(0, i as int), query);
                assert(m.push(nodes@[i as int]@).drop_last() =~= m);
                insert_in_order(&mut sorted, &nodes[i], query.order_by, query.order_direction);
            }
            i = i + 1;
        }
        assert(ns.subrange(0, i as int) =~= ns);
        sorted
    }

    /// One page of the nodes that pass `query`: ordered as the query asks,
    /// skipping `offset` and keeping at most `limit`, with the number of all
    /// matches and whether any lie past this page.
    pub fn search_nodes(&self, query: &SearchQuery) -> (r: SearchResults<Node>)
        ensures
            node_views(r.items@) == page(
                ordered_matches(self.nodes_view(), query),
                query.offset as int,
                query.limit as int,
            ),
            r.total_count == ordered_matches(self.nodes_view(), query).len(),
            r.returned_count == r.items@.len(),
            r.has_more == (r.total_count > query.offset + query.limit),
            r.limit == query.limit,
            r.offset == query.offset,
    {
        let all = self.ordered_matches_of(query);
        let ghost s = node_views(all@);
        let total = all.len();
        let lo: usize = if query.offset < total { query.offset } else { total };
        let hi: usize = if query.limit < total - lo { lo + query.limit } else { total };
        let mut items: Vec<Node> = Vec::new();
        let mut i: usize = lo;
        while i < hi
            invariant
                s == node_views(all@),
                lo <= i <= hi <= all.len(),
                node_views(items@) == s.subrange(lo as int, i as int),
            decreases hi - i,
        {
            let ghost before = node_views(items@);
            items.push(all[i].duplicate());
            assert(node_views(items@) =~= before.push(s[i as int]));
            i = i + 1;
            assert(node_views(items@) =~= s.subrange(lo as int, i as int));
        }
        let has_more = page_has_more(total, query.offset, query.limit);
        let returned_count = items.len();
        SearchResults { items, total_count: total, returned_count, has_more, limit: query.limit, offset: query.offset }
    }

    /// The number of nodes that pass `query`, regardless of its page.
    pub fn count_nodes(&self, query: &SearchQuery) -> (r: usize)
        ensures
            r == ordered_matches(self.nodes_view(), query).len(),
    {
        self.ordered_matches_of(query).len()
    }
}

/// Pages of one size laid side by side: for queries that select and order the
/// same nodes, the page at offset 0 followed by the page at offset `n`, both of
/// size `n`, is the page at offset 0 of size `2n`.
pub proof fn pages_concatenate(ns: Seq<NodeView>, q1: &SearchQuery, q2: &SearchQuery, q3: &SearchQuery, n: int)
    requires
        n >= 0,
        same_selection(q1, q2),
        same_selection(q1, q3),
    ensures
        page(ordered_matches(ns, q1), 0, n) + page(ordered_matches(ns, q2), n, n) == page(
            ordered_matches(ns, q3),
            0,
            2 * n,
        ),
{
    lemma_same_selection(ns, q1, q2);
    lemma_same_selection(ns, q1, q3);
    let s = ordered_matches(ns, q1);
    assert(page(s, 0, n) + page(s, n, n) =~= page(s, 0, 2 * n));
}

/// Queries that select and order the same nodes have the same results.
pub proof fn lemma_same_selection(ns: Seq<NodeView>, a: &SearchQuery, b: &SearchQuery)
    requires
        same_selection(a, b),
    ensures
        ordered_matches(ns, a) == ordered_matches(ns, b),
{
    lemma_same_matching(ns, a, b);
}

proof fn lemma_same_matching(ns: Seq<NodeView>, a: &SearchQuery, b: &SearchQuery)
    requires
        same_selection(a, b),
    ensures
        matching(ns, a) == matching(ns, b),
    decreases ns.len(),
{
    if ns.len() > 0 {
        lemma_same_matching(ns.drop_last(), a, b);
        let n = ns.last();
        assert(filters_accepted(n, a) == filters_accepted(n, b)) by {
            if filters_accepted(n, a) {
                assert forall|k: int| 0 <= k < b.property_filters@.len() implies match prop_lookup(
                    n.properties,
                    (#[trigger] b.property_filters@[k]).0@,
                ) {
                    Some(x) => filter_value_ok(x, b.property_filters@[k].1@),
                    None => false,
                } by {
                    assert(a.property_filters@[k].0@ == b.property_filters@[k].0@);
                }
            }
            if filters_accepted(n, b) {
                assert forall|k: int| 0 <= k < a.property_filters@.len() implies match prop_lookup(
                    n.properties,
                    (#[trigger] a.property_filters@[k]).0@,
                ) {
                    Some(x) => filter_value_ok(x, a.property_filters@[k].1@),
                    None => false,
                } by {
                    assert(b.property_filters@[k].0@ == a.property_filters@[k].0@);
                }
            }
        }
        assert(text_accepted(n, a) == text_accepted(n, b));
        assert(search_matches(n, a) == search_matches(n, b));
    }
}

} // verus!
