//! SQL statements for the relational store. Every value taken from a query
//! travels as a bound parameter; the statement text is assembled from fixed
//! fragments and placeholder numbers only.
use vstd::prelude::*;
use crate::model::Timestamp;
use crate::ids::NodeId;
use crate::model::Properties;
use crate::store::EdgeDirection;
use crate::query::{strings_view, GraphQuery};
use crate::search::{lowercase_of, to_lowercase, types_view, OrderBy, OrderDirection, SearchQuery};
use crate::text::{decimal, push_char, push_decimal, push_str};

verus! {

/// The most placeholders one PostgreSQL statement can bind.
pub const MAX_BIND_PARAMS: usize = 65535;

/// A value bound to a placeholder.
#[derive(Debug)]
pub enum SqlParam {
    Text(String),
    TextList(Vec<String>),
    Time(Timestamp),
    Count(usize),
    Id(NodeId),
}

pub enum ParamView {
    Text(Seq<char>),
    TextList(Seq<Seq<char>>),
    Time(Timestamp),
    Count(usize),
    Id(NodeId),
}

impl View for SqlParam {
    type V = ParamView;

    open spec fn view(&self) -> ParamView {
        match self {
            SqlParam::Text(s) => ParamView::Text(s@),
            SqlParam::TextList(v) => ParamView::TextList(Seq::new(v@.len(), |k: int| v@[k]@)),
            SqlParam::Time(t) => ParamView::Time(*t),
            SqlParam::Count(n) => ParamView::Count(*n),
            SqlParam::Id(i) => ParamView::Id(*i),
        }
    }
}

pub open spec fn params_view(v: Seq<SqlParam>) -> Seq<ParamView> {
    Seq::new(v.len(), |k: int| v[k]@)
}

/// A statement: text with placeholders `$1`, `$2`, ... and their values in order.
#[derive(Debug)]
pub struct SqlStatement {
    pub text: String,
    pub params: Vec<SqlParam>,
}

/// The kinds of condition a search adds to its `WHERE` clause.
pub enum Clause {
    TypeIn,
    TextLike,
    CreatedFrom,
    CreatedTo,
    UpdatedFrom,
    PropertyIs,
    PropertyJsonIs,
}

/// How many placeholders a clause uses.
pub open spec fn width(c: Clause) -> nat {
    match c {
        Clause::PropertyIs => 2,
        Clause::PropertyJsonIs => 2,
        _ => 1,
    }
}

pub open spec fn widths(cs: Seq<Clause>) -> nat
    decreases cs.len(),
{
    if cs.len() == 0 {
        0
    } else {
        widths(cs.drop_last()) + width(cs.last())
    }
}

pub open spec fn placeholder(n: nat) -> Seq<char> {
    seq!['$'] + decimal(n)
}

/// The text of clause `c` whose first placeholder is `$n`.
pub open spec fn clause_text(c: Clause, n: nat) -> Seq<char> {
    match c {
        Clause::TypeIn => " AND node_type = ANY("@ + placeholder(n) + ")"@,
        Clause::TextLike => " AND LOWER(properties::text) LIKE "@ + placeholder(n) + " ESCAPE '\\'"@,
        Clause::CreatedFrom => " AND created_at >= "@ + placeholder(n),
        Clause::CreatedTo => " AND created_at <= "@ + placeholder(n),
        Clause::UpdatedFrom => " AND updated_at >= "@ + placeholder(n),
        Clause::PropertyIs => " AND properties->>"@ + placeholder(n) + " = "@ + placeholder(n + 1),
        Clause::PropertyJsonIs => " AND properties->"@ + placeholder(n) + " = "@ + placeholder(n + 1) + "::jsonb"@,
    }
}

/// The text of the clauses `cs`, numbered from `$1`.
pub open spec fn clauses_text(cs: Seq<Clause>) -> Seq<char>
    decreases cs.len(),
{
    if cs.len() == 0 {
        seq![]
    } else {
        clauses_text(cs.drop_last()) + clause_text(cs.last(), widths(cs.drop_last()) + 1)
    }
}

/// The clauses of the filters other than property filters.
pub open spec fn fixed_clauses(q: &SearchQuery) -> Seq<Clause> {
    (if q.node_types@.len() > 0 { seq![Clause::TypeIn] } else { seq![] })
        + (if q.search_text is Some { seq![Clause::TextLike] } else { seq![] })
        + (if q.created_after is Some { seq![Clause::CreatedFrom] } else { seq![] })
        + (if q.created_before is Some { seq![Clause::CreatedTo] } else { seq![] })
        + (if q.updated_after is Some { seq![Clause::UpdatedFrom] } else { seq![] })
}

/// The clauses a query needs, which depend only on which filters it sets.
pub open spec fn clauses_of(q: &SearchQuery) -> Seq<Clause> {
    fixed_clauses(q) + Seq::new(q.property_filters@.len(), |k: int| Clause::PropertyIs)
}

/// `t` with the LIKE wildcards `%` and `_`, and the escape `\`, escaped.
pub open spec fn like_escaped(t: Seq<char>) -> Seq<char>
    decreases t.len(),
{
    if t.len() == 0 {
        seq![]
    } else {
        let c = t.last();
        like_escaped(t.drop_last()) + (if c == '\\' || c == '%' || c == '_' { seq!['\\', c] } else { seq![c] })
    }
}

pub open spec fn filter_params(fs: Seq<(String, String)>) -> Seq<ParamView>
    decreases fs.len(),
{
    if fs.len() == 0 {
        seq![]
    } else {
        filter_params(fs.drop_last()) + seq![ParamView::Text(fs.last().0@), ParamView::Text(fs.last().1@)]
    }
}

/// The values of a query's clauses, in placeholder order.
pub open spec fn params_of(q: &SearchQuery) -> Seq<ParamView> {
    fixed_params(q) + filter_params(q.property_filters@)
}

/// The values of the clauses other than property filters.
pub open spec fn fixed_params(q: &SearchQuery) -> Seq<ParamView> {
    (if q.node_types@.len() > 0 { seq![ParamView::TextList(types_view(q))] } else { seq![] })
        + (match q.search_text {
            Some(t) => seq![ParamView::Text(seq!['%'] + like_escaped(lowercase_of(t@)) + seq!['%'])],
            None => seq![],
        })
        + (match q.created_after { Some(a) => seq![ParamView::Time(a)], None => seq![] })
        + (match q.created_before { Some(b) => seq![ParamView::Time(b)], None => seq![] })
        + (match q.updated_after { Some(a) => seq![ParamView::Time(a)], None => seq![] })
}

pub open spec fn order_text(by: OrderBy, dir: OrderDirection) -> Seq<char> {
    " ORDER BY "@ + (match by {
        OrderBy::CreatedAt => "created_at"@,
        _ => "updated_at"@,
    }) + (match dir {
        OrderDirection::Asc => " ASC"@,
        OrderDirection::Desc => " DESC"@,
    }) + ", id ASC"@
}

pub open spec fn select_head() -> Seq<char> {
    "SELECT id, node_type, properties, created_at, updated_at FROM nodes WHERE 1=1"@
}

pub open spec fn count_head() -> Seq<char> {
    "SELECT COUNT(*) FROM nodes WHERE 1=1"@
}

/// The text of the page statement of a query.
pub open spec fn search_text_of(q: &SearchQuery) -> Seq<char> {
    let cs = clauses_of(q);
    select_head() + clauses_text(cs) + order_text(q.order_by, q.order_direction) + " LIMIT "@ + placeholder(
        widths(cs) + 1,
    ) + " OFFSET "@ + placeholder(widths(cs) + 2)
}

/// Queries that set the same filters, the same number of property filters and
/// the same order.
pub open spec fn same_shape(a: &SearchQuery, b: &SearchQuery) -> bool {
    &&& (a.node_types@.len() > 0) == (b.node_types@.len() > 0)
    &&& a.search_text is Some == b.search_text is Some
    &&& a.created_after is Some == b.created_after is Some
    &&& a.created_before is Some == b.created_before is Some
    &&& a.updated_after is Some == b.updated_after is Some
    &&& a.property_filters@.len() == b.property_filters@.len()
    &&& a.order_by == b.order_by
    &&& a.order_direction == b.order_direction
}

/// No value of a query reaches the statement text: queries of the same shape,
/// whatever strings they hold, give the same text.
pub proof fn statement_text_is_value_free(a: &SearchQuery, b: &SearchQuery)
    requires
        same_shape(a, b),
    ensures
        search_text_of(a) == search_text_of(b),
{
    assert(clauses_of(a) =~= clauses_of(b));
}

fn push_placeholder(s: &mut String, n: usize)
    ensures
        final(s)@ == old(s)@ + placeholder(n as nat),
{
    push_char(s, '$');
    push_decimal(s, n as u64);
}

/// Appends clause `c` numbered from `$n`; returns the next free number.
fn push_clause(text: &mut String, c: Clause, n: usize, Ghost(cs): Ghost<Seq<Clause>>) -> (next: usize)
    requires
        n == widths(cs) + 1,
        old(text)@ == clauses_text(cs),
        n + 2 < usize::MAX,
    ensures
        final(text)@ == clauses_text(cs.push(c)),
        next == widths(cs.push(c)) + 1,
        next == n + width(c),
{
    proof {
        assert(cs.push(c).drop_last() =~= cs);
    }
    let ghost start = text@;
    match c {
        Clause::TypeIn => {
            push_str(text, " AND node_type = ANY(");
            push_placeholder(text, n);
            push_str(text, ")");
        },
        Clause::TextLike => {
            push_str(text, " AND LOWER(properties::text) LIKE ");
            push_placeholder(text, n);
            push_str(text, " ESCAPE '\\'");
        },
        Clause::CreatedFrom => {
            push_str(text, " AND created_at >= ");
            push_placeholder(text, n);
        },
        Clause::CreatedTo => {
            push_str(text, " AND created_at <= ");
            push_placeholder(text, n);
        },
        Clause::UpdatedFrom => {
            push_str(text, " AND updated_at >= ");
            push_placeholder(text, n);
        },
        Clause::PropertyIs => {
            push_str(text, " AND properties->>");
            push_placeholder(text, n);
            push_str(text, " = ");
            push_placeholder(text, n + 1);
        },
        Clause::PropertyJsonIs => {
            push_str(text, " AND properties->");
            push_placeholder(text, n);
            push_str(text, " = ");
            push_placeholder(text, n + 1);
            push_str(text, "::jsonb");
        },
    }
    assert(text@ =~= start + clause_text(c, n as nat));
    match c {
        Clause::PropertyIs => n + 2,
        Clause::PropertyJsonIs => n + 2,
        _ => n + 1,
    }
}

/// `t` with the LIKE wildcards and the escape character escaped.
pub fn escape_like(t: &str) -> (r: String)
    ensures
        r@ == like_escaped(t@),
{
    let n = t.unicode_len();
    let mut out = String::new();
    let mut i: usize = 0;
    while i < n
        invariant
            n == t@.len(),
            i <= n,
            out@ == like_escaped(t@.subrange(0, i as int)),
        decreases n - i,
    {
        let c = t.get_char(i);
        let ghost before = out@;
        if c == '\\' || c == '%' || c == '_' {
            push_char(&mut out, '\\');
        }
        push_char(&mut out, c);
        proof {
            let sub = t@.subrange(0, i + 1);
            assert(sub.drop_last() =~= t@.subrange(0, i as int));
            assert(sub.last() == c);
            if c == '\\' || c == '%' || c == '_' {
                assert(out@ =~= before + seq!['\\', c]);
            } else {
                assert(out@ =~= before + seq![c]);
            }
        }
        i = i + 1;
    }
    assert(t@.subrange(0, n as int) =~= t@);
    out
}

fn clone_strings(v: &Vec<String>) -> (r: Vec<String>)
    ensures
        r@ == v@,
{
    let mut r: Vec<String> = Vec::new();
    let mut i: usize = 0;
    while i < v.len()
        invariant
            i <= v.len(),
            r@ == v@.subrange(0, i as int),
        decreases v.len() - i,
    {
        r.push(v[i].clone());
        i = i + 1;
        assert(r@ =~= v@.subrange(0, i as int));
    }
    assert(v@.subrange(0, i as int) =~= v@);
    r
}

/// Appends the clauses of the filters other than property filters to `body`
/// (which holds none yet) and their values to `params` (which is empty).
#[verifier::rlimit(30)]
fn push_fixed_conditions(q: &SearchQuery, body: &mut String, params: &mut Vec<SqlParam>) -> (next: usize)
    requires
        old(params)@.len() == 0,
        old(body)@.len() == 0,
    ensures
        final(body)@ == clauses_text(fixed_clauses(q)),
        params_view(final(params)@) == fixed_params(q),
        next == widths(fixed_clauses(q)) + 1,
        next <= 6,
{
    let ghost mut cs: Seq<Clause> = seq![];
    let ghost mut ps: Seq<ParamView> = seq![];
    assert(body@ =~= clauses_text(cs));
    assert(params_view(params@) =~= ps);
    let mut n: usize = 1;
    if q.node_types.len() > 0 {
        n = push_clause(body, Clause::TypeIn, n, Ghost(cs));
        let list = clone_strings(&q.node_types);
        assert(Seq::new(list@.len(), |k: int| list@[k]@) =~= types_view(q));
        params.push(SqlParam::TextList(list));
        proof {
            cs = cs.push(Clause::TypeIn);
            ps = ps.push(ParamView::TextList(types_view(q)));
            assert(params_view(params@) =~= ps);
        }
    }
    match &q.search_text {
        Some(t) => {
            n = push_clause(body, Clause::TextLike, n, Ghost(cs));
            let lowered = to_lowercase(t.as_str());
            let escaped = escape_like(lowered.as_str());
            let mut pattern = String::new();
            push_char(&mut pattern, '%');
            push_str(&mut pattern, escaped.as_str());
            push_char(&mut pattern, '%');
            assert(pattern@ =~= seq!['%'] + like_escaped(lowercase_of(t@)) + seq!['%']);
            params.push(SqlParam::Text(pattern));
            proof {
                cs = cs.push(Clause::TextLike);
                ps = ps.push(ParamView::Text(seq!['%'] + like_escaped(lowercase_of(t@)) + seq!['%']));
                assert(params_view(params@) =~= ps);
            }
        },
        None => {},
    }
    match q.created_after {
        Some(a) => {
            n = push_clause(body, Clause::CreatedFrom, n, Ghost(cs));
            params.push(SqlParam::Time(a));
            proof {
                cs = cs.push(Clause::CreatedFrom);
                ps = ps.push(ParamView::Time(a));
                assert(params_view(params@) =~= ps);
            }
        },
        None => {},
    }
    match q.created_before {
        Some(b) => {
            n = push_clause(body, Clause::CreatedTo, n, Ghost(cs));
            params.push(SqlParam::Time(b));
            proof {
                cs = cs.push(Clause::CreatedTo);
                ps = ps.push(ParamView::Time(b));
                assert(params_view(params@) =~= ps);
            }
        },
        None => {},
    }
    match q.updated_after {
        Some(a) => {
            n = push_clause(body, Clause::UpdatedFrom, n, Ghost(cs));
            params.push(SqlParam::Time(a));
            proof {
                cs = cs.push(Clause::UpdatedFrom);
                ps = ps.push(ParamView::Time(a));
                assert(params_view(params@) =~= ps);
            }
        },
        None => {},
    }
    assert(cs =~= fixed_clauses(q));
    assert(ps =~= fixed_params(q));
    n
}

/// Appends the conditions of `q` to `text` and their values to `params`
/// (which is empty); returns the next free placeholder number.
fn push_conditions(q: &SearchQuery, text: &mut String, params: &mut Vec<SqlParam>) -> (next: usize)
    requires
        old(params)@.len() == 0,
        2 * q.property_filters@.len() + 7 <= 65535,
    ensures
        final(text)@ == old(text)@ + clauses_text(clauses_of(q)),
        params_view(final(params)@) == params_of(q),
        next == widths(clauses_of(q)) + 1,
        next <= 2 * q.property_filters@.len() + 6,
{
    let mut body = String::new();
    let mut n = push_fixed_conditions(q, &mut body, params);
    let ghost fixed_cs = fixed_clauses(q);
    let ghost fixed_ps = fixed_params(q);
    let ghost mut cs = fixed_cs;
    assert(fixed_cs + Seq::new(0nat, |k: int| Clause::PropertyIs) =~= fixed_cs);
    assert(q.property_filters@.subrange(0, 0) =~= Seq::<(String, String)>::empty());
    assert(fixed_ps + filter_params(Seq::<(String, String)>::empty()) =~= fixed_ps);
    let mut i: usize = 0;
    while i < q.property_filters.len()
        invariant
            i <= q.property_filters.len(),
            2 * q.property_filters@.len() + 7 <= 65535,
            cs == fixed_cs + Seq::new(i as nat, |k: int| Clause::PropertyIs),
            n == widths(cs) + 1,
            n <= 2 * i + 6,
            body@ == clauses_text(cs),
            params_view(params@) == fixed_ps + filter_params(q.property_filters@.subrange(0, i as int)),
        decreases q.property_filters.len() - i,
    {
        n = push_clause(&mut body, Clause::PropertyIs, n, Ghost(cs));
        let ghost before = params_view(params@);
        params.push(SqlParam::Text(q.property_filters[i].0.clone()));
        params.push(SqlParam::Text(q.property_filters[i].1.clone()));
        proof {
            assert(cs.push(Clause::PropertyIs) =~= fixed_cs + Seq::new((i + 1) as nat, |k: int| Clause::PropertyIs));
            cs = cs.push(Clause::PropertyIs);
            let sub = q.property_filters@.subrange(0, i + 1);
            assert(sub.drop_last() =~= q.property_filters@.subrange(0, i as int));
            assert(params_view(params@) =~= before + seq![ParamView::Text(sub.last().0@), ParamView::Text(sub.last().1@)]);
            assert(params_view(params@) =~= fixed_ps + filter_params(sub));
        }
        i = i + 1;
    }
    push_str(text, body.as_str());
    proof {
        assert(q.property_filters@.subrange(0, i as int) =~= q.property_filters@);
        assert(cs =~= clauses_of(q));
    }
    n
}

/// The statement that reads one page of a search: the query's conditions,
/// its order, then `LIMIT` and `OFFSET` placeholders bound to its page. Its
/// placeholders must fit the protocol's limit of bound parameters.
#[verifier::rlimit(40)]
pub fn search_statement(q: &SearchQuery) -> (r: SqlStatement)
    requires
        2 * q.property_filters@.len() + 7 <= MAX_BIND_PARAMS,
    ensures
        r.text@ == search_text_of(q),
        params_view(r.params@) == params_of(q) + seq![ParamView::Count(q.limit), ParamView::Count(q.offset)],
{
    let mut text = String::new();
    let mut params: Vec<SqlParam> = Vec::new();
    push_str(&mut text, "SELECT id, node_type, properties, created_at, updated_at FROM nodes WHERE 1=1");
    let n = push_conditions(q, &mut text, &mut params);
    let ghost where_part = text@;
    assert(where_part == select_head() + clauses_text(clauses_of(q)));
    push_str(&mut text, " ORDER BY ");
    match q.order_by {
        OrderBy::CreatedAt => push_str(&mut text, "created_at"),
        _ => push_str(&mut text, "updated_at"),
    }
    match q.order_direction {
        OrderDirection::Asc => push_str(&mut text, " ASC"),
        OrderDirection::Desc => push_str(&mut text, " DESC"),
    }
    push_str(&mut text, ", id ASC");
    assert(text@ =~= where_part + order_text(q.order_by, q.order_direction));
    push_str(&mut text, " LIMIT ");
    push_placeholder(&mut text, n);
    push_str(&mut text, " OFFSET ");
    push_placeholder(&mut text, n + 1);
    let ghost before = params_view(params@);
    params.push(SqlParam::Count(q.limit));
    params.push(SqlParam::Count(q.offset));
    assert(params_view(params@) =~= before + seq![ParamView::Count(q.limit), ParamView::Count(q.offset)]);
    assert(text@ =~= search_text_of(q));
    SqlStatement { text, params }
}

/// The statement that counts all matches of a search.
pub fn count_statement(q: &SearchQuery) -> (r: SqlStatement)
    requires
        2 * q.property_filters@.len() + 7 <= MAX_BIND_PARAMS,
    ensures
        r.text@ == count_head() + clauses_text(clauses_of(q)),
        params_view(r.params@) == params_of(q),
{
    let mut text = String::new();
    let mut params: Vec<SqlParam> = Vec::new();
    push_str(&mut text, "SELECT COUNT(*) FROM nodes WHERE 1=1");
    push_conditions(q, &mut text, &mut params);
    SqlStatement { text, params }
}

/// The clauses of a graph query: its node types, if given, then one per
/// property filter.
pub open spec fn query_clauses(q: &GraphQuery) -> Seq<Clause> {
    (if q.node_types is Some { seq![Clause::TypeIn] } else { seq![] }) + Seq::new(
        query_filters(q).len(),
        |k: int| Clause::PropertyJsonIs,
    )
}

pub open spec fn query_filters(q: &GraphQuery) -> Seq<(String, String)> {
    match q.property_filters {
        Some(fs) => fs@,
        None => seq![],
    }
}

/// The values of a graph query's clauses and limit, in placeholder order.
pub open spec fn query_params(q: &GraphQuery) -> Seq<ParamView> {
    (match q.node_types {
        Some(ts) => seq![ParamView::TextList(strings_view(ts@))],
        None => seq![],
    }) + filter_params(query_filters(q)) + (match q.limit {
        Some(l) => seq![ParamView::Count(l)],
        None => seq![],
    })
}

/// The text of the statement of a graph query: newest first.
pub open spec fn query_text_of(q: &GraphQuery) -> Seq<char> {
    let cs = query_clauses(q);
    select_head() + clauses_text(cs) + " ORDER BY created_at DESC, id ASC"@ + (if q.limit is Some {
        " LIMIT "@ + placeholder(widths(cs) + 1)
    } else {
        seq![]
    })
}

/// The statement that reads the nodes of a graph query: of its types (when
/// given), with each filtered property equal, as JSON, to the filter's JSON
/// text, newest first, cut to its limit.
#[verifier::rlimit(40)]
pub fn query_statement(q: &GraphQuery) -> (r: SqlStatement)
    requires
        2 * query_filters(q).len() + 2 <= MAX_BIND_PARAMS,
    ensures
        r.text@ == query_text_of(q),
        params_view(r.params@) == query_params(q),
{
    let mut body = String::new();
    let mut params: Vec<SqlParam> = Vec::new();
    let ghost mut cs: Seq<Clause> = seq![];
    assert(body@ =~= clauses_text(cs));
    let mut n: usize = 1;
    match &q.node_types {
        Some(ts) => {
            n = push_clause(&mut body, Clause::TypeIn, n, Ghost(cs));
            let list = clone_strings(ts);
            assert(Seq::new(list@.len(), |k: int| list@[k]@) =~= strings_view(ts@));
            params.push(SqlParam::TextList(list));
            proof {
                cs = cs.push(Clause::TypeIn);
            }
        },
        None => {},
    }
    let ghost fixed_cs = cs;
    let ghost fixed_ps = params_view(params@);
    proof {
        assert(fixed_cs =~= (if q.node_types is Some { seq![Clause::TypeIn] } else { Seq::<Clause>::empty() }));
        assert(fixed_ps =~= (match q.node_types {
            Some(ts) => seq![ParamView::TextList(strings_view(ts@))],
            None => Seq::<ParamView>::empty(),
        }));
        assert(fixed_cs + Seq::new(0nat, |k: int| Clause::PropertyJsonIs) =~= fixed_cs);
        assert(query_filters(q).subrange(0, 0) =~= Seq::<(String, String)>::empty());
        assert(fixed_ps + filter_params(Seq::<(String, String)>::empty()) =~= fixed_ps);
    }
    let empty: Properties = Vec::new();
    let fs: &Properties = match &q.property_filters {
        Some(f) => f,
        None => &empty,
    };
    assert(fs@ == query_filters(q));
    let mut i: usize = 0;
    while i < fs.len()
        invariant
            fs@ == query_filters(q),
            i <= fs.len(),
            2 * fs@.len() + 2 <= MAX_BIND_PARAMS,
            widths(fixed_cs) <= 1,
            cs == fixed_cs + Seq::new(i as nat, |k: int| Clause::PropertyJsonIs),
            n == widths(cs) + 1,
            n <= 2 * i + 2,
            body@ == clauses_text(cs),
            params_view(params@) == fixed_ps + filter_params(fs@.subrange(0, i as int)),
        decreases fs.len() - i,
    {
        n = push_clause(&mut body, Clause::PropertyJsonIs, n, Ghost(cs));
        let ghost before = params_view(params@);
        params.push(SqlParam::Text(fs[i].0.clone()));
        params.push(SqlParam::Text(fs[i].1.clone()));
        proof {
            assert(cs.push(Clause::PropertyJsonIs) =~= fixed_cs + Seq::new((i + 1) as nat, |k: int| Clause::PropertyJsonIs));
            cs = cs.push(Clause::PropertyJsonIs);
            let sub = fs@.subrange(0, i + 1);
            assert(sub.drop_last() =~= fs@.subrange(0, i as int));
            assert(params_view(params@) =~= before + seq![ParamView::Text(sub.last().0@), ParamView::Text(sub.last().1@)]);
            assert(params_view(params@) =~= fixed_ps + filter_params(sub));
        }
        i = i + 1;
    }
    proof {
        assert(fs@.subrange(0, i as int) =~= fs@);
        assert(cs =~= query_clauses(q));
    }
    let mut text = String::new();
    push_str(&mut text, "SELECT id, node_type, properties, created_at, updated_at FROM nodes WHERE 1=1");
    push_str(&mut text, body.as_str());
    push_str(&mut text, " ORDER BY created_at DESC, id ASC");
    let ghost mid = text@;
    let ghost ps = params_view(params@);
    match q.limit {
        Some(l) => {
            push_str(&mut text, " LIMIT ");
            push_placeholder(&mut text, n);
            params.push(SqlParam::Count(l));
            assert(params_view(params@) =~= ps.push(ParamView::Count(l)));
        },
        None => {},
    }
    assert(text@ =~= query_text_of(q));
    assert(params_view(params@) =~= query_params(q));
    SqlStatement { text, params }
}

/// The text of the statement that reads the neighbours of the node bound to
/// `$1` in direction `d`, over edges of the type bound to `$2` when `typed`,
/// newest edge first.
pub open spec fn neighbors_text_of(d: EdgeDirection, typed: bool) -> Seq<char> {
    "SELECT n.id, n.node_type, n.properties, n.created_at, n.updated_at FROM edges e JOIN nodes n ON n.id = "@
        + (match d {
        EdgeDirection::Outgoing => "e.to_node_id WHERE e.from_node_id = $1"@,
        EdgeDirection::Incoming => "e.from_node_id WHERE e.to_node_id = $1"@,
        EdgeDirection::Both =>
            "CASE WHEN e.from_node_id = $1 THEN e.to_node_id ELSE e.from_node_id END WHERE (e.from_node_id = $1 OR e.to_node_id = $1)"@,
    }) + (if typed {
        " AND e.edge_type = $2"@
    } else {
        seq![]
    }) + " ORDER BY e.created_at DESC"@
}

/// The statement that reads the neighbours of `node_id` in `direction`, over
/// edges of type `edge_type` when given.
pub fn neighbors_statement(node_id: NodeId, edge_type: Option<&str>, direction: EdgeDirection) -> (r: SqlStatement)
    ensures
        r.text@ == neighbors_text_of(direction, edge_type is Some),
        params_view(r.params@) == seq![ParamView::Id(node_id)] + (match edge_type {
            Some(t) => seq![ParamView::Text(t@)],
            None => seq![],
        }),
{
    let mut text = String::new();
    push_str(&mut text, "SELECT n.id, n.node_type, n.properties, n.created_at, n.updated_at FROM edges e JOIN nodes n ON n.id = ");
    match direction {
        EdgeDirection::Outgoing => push_str(&mut text, "e.to_node_id WHERE e.from_node_id = $1"),
        EdgeDirection::Incoming => push_str(&mut text, "e.from_node_id WHERE e.to_node_id = $1"),
        EdgeDirection::Both => push_str(
            &mut text,
            "CASE WHEN e.from_node_id = $1 THEN e.to_node_id ELSE e.from_node_id END WHERE (e.from_node_id = $1 OR e.to_node_id = $1)",
        ),
    }
    let mut params: Vec<SqlParam> = Vec::new();
    params.push(SqlParam::Id(node_id));
    match edge_type {
        Some(t) => {
            push_str(&mut text, " AND e.edge_type = $2");
            let mut owned = String::new();
            push_str(&mut owned, t);
            params.push(SqlParam::Text(owned));
        },
        None => {},
    }
    push_str(&mut text, " ORDER BY e.created_at DESC");
    assert(text@ =~= neighbors_text_of(direction, edge_type is Some));
    assert(params_view(params@) =~= seq![ParamView::Id(node_id)] + (match edge_type {
        Some(t) => seq![ParamView::Text(t@)],
        None => Seq::<ParamView>::empty(),
    }));
    SqlStatement { text, params }
}

} // verus!
