use agent_office::search::{OrderBy, OrderDirection, SearchQuery};
use agent_office::query::GraphQuery;
use agent_office::sql::{count_statement, escape_like, neighbors_statement, query_statement, search_statement, SqlParam};
use agent_office::store::EdgeDirection;

fn texts(params: &[SqlParam]) -> Vec<String> {
    params
        .iter()
        .map(|p| match p {
            SqlParam::Text(s) => format!("text:{}", s),
            SqlParam::TextList(v) => format!("list:{}", v.join("|")),
            SqlParam::Time(t) => format!("time:{}", t),
            SqlParam::Count(n) => format!("count:{}", n),
            SqlParam::Id(i) => format!("id:{}", i),
        })
        .collect()
}

#[test]
fn plain_search_statement() {
    let q = SearchQuery::default();
    let s = search_statement(&q);
    assert_eq!(
        s.text,
        "SELECT id, node_type, properties, created_at, updated_at FROM nodes WHERE 1=1 ORDER BY updated_at DESC, id ASC LIMIT $1 OFFSET $2"
    );
    assert_eq!(texts(&s.params), vec!["count:50", "count:0"]);
}

#[test]
fn every_filter_becomes_a_bound_parameter() {
    let q = SearchQuery {
        node_types: vec!["mail".to_string(), "note".to_string()],
        search_text: Some("50%_Off".to_string()),
        created_after: Some(10),
        created_before: Some(20),
        updated_after: Some(15),
        property_filters: vec![("to".to_string(), "bob'; DROP TABLE nodes; --".to_string())],
        limit: 5,
        offset: 10,
        order_by: OrderBy::CreatedAt,
        order_direction: OrderDirection::Asc,
        ..SearchQuery::default()
    };
    let s = search_statement(&q);
    assert_eq!(
        s.text,
        "SELECT id, node_type, properties, created_at, updated_at FROM nodes WHERE 1=1 \
         AND node_type = ANY($1) AND LOWER(properties::text) LIKE $2 ESCAPE '\\' \
         AND created_at >= $3 AND created_at <= $4 AND updated_at >= $5 \
         AND properties->>$6 = $7 ORDER BY created_at ASC, id ASC LIMIT $8 OFFSET $9"
    );
    assert_eq!(
        texts(&s.params),
        vec![
            "list:mail|note",
            "text:%50\\%\\_off%",
            "time:10",
            "time:20",
            "time:15",
            "text:to",
            "text:bob'; DROP TABLE nodes; --",
            "count:5",
            "count:10",
        ]
    );
    assert!(!s.text.contains("DROP"));
    let c = count_statement(&q);
    assert!(c.text.starts_with("SELECT COUNT(*) FROM nodes WHERE 1=1 AND node_type = ANY($1)"));
    assert!(c.text.ends_with("AND properties->>$6 = $7"));
    assert_eq!(c.params.len(), 7);
}

#[test]
fn like_escaping() {
    assert_eq!(escape_like("a%b_c\\d"), "a\\%b\\_c\\\\d");
    assert_eq!(escape_like("plain"), "plain");
}

#[test]
fn graph_query_statement() {
    let all = query_statement(&GraphQuery::new());
    assert_eq!(
        all.text,
        "SELECT id, node_type, properties, created_at, updated_at FROM nodes WHERE 1=1 ORDER BY created_at DESC, id ASC"
    );
    assert!(all.params.is_empty());
    let q = GraphQuery::new()
        .with_node_type("agent".to_string())
        .with_filter("status".to_string(), "\"online\"".to_string())
        .with_limit(3);
    let s = query_statement(&q);
    assert_eq!(
        s.text,
        "SELECT id, node_type, properties, created_at, updated_at FROM nodes WHERE 1=1 \
         AND node_type = ANY($1) AND properties->$2 = $3::jsonb ORDER BY created_at DESC, id ASC LIMIT $4"
    );
    assert_eq!(texts(&s.params), vec!["list:agent", "text:status", "text:\"online\"", "count:3"]);
}

#[test]
fn neighbour_statements() {
    let out = neighbors_statement(7, Some("owns"), EdgeDirection::Outgoing);
    assert_eq!(
        out.text,
        "SELECT n.id, n.node_type, n.properties, n.created_at, n.updated_at FROM edges e JOIN nodes n ON n.id = \
         e.to_node_id WHERE e.from_node_id = $1 AND e.edge_type = $2 ORDER BY e.created_at DESC"
    );
    assert_eq!(texts(&out.params), vec!["id:7", "text:owns"]);
    let both = neighbors_statement(7, None, EdgeDirection::Both);
    assert!(both.text.contains("CASE WHEN e.from_node_id = $1 THEN e.to_node_id ELSE e.from_node_id END"));
    assert!(!both.text.contains("$2"));
    assert_eq!(texts(&both.params), vec!["id:7"]);
    let inc = neighbors_statement(7, None, EdgeDirection::Incoming);
    assert!(inc.text.contains("e.from_node_id WHERE e.to_node_id = $1"));
}
