use agent_office::address::LuhmannId;
use agent_office::ids::luhmann_to_node_id;
use agent_office::model::{Edge, Node, Properties};
use agent_office::query::GraphQuery;
use agent_office::search::{matches_search_query, page_has_more, properties_json, OrderBy, OrderDirection, SearchQuery};
use agent_office::store::{EdgeDirection, InMemoryStorage, StorageError};

fn node(t: &str) -> Node {
    Node::new(t.to_string(), Properties::new())
}

fn node_at(t: &str, id: u128, created: i64, updated: i64) -> Node {
    let mut n = node(t).with_id(id);
    n.created_at = created;
    n.updated_at = updated;
    n
}

fn edge(t: &str, from: u128, to: u128) -> Edge {
    Edge::new(t.to_string(), from, to, Properties::new())
}

fn props(entries: &[(&str, &str)]) -> Properties {
    entries.iter().map(|(k, v)| (k.to_string(), v.to_string())).collect()
}

#[test]
fn test_create_and_get_node() {
    let mut storage = InMemoryStorage::new();
    let node = node("test");

    let created = storage.create_node(&node).unwrap();
    assert_eq!(created.id, node.id);

    let retrieved = storage.get_node(node.id).unwrap();
    assert_eq!(retrieved.id, node.id);
}

#[test]
fn test_create_edge_between_nodes() {
    let mut storage = InMemoryStorage::new();

    let node1 = node("agent");
    let node2 = node("mailbox");

    storage.create_node(&node1).unwrap();
    storage.create_node(&node2).unwrap();

    let edge = edge("owns", node1.id, node2.id);
    let created = storage.create_edge(&edge).unwrap();

    assert_eq!(created.from_node_id, node1.id);
    assert_eq!(created.to_node_id, node2.id);
}

#[test]
fn test_query_nodes_with_type_filter() {
    let mut storage = InMemoryStorage::new();

    let agent = node("agent");
    let mailbox = node("mailbox");

    storage.create_node(&agent).unwrap();
    storage.create_node(&mailbox).unwrap();

    let query = GraphQuery::new().with_node_type("agent".to_string());
    let results = storage.query_nodes(&query);

    assert_eq!(results.len(), 1);
    assert_eq!(results[0].node_type, "agent");
}

#[test]
fn test_get_neighbors() {
    let mut storage = InMemoryStorage::new();

    let agent = node("agent");
    let mailbox1 = node("mailbox");
    let mailbox2 = node("mailbox");

    storage.create_node(&agent).unwrap();
    storage.create_node(&mailbox1).unwrap();
    storage.create_node(&mailbox2).unwrap();

    let edge1 = edge("owns", agent.id, mailbox1.id);
    let edge2 = edge("owns", agent.id, mailbox2.id);

    storage.create_edge(&edge1).unwrap();
    storage.create_edge(&edge2).unwrap();

    let neighbors = storage.get_neighbors(agent.id, Some("owns"), EdgeDirection::Outgoing);
    assert_eq!(neighbors.len(), 2);
}

#[test]
fn create_then_get_returns_the_same_node() {
    let mut storage = InMemoryStorage::new();
    let mut n = Node::new("note".to_string(), props(&[("title", "\"Hello\""), ("n", "3")]));
    n.set_property("n".to_string(), "4".to_string());
    storage.create_node(&n).unwrap();
    let back = storage.get_node(n.id).unwrap();
    assert_eq!(back.id, n.id);
    assert_eq!(back.node_type, "note");
    assert_eq!(back.properties, n.properties);
    assert_eq!(back.created_at, n.created_at);
    assert_eq!(back.updated_at, n.updated_at);
    assert_eq!(back.get_property("n").map(|s| s.as_str()), Some("4"));
    assert!(back.updated_at >= back.created_at);
}

#[test]
fn duplicate_create_is_rejected() {
    let mut storage = InMemoryStorage::new();
    let first = Node::new("note".to_string(), props(&[("title", "\"First\"")]));
    storage.create_node(&first).unwrap();
    let second = Node::new("note".to_string(), props(&[("title", "\"Second\"")])).with_id(first.id);
    match storage.create_node(&second) {
        Err(StorageError::AlreadyExists(id)) => assert_eq!(id, first.id),
        other => panic!("expected AlreadyExists, got {:?}", other),
    }
    let kept = storage.get_node(first.id).unwrap();
    assert_eq!(kept.get_property("title").map(|s| s.as_str()), Some("\"First\""));
}

#[test]
fn missing_entities_are_reported() {
    let mut storage = InMemoryStorage::new();
    assert!(matches!(storage.get_node(7), Err(StorageError::NodeNotFound(7))));
    assert!(matches!(storage.delete_node(7), Err(StorageError::NodeNotFound(7))));
    assert!(matches!(storage.update_node(&node("x").with_id(7)), Err(StorageError::NodeNotFound(7))));
    assert!(matches!(storage.get_edge(9), Err(StorageError::EdgeNotFound(9))));
    assert!(matches!(storage.delete_edge(9), Err(StorageError::EdgeNotFound(9))));
    let a = node("a");
    storage.create_node(&a).unwrap();
    assert!(matches!(storage.create_edge(&edge("e", 5, a.id)), Err(StorageError::NodeNotFound(5))));
    assert!(matches!(storage.create_edge(&edge("e", a.id, 6)), Err(StorageError::NodeNotFound(6))));
}

#[test]
fn update_replaces_the_node() {
    let mut storage = InMemoryStorage::new();
    let n = node("note");
    storage.create_node(&n).unwrap();
    let mut changed = storage.get_node(n.id).unwrap();
    changed.set_property("title".to_string(), "\"New\"".to_string());
    storage.update_node(&changed).unwrap();
    let back = storage.get_node(n.id).unwrap();
    assert_eq!(back.get_property("title").map(|s| s.as_str()), Some("\"New\""));
}

#[test]
fn cascade_delete_keeps_the_other_endpoint() {
    let mut storage = InMemoryStorage::new();
    let a = node("note");
    let b = node("note");
    storage.create_node(&a).unwrap();
    storage.create_node(&b).unwrap();
    let e = edge("child_of", a.id, b.id);
    storage.create_edge(&e).unwrap();
    storage.delete_node(a.id).unwrap();
    assert!(storage.get_node(b.id).is_ok());
    assert!(storage.get_node(a.id).is_err());
    assert!(storage.get_edge(e.id).is_err());
    assert!(storage.get_edges_to(b.id, None).is_empty());
}

#[test]
fn edges_filter_by_direction_and_type() {
    let mut storage = InMemoryStorage::new();
    let a = node("a");
    let b = node("b");
    storage.create_node(&a).unwrap();
    storage.create_node(&b).unwrap();
    storage.create_edge(&edge("owns", a.id, b.id)).unwrap();
    storage.create_edge(&edge("refs", b.id, a.id)).unwrap();
    assert_eq!(storage.get_edges_from(a.id, None).len(), 1);
    assert_eq!(storage.get_edges_from(a.id, Some("refs")).len(), 0);
    assert_eq!(storage.get_edges_to(a.id, Some("refs")).len(), 1);
    assert_eq!(storage.get_neighbors(a.id, None, EdgeDirection::Both).len(), 2);
    assert_eq!(storage.get_neighbors(a.id, None, EdgeDirection::Incoming)[0].id, b.id);
    storage.delete_edge(storage.get_edges_from(a.id, None)[0].id).unwrap();
    assert_eq!(storage.get_edges_from(a.id, None).len(), 0);
}

#[test]
fn search_orders_and_paginates() {
    let mut storage = InMemoryStorage::new();
    for (i, t) in [(1u128, 30i64), (2, 10), (3, 20), (4, 40)] {
        storage.create_node(&node_at("mail", i, t, t)).unwrap();
    }
    storage.create_node(&node_at("note", 5, 5, 5)).unwrap();
    let base = SearchQuery {
        node_types: vec!["mail".to_string()],
        order_by: OrderBy::CreatedAt,
        order_direction: OrderDirection::Asc,
        ..SearchQuery::default()
    };
    let ids = |q: &SearchQuery| storage.search_nodes(q).items.iter().map(|n| n.id).collect::<Vec<u128>>();
    assert_eq!(ids(&base), vec![2, 3, 1, 4]);
    let first = SearchQuery { limit: 2, offset: 0, node_types: vec!["mail".to_string()], ..base_clone(&base) };
    let second = SearchQuery { limit: 2, offset: 2, node_types: vec!["mail".to_string()], ..base_clone(&base) };
    let both = SearchQuery { limit: 4, offset: 0, node_types: vec!["mail".to_string()], ..base_clone(&base) };
    let mut joined = ids(&first);
    joined.extend(ids(&second));
    assert_eq!(joined, ids(&both));
    let r = storage.search_nodes(&first);
    assert_eq!(r.total_count, 4);
    assert_eq!(r.returned_count, 2);
    assert!(r.has_more);
    assert!(!storage.search_nodes(&second).has_more);
    let desc = SearchQuery { order_direction: OrderDirection::Desc, ..base_clone(&base) };
    assert_eq!(ids(&desc), vec![4, 1, 3, 2]);
    assert_eq!(storage.count_nodes(&base), 4);
    let far = SearchQuery { offset: 10, ..base_clone(&base) };
    assert!(storage.search_nodes(&far).items.is_empty());
}

fn base_clone(q: &SearchQuery) -> SearchQuery {
    SearchQuery {
        node_types: q.node_types.clone(),
        search_text: q.search_text.clone(),
        search_fields: q.search_fields.clone(),
        created_after: q.created_after,
        created_before: q.created_before,
        updated_after: q.updated_after,
        property_filters: q.property_filters.clone(),
        limit: q.limit,
        offset: q.offset,
        order_by: q.order_by,
        order_direction: q.order_direction,
    }
}

#[test]
fn search_ties_keep_insertion_order() {
    let mut storage = InMemoryStorage::new();
    for i in 1..=3u128 {
        storage.create_node(&node_at("mail", i, 7, 7)).unwrap();
    }
    let q = SearchQuery::default();
    let ids: Vec<u128> = storage.search_nodes(&q).items.iter().map(|n| n.id).collect();
    assert_eq!(ids, vec![1, 2, 3]);
}

#[test]
fn search_default_query() {
    let q = SearchQuery::default();
    assert_eq!(q.limit, 50);
    assert_eq!(q.offset, 0);
    assert_eq!(q.order_by, OrderBy::UpdatedAt);
    assert_eq!(q.order_direction, OrderDirection::Desc);
}

#[test]
fn search_text_and_property_filters() {
    let mut n = node_at("note", 1, 100, 200);
    n.properties = props(&[("title", "\"Rust Programming\""), ("count", "3")]);
    let text = |t: &str| SearchQuery { search_text: Some(t.to_string()), ..SearchQuery::default() };
    assert!(matches_search_query(&n, &text("rust")));
    assert!(matches_search_query(&n, &text("PROGRAMMING")));
    assert!(matches_search_query(&n, &text("\"count\":3")));
    assert!(!matches_search_query(&n, &text("python")));
    let filt = |k: &str, v: &str| SearchQuery {
        property_filters: vec![(k.to_string(), v.to_string())],
        ..SearchQuery::default()
    };
    assert!(matches_search_query(&n, &filt("title", "Rust Programming")));
    assert!(matches_search_query(&n, &filt("count", "3")));
    assert!(!matches_search_query(&n, &filt("count", "4")));
    assert!(!matches_search_query(&n, &filt("missing", "3")));
    let times = SearchQuery { created_after: Some(100), created_before: Some(100), updated_after: Some(200), ..SearchQuery::default() };
    assert!(matches_search_query(&n, &times));
    let late = SearchQuery { updated_after: Some(201), ..SearchQuery::default() };
    assert!(!matches_search_query(&n, &late));
    let early = SearchQuery { created_before: Some(99), ..SearchQuery::default() };
    assert!(!matches_search_query(&n, &early));
}

#[test]
fn property_map_text_is_json() {
    assert_eq!(properties_json(&props(&[])), "{}");
    assert_eq!(properties_json(&props(&[("a", "1"), ("b", "\"x\"")])), "{\"a\":1,\"b\":\"x\"}");
    assert_eq!(properties_json(&props(&[("a\"b", "1")])), "{\"a\\\"b\":1}");
    assert_eq!(properties_json(&props(&[("t\\\n\u{1}", "2")])), "{\"t\\\\\\n\\u0001\":2}");
}

#[test]
fn related_is_bounded_by_depth() {
    let mut storage = InMemoryStorage::new();
    let ids: Vec<u128> = (1..=4).collect();
    for &i in &ids {
        storage.create_node(&node_at("n", i, 0, 0)).unwrap();
    }
    storage.create_edge(&edge("e", 1, 2)).unwrap();
    storage.create_edge(&edge("e", 3, 2)).unwrap();
    storage.create_edge(&edge("e", 3, 4)).unwrap();
    let related = |d: usize| storage.related(1, d).iter().map(|n| n.id).collect::<Vec<u128>>();
    assert!(related(0).is_empty());
    assert_eq!(related(1), vec![2]);
    assert_eq!(related(2), vec![2, 3]);
    assert_eq!(related(3), vec![2, 3, 4]);
    assert_eq!(related(50), vec![2, 3, 4]);
    let (nodes, edges) = storage.subgraph(1, 2);
    assert_eq!(nodes.iter().map(|n| n.id).collect::<Vec<u128>>(), vec![1, 2, 3]);
    assert_eq!(edges.len(), 2);
}

#[test]
fn end_to_end_scenario() {
    let mut storage = InMemoryStorage::new();
    let a_addr = LuhmannId::parse("1").unwrap();
    let b_addr = a_addr.first_child();
    assert_eq!(b_addr.to_string(), "1a");
    let a = Node::new("note".to_string(), props(&[("luhmann_id", "\"1\"")])).with_id(luhmann_to_node_id(&a_addr));
    let b = Node::new("note".to_string(), props(&[("luhmann_id", "\"1a\"")])).with_id(luhmann_to_node_id(&b_addr));
    storage.create_node(&a).unwrap();
    storage.create_node(&b).unwrap();
    storage.create_edge(&edge("child_of", a.id, b.id)).unwrap();
    let out: Vec<u128> = storage.get_neighbors(a.id, Some("child_of"), EdgeDirection::Outgoing).iter().map(|n| n.id).collect();
    assert_eq!(out, vec![b.id]);
    let rel: Vec<u128> = storage.related(a.id, 1).iter().map(|n| n.id).collect();
    assert_eq!(rel, vec![b.id]);
    storage.delete_node(a.id).unwrap();
    assert!(storage.get_node(b.id).is_ok());
    assert!(storage.get_edges_to(b.id, None).is_empty());
}

#[test]
fn query_filters_and_limit() {
    let mut storage = InMemoryStorage::new();
    let mut a = node_at("agent", 1, 0, 0);
    a.properties = props(&[("status", "\"online\"")]);
    let mut b = node_at("agent", 2, 0, 0);
    b.properties = props(&[("status", "\"away\"")]);
    storage.create_node(&a).unwrap();
    storage.create_node(&b).unwrap();
    storage.create_node(&node_at("mailbox", 3, 0, 0)).unwrap();
    let online = GraphQuery::new().with_filter("status".to_string(), "\"online\"".to_string());
    assert_eq!(storage.query_nodes(&online).iter().map(|n| n.id).collect::<Vec<u128>>(), vec![1]);
    let replaced = GraphQuery::new()
        .with_filter("status".to_string(), "\"online\"".to_string())
        .with_filter("status".to_string(), "\"away\"".to_string());
    assert_eq!(replaced.property_filters.as_ref().map(|f| f.len()), Some(1));
    assert_eq!(storage.query_nodes(&replaced).iter().map(|n| n.id).collect::<Vec<u128>>(), vec![2]);
    let agents = GraphQuery::new().with_node_type("agent".to_string()).with_limit(1);
    assert_eq!(storage.query_nodes(&agents).len(), 1);
    assert_eq!(storage.query_nodes(&GraphQuery::new()).len(), 3);
    let typed = GraphQuery::new().with_edge_type("owns".to_string());
    assert_eq!(typed.edge_types, Some(vec!["owns".to_string()]));
}

#[test]
fn shortest_path_follows_outgoing_edges() {
    let mut storage = InMemoryStorage::new();
    for i in 1..=5u128 {
        storage.create_node(&node_at("n", i, 0, 0)).unwrap();
    }
    storage.create_edge(&edge("e", 1, 2)).unwrap();
    storage.create_edge(&edge("e", 2, 3)).unwrap();
    storage.create_edge(&edge("e", 3, 4)).unwrap();
    storage.create_edge(&edge("e", 1, 3)).unwrap();
    storage.create_edge(&edge("e", 5, 1)).unwrap();
    assert_eq!(storage.shortest_path(1, 4, 5), Some(vec![1, 3, 4]));
    assert_eq!(storage.shortest_path(1, 4, 2), Some(vec![1, 3, 4]));
    assert_eq!(storage.shortest_path(1, 4, 1), None);
    assert_eq!(storage.shortest_path(1, 5, 10), None);
    assert_eq!(storage.shortest_path(2, 2, 0), Some(vec![2]));
    assert_eq!(storage.shortest_path(5, 4, 3), Some(vec![5, 1, 3, 4]));
}

#[test]
fn set_property_adds_or_replaces() {
    let mut n = node_at("note", 1, 10, 10);
    n.set_property("a".to_string(), "1".to_string());
    n.set_property("b".to_string(), "2".to_string());
    n.set_property("a".to_string(), "3".to_string());
    assert_eq!(n.properties, props(&[("a", "3"), ("b", "2")]));
    assert!(n.updated_at >= n.created_at);
    assert!(n.get_property("c").is_none());
}

#[test]
fn new_entities_get_fresh_ids_and_the_current_time() {
    let a = node("a");
    let b = node("a");
    assert_ne!(a.id, b.id);
    assert_eq!(a.created_at, a.updated_at);
    // after 2020-01-01T00:00:00Z
    assert!(a.created_at > 1_577_836_800_000_000);
    let e1 = edge("t", a.id, b.id);
    let e2 = edge("t", a.id, b.id);
    assert_ne!(e1.id, e2.id);
    assert!(e1.created_at > 1_577_836_800_000_000);
}

#[test]
fn search_finds_escaped_keys() {
    let mut n = node_at("note", 1, 0, 0);
    n.properties = props(&[("a\"b", "1")]);
    let q = SearchQuery { search_text: Some("a\\\"b".to_string()), ..SearchQuery::default() };
    assert!(matches_search_query(&n, &q));
}

#[test]
fn touch_moves_update_time_forward_only() {
    let mut n = node_at("note", 1, 100, 200);
    n.touch(300);
    assert_eq!(n.updated_at, 300);
    n.touch(250);
    assert_eq!(n.updated_at, 300);
    let mut m = node_at("note", 2, 100, 50);
    m.touch(70);
    assert_eq!(m.updated_at, 100);
}

#[test]
fn has_more_rule() {
    assert!(page_has_more(5, 0, 4));
    assert!(!page_has_more(5, 1, 4));
    assert!(!page_has_more(5, 10, 4));
    assert!(!page_has_more(0, 0, 0));
}
