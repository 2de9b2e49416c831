use agent_office::address::{LuhmannId, LuhmannPart};
use agent_office::ids::{luhmann_to_node_id, string_to_node_id};
use agent_office::link::LinkType;
use std::cmp::Ordering;

fn parse(s: &str) -> LuhmannId {
    LuhmannId::parse(s).unwrap()
}

#[test]
fn test_luhmann_id_parsing() {
    let id = LuhmannId::parse("1a2b").unwrap();
    assert_eq!(id.parts.len(), 4);
    assert!(matches!(id.parts[0], LuhmannPart::Number(1)));
    assert!(matches!(id.parts[1], LuhmannPart::Letter('a')));
    assert!(matches!(id.parts[2], LuhmannPart::Number(2)));
    assert!(matches!(id.parts[3], LuhmannPart::Letter('b')));
}

#[test]
fn test_luhmann_id_display() {
    let id = LuhmannId::parse("1a2").unwrap();
    assert_eq!(id.to_string(), "1a2");
}

#[test]
fn test_luhmann_parent() {
    let id = LuhmannId::parse("1a2").unwrap();
    let parent = id.parent().unwrap();
    assert_eq!(parent.to_string(), "1a");
}

#[test]
fn test_luhmann_next_sibling() {
    let id = LuhmannId::parse("1a").unwrap();
    let next = id.next_sibling().unwrap();
    assert_eq!(next.to_string(), "1b");

    let id2 = LuhmannId::parse("1").unwrap();
    let next2 = id2.next_sibling().unwrap();
    assert_eq!(next2.to_string(), "2");
}

#[test]
fn test_luhmann_first_child() {
    let id = LuhmannId::parse("1").unwrap();
    let child = id.first_child();
    assert_eq!(child.to_string(), "1a");

    let id2 = LuhmannId::parse("1a").unwrap();
    let child2 = id2.first_child();
    assert_eq!(child2.to_string(), "1a1");
}

#[test]
fn address_algebra_examples() {
    assert_eq!(parse("1").first_child(), parse("1a"));
    assert_eq!(parse("1a").first_child(), parse("1a1"));
    assert_eq!(parse("1a").next_sibling(), Some(parse("1b")));
    assert_eq!(parse("1").next_sibling(), Some(parse("2")));
    assert_eq!(parse("1a2").parent(), Some(parse("1a")));
    assert!(parse("1a1").is_descendant_of(&parse("1")));
    assert!(!parse("2").is_descendant_of(&parse("1")));
}

#[test]
fn parse_skips_other_characters_and_lowercases() {
    let id = parse(" 12-B.x7 ");
    assert_eq!(
        id.parts,
        vec![LuhmannPart::Number(12), LuhmannPart::Letter('b'), LuhmannPart::Letter('x'), LuhmannPart::Number(7)]
    );
    assert_eq!(id.to_string(), "12bx7");
}

#[test]
fn parse_accepts_non_alternating_forms() {
    assert_eq!(parse("aa").parts, vec![LuhmannPart::Letter('a'), LuhmannPart::Letter('a')]);
    assert_eq!(parse("11").parts, vec![LuhmannPart::Number(11)]);
}

#[test]
fn parse_rejects_text_without_segments() {
    assert!(LuhmannId::parse("").is_none());
    assert!(LuhmannId::parse("-./ ").is_none());
}

#[test]
fn parse_drops_numbers_beyond_u32() {
    assert_eq!(parse("4294967295").parts, vec![LuhmannPart::Number(4294967295)]);
    assert_eq!(parse("4294967296a").parts, vec![LuhmannPart::Letter('a')]);
    assert!(LuhmannId::parse("99999999999").is_none());
}

#[test]
fn parse_reads_leading_zeros_as_the_number() {
    assert_eq!(parse("007").to_string(), "7");
}

#[test]
fn next_sibling_stops_at_z() {
    assert!(parse("1z").next_sibling().is_none());
    assert_eq!(parse("1y").next_sibling(), Some(parse("1z")));
}

#[test]
fn parent_of_single_segment_is_none() {
    assert!(parse("3").parent().is_none());
}

#[test]
fn first_child_after_letter_is_one() {
    assert_eq!(parse("1a").first_child().parts.last(), Some(&LuhmannPart::Number(1)));
}

#[test]
fn level_counts_segments() {
    assert_eq!(parse("1a2b").level(), 4);
    assert_eq!(parse("7").level(), 1);
}

#[test]
fn descendant_is_strict() {
    assert!(!parse("1a").is_descendant_of(&parse("1a")));
    assert!(!parse("1").is_descendant_of(&parse("1a")));
    assert!(parse("1a2b").is_descendant_of(&parse("1a")));
}

#[test]
fn insert_between_siblings() {
    assert_eq!(parse("1").insert_between(&parse("2")), Some(parse("1a")));
    assert_eq!(parse("1a").insert_between(&parse("1b")), Some(parse("1a1")));
    assert!(parse("1a").insert_between(&parse("2b")).is_none());
}

#[test]
fn from_str_reports_the_text() {
    assert_eq!(LuhmannId::from_str("1b").unwrap(), parse("1b"));
    assert_eq!(LuhmannId::from_str("--").unwrap_err(), "Invalid Luhmann ID: --");
}

#[test]
fn address_ordering_is_by_segments() {
    assert!(parse("1") < parse("1a"));
    assert!(parse("1a") < parse("1b"));
    assert!(parse("1b") < parse("2"));
    assert!(parse("2") < parse("10"));
}

#[test]
fn link_type_names() {
    assert_eq!(LinkType::References.as_str(), "references");
    assert_eq!(LinkType::from_str("references"), Some(LinkType::References));
    assert_eq!(LinkType::from_str("child_of"), None);
}

#[test]
fn derived_ids_are_deterministic() {
    assert_eq!(string_to_node_id("intern_0"), string_to_node_id("intern_0"));
    assert_ne!(string_to_node_id("intern_0"), string_to_node_id("intern_1"));
    assert_eq!(luhmann_to_node_id(&parse("1a")), string_to_node_id("1a"));
}

#[test]
fn derived_id_is_the_v5_uuid() {
    // uuid::Uuid::new_v5(&Uuid::NAMESPACE_DNS, b"example.org") is aad03681-8b63-5304-89e0-8ca8f49461b5,
    // and the namespace here is that DNS namespace.
    assert_eq!(string_to_node_id("example.org"), 0xaad03681_8b63_5304_89e0_8ca8f49461b5);
}

#[test]
fn render_of_parse_is_the_canonical_form() {
    assert_eq!(parse("1A-2b").to_string(), "1a2b");
    assert_eq!(parse("  3 c 10 ").to_string(), "3c10");
    assert_eq!(parse("0x").to_string(), "0x");
}

#[test]
fn compare_orders_by_segments() {
    let cases = [
        ("1", "1a", Ordering::Less),
        ("1b", "1a", Ordering::Greater),
        ("1a", "1a", Ordering::Equal),
        ("2", "10", Ordering::Less),
        ("a", "1", Ordering::Greater),
        ("1a2", "1b", Ordering::Less),
    ];
    for (a, b, expected) in cases {
        assert_eq!(parse(a).compare(&parse(b)), expected, "{} vs {}", a, b);
        assert_eq!(parse(a).cmp(&parse(b)), expected, "{} vs {}", a, b);
    }
}
