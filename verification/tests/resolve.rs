use tsugiki::resolve::resolve;
use tsugiki::types::{Addr, NodeId, ScannedNode};

fn make_node(line: usize, hex: &str, text: &str) -> ScannedNode {
    ScannedNode {
        line_number: line,
        id: NodeId::from_short(hex),
        depth: Some(1),
        text: text.to_string(),
        notes: vec![],
    }
}

#[test]
fn resolve_by_line() {
    let nodes = vec![make_node(5, "aabb1122", "hello")];
    let found = resolve(&nodes, &Addr::Line(5));
    assert!(found.is_some());
    assert_eq!(found.unwrap().text, "hello");
}

#[test]
fn resolve_by_hex() {
    let nodes = vec![make_node(5, "aabb1122", "hello")];
    let found = resolve(&nodes, &Addr::Hex("aabb1122".into()));
    assert!(found.is_some());
}

#[test]
fn resolve_miss() {
    let nodes = vec![make_node(5, "aabb1122", "hello")];
    assert!(resolve(&nodes, &Addr::Line(99)).is_none());
    assert!(resolve(&nodes, &Addr::Hex("deadbeef".into())).is_none());
}

#[test]
fn addr_parse_number_is_line() {
    assert!(matches!(Addr::parse("42"), Addr::Line(42)));
    assert!(matches!(Addr::parse("ab12"), Addr::Hex(ref h) if h == "ab12"));
}

#[test]
fn node_id_matches_prefix() {
    let id = NodeId::from_full("aabb1122-3344-5566-7788-99aabbccddee");
    assert_eq!(id.short, "aabb1122");
    assert!(id.matches("aabb1122"));
    assert!(id.matches("aabb1122-3344-5566-7788-99aabbccddee"));
    assert!(!id.matches("aabb"));
}
