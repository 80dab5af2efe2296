use tsugiki::scan::{
    extract_id_of, find_parent, first_empty, heading_depth_of, scan_all, strip_heading_markers_of, strip_id_of,
};

#[test]
fn heading_with_id() {
    let nodes = scan_all("# The title [[abcd1234]]\n");
    assert_eq!(nodes.len(), 1);
    assert_eq!(nodes[0].depth, Some(1));
    assert_eq!(nodes[0].text, "The title");
    assert_eq!(nodes[0].id.short, "abcd1234");
}

#[test]
fn action_block_with_id() {
    let nodes = scan_all("Some prose text here. [[abcd1234]]\n");
    assert_eq!(nodes.len(), 1);
    assert_eq!(nodes[0].depth, None);
    assert_eq!(nodes[0].text, "Some prose text here.");
}

#[test]
fn empty_heading() {
    let nodes = scan_all("### [[abcd1234]]\n");
    assert_eq!(nodes.len(), 1);
    assert_eq!(nodes[0].depth, Some(3));
    assert_eq!(nodes[0].text, "");
}

#[test]
fn standalone_note_skipped() {
    let nodes = scan_all("[[this is a translator note]]\n");
    assert_eq!(nodes.len(), 0);
}

#[test]
fn node_with_trailing_notes() {
    let content = "# Heading [[abcd1234]]\n[[a note about this]]\n\n";
    let nodes = scan_all(content);
    assert_eq!(nodes.len(), 1);
    assert_eq!(nodes[0].notes, vec!["a note about this"]);
}

#[test]
fn finds_first_empty() {
    let content = "### annotated heading [[aaaa1111]]\n\nsome text [[bbbb2222]]\n\n### [[cccc3333]]\n";
    let nodes = scan_all(content);
    let empty = first_empty(&nodes).unwrap();
    assert_eq!(empty.id.short, "cccc3333");
}

#[test]
fn finds_parent() {
    let content = "# Top [[aaaa1111]]\n\n## Mid [[bbbb2222]]\n\n### Leaf [[cccc3333]]\n";
    let nodes = scan_all(content);
    let leaf = &nodes[2];
    let parent = find_parent(&nodes, leaf).unwrap();
    assert_eq!(parent.id.short, "bbbb2222");
}

#[test]
fn line_numbers_count_from_one() {
    let nodes = scan_all("\n# Top [[aaaa1111]]\n\ntext [[bbbb2222]]\n");
    assert_eq!(nodes.len(), 2);
    assert_eq!(nodes[0].line_number, 2);
    assert_eq!(nodes[1].line_number, 4);
}

#[test]
fn full_uuid_is_kept() {
    let nodes = scan_all("text [[aaaa1111-0000-0000-0000-000000000000]]\n");
    assert_eq!(nodes.len(), 1);
    assert_eq!(nodes[0].id.short, "aaaa1111-0000-0000-0000-000000000000");
    assert_eq!(nodes[0].text, "text");
}

#[test]
fn line_helpers() {
    assert_eq!(extract_id_of("Some text [[abcd1234]]"), Some("abcd1234".to_string()));
    assert_eq!(extract_id_of("a note [[not an id]]"), None);
    assert_eq!(strip_id_of("Some text [[abcd1234]] "), "Some text");
    assert_eq!(heading_depth_of("  ## Title"), Some(2));
    assert_eq!(heading_depth_of("Title"), None);
    assert_eq!(strip_heading_markers_of("### Title  "), "Title");
}
