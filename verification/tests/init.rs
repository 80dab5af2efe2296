use tsugiki::init::{init_from_tree, parse_document, run};
use tsugiki::mdtree::MdNode;
use tsugiki::store::Csvs;

fn empty_store() -> Csvs {
    Csvs { dir: String::new(), tablets: vec![], prose: vec![] }
}

fn tablet<'a>(c: &'a Csvs, name: &str) -> Option<&'a String> {
    c.tablets.iter().find(|(k, _)| k == name).map(|(_, v)| v)
}

#[test]
fn init_simple_paragraphs() {
    let mut c = empty_store();
    run(&mut c, "Hello world.\n\nSecond paragraph.\n", true).unwrap();
    assert!(tablet(&c, ".csvs.csv").is_some());
    assert!(tablet(&c, "_-_.csv").is_some());
    assert!(tablet(&c, "source-child.csv").is_some());
    assert!(tablet(&c, "structure-child.csv").is_some());
    assert!(tablet(&c, "source-structure.csv").is_some());

    // Two leaves under root = 2 source-child edges
    let sc = tablet(&c, "source-child.csv").unwrap();
    assert_eq!(sc.lines().count(), 2);

    // root (no text) + 2 paragraphs with text = 2 blobs
    assert_eq!(c.prose.len(), 2);
}

#[test]
fn init_sentence_split() {
    let mut c = empty_store();
    run(&mut c, "First sentence. Second sentence.\n", false).unwrap();
    let sc = tablet(&c, "source-child.csv").unwrap();
    // root → paragraph → 2 sentences = 3 edges
    assert_eq!(sc.lines().count(), 3);
}

#[test]
fn init_footnotes_not_split() {
    let md = "Some text with a reference[^1]. Another sentence here.\n\n[^1]: This is footnote one. It has multiple sentences. They should not be split.\n";
    let mut c = empty_store();
    run(&mut c, md, false).unwrap();

    assert!(tablet(&c, "source-footnote.csv").is_some());
    let sf = tablet(&c, "source-footnote.csv").unwrap();
    assert_eq!(sf.lines().count(), 1, "one footnote edge");

    let has_footnote_blob = c.prose.iter().any(|(_, content)| {
        content.contains("This is footnote one. It has multiple sentences. They should not be split.")
    });
    assert!(has_footnote_blob, "footnote body should be a single unsplit blob");

    let sc = tablet(&c, "source-child.csv").unwrap();
    let struct_c = tablet(&c, "structure-child.csv").unwrap();
    assert!(
        sc.lines().count() > struct_c.lines().count(),
        "source tree should have more edges than structure tree due to footnote"
    );
}

#[test]
fn init_refuses_reinit() {
    let mut c = empty_store();
    run(&mut c, "Hello.\n", true).unwrap();
    let result = run(&mut c, "Hello.\n", true);
    assert!(result.is_err());
}

#[test]
fn init_is_deterministic_in_uuids() {
    let mut a = empty_store();
    let mut b = empty_store();
    run(&mut a, "# Title\n\nOne. Two.\n\n- item\n", false).unwrap();
    run(&mut b, "# Title\n\nOne. Two.\n\n- item\n", false).unwrap();
    assert_eq!(tablet(&a, "source-child.csv"), tablet(&b, "source-child.csv"));
    assert_eq!(tablet(&a, "structure-child.csv"), tablet(&b, "structure-child.csv"));
    // the dataset UUID is random
    assert_ne!(tablet(&a, ".csvs.csv"), tablet(&b, ".csvs.csv"));
}

#[test]
fn init_summary_lines() {
    let mut c = empty_store();
    let lines = run(&mut c, "# Title\n\nOne. Two.\n", false).unwrap();
    // root, heading, the paragraph under it, its two sentences
    assert_eq!(lines[0], "initialized: 5 source nodes (2 leaves), 5 structure nodes");
    assert_eq!(lines[1], "  depth 0: 1");
    assert_eq!(lines[2], "  depth 1: 1");
    assert_eq!(lines[3], "  depth 2: 1");
    assert_eq!(lines[4], "  depth 3: 2");
    assert_eq!(lines.len(), 5);
}

#[test]
fn init_schema_and_dataset() {
    let mut c = empty_store();
    run(&mut c, "Hello.\n", true).unwrap();
    assert_eq!(
        tablet(&c, "_-_.csv").unwrap(),
        "source,child\nstructure,child\ntarget,child\nsource,structure\nstructure,target\n"
    );
    let ds = tablet(&c, ".csvs.csv").unwrap();
    assert!(ds.starts_with("csvs,0.0.4\nuuid,"));
    assert_eq!(ds.len(), "csvs,0.0.4\nuuid,".len() + 36 + 1);
}

#[test]
fn init_from_tree_headings_lists_and_refs() {
    let doc = MdNode::Root(vec![
        MdNode::Heading(2, vec![MdNode::Text("Intro".to_string())]),
        MdNode::List(vec![
            MdNode::ListItem(vec![MdNode::Paragraph(vec![
                MdNode::Text("first item".to_string()),
                MdNode::FootnoteReference("n".to_string()),
            ])]),
            MdNode::ListItem(vec![MdNode::Paragraph(vec![MdNode::Text("   ".to_string())])]),
        ]),
        MdNode::FootnoteDefinition("n".to_string(), vec![MdNode::Paragraph(vec![MdNode::Text("a note".to_string())])]),
        MdNode::Other,
    ]);
    let st = parse_document(&doc, false);
    // root, heading, one list item (the blank one is skipped), footnote body
    assert_eq!(st.nodes.len(), 4);
    assert_eq!(st.nodes[1].text, "Intro");
    assert_eq!(st.nodes[1].depth, 2);
    assert_eq!(st.nodes[2].text, "first item[^n]");
    assert_eq!(st.nodes[2].footnote_refs, vec!["n".to_string()]);
    assert_eq!(st.nodes[3].text, "a note");
    // the heading holds the blocks after it, one level below its own
    assert_eq!(st.nodes[0].children, vec![1]);
    assert_eq!(st.nodes[1].children, vec![2, 3]);
    assert_eq!(st.nodes[2].depth, 3);

    let mut c = Csvs { dir: String::new(), tablets: vec![], prose: vec![] };
    let lines = init_from_tree(&mut c, &doc, false, "00000000-0000-4000-8000-000000000000").unwrap();
    assert_eq!(lines[0], "initialized: 4 source nodes (2 leaves), 3 structure nodes");
    let sf = tablet(&c, "source-footnote.csv").unwrap();
    assert_eq!(sf, &format!("{},{}\n", st.nodes[2].uuid, st.nodes[3].uuid));
    assert!(tablet(&c, "_-_.csv").unwrap().ends_with("source,footnote\n"));
    assert_eq!(tablet(&c, ".csvs.csv").unwrap(), "csvs,0.0.4\nuuid,00000000-0000-4000-8000-000000000000\n");
    // the footnote body has no structure node
    assert_eq!(tablet(&c, "structure-child.csv").unwrap().lines().count(), 2);
    assert_eq!(tablet(&c, "source-structure.csv").unwrap().lines().count(), 3);
}

#[test]
fn same_text_twice_gets_two_uuids() {
    let doc = MdNode::Root(vec![
        MdNode::Paragraph(vec![MdNode::Text("Same.".to_string())]),
        MdNode::Paragraph(vec![MdNode::Text("Same.".to_string())]),
    ]);
    let st = parse_document(&doc, true);
    assert_eq!(st.nodes.len(), 3);
    assert_ne!(st.nodes[1].uuid, st.nodes[2].uuid);
    assert_eq!(st.nodes[1].text, st.nodes[2].text);
}

#[test]
fn markdown_error_and_reinit_messages() {
    let mut c = Csvs {
        dir: String::new(),
        tablets: vec![("source-child.csv".to_string(), String::new())],
        prose: vec![],
    };
    let err = run(&mut c, "x\n", true).unwrap_err();
    assert_eq!(err, "Intent already initialized. Remove csvs/ to reinitialize.");
}

#[test]
fn node_uuids_are_uuids() {
    let doc = MdNode::Root(vec![MdNode::Paragraph(vec![MdNode::Text("Hello.".to_string())])]);
    let st = parse_document(&doc, true);
    for n in &st.nodes {
        assert_eq!(n.uuid.len(), 36);
        assert_eq!(&n.uuid[8..9], "-");
        assert_eq!(&n.uuid[14..15], "5");
    }
}

#[test]
fn headings_hold_the_blocks_after_them() {
    let mut c = empty_store();
    run(&mut c, "# Title\n\nPara one.\n\n## Sub\n\nPara two.\n\n# Next\n\nPara three.\n", true).unwrap();
    let sc = tablet(&c, "source-child.csv").unwrap();
    let (fwd, rev) = tsugiki::store::load_edges(sc);
    let text_of = |u: &str| c.read_prose(u);
    let parent_text = |t: &str| {
        let u = c.prose.iter().find(|(_, v)| v == t).map(|(k, _)| k.clone()).unwrap();
        let p = rev.get(&u).unwrap().clone();
        text_of(&p)
    };
    assert_eq!(parent_text("Para one."), "Title");
    assert_eq!(parent_text("Sub"), "Title");
    assert_eq!(parent_text("Para two."), "Sub");
    assert_eq!(parent_text("Para three."), "Next");
    let root = tsugiki::store::find_root(&fwd, &rev).unwrap();
    assert_eq!(fwd.get(&root).unwrap().len(), 2);
}
