use tsugiki::render::{run, RenderTree};
use tsugiki::store::Csvs;

fn setup_tree(edges: &[(&str, &str)], prose_map: &[(&str, &str)]) -> Csvs {
    let edge_str: String = edges
        .iter()
        .map(|(p, c)| format!("{p},{c}"))
        .collect::<Vec<_>>()
        .join("\n");
    Csvs {
        dir: String::new(),
        tablets: vec![("source-child.csv".to_string(), format!("{edge_str}\n"))],
        prose: prose_map.iter().map(|(u, t)| (u.to_string(), t.to_string())).collect(),
    }
}

#[test]
fn render_flat_tree() {
    let c = setup_tree(
        &[("root-uuid", "leaf-1"), ("root-uuid", "leaf-2")],
        &[("leaf-1", "First sentence."), ("leaf-2", "Second sentence.")],
    );
    let (fountain, _md) = run(&c, RenderTree::Source).unwrap();
    assert!(fountain.contains("# [[root]]"));
    assert!(fountain.contains("First sentence. [[leaf]]"));
    assert!(fountain.contains("Second sentence. [[leaf]]"));
}

#[test]
fn render_missing_tablet_and_cycle() {
    let c = Csvs { dir: String::new(), tablets: vec![], prose: vec![] };
    assert_eq!(run(&c, RenderTree::Target).unwrap_err(), "target-child.csv not found");
    let c = setup_tree(&[("a", "b"), ("b", "a")], &[]);
    assert!(run(&c, RenderTree::Source).is_err());
}

#[test]
fn render_file_names() {
    assert_eq!(RenderTree::Source.child_tablet(), "source-child.csv");
    assert_eq!(RenderTree::Structure.fountain_filename(), "structure.fountain");
    assert_eq!(RenderTree::Target.md_filename(), "target.md");
}
