use tsugiki::annotate::{annotate_command, run};
use tsugiki::store::Csvs;

fn setup_intent() -> Csvs {
    Csvs {
        dir: String::new(),
        tablets: vec![
            (
                "structure-child.csv".to_string(),
                "aaaa1111-0000-0000-0000-000000000000,bbbb2222-0000-0000-0000-000000000000\n".to_string(),
            ),
            (".csvs.csv".to_string(), "csvs,0.0.4\nuuid,test\n".to_string()),
            ("_-_.csv".to_string(), "structure,child\n".to_string()),
        ],
        prose: vec![],
    }
}

fn prose_of(c: &Csvs, uuid: &str) -> Option<String> {
    c.prose.iter().find(|(k, _)| k == uuid).map(|(_, v)| v.clone())
}

#[test]
fn annotate_empty_node() {
    let mut c = setup_intent();
    run(&mut c, "bbbb2222", "this is what it does", None, false).unwrap();
    let prose = prose_of(&c, "bbbb2222-0000-0000-0000-000000000000").unwrap();
    assert_eq!(prose, "this is what it does");
}

#[test]
fn annotate_with_note() {
    let mut c = setup_intent();
    run(&mut c, "bbbb2222", "annotation", Some("a translator note"), false).unwrap();
    let prose = prose_of(&c, "bbbb2222-0000-0000-0000-000000000000").unwrap();
    assert!(prose.contains("annotation"));
    assert!(prose.contains("[[a translator note]]"));
}

#[test]
fn refuses_nonempty() {
    let mut c = setup_intent();
    run(&mut c, "bbbb2222", "first", None, false).unwrap();
    let result = run(&mut c, "bbbb2222", "second", None, false);
    assert!(result.is_err());
}

#[test]
fn overwrite_existing() {
    let mut c = setup_intent();
    run(&mut c, "bbbb2222", "first", None, false).unwrap();
    run(&mut c, "bbbb2222", "second", None, true).unwrap();
    let prose = prose_of(&c, "bbbb2222-0000-0000-0000-000000000000").unwrap();
    assert_eq!(prose, "second");
}

#[test]
fn annotate_lines_and_errors() {
    let mut c = setup_intent();
    let lines = run(&mut c, "bbbb2222", "first", None, false).unwrap();
    assert_eq!(lines, vec!["annotated [bbbb2222]: \"first\"".to_string()]);
    let lines = run(&mut c, "bbbb2222", "second", None, true).unwrap();
    assert_eq!(lines, vec!["replaced [bbbb2222]: \"second\"".to_string()]);
    let err = run(&mut c, "bbbb2222", "third", None, false).unwrap_err();
    assert_eq!(err, "Node [bbbb2222] already has text: \"second\". Use --overwrite to replace.");
    let err = run(&mut c, "cccc3333", "x", None, false).unwrap_err();
    assert_eq!(err, "Node not found: cccc3333");
}

#[test]
fn refused_annotation_leaves_prose_unchanged() {
    let mut c = setup_intent();
    run(&mut c, "bbbb2222", "first", None, false).unwrap();
    let _ = run(&mut c, "bbbb2222", "second", None, false);
    assert_eq!(prose_of(&c, "bbbb2222-0000-0000-0000-000000000000").unwrap(), "first");
}

#[test]
fn annotate_command_reports_next() {
    let mut c = setup_intent();
    let (lines, res) = annotate_command(&mut c, None, None, None, false);
    assert_eq!(res, Ok(()));
    assert_eq!(lines[0], "annotate phase");
    let (lines, res) = annotate_command(&mut c, Some("what it does"), None, None, false);
    assert_eq!(res, Ok(()));
    assert_eq!(lines[0], "annotated [bbbb2222]: \"what it does\"");
    assert_eq!(lines[1], "regrow phase");
    let (lines, res) = annotate_command(&mut c, Some("again"), None, None, false);
    assert_eq!(res, Err("No unannotated nodes remaining.".to_string()));
    assert!(lines.is_empty());
}
