use tsugiki::store::Csvs;
use tsugiki::write::{load_current_parent, replace_line, run, write_with};

const S0: &str = "50000000-0000-0000-0000-000000000000";
const S1: &str = "51000000-0000-0000-0000-000000000000";
const S2: &str = "52000000-0000-0000-0000-000000000000";
const S3: &str = "53000000-0000-0000-0000-000000000000";

fn ids(prefixes: &[&str]) -> Vec<String> {
    prefixes.iter().map(|p| format!("{p}-0000-4000-8000-000000000000")).collect()
}

fn structure_only() -> Csvs {
    Csvs {
        dir: String::new(),
        tablets: vec![("structure-child.csv".to_string(), format!("{S0},{S1}\n{S1},{S2}\n{S1},{S3}\n"))],
        prose: vec![],
    }
}

fn tablet(c: &Csvs, name: &str) -> String {
    c.tablets.iter().find(|(k, _)| k == name).map(|(_, v)| v.clone()).unwrap_or_default()
}

fn prose(c: &Csvs, uuid: &str) -> Option<String> {
    c.prose.iter().find(|(k, _)| k == uuid).map(|(_, v)| v.clone())
}

#[test]
fn write_root_maps_to_structure_root() {
    let mut c = structure_only();
    let fresh = ids(&["70000000", "7f000000", "7e000000", "7d000000", "7c000000"]);
    let (lines, res) = write_with(&mut c, "Root text", None, true, false, None, &fresh);
    let t0 = &fresh[0];
    assert_eq!(res, Ok(Some(t0.clone())));
    assert_eq!(
        lines,
        vec![
            "root [70000000]: \"Root text\"".to_string(),
            "  target: 0 nodes, 1/3 mapped to structure".to_string(),
        ]
    );
    assert_eq!(tablet(&c, "structure-target.csv"), format!("{S0},{t0}\n"));
    assert_eq!(prose(&c, t0), Some("Root text".to_string()));

    // a second root is refused once the target tree has edges
    c.tablets.push(("target-child.csv".to_string(), format!("{t0},x\n")));
    let before = c.tablets.clone();
    let (lines, res) = write_with(&mut c, "Again", None, true, false, None, &fresh);
    assert_eq!(res, Err("Target root already exists. Use --parent to add children.".to_string()));
    assert!(lines.is_empty());
    assert_eq!(c.tablets, before);
}

#[test]
fn write_auto_regrow_loop() {
    let mut c = structure_only();
    let f0 = ids(&["70000000", "7f000000", "7e000000", "7d000000", "7c000000"]);
    write_with(&mut c, "Root text", None, true, false, None, &f0).1.unwrap();
    let t0 = f0[0].clone();

    // the first unmapped leaf is S2; its parent S1 gets a paragraph node
    let f1 = ids(&["71000000", "72000000", "7b000000", "7a000000", "79000000"]);
    let (lines, res) = write_with(&mut c, "First.", None, false, false, None, &f1);
    assert_eq!(res, Ok(None));
    assert_eq!(
        lines,
        vec![
            "  paragraph [71000000] under [70000000]".to_string(),
            "[72000000] under [71000000] → [52000000]: \"First.\"".to_string(),
            "  target: 3 nodes, 3/3 mapped to structure".to_string(),
        ]
    );
    let (a1, a2) = (f1[0].clone(), f1[1].clone());
    assert_eq!(tablet(&c, "target-child.csv"), format!("{t0},{a1}\n{a1},{a2}\n"));
    assert_eq!(tablet(&c, "structure-target.csv"), format!("{S0},{t0}\n{S1},{a1}\n{S2},{a2}\n"));
    assert_eq!(prose(&c, &a2), Some("First.".to_string()));

    // advancing: the next write lands on S3, under the same paragraph
    let f2 = ids(&["81000000", "82000000", "83000000", "84000000", "85000000"]);
    let (lines, res) = write_with(&mut c, "Second.", None, false, false, None, &f2);
    assert_eq!(res, Ok(None));
    assert_eq!(
        lines,
        vec![
            "[81000000] under [71000000] → [53000000]: \"Second.\"".to_string(),
            "  target: 4 nodes, 4/3 mapped to structure".to_string(),
        ]
    );
    let b1 = f2[0].clone();

    // --same: the previous leaf B1 sits in A1, which is linked to S1 only,
    // so a new paragraph node adopts B1
    let f3 = ids(&["91000000", "92000000", "93000000", "94000000", "95000000"]);
    let (lines, res) = write_with(&mut c, "Third.", None, false, true, None, &f3);
    assert_eq!(res, Ok(None));
    assert_eq!(
        lines,
        vec![
            "  paragraph [91000000] adopts [81000000]".to_string(),
            "[92000000] under [91000000] → [53000000]: \"Third.\"".to_string(),
            "  target: 6 nodes, 6/3 mapped to structure".to_string(),
        ]
    );
    let (c1, c2) = (f3[0].clone(), f3[1].clone());
    assert_eq!(
        tablet(&c, "target-child.csv"),
        format!("{t0},{a1}\n{a1},{a2}\n{a1},{c1}\n{c1},{b1}\n{c1},{c2}\n")
    );
    assert_eq!(
        tablet(&c, "structure-target.csv"),
        format!("{S0},{t0}\n{S1},{a1}\n{S2},{a2}\n{S3},{b1}\n{S3},{c1}\n{S3},{c2}\n")
    );

    // --same again: C2's parent C1 is linked to S3 like C2, no new paragraph
    let f4 = ids(&["a1000000", "a2000000", "a3000000", "a4000000", "a5000000"]);
    let (lines, res) = write_with(&mut c, "Fourth.", None, false, true, None, &f4);
    assert_eq!(res, Ok(None));
    assert_eq!(lines[0], "[a1000000] under [91000000] → [53000000]: \"Fourth.\"");

    // every leaf is mapped now
    let before = c.tablets.clone();
    let f5 = ids(&["b1000000", "b2000000", "b3000000", "b4000000", "b5000000"]);
    let (lines, res) = write_with(&mut c, "Fifth.", None, false, false, None, &f5);
    assert_eq!(res, Err("All structure leaves are mapped — regrow complete.".to_string()));
    assert!(lines.is_empty());
    assert_eq!(c.tablets, before);
}

#[test]
fn write_explicit_parent() {
    let mut c = structure_only();
    let f0 = ids(&["70000000", "7f000000", "7e000000", "7d000000", "7c000000"]);
    write_with(&mut c, "Root text", None, true, false, None, &f0).1.unwrap();
    let t0 = f0[0].clone();
    let f1 = ids(&["c1000000", "c2000000", "c3000000", "c4000000", "c5000000"]);
    let (lines, res) = write_with(&mut c, "Extra", Some("70000000"), false, false, None, &f1);
    assert_eq!(res, Ok(Some(t0.clone())));
    assert_eq!(lines[0], "[c1000000] under [70000000]: \"Extra\"");
    assert_eq!(tablet(&c, "target-child.csv"), format!("{t0},{}\n", f1[0]));

    let (lines, res) = write_with(&mut c, "Extra", Some("ffff"), false, false, None, &f1);
    assert_eq!(res, Err("Parent not found: ffff".to_string()));
    assert!(lines.is_empty());
}

#[test]
fn write_errors_without_structure() {
    let mut c = Csvs { dir: String::new(), tablets: vec![], prose: vec![] };
    let (lines, res) = run(&mut c, "x", None, false, false, None);
    assert_eq!(res, Err("No structure-child.csv found. Run init first.".to_string()));
    assert!(lines.is_empty());

    let mut c = structure_only();
    let (_, res) = run(&mut c, "x", None, false, false, None);
    assert_eq!(res, Err("No target root. Create it with write --root first.".to_string()));
}

#[test]
fn write_run_draws_uuids() {
    let mut c = structure_only();
    let (lines, res) = run(&mut c, "Root text", None, true, false, None);
    let t0 = res.unwrap().unwrap();
    assert_eq!(t0.len(), 36);
    assert_eq!(&t0[8..9], "-");
    assert_eq!(lines[0], format!("root [{}]: \"Root text\"", &t0[..8]));
}

#[test]
fn saved_parent_is_trimmed() {
    assert_eq!(load_current_parent(Some("  abc \n")), Some("abc".to_string()));
    assert_eq!(load_current_parent(Some(" \n")), None);
    assert_eq!(load_current_parent(None), None);
}

#[test]
fn replace_line_first_match_only() {
    assert_eq!(replace_line("a\nb\nb\n", "b", "c"), Some("a\nc\nb\n".to_string()));
    assert_eq!(replace_line("a\nb", "b", "c"), Some("a\nc\n".to_string()));
    assert_eq!(replace_line("a\nb\n", "x", "c"), None);
}
