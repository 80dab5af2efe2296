use tsugiki::show::run;
use tsugiki::store::Csvs;

const S0: &str = "50000000-0000-0000-0000-000000000000";
const S1: &str = "51000000-0000-0000-0000-000000000000";
const S2: &str = "52000000-0000-0000-0000-000000000000";
const S3: &str = "53000000-0000-0000-0000-000000000000";
const A1: &str = "71000000-0000-4000-8000-000000000000";

fn store() -> Csvs {
    Csvs {
        dir: String::new(),
        tablets: vec![
            ("structure-child.csv".to_string(), format!("{S0},{S1}\n{S1},{S2}\n{S1},{S3}\n")),
            ("structure-target.csv".to_string(), format!("{S1},{A1}\n")),
        ],
        prose: vec![],
    }
}

#[test]
fn show_structure_node() {
    let c = store();
    let (lines, res) = run(&c, "51000000", None, 5, 1);
    assert_eq!(res, Ok(()));
    assert_eq!(
        lines,
        vec![
            "[structure] [51000000] paragraph".to_string(),
            "  text: (empty)".to_string(),
            "  parent: [50000000] (empty)".to_string(),
            "  children (2):".to_string(),
            "    [52000000] empty (empty)".to_string(),
            "    [53000000] empty (empty)".to_string(),
            "  target:".to_string(),
            "    [71000000] (empty)".to_string(),
        ]
    );
}

#[test]
fn show_limit_and_siblings() {
    let c = store();
    let (lines, res) = run(&c, "51000000", Some("structure"), 1, 1);
    assert_eq!(res, Ok(()));
    assert_eq!(lines[4], "    [52000000] empty (empty)");
    assert_eq!(lines[5], "    ... and 1 more");
    let (lines, _) = run(&c, "52000000", Some("structure"), 5, 1);
    assert_eq!(lines.last().unwrap(), "  next: [53000000]");
    let (lines, _) = run(&c, "53000000", Some("structure"), 5, 1);
    assert_eq!(lines.last().unwrap(), "  prev: [52000000]");
}

#[test]
fn show_root_to_depth_two() {
    let c = store();
    let (lines, _) = run(&c, "50000000", None, 0, 2);
    assert_eq!(lines[0], "[structure] [50000000] root");
    assert_eq!(lines[3], "    [51000000] paragraph (empty)");
    assert_eq!(lines[4], "      [52000000] empty (empty)");
    assert_eq!(lines[5], "      [53000000] empty (empty)");
}

#[test]
fn show_errors() {
    let c = store();
    let (lines, res) = run(&c, "ffff", None, 5, 1);
    assert_eq!(res, Err("Node not found: ffff".to_string()));
    assert!(lines.is_empty());
    let (_, res) = run(&c, "51000000", Some("other"), 5, 1);
    assert_eq!(res, Err("Unknown tree: other".to_string()));
    let (_, res) = run(&c, "51000000", Some("target"), 5, 1);
    assert_eq!(res, Err("Node not found in any tree: 51000000".to_string()));
}

#[test]
fn show_depth_zero_is_the_node_alone() {
    let c = store();
    let (lines, res) = run(&c, "51000000", None, 5, 0);
    assert_eq!(res, Ok(()));
    assert_eq!(
        lines,
        vec![
            "[structure] [51000000] paragraph".to_string(),
            "  text: (empty)".to_string(),
            "  parent: [50000000] (empty)".to_string(),
            "  target:".to_string(),
            "    [71000000] (empty)".to_string(),
        ]
    );
}
