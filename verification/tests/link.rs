use tsugiki::link::run;
use tsugiki::store::Csvs;

const S0: &str = "50000000-0000-0000-0000-000000000000";
const S1: &str = "51000000-0000-0000-0000-000000000000";
const S3: &str = "53000000-0000-0000-0000-000000000000";
const T0: &str = "70000000-0000-4000-8000-000000000000";
const A1: &str = "71000000-0000-4000-8000-000000000000";
const A2: &str = "72000000-0000-4000-8000-000000000000";

fn store() -> Csvs {
    Csvs {
        dir: String::new(),
        tablets: vec![
            ("structure-child.csv".to_string(), format!("{S0},{S1}\n{S1},{S3}\n")),
            ("target-child.csv".to_string(), format!("{T0},{A1}\n{A1},{A2}\n")),
            ("structure-target.csv".to_string(), format!("{S0},{T0}\n")),
        ],
        prose: vec![
            (A2.to_string(), "First words here.".to_string()),
            (S3.to_string(), "words about something".to_string()),
        ],
    }
}

fn tablet(c: &Csvs, name: &str) -> String {
    c.tablets.iter().find(|(k, _)| k == name).map(|(_, v)| v.clone()).unwrap_or_default()
}

#[test]
fn link_maps_to_structure() {
    let mut c = store();
    let (lines, res) = run(&mut c, "72000000", Some("53000000"), None);
    assert_eq!(res, Ok(()));
    assert_eq!(lines, vec!["[72000000] → [53000000] words about something".to_string()]);
    assert_eq!(tablet(&c, "structure-target.csv"), format!("{S0},{T0}\n{S3},{A2}\n"));
}

#[test]
fn link_reparents() {
    let mut c = store();
    let (lines, res) = run(&mut c, "72000000", None, Some("70000000"));
    assert_eq!(res, Ok(()));
    assert_eq!(lines, vec!["reparented [72000000] under [70000000]".to_string()]);
    assert_eq!(tablet(&c, "target-child.csv"), format!("{T0},{A1}\n{T0},{A2}\n"));
}

#[test]
fn link_lists_candidates() {
    let mut c = store();
    let (lines, res) = run(&mut c, "72000000", None, None);
    assert_eq!(res, Ok(()));
    assert_eq!(
        lines,
        vec![
            "target [72000000]: First words here.".to_string(),
            String::new(),
            "candidates (by keyword overlap):".to_string(),
            "  1: [53000000] (1) words about something".to_string(),
            String::new(),
            "use: tsugiki link 72000000 --structure <addr>".to_string(),
        ]
    );
}

#[test]
fn link_errors() {
    let mut c = store();
    let (lines, res) = run(&mut c, "ffff", None, None);
    assert_eq!(res, Err("Target node not found: ffff".to_string()));
    assert!(lines.is_empty());
    let (_, res) = run(&mut c, "72000000", Some("eeee"), None);
    assert_eq!(res, Err("Structure node not found: eeee".to_string()));
    let (_, res) = run(&mut c, "72000000", None, Some("dddd"));
    assert_eq!(res, Err("Parent not found: dddd".to_string()));
}
