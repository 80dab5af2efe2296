use tsugiki::next::{find_next_unannotated, run};
use tsugiki::store::Csvs;

const S0: &str = "50000000-0000-0000-0000-000000000000";
const S1: &str = "51000000-0000-0000-0000-000000000000";
const S2: &str = "52000000-0000-0000-0000-000000000000";

#[test]
fn next_annotate_phase() {
    let c = Csvs {
        dir: String::new(),
        tablets: vec![("structure-child.csv".to_string(), format!("{S0},{S1}\n{S1},{S2}\n"))],
        prose: vec![],
    };
    assert_eq!(
        run(&c),
        Ok(vec![
            "annotate phase".to_string(),
            "  structure [51000000] paragraph".to_string(),
            "  parent: [50000000]".to_string(),
        ])
    );
    assert_eq!(find_next_unannotated(&c), Ok(Some(S1.to_string())));
}

#[test]
fn next_regrow_and_complete() {
    let mut c = Csvs {
        dir: String::new(),
        tablets: vec![("structure-child.csv".to_string(), format!("{S0},{S1}\n{S1},{S2}\n"))],
        prose: vec![(S1.to_string(), "a move".to_string()), (S2.to_string(), "a step".to_string())],
    };
    assert_eq!(
        run(&c),
        Ok(vec!["regrow phase".to_string(), "  structure [52000000] a step".to_string()])
    );
    assert_eq!(find_next_unannotated(&c), Ok(None));
    c.tablets.push(("structure-target.csv".to_string(), format!("{S2},x\n")));
    assert_eq!(
        run(&c),
        Ok(vec!["all phases complete — all structure nodes annotated and mapped to target.".to_string()])
    );
}

#[test]
fn next_without_structure() {
    let c = Csvs { dir: String::new(), tablets: vec![], prose: vec![] };
    assert_eq!(run(&c), Err("No structure-child.csv found. Run init first.".to_string()));
}

#[test]
fn next_reads_prose_of_a_source_above_a_cycle() {
    let a = "a0000000-0000-0000-0000-000000000000";
    let b = "b0000000-0000-0000-0000-000000000000";
    let r = "c0000000-0000-0000-0000-000000000000";
    let c = Csvs {
        dir: String::new(),
        tablets: vec![
            ("structure-child.csv".to_string(), format!("{S0},{S1}\n")),
            ("source-structure.csv".to_string(), format!("{a},{S1}\n")),
            ("source-child.csv".to_string(), format!("{r},{a}\n{a},{b}\n{b},{a}\n")),
        ],
        prose: vec![(a.to_string(), "Hello.".to_string())],
    };
    assert_eq!(
        run(&c),
        Ok(vec![
            "annotate phase".to_string(),
            "  structure [51000000] leaf".to_string(),
            "  source: Hello.".to_string(),
            "  parent: [50000000]".to_string(),
        ])
    );
}
