use tsugiki::annotate;
use tsugiki::link;
use tsugiki::next::find_next_unannotated;
use tsugiki::store::{find_root, load_edges, Csvs};

#[test]
fn children_come_in_file_order_and_last_parent_wins() {
    let (fwd, rev) = load_edges("p,a\nq,b\np,c\n  \nq,a\n");
    assert_eq!(fwd.get("p").unwrap(), &vec!["a".to_string(), "c".to_string()]);
    assert_eq!(fwd.get("q").unwrap(), &vec!["b".to_string(), "a".to_string()]);
    assert_eq!(rev.get("a").unwrap(), "q");
    assert_eq!(rev.get("c").unwrap(), "p");
}

#[test]
fn root_is_a_parent_that_is_no_child() {
    let (fwd, rev) = load_edges("b,c\na,b\n");
    let root = find_root(&fwd, &rev).unwrap();
    assert_eq!(root, "a");
    assert!(fwd.get("a").is_some());
    assert!(rev.get("a").is_none());
}

#[test]
fn candidates_listed_by_score() {
    let s0 = "50000000-0000-0000-0000-000000000000";
    let s1 = "51000000-0000-0000-0000-000000000000";
    let s2 = "52000000-0000-0000-0000-000000000000";
    let s3 = "53000000-0000-0000-0000-000000000000";
    let t0 = "70000000-0000-4000-8000-000000000000";
    let mut c = Csvs {
        dir: String::new(),
        tablets: vec![
            ("structure-child.csv".to_string(), format!("{s0},{s1}\n{s0},{s2}\n{s0},{s3}\n")),
            ("target-child.csv".to_string(), format!("{t0},x\n")),
        ],
        prose: vec![
            (t0.to_string(), "apples pears plums".to_string()),
            (s1.to_string(), "nothing shared".to_string()),
            (s2.to_string(), "apples pears plums".to_string()),
            (s3.to_string(), "some plums".to_string()),
        ],
    };
    let (lines, res) = link::run(&mut c, "70000000", None, None);
    assert_eq!(res, Ok(()));
    assert_eq!(lines[3], "  1: [52000000] (3) apples pears plums");
    assert_eq!(lines[4], "  2: [53000000] (1) some plums");
    assert_eq!(lines[5], "  3: [51000000] (0) nothing shared");
}

#[test]
fn annotating_moves_next_on() {
    let s0 = "50000000-0000-0000-0000-000000000000";
    let s1 = "51000000-0000-0000-0000-000000000000";
    let s2 = "52000000-0000-0000-0000-000000000000";
    let mut c = Csvs {
        dir: String::new(),
        tablets: vec![("structure-child.csv".to_string(), format!("{s0},{s1}\n{s0},{s2}\n"))],
        prose: vec![],
    };
    let first = find_next_unannotated(&c).unwrap().unwrap();
    assert_eq!(first, s1);
    annotate::run(&mut c, &first, "a move", None, false).unwrap();
    let second = find_next_unannotated(&c).unwrap().unwrap();
    assert_eq!(second, s2);
}

#[test]
fn keywords_ignore_case_and_punctuation() {
    let s0 = "50000000-0000-0000-0000-000000000000";
    let s1 = "51000000-0000-0000-0000-000000000000";
    let s2 = "52000000-0000-0000-0000-000000000000";
    let t0 = "70000000-0000-4000-8000-000000000000";
    let mut c = Csvs {
        dir: String::new(),
        tablets: vec![
            ("structure-child.csv".to_string(), format!("{s0},{s1}\n{s0},{s2}\n")),
            ("target-child.csv".to_string(), format!("{t0},x\n")),
        ],
        prose: vec![
            (t0.to_string(), "APPLES, and (pears).".to_string()),
            (s1.to_string(), "apples".to_string()),
            (s2.to_string(), "pears!".to_string()),
        ],
    };
    let (lines, _) = link::run(&mut c, "70000000", None, None);
    assert_eq!(lines[3], "  1: [51000000] (1) apples");
    assert_eq!(lines[4], "  2: [52000000] (1) pears!");
}

#[test]
fn tablets_written_by_init_read_back_as_their_edges() {
    let mut c = Csvs { dir: String::new(), tablets: vec![], prose: vec![] };
    tsugiki::init::run(&mut c, "First sentence. Second sentence.\n", false).unwrap();
    let sc = c.tablet("source-child.csv").unwrap().clone();
    let written: Vec<(String, String)> = sc
        .lines()
        .map(|l| {
            let (a, b) = l.split_once(',').unwrap();
            (a.to_string(), b.to_string())
        })
        .collect();
    assert_eq!(written.len(), 3);
    let (fwd, rev) = load_edges(&sc);
    for (a, b) in &written {
        assert!(fwd.get(a).unwrap().contains(b));
        assert_eq!(rev.get(b).unwrap(), a);
    }
    let root = find_root(&fwd, &rev).unwrap();
    assert_eq!(fwd.get(&root).unwrap().len(), 1);
}

#[test]
fn standalone_note_is_never_a_node_but_a_bare_id_is() {
    let content = "[[a translator note]]\n\nprose [[bbbb2222]]\n  [[a note on it]]  \n\n[[cccc3333]]\n";
    let nodes = tsugiki::scan::scan_all(content);
    assert_eq!(nodes.len(), 2);
    assert_eq!(nodes[0].id.short, "bbbb2222");
    assert_eq!(nodes[0].line_number, 3);
    assert_eq!(nodes[0].notes, vec!["a note on it".to_string()]);
    assert_eq!(nodes[1].id.short, "cccc3333");
    assert_eq!(nodes[1].text, "");
}

#[test]
fn rendered_fountain_scans_back_block_by_block() {
    let root = "aaaa1111-0000-4000-8000-000000000000";
    let sec = "bbbb2222-0000-4000-8000-000000000000";
    let s1 = "cccc3333-0000-4000-8000-000000000000";
    let s2 = "dddd4444-0000-4000-8000-000000000000";
    let c = Csvs {
        dir: String::new(),
        tablets: vec![(
            "source-child.csv".to_string(),
            format!("{root},{sec}\n{sec},{s1}\n{sec},{s2}\n"),
        )],
        prose: vec![
            (sec.to_string(), "Introduction".to_string()),
            (s1.to_string(), "First sentence.".to_string()),
            (s2.to_string(), "Second sentence.".to_string()),
        ],
    };
    let (fountain, _md) = tsugiki::render::run(&c, tsugiki::render::RenderTree::Source).unwrap();
    let nodes = tsugiki::scan::scan_all(&fountain);
    let seen: Vec<(usize, String, Option<u8>, String)> = nodes
        .iter()
        .map(|n| (n.line_number, n.id.short.clone(), n.depth, n.text.clone()))
        .collect();
    assert_eq!(
        seen,
        vec![
            (1, "aaaa1111".to_string(), Some(1), "".to_string()),
            (3, "bbbb2222".to_string(), Some(2), "Introduction".to_string()),
            (5, "cccc3333".to_string(), None, "First sentence.".to_string()),
            (7, "dddd4444".to_string(), None, "Second sentence.".to_string()),
        ]
    );
    assert!(nodes.iter().all(|n| n.notes.is_empty()));
}

#[test]
fn short_id_of_a_uuid_reads_back() {
    let id = tsugiki::types::NodeId::from_full("cd18caf7-c9c0-4d14-9896-4b31cb7fe2ae");
    assert_eq!(id.short, "cd18caf7");
    let line = format!("Some prose. [[{}]]", id.short);
    assert_eq!(tsugiki::scan::extract_id_of(&line), Some("cd18caf7".to_string()));
}

#[test]
fn annotation_prose_reads_back() {
    let mut c = Csvs {
        dir: String::new(),
        tablets: vec![(
            "structure-child.csv".to_string(),
            "aaaa1111-0000-0000-0000-000000000000,bbbb2222-0000-0000-0000-000000000000\n".to_string(),
        )],
        prose: vec![],
    };
    annotate::run(&mut c, "bbbb2222", "  first line\nsecond line ", Some("why"), false).unwrap();
    let blob = c.read_prose("bbbb2222-0000-0000-0000-000000000000");
    let (text, notes) = tsugiki::render::parse_structure_prose(&blob);
    assert_eq!(text, "first line\nsecond line");
    assert_eq!(notes, vec!["[[why]]".to_string()]);
}

#[test]
fn tree_uuids_are_listed_once() {
    let (fwd, rev) = load_edges("r,a\nr,b\na,c\nb,c\nr,a\n");
    let all = tsugiki::store::all_uuids(&fwd, &rev);
    assert_eq!(all, vec!["r".to_string(), "a".to_string(), "b".to_string(), "c".to_string()]);
}

#[test]
fn init_normalizes_whitespace_once_and_for_all() {
    let mut c = Csvs { dir: String::new(), tablets: vec![], prose: vec![] };
    tsugiki::init::run(&mut c, "  Some \t text   here.  \n", true).unwrap();
    assert!(c.prose.iter().any(|(_, t)| t == "Some text here."));
}

#[test]
fn missing_adopted_line_names_the_tablet_path() {
    // the target tablet holds the edge with spaces, so it loads but is not an exact line
    let s0 = "50000000-0000-4000-8000-000000000000";
    let s1 = "51000000-0000-4000-8000-000000000000";
    let s2 = "52000000-0000-4000-8000-000000000000";
    let t0 = "70000000-0000-4000-8000-000000000000";
    let t1 = "71000000-0000-4000-8000-000000000000";
    let mut c = Csvs {
        dir: "./csvs".to_string(),
        tablets: vec![
            ("structure-child.csv".to_string(), format!("{s0},{s1}\n{s0},{s2}\n")),
            ("structure-target.csv".to_string(), format!("{s0},{t0}\n{s1},{t1}\n")),
            ("target-child.csv".to_string(), format!(" {t0},{t1} \n")),
        ],
        prose: vec![],
    };
    let fresh: Vec<String> = vec!["80000000-0000-4000-8000-000000000000".to_string(); 8];
    let (_lines, res) = tsugiki::write::write_with(&mut c, "Again.", None, false, true, None, &fresh);
    let err = res.unwrap_err();
    assert_eq!(err, format!("Line not found in ./csvs/target-child.csv: {t0},{t1}"));
}

#[test]
fn breadth_first_reorders_depth_first() {
    let (fwd, _rev) = load_edges("r,a\nr,b\na,c\nb,d\na,e\n");
    let mut df = tsugiki::store::walk_depth_first("r", &fwd);
    let mut bf = tsugiki::store::walk_breadth_first("r", &fwd);
    assert_eq!(df, vec!["r", "a", "c", "e", "b", "d"]);
    assert_eq!(bf, vec!["r", "a", "b", "c", "e", "d"]);
    df.sort();
    bf.sort();
    assert_eq!(df, bf);
}

#[test]
fn parsing_twice_gives_the_same_tree() {
    let md = "# Title\n\nOne. Two.\n\n- item\n";
    let mut a = Csvs { dir: String::new(), tablets: vec![], prose: vec![] };
    let mut b = Csvs { dir: String::new(), tablets: vec![], prose: vec![] };
    tsugiki::init::run(&mut a, md, false).unwrap();
    tsugiki::init::run(&mut b, md, false).unwrap();
    for name in ["source-child.csv", "structure-child.csv", "source-structure.csv"] {
        assert_eq!(a.tablet(name), b.tablet(name));
    }
    assert_eq!(a.prose, b.prose);
}
