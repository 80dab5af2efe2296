use tsugiki::store::{all_uuids, load_bridge, load_edges, resolve_uuid, short_id, walk_breadth_first, walk_depth_first, Csvs};

#[test]
fn short_id_is_first_group() {
    assert_eq!(short_id("aabb1122-3344-5566-7788-99aabbccddee"), "aabb1122");
    assert_eq!(short_id("plain"), "plain");
}

#[test]
fn walks_and_uuids() {
    let (fwd, rev) = load_edges("r,a\nr,b\na,c\n");
    assert_eq!(walk_depth_first("r", &fwd), vec!["r", "a", "c", "b"]);
    assert_eq!(walk_breadth_first("r", &fwd), vec!["r", "a", "b", "c"]);
    assert_eq!(all_uuids(&fwd, &rev), vec!["r", "a", "b", "c"]);
}

#[test]
fn bridge_maps_both_ways() {
    let (fwd, back) = load_bridge("s1,t1\ns1,t2\ns2,t1\n");
    assert_eq!(fwd.get("s1").unwrap(), &vec!["t1".to_string(), "t2".to_string()]);
    assert_eq!(back.get("t1").unwrap(), &vec!["s1".to_string(), "s2".to_string()]);
}

#[test]
fn resolve_uuid_by_prefix() {
    let c = Csvs {
        dir: String::new(),
        tablets: vec![
            ("_-_.csv".to_string(), "aaaa0000-x,y\n".to_string()),
            ("source-child.csv".to_string(), "aaaa1111-0000,bbbb2222-0000\n".to_string()),
        ],
        prose: vec![],
    };
    assert_eq!(resolve_uuid(&c, "bbbb"), Some("bbbb2222-0000".to_string()));
    assert_eq!(resolve_uuid(&c, "aaaa"), Some("aaaa1111-0000".to_string()));
    assert_eq!(resolve_uuid(&c, "cccc"), None);
    assert_eq!(resolve_uuid(&c, "cccc1111-2222-3333-4444-555555555555"), None);
    let c = Csvs {
        dir: String::new(),
        tablets: vec![(
            "target-child.csv".to_string(),
            "cccc1111-2222-3333-4444-555555555555,dddd1111-2222-3333-4444-555555555555\n".to_string(),
        )],
        prose: vec![],
    };
    assert_eq!(
        resolve_uuid(&c, "dddd1111-2222-3333-4444-555555555555"),
        Some("dddd1111-2222-3333-4444-555555555555".to_string())
    );
}
