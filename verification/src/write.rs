//! `write`: a new target node with its text.
//!
//! `--root` creates the target root; `--parent <addr>` puts the node under
//! that node; otherwise (auto mode) the node is linked to the current
//! structure leaf (the first unmapped leaf, depth first) and put under the
//! target counterpart of that leaf's structure parent, created on the way
//! when missing. With `--same`, the previous target leaf's parent and
//! structure links are repeated (a 1:N split).
//!
//! New nodes get fresh random UUIDs. The functions that decide take them as
//! an argument, `fresh`, and use them in order; `run` draws them.
use vstd::prelude::*;

use crate::ids::{hyphenated, new_v4};
use crate::next::{first_regrow, regrow_pred, structure_target, tree_bounded};
use crate::store::{
    lemma_appended_ends_line, lemma_lookup_add_child, lemma_lookup_set_value, lemma_records_appended,
    add_child, all_uuids, all_uuids_of, appended, backward_of, depth_first, find_first, find_root,
    forward_of, forward_or_empty, has_key, kids, lookup, pairs, load_edges, reaches_within, resolve_uuid, resolved, reverse_of, root_of, set_value, tablet_records,
    tablet_text, walk_depth_first, file_path, file_path_exec, ChildMap, Csvs, ParentMap,
};
use crate::text::{
    clean_id, ends_line, lemma_hyphenated_clean,
    append_chars, append_str, char_vecs, chars_eq, chars_of, copy_string, decimal, decimal_exec, join,
    join_exec, lines, lines_exec, short_of, short_of_exec, string_of, strs, trim, trim_exec,
};

verus! {

// ---------------------------------------------------------------------------
// The store as a pair of lists
// ---------------------------------------------------------------------------

pub open spec fn target_child() -> Seq<char> {
    "target-child.csv"@
}

pub open spec fn structure_child() -> Seq<char> {
    "structure-child.csv"@
}

/// The files after appending `line` to the file `name`.
pub open spec fn app(ts: Seq<(Seq<char>, Seq<char>)>, name: Seq<char>, line: Seq<char>) -> Seq<
    (Seq<char>, Seq<char>),
> {
    set_value(ts, name, appended(lookup(ts, name), line))
}

/// The files after appending `<s>,<u>` to `structure-target.csv` for each
/// `s` of `ss`, in order.
pub open spec fn app_links(ts: Seq<(Seq<char>, Seq<char>)>, ss: Seq<Seq<char>>, u: Seq<char>) -> Seq<
    (Seq<char>, Seq<char>),
>
    decreases ss.len(),
{
    if ss.len() == 0 {
        ts
    } else {
        app(app_links(ts, ss.drop_last(), u), structure_target(), ss.last() + ","@ + u)
    }
}

/// The edges a file of the list holds.
pub open spec fn records_in(ts: Seq<(Seq<char>, Seq<char>)>, name: Seq<char>) -> Option<Seq<(Seq<char>, Seq<char>)>> {
    match lookup(ts, name) {
        Some(t) => Some(tablet_records(t)),
        None => None,
    }
}

// ---------------------------------------------------------------------------
// Progress
// ---------------------------------------------------------------------------

/// How many lines are not blank.
pub open spec fn nonblank_count(ls: Seq<Seq<char>>) -> nat
    decreases ls.len(),
{
    if ls.len() == 0 {
        0
    } else {
        nonblank_count(ls.drop_last()) + if trim(ls.last()).len() > 0 {
            1nat
        } else {
            0nat
        }
    }
}

/// The number of nodes of a tree file (none when it is missing).
pub open spec fn node_count(ts: Seq<(Seq<char>, Seq<char>)>, name: Seq<char>) -> nat {
    match records_in(ts, name) {
        Some(rs) => all_uuids_of(forward_of(rs), reverse_of(rs)).len(),
        None => 0,
    }
}

/// The number of structure nodes other than the root.
pub open spec fn structure_count(ts: Seq<(Seq<char>, Seq<char>)>) -> nat {
    match records_in(ts, structure_child()) {
        Some(rs) => {
            let n = all_uuids_of(forward_of(rs), reverse_of(rs)).len();
            if root_of(forward_of(rs), reverse_of(rs)) is Some && n > 0 {
                (n - 1) as nat
            } else {
                n
            }
        },
        None => 0,
    }
}

/// The progress line printed after each write.
pub open spec fn progress_line(ts: Seq<(Seq<char>, Seq<char>)>) -> Seq<char> {
    let mapped = match lookup(ts, structure_target()) {
        Some(t) => nonblank_count(lines(t)),
        None => 0,
    };
    "  target: "@ + decimal(node_count(ts, target_child())) + " nodes, "@ + decimal(mapped) + "/"@
        + decimal(structure_count(ts)) + " mapped to structure"@
}

// ---------------------------------------------------------------------------
// Explicit modes
// ---------------------------------------------------------------------------

/// The parent a saved state file names: its trimmed text, unless empty.
pub open spec fn saved_parent(saved: Option<Seq<char>>) -> Option<Seq<char>> {
    match saved {
        Some(t) => if trim(t).len() == 0 {
            None
        } else {
            Some(trim(t))
        },
        None => None,
    }
}

/// The root of the target tree, when there is a target tree.
pub open spec fn target_root_of(c: Csvs) -> Option<Seq<char>> {
    match tablet_text(c, target_child()) {
        Some(t) => root_of(forward_of(tablet_records(t)), reverse_of(tablet_records(t))),
        None => None,
    }
}

pub open spec fn quoted(text: Seq<char>) -> Seq<char> {
    "\""@ + text + "\""@
}

/// What a write lands on: what it prints, the files and prose blobs it
/// leaves, and what the state file is to hold afterwards (`None`: left as it
/// is); or the error it fails with.
pub struct WriteView {
    pub lines: Seq<Seq<char>>,
    pub tablets: Seq<(Seq<char>, Seq<char>)>,
    pub prose: Seq<(Seq<char>, Seq<char>)>,
    pub state: Option<Seq<char>>,
}

/// `--root`: the target root, with text, mapped to the structure root.
pub open spec fn root_outcome(c: Csvs, text: Seq<char>, fresh: Seq<Seq<char>>) -> Result<WriteView, Seq<char>> {
    let nu = fresh[0];
    let ts = pairs(c.tablets@);
    match tablet_text(c, target_child()) {
        Some(t) if trim(t).len() > 0 => Err("Target root already exists. Use --parent to add children."@),
        _ => {
            let ts1 = match tablet_text(c, structure_child()) {
                Some(st) => match root_of(forward_of(tablet_records(st)), reverse_of(tablet_records(st))) {
                    Some(sr) => app(ts, structure_target(), sr + ","@ + nu),
                    None => ts,
                },
                None => ts,
            };
            Ok(
                WriteView {
                    lines: seq!["root ["@ + short_of(nu) + "]: "@ + quoted(text), progress_line(ts1)],
                    tablets: ts1,
                    prose: set_value(pairs(c.prose@), nu, text),
                    state: Some(nu),
                },
            )
        },
    }
}

/// `--parent <addr>`: a node under the node `addr` names (without an
/// address: under the saved parent, or else the target root).
pub open spec fn parented_outcome(
    c: Csvs,
    text: Seq<char>,
    parent_addr: Option<Seq<char>>,
    saved: Option<Seq<char>>,
    fresh: Seq<Seq<char>>,
) -> Result<WriteView, Seq<char>> {
    let parent: Result<Seq<char>, Seq<char>> = match parent_addr {
        Some(a) => match resolved(pairs(c.tablets@), a) {
            Some(p) => Ok(p),
            None => Err("Parent not found: "@ + a),
        },
        None => match saved_parent(saved) {
            Some(p) => Ok(p),
            None => match target_root_of(c) {
                Some(p) => Ok(p),
                None => Err("No target nodes exist yet. Use --root to create the first one."@),
            },
        },
    };
    match parent {
        Err(e) => Err(e),
        Ok(p) => {
            let nu = fresh[0];
            let ts1 = app(pairs(c.tablets@), target_child(), p + ","@ + nu);
            Ok(
                WriteView {
                    lines: seq![
                        "["@ + short_of(nu) + "] under ["@ + short_of(p) + "]: "@ + quoted(text),
                        progress_line(ts1),
                    ],
                    tablets: ts1,
                    prose: set_value(pairs(c.prose@), nu, text),
                    state: Some(p),
                },
            )
        },
    }
}

// ---------------------------------------------------------------------------
// Auto mode
// ---------------------------------------------------------------------------

/// Where `ensure_parent` got to: the target node, the files, the
/// structure → target map, the lines printed and how many fresh UUIDs were
/// used.
pub struct Ensured {
    pub node: Seq<char>,
    pub tablets: Seq<(Seq<char>, Seq<char>)>,
    pub st_fwd: Seq<(Seq<char>, Seq<Seq<char>>)>,
    pub lines: Seq<Seq<char>>,
    pub used: nat,
}

/// The target counterpart of the structure node `s`: the target root for
/// the structure root, else the first target node `s` is linked to, else a
/// new empty node (a paragraph break) under the counterpart of `s`'s
/// parent, linked to `s`. At most `fuel` nodes are created, one per step up
/// the structure tree; a chain of parents longer than that is a cycle.
pub open spec fn ensure_parent(
    s: Seq<char>,
    s_root: Seq<char>,
    s_rev: Seq<(Seq<char>, Seq<char>)>,
    st_fwd: Seq<(Seq<char>, Seq<Seq<char>>)>,
    t_root: Seq<char>,
    ts: Seq<(Seq<char>, Seq<char>)>,
    fresh: Seq<Seq<char>>,
    used: nat,
    fuel: nat,
) -> Result<Ensured, Seq<char>>
    decreases fuel,
{
    if s == s_root {
        Ok(Ensured { node: t_root, tablets: ts, st_fwd, lines: Seq::empty(), used })
    } else if kids(st_fwd, s).len() > 0 {
        Ok(Ensured { node: kids(st_fwd, s)[0], tablets: ts, st_fwd, lines: Seq::empty(), used })
    } else {
        match lookup(s_rev, s) {
            None => Err("Structure parent chain broken"@),
            Some(g) => if fuel == 0 {
                Err("The structure parent chain has a cycle"@)
            } else {
                match ensure_parent(g, s_root, s_rev, st_fwd, t_root, ts, fresh, used, (fuel - 1) as nat) {
                    Err(e) => Err(e),
                    Ok(up) => {
                        let nu = fresh[up.used as int];
                        Ok(
                            Ensured {
                                node: nu,
                                tablets: app(
                                    app(up.tablets, target_child(), up.node + ","@ + nu),
                                    structure_target(),
                                    s + ","@ + nu,
                                ),
                                st_fwd: add_child(up.st_fwd, s, nu),
                                lines: up.lines.push(
                                    "  paragraph ["@ + short_of(nu) + "] under ["@ + short_of(up.node)
                                        + "]"@,
                                ),
                                used: up.used + 1,
                            },
                        )
                    },
                }
            },
        }
    }
}

/// The last element satisfying `p`.
pub open spec fn find_last<A>(s: Seq<A>, p: spec_fn(A) -> bool) -> Option<A>
    decreases s.len(),
{
    if s.len() == 0 {
        None
    } else if p(s.last()) {
        Some(s.last())
    } else {
        find_last(s.drop_last(), p)
    }
}

pub open spec fn leaf_pred(fwd: Seq<(Seq<char>, Seq<Seq<char>>)>) -> spec_fn(Seq<char>) -> bool {
    |u: Seq<char>| kids(fwd, u).len() == 0
}

/// Lines with the first line equal to `old` replaced by `new`, and whether
/// there was one.
pub open spec fn replaced_lines(ls: Seq<Seq<char>>, old: Seq<char>, new: Seq<char>) -> (Seq<Seq<char>>, bool)
    decreases ls.len(),
{
    if ls.len() == 0 {
        (Seq::empty(), false)
    } else {
        let (r, found) = replaced_lines(ls.drop_last(), old, new);
        if !found && ls.last() == old {
            (r.push(new), true)
        } else {
            (r.push(ls.last()), found)
        }
    }
}

/// A tablet with its first line equal to `old` replaced by `new` (lines
/// rejoined, each ended by a newline), when it has such a line.
pub open spec fn replace_first(content: Seq<char>, old: Seq<char>, new: Seq<char>) -> Option<Seq<char>> {
    let (ls, found) = replaced_lines(lines(content), old, new);
    if found {
        Some(join(ls, "\n"@) + "\n"@)
    } else {
        None
    }
}

/// Where the new node goes in auto mode: its parent, the structure nodes it
/// is linked to, the files and lines so far, and how many fresh UUIDs were
/// used.
pub struct Placement {
    pub parent: Seq<char>,
    pub structures: Seq<Seq<char>>,
    pub tablets: Seq<(Seq<char>, Seq<char>)>,
    pub lines: Seq<Seq<char>>,
    pub used: nat,
}

/// `--same`: the parent and structure links of the previous target leaf
/// (the last leaf, depth first). When the parent is linked to other
/// structure nodes than the leaf, a new paragraph node linked to the leaf's
/// structure nodes takes the leaf's place and adopts it.
pub open spec fn same_placement(
    c: Csvs,
    t_fwd: Seq<(Seq<char>, Seq<Seq<char>>)>,
    t_rev: Seq<(Seq<char>, Seq<char>)>,
    st_back: Seq<(Seq<char>, Seq<Seq<char>>)>,
    t_root: Seq<char>,
    fresh: Seq<Seq<char>>,
) -> Result<Placement, Seq<char>> {
    if !tree_bounded(t_fwd, t_root) {
        Err("The target tree has a cycle"@)
    } else {
        match find_last(depth_first(t_fwd, t_root), leaf_pred(t_fwd)) {
            None => Err("No previous target leaf — nothing for --same to repeat"@),
            Some(prev) => match lookup(t_rev, prev) {
                None => Err("Previous target leaf has no parent"@),
                Some(parent) => {
                    let structs = kids(st_back, prev);
                    if structs.len() == 0 {
                        Err("Previous target leaf has no structure links"@)
                    } else if structs.to_set() == kids(st_back, parent).to_set() {
                        Ok(Placement { parent, structures: structs, tablets: pairs(c.tablets@), lines: Seq::empty(), used: 0 })
                    } else {
                        let para = fresh[0];
                        let old_line = parent + ","@ + prev;
                        match replace_first(
                            match tablet_text(c, target_child()) {
                                Some(t) => t,
                                None => Seq::empty(),
                            },
                            old_line,
                            parent + ","@ + para,
                        ) {
                            None => Err("Line not found in "@ + file_path(c.dir@, target_child()) + ": "@ + old_line),
                            Some(t) => {
                                let ts1 = set_value(pairs(c.tablets@), target_child(), t);
                                let ts2 = app(ts1, target_child(), para + ","@ + prev);
                                Ok(
                                    Placement {
                                        parent: para,
                                        structures: structs,
                                        tablets: app_links(ts2, structs, para),
                                        lines: seq![
                                            "  paragraph ["@ + short_of(para) + "] adopts ["@ + short_of(prev)
                                                + "]"@,
                                        ],
                                        used: 1,
                                    },
                                )
                            },
                        }
                    }
                },
            },
        }
    }
}

/// Without `--same`: the current structure leaf (the first unmapped leaf,
/// depth first, root excluded), under the target counterpart of its
/// structure parent.
pub open spec fn next_placement(
    c: Csvs,
    s_fwd: Seq<(Seq<char>, Seq<Seq<char>>)>,
    s_rev: Seq<(Seq<char>, Seq<char>)>,
    s_root: Seq<char>,
    t_root: Seq<char>,
    fresh: Seq<Seq<char>>,
) -> Result<Placement, Seq<char>> {
    if !tree_bounded(s_fwd, s_root) {
        Err("The structure tree has a cycle"@)
    } else {
        match find_first(depth_first(s_fwd, s_root), regrow_pred(c, s_fwd, s_root)) {
            None => Err("All structure leaves are mapped — regrow complete."@),
            Some(current) => match lookup(s_rev, current) {
                None => Err("Current structure leaf has no parent"@),
                Some(s_parent) => match ensure_parent(
                    s_parent,
                    s_root,
                    s_rev,
                    forward_or_empty(c, structure_target()),
                    t_root,
                    pairs(c.tablets@),
                    fresh,
                    0,
                    s_rev.len(),
                ) {
                    Err(e) => Err(e),
                    Ok(en) => Ok(
                        Placement {
                            parent: en.node,
                            structures: seq![current],
                            tablets: en.tablets,
                            lines: en.lines,
                            used: en.used,
                        },
                    ),
                },
            },
        }
    }
}

/// Short ids joined with `, `.
pub open spec fn shorts(us: Seq<Seq<char>>) -> Seq<char> {
    join(us.map_values(|u: Seq<char>| short_of(u)), ", "@)
}

/// Where auto mode puts the new node, from the state of the store.
pub open spec fn auto_placement(c: Csvs, same: bool, fresh: Seq<Seq<char>>) -> Result<Placement, Seq<char>> {
    match tablet_text(c, structure_child()) {
        None => Err("No structure-child.csv found. Run init first."@),
        Some(sc) => {
            let s_fwd = forward_of(tablet_records(sc));
            let s_rev = reverse_of(tablet_records(sc));
            match root_of(s_fwd, s_rev) {
                None => Err("No root found in structure tree"@),
                Some(s_root) => {
                    let st_fwd = forward_or_empty(c, structure_target());
                    let t_fwd = forward_or_empty(c, target_child());
                    let t_rev = match tablet_text(c, target_child()) {
                        Some(t) => reverse_of(tablet_records(t)),
                        None => Seq::empty(),
                    };
                    let t_root = match root_of(t_fwd, t_rev) {
                        Some(r) => Some(r),
                        None => if kids(st_fwd, s_root).len() > 0 {
                            Some(kids(st_fwd, s_root)[0])
                        } else {
                            None
                        },
                    };
                    match t_root {
                        None => Err("No target root. Create it with write --root first."@),
                        Some(tr) => if same {
                            same_placement(
                                c,
                                t_fwd,
                                t_rev,
                                match tablet_text(c, structure_target()) {
                                    Some(t) => backward_of(tablet_records(t)),
                                    None => Seq::empty(),
                                },
                                tr,
                                fresh,
                            )
                        } else {
                            next_placement(c, s_fwd, s_rev, s_root, tr, fresh)
                        },
                    }
                },
            }
        },
    }
}

/// Auto mode: the new node under the placement's parent, linked to its
/// structure nodes.
pub open spec fn auto_outcome(c: Csvs, text: Seq<char>, same: bool, fresh: Seq<Seq<char>>) -> Result<WriteView, Seq<char>> {
    match auto_placement(c, same, fresh) {
        Err(e) => Err(e),
        Ok(pl) => {
            let nu = fresh[pl.used as int];
            let ts1 = app_links(app(pl.tablets, target_child(), pl.parent + ","@ + nu), pl.structures, nu);
            Ok(
                WriteView {
                    lines: pl.lines + seq![
                        "["@ + short_of(nu) + "] under ["@ + short_of(pl.parent) + "] → ["@ + shorts(pl.structures)
                            + "]: "@ + quoted(text),
                        progress_line(ts1),
                    ],
                    tablets: ts1,
                    prose: set_value(pairs(c.prose@), nu, text),
                    state: None,
                },
            )
        },
    }
}

/// What `write` does, with the fresh UUIDs `fresh` used in order.
pub open spec fn write_outcome(
    c: Csvs,
    text: Seq<char>,
    parent_addr: Option<Seq<char>>,
    is_root: bool,
    same: bool,
    saved: Option<Seq<char>>,
    fresh: Seq<Seq<char>>,
) -> Result<WriteView, Seq<char>> {
    if !is_root && parent_addr is None {
        auto_outcome(c, text, same, fresh)
    } else if is_root {
        root_outcome(c, text, fresh)
    } else {
        parented_outcome(c, text, parent_addr, saved, fresh)
    }
}

pub open spec fn str_opt(o: Option<&str>) -> Option<Seq<char>> {
    match o {
        Some(s) => Some(s@),
        None => None,
    }
}

pub open spec fn string_opt(o: Option<String>) -> Option<Seq<char>> {
    match o {
        Some(s) => Some(s@),
        None => None,
    }
}

/// What a write returns matches `write_outcome`.
pub open spec fn write_matches(
    w: Result<WriteView, Seq<char>>,
    r: (Vec<String>, Result<Option<String>, String>),
    before: Csvs,
    after: Csvs,
) -> bool {
    match w {
        Ok(v) => r.1 matches Ok(st) && strs(r.0@) == v.lines && pairs(after.tablets@) == v.tablets && pairs(
            after.prose@,
        ) == v.prose && string_opt(st) == v.state,
        Err(e) => r.1 matches Err(m) && m@ == e && strs(r.0@) == Seq::<Seq<char>>::empty() && after == before,
    }
}

/// How many fresh UUIDs a write may need: one per structure node that has
/// a parent (paragraph breaks), and two more.
pub open spec fn id_budget(c: Csvs) -> nat {
    match tablet_text(c, structure_child()) {
        Some(sc) => reverse_of(tablet_records(sc)).len() + 2,
        None => 2,
    }
}


// ---------------------------------------------------------------------------
// Code
// ---------------------------------------------------------------------------

/// Appends `<s>,<u>` to `structure-target.csv` for each `s` of `ss`.
fn append_links(csvs: &mut Csvs, ss: &Vec<String>, u: &str)
    ensures
        pairs(final(csvs).tablets@) == app_links(pairs(old(csvs).tablets@), strs(ss@), u@),
        final(csvs).prose == old(csvs).prose,
{
    let ghost sv = strs(ss@);
    let ghost t0 = pairs(csvs.tablets@);
    let mut i: usize = 0;
    assert(sv.take(0) == Seq::<Seq<char>>::empty());
    while i < ss.len()
        invariant
            sv == strs(ss@),
            i <= ss@.len(),
            pairs(csvs.tablets@) == app_links(t0, sv.take(i as int), u@),
            csvs.prose == old(csvs).prose,
        decreases ss@.len() - i,
    {
        assert(sv.take(i + 1).drop_last() == sv.take(i as int));
        assert(sv.take(i + 1).last() == ss@[i as int]@);
        let mut line = chars_of(ss[i].as_str());
        append_str(&mut line, ",");
        append_str(&mut line, u);
        csvs.append_line("structure-target.csv", string_of(&line).as_str());
        i = i + 1;
    }
    assert(sv.take(ss@.len() as int) == sv);
}

/// The number of nodes of the tree in the file `name`.
fn count_nodes(c: &Csvs, name: &str) -> (r: usize)
    ensures
        r == node_count(pairs(c.tablets@), name@),
{
    match c.tablet(name) {
        None => 0,
        Some(t) => {
            let (fwd, rev) = load_edges(t.as_str());
            all_uuids(&fwd, &rev).len()
        },
    }
}

/// The progress line: target nodes, and mapped structure nodes out of all.
fn print_progress(c: &Csvs) -> (r: String)
    ensures
        r@ == progress_line(pairs(c.tablets@)),
{
    let target_count = count_nodes(c, "target-child.csv");
    let structure_count_n: usize = match c.tablet("structure-child.csv") {
        None => 0,
        Some(t) => {
            let (fwd, rev) = load_edges(t.as_str());
            let root = find_root(&fwd, &rev);
            let all = all_uuids(&fwd, &rev);
            if root.is_some() && all.len() > 0 {
                all.len() - 1
            } else {
                all.len()
            }
        },
    };
    let mapped: usize = match c.tablet("structure-target.csv") {
        None => 0,
        Some(t) => {
            let ls = lines_exec(&chars_of(t.as_str()));
            let ghost lv = char_vecs(ls@);
            let mut n: usize = 0;
            let mut i: usize = 0;
            assert(lv.take(0) == Seq::<Seq<char>>::empty());
            while i < ls.len()
                invariant
                    lv == char_vecs(ls@),
                    i <= ls@.len(),
                    n == nonblank_count(lv.take(i as int)),
                    n <= i,
                decreases ls@.len() - i,
            {
                assert(lv.take(i + 1).drop_last() == lv.take(i as int));
                assert(lv.take(i + 1).last() == ls@[i as int]@);
                if trim_exec(&ls[i]).len() > 0 {
                    n = n + 1;
                }
                i = i + 1;
            }
            assert(lv.take(ls@.len() as int) == lv);
            n
        },
    };
    let mut line = chars_of("  target: ");
    append_chars(&mut line, &decimal_exec(target_count));
    append_str(&mut line, " nodes, ");
    append_chars(&mut line, &decimal_exec(mapped));
    append_str(&mut line, "/");
    append_chars(&mut line, &decimal_exec(structure_count_n));
    append_str(&mut line, " mapped to structure");
    string_of(&line)
}

/// The parent a saved state file names: its trimmed text, unless empty.
pub fn load_current_parent(saved: Option<&str>) -> (r: Option<String>)
    ensures
        match r {
            Some(p) => saved_parent(
                match saved {
                    Some(s) => Some(s@),
                    None => None,
                },
            ) == Some(p@),
            None => saved_parent(
                match saved {
                    Some(s) => Some(s@),
                    None => None,
                },
            ) is None,
        },
{
    match saved {
        None => None,
        Some(content) => {
            let trimmed = trim_exec(&chars_of(content));
            if trimmed.len() == 0 {
                None
            } else {
                Some(string_of(&trimmed))
            }
        },
    }
}

/// The root of the target tree, when there is a target tree.
fn find_target_root(c: &Csvs) -> (r: Option<String>)
    ensures
        match r {
            Some(t) => target_root_of(*c) == Some(t@),
            None => target_root_of(*c) is None,
        },
{
    match c.tablet("target-child.csv") {
        None => None,
        Some(t) => {
            let (fwd, rev) = load_edges(t.as_str());
            find_root(&fwd, &rev)
        },
    }
}

/// A tablet with its first line equal to `old` replaced by `new`, or
/// `None` when no line equals `old`.
pub fn replace_line(content: &str, old: &str, new: &str) -> (r: Option<String>)
    ensures
        match r {
            Some(t) => replace_first(content@, old@, new@) == Some(t@),
            None => replace_first(content@, old@, new@) is None,
        },
{
    let ls = lines_exec(&chars_of(content));
    let ghost lv = char_vecs(ls@);
    let oc = chars_of(old);
    let nc = chars_of(new);
    let mut out: Vec<Vec<char>> = Vec::new();
    let mut replaced = false;
    let mut i: usize = 0;
    assert(lv.take(0) == Seq::<Seq<char>>::empty());
    while i < ls.len()
        invariant
            lv == char_vecs(ls@),
            lv == lines(content@),
            oc@ == old@,
            nc@ == new@,
            i <= ls@.len(),
            (char_vecs(out@), replaced) == replaced_lines(lv.take(i as int), old@, new@),
        decreases ls@.len() - i,
    {
        assert(lv.take(i + 1).drop_last() == lv.take(i as int));
        assert(lv.take(i + 1).last() == ls@[i as int]@);
        let ghost old_o = char_vecs(out@);
        if !replaced && chars_eq(&ls[i], &oc) {
            replaced = true;
            out.push(copy_chars(&nc));
            assert(char_vecs(out@) == old_o.push(new@));
        } else {
            out.push(copy_chars(&ls[i]));
            assert(char_vecs(out@) == old_o.push(ls@[i as int]@));
        }
        i = i + 1;
    }
    assert(lv.take(ls@.len() as int) == lv);
    if !replaced {
        return None;
    }
    let mut text = join_exec(&out, &chars_of("\n"));
    append_str(&mut text, "\n");
    Some(string_of(&text))
}

fn copy_chars(v: &Vec<char>) -> (r: Vec<char>)
    ensures
        r@ == v@,
{
    crate::text::copy_range(v, 0, v.len())
}

/// Short ids joined with `, `.
fn shorts_exec(us: &Vec<String>) -> (r: Vec<char>)
    ensures
        r@ == shorts(strs(us@)),
{
    let ghost sv = strs(us@).map_values(|u: Seq<char>| short_of(u));
    let mut parts: Vec<Vec<char>> = Vec::new();
    let mut i: usize = 0;
    while i < us.len()
        invariant
            sv == strs(us@).map_values(|u: Seq<char>| short_of(u)),
            i <= us@.len(),
            char_vecs(parts@) == sv.take(i as int),
        decreases us@.len() - i,
    {
        let ghost old_p = char_vecs(parts@);
        parts.push(short_of_exec(&chars_of(us[i].as_str())));
        assert(char_vecs(parts@) == old_p.push(sv[i as int]));
        assert(sv.take(i + 1) == sv.take(i as int).push(sv[i as int]));
        i = i + 1;
    }
    assert(sv.take(us@.len() as int) == sv);
    join_exec(&parts, &chars_of(", "))
}

/// `ensure_parent` uses fresh UUIDs from `used` on, at most `fuel` of them.
pub proof fn lemma_ensure_used(
    s: Seq<char>,
    s_root: Seq<char>,
    s_rev: Seq<(Seq<char>, Seq<char>)>,
    st_fwd: Seq<(Seq<char>, Seq<Seq<char>>)>,
    t_root: Seq<char>,
    ts: Seq<(Seq<char>, Seq<char>)>,
    fresh: Seq<Seq<char>>,
    used: nat,
    fuel: nat,
)
    ensures
        ensure_parent(s, s_root, s_rev, st_fwd, t_root, ts, fresh, used, fuel) matches Ok(en) ==> used
            <= en.used <= used + fuel,
    decreases fuel,
{
    if fuel > 0 {
        match lookup(s_rev, s) {
            Some(g) => lemma_ensure_used(g, s_root, s_rev, st_fwd, t_root, ts, fresh, used, (fuel - 1) as nat),
            None => {},
        }
    }
}

/// The target counterpart of the structure node `s_node`, created (as an
/// empty paragraph node, linked to `s_node`) when missing.
fn ensure_target_parent(
    csvs: &mut Csvs,
    s_node: &str,
    s_root: &str,
    s_rev: &ParentMap,
    st_fwd: &mut ChildMap,
    t_root: &str,
    fresh: &Vec<String>,
    used: &mut usize,
    fuel: usize,
    lines_out: &mut Vec<String>,
) -> (r: Result<String, String>)
    requires
        *old(used) + fuel < fresh@.len(),
    ensures
        match ensure_parent(
            s_node@,
            s_root@,
            s_rev@,
            old(st_fwd)@,
            t_root@,
            pairs(old(csvs).tablets@),
            strs(fresh@),
            *old(used) as nat,
            fuel as nat,
        ) {
            Ok(en) => r matches Ok(n) && n@ == en.node && pairs(final(csvs).tablets@) == en.tablets
                && final(st_fwd)@ == en.st_fwd && strs(final(lines_out)@) == strs(old(lines_out)@) + en.lines
                && *final(used) == en.used && final(csvs).prose == old(csvs).prose,
            Err(e) => r matches Err(m) && m@ == e && *final(csvs) == *old(csvs) && strs(final(lines_out)@)
                == strs(old(lines_out)@),
        },
    decreases fuel,
{
    if str_eq_exec(s_node, s_root) {
        assert(strs(lines_out@) =~= strs(lines_out@) + Seq::<Seq<char>>::empty());
        return Ok(string_of(&chars_of(t_root)));
    }
    match st_fwd.get(s_node) {
        Some(ts) => {
            if ts.len() > 0 {
                assert(strs(lines_out@) =~= strs(lines_out@) + Seq::<Seq<char>>::empty());
                return Ok(copy_string(&ts[0]));
            }
        },
        None => {},
    }
    let s_grand = match s_rev.get(s_node) {
        Some(g) => copy_string(g),
        None => {
            return Err(string_of(&chars_of("Structure parent chain broken")));
        },
    };
    if fuel == 0 {
        return Err(string_of(&chars_of("The structure parent chain has a cycle")));
    }
    let ghost lines0 = strs(lines_out@);
    let t_grand = ensure_target_parent(
        csvs,
        s_grand.as_str(),
        s_root,
        s_rev,
        st_fwd,
        t_root,
        fresh,
        used,
        fuel - 1,
        lines_out,
    )?;
    proof {
        lemma_ensure_used(
            s_grand@,
            s_root@,
            s_rev@,
            old(st_fwd)@,
            t_root@,
            pairs(old(csvs).tablets@),
            strs(fresh@),
            *old(used) as nat,
            (fuel - 1) as nat,
        );
    }
    let k = *used;
    let n_fresh = fresh.len();
    assert(k < n_fresh);
    let new_uuid = copy_string(&fresh[k]);
    let mut edge = chars_of(t_grand.as_str());
    append_str(&mut edge, ",");
    append_str(&mut edge, new_uuid.as_str());
    csvs.append_line("target-child.csv", string_of(&edge).as_str());
    let mut link = chars_of(s_node);
    append_str(&mut link, ",");
    append_str(&mut link, new_uuid.as_str());
    csvs.append_line("structure-target.csv", string_of(&link).as_str());
    st_fwd.add(&chars_of(s_node), &chars_of(new_uuid.as_str()));
    let mut line = chars_of("  paragraph [");
    append_chars(&mut line, &short_of_exec(&chars_of(new_uuid.as_str())));
    append_str(&mut line, "] under [");
    append_chars(&mut line, &short_of_exec(&chars_of(t_grand.as_str())));
    append_str(&mut line, "]");
    let ghost l1 = strs(lines_out@);
    lines_out.push(string_of(&line));
    assert(strs(lines_out@) == l1.push(line@));
    *used = k + 1;
    Ok(new_uuid)
}

fn str_eq_exec(a: &str, b: &str) -> (r: bool)
    ensures
        r == (a@ == b@),
{
    chars_eq(&chars_of(a), &chars_of(b))
}


/// Whether a list holds `w`.
fn holds(v: &Vec<String>, w: &str) -> (r: bool)
    ensures
        r == strs(v@).contains(w@),
{
    let ghost sv = strs(v@);
    let mut i: usize = 0;
    while i < v.len()
        invariant
            sv == strs(v@),
            i <= v@.len(),
            forall|j: int| 0 <= j < i ==> sv[j] != w@,
        decreases v@.len() - i,
    {
        assert(sv[i as int] == v@[i as int]@);
        if str_eq_exec(v[i].as_str(), w) {
            return true;
        }
        i = i + 1;
    }
    false
}

/// Whether every element of `a` is in `b`.
fn all_in(a: &Vec<String>, b: &Vec<String>) -> (r: bool)
    ensures
        r == (forall|x: Seq<char>| strs(a@).contains(x) ==> strs(b@).contains(x)),
{
    let ghost sa = strs(a@);
    let mut i: usize = 0;
    while i < a.len()
        invariant
            sa == strs(a@),
            i <= a@.len(),
            forall|j: int| 0 <= j < i ==> strs(b@).contains(#[trigger] sa[j]),
        decreases a@.len() - i,
    {
        assert(sa[i as int] == a@[i as int]@);
        if !holds(b, a[i].as_str()) {
            return false;
        }
        i = i + 1;
    }
    true
}

/// Whether two lists hold the same elements.
fn same_set(a: &Vec<String>, b: &Vec<String>) -> (r: bool)
    ensures
        r == (strs(a@).to_set() == strs(b@).to_set()),
{
    let ab = all_in(a, b);
    let ba = all_in(b, a);
    if ab && ba {
        assert(strs(a@).to_set() =~= strs(b@).to_set());
        true
    } else {
        proof {
            if strs(a@).to_set() == strs(b@).to_set() {
                assert forall|x: Seq<char>| strs(a@).contains(x) implies strs(b@).contains(x) by {
                    assert(strs(a@).to_set().contains(x));
                }
                assert forall|x: Seq<char>| strs(b@).contains(x) implies strs(a@).contains(x) by {
                    assert(strs(b@).to_set().contains(x));
                }
            }
        }
        false
    }
}

/// The last leaf of `df`: the last node with no children.
fn find_prev_leaf(df: &Vec<String>, t_fwd: &ChildMap) -> (r: Option<String>)
    ensures
        match r {
            Some(p) => find_last(strs(df@), leaf_pred(t_fwd@)) == Some(p@),
            None => find_last(strs(df@), leaf_pred(t_fwd@)) is None,
        },
{
    let ghost dv = strs(df@);
    let mut k: usize = df.len();
    assert(dv.take(k as int) == dv);
    while k > 0
        invariant
            dv == strs(df@),
            k <= df@.len(),
            find_last(dv, leaf_pred(t_fwd@)) == find_last(dv.take(k as int), leaf_pred(t_fwd@)),
        decreases k,
    {
        assert(dv.take(k as int).last() == df@[k - 1]@);
        assert(dv.take(k as int).drop_last() == dv.take(k - 1));
        let is_leaf_node = match t_fwd.get(df[k - 1].as_str()) {
            Some(ks) => ks.len() == 0,
            None => true,
        };
        if is_leaf_node {
            return Some(copy_string(&df[k - 1]));
        }
        k = k - 1;
    }
    assert(dv.take(0) == Seq::<Seq<char>>::empty());
    None
}

/// Where `--same` puts the node (see `same_placement`): parent, structure
/// links, lines printed and fresh UUIDs used; the adoption is written.
fn place_same(
    csvs: &mut Csvs,
    t_fwd: &ChildMap,
    t_rev: &ParentMap,
    st_back: &ChildMap,
    t_root: &str,
    fresh: &Vec<String>,
) -> (r: Result<(String, Vec<String>, Vec<String>, usize), String>)
    requires
        fresh@.len() >= 1,
    ensures
        match same_placement(*old(csvs), t_fwd@, t_rev@, st_back@, t_root@, strs(fresh@)) {
            Ok(pl) => r matches Ok(x) && x.0@ == pl.parent && strs(x.1@) == pl.structures && strs(x.2@)
                == pl.lines && x.3 == pl.used && pairs(final(csvs).tablets@) == pl.tablets
                && final(csvs).prose == old(csvs).prose,
            Err(e) => r matches Err(m) && m@ == e && *final(csvs) == *old(csvs),
        },
{
    let ghost c0 = *csvs;
    let bound = t_fwd.len();
    if bound == usize::MAX || !reaches_within(t_fwd, t_root, bound + 1) {
        return Err(string_of(&chars_of("The target tree has a cycle")));
    }
    let df = walk_depth_first(t_root, t_fwd);
    let prev = match find_prev_leaf(&df, t_fwd) {
        Some(p) => p,
        None => {
            return Err(string_of(&chars_of("No previous target leaf — nothing for --same to repeat")));
        },
    };
    let par = match t_rev.get(prev.as_str()) {
        Some(p) => copy_string(p),
        None => {
            return Err(string_of(&chars_of("Previous target leaf has no parent")));
        },
    };
    let structs: Vec<String> = match st_back.get(prev.as_str()) {
        Some(v) => crate::init::copy_strings_of(v),
        None => Vec::new(),
    };
    assert(strs(structs@) =~= kids(st_back@, prev@));
    if structs.len() == 0 {
        return Err(string_of(&chars_of("Previous target leaf has no structure links")));
    }
    let parent_structs: Vec<String> = match st_back.get(par.as_str()) {
        Some(v) => crate::init::copy_strings_of(v),
        None => Vec::new(),
    };
    assert(strs(parent_structs@) =~= kids(st_back@, par@));
    if same_set(&structs, &parent_structs) {
        let none: Vec<String> = Vec::new();
        assert(strs(none@) =~= Seq::<Seq<char>>::empty());
        return Ok((par, structs, none, 0));
    }
    let para = copy_string(&fresh[0]);
    let mut old_line = chars_of(par.as_str());
    append_str(&mut old_line, ",");
    append_str(&mut old_line, prev.as_str());
    let mut new_line = chars_of(par.as_str());
    append_str(&mut new_line, ",");
    append_str(&mut new_line, para.as_str());
    let content = match csvs.tablet("target-child.csv") {
        Some(t) => copy_string(t),
        None => String::new(),
    };
    assert(content@ == match tablet_text(c0, target_child()) {
        Some(t) => t,
        None => Seq::<char>::empty(),
    });
    let replaced = match replace_line(content.as_str(), string_of(&old_line).as_str(), string_of(&new_line).as_str()) {
        Some(t) => t,
        None => {
            let mut msg = chars_of("Line not found in ");
            let path = file_path_exec(csvs.dir.as_str(), "target-child.csv");
            append_str(&mut msg, path.as_str());
            append_str(&mut msg, ": ");
            append_chars(&mut msg, &old_line);
            return Err(string_of(&msg));
        },
    };
    csvs.write_tablet("target-child.csv", replaced.as_str());
    let mut adopt = chars_of(para.as_str());
    append_str(&mut adopt, ",");
    append_str(&mut adopt, prev.as_str());
    csvs.append_line("target-child.csv", string_of(&adopt).as_str());
    append_links(csvs, &structs, para.as_str());
    let mut line = chars_of("  paragraph [");
    append_chars(&mut line, &short_of_exec(&chars_of(para.as_str())));
    append_str(&mut line, "] adopts [");
    append_chars(&mut line, &short_of_exec(&chars_of(prev.as_str())));
    append_str(&mut line, "]");
    let mut lines_out: Vec<String> = Vec::new();
    lines_out.push(string_of(&line));
    assert(strs(lines_out@) =~= seq![line@]);
    Ok((para, structs, lines_out, 1))
}

/// Where the node goes without `--same` (see `next_placement`); the
/// paragraph breaks made on the way are written.
fn place_next(
    csvs: &mut Csvs,
    s_fwd: &ChildMap,
    s_rev: &ParentMap,
    s_root: &str,
    t_root: &str,
    fresh: &Vec<String>,
) -> (r: Result<(String, Vec<String>, Vec<String>, usize), String>)
    requires
        fresh@.len() > s_rev@.len(),
    ensures
        match next_placement(*old(csvs), s_fwd@, s_rev@, s_root@, t_root@, strs(fresh@)) {
            Ok(pl) => r matches Ok(x) && x.0@ == pl.parent && strs(x.1@) == pl.structures && strs(x.2@)
                == pl.lines && x.3 == pl.used && pairs(final(csvs).tablets@) == pl.tablets
                && final(csvs).prose == old(csvs).prose && pl.used <= s_rev@.len(),
            Err(e) => r matches Err(m) && m@ == e && *final(csvs) == *old(csvs),
        },
{
    let ghost c0 = *csvs;
    let bound = s_fwd.len();
    if bound == usize::MAX || !reaches_within(s_fwd, s_root, bound + 1) {
        return Err(string_of(&chars_of("The structure tree has a cycle")));
    }
    let df = walk_depth_first(s_root, s_fwd);
    let mut st_fwd = crate::store::load_forward(csvs, "structure-target.csv");
    let current = match first_regrow(csvs, s_fwd, &st_fwd, &df, s_root) {
        Some(u) => u,
        None => {
            return Err(string_of(&chars_of("All structure leaves are mapped — regrow complete.")));
        },
    };
    let s_parent = match s_rev.get(current.as_str()) {
        Some(p) => copy_string(p),
        None => {
            return Err(string_of(&chars_of("Current structure leaf has no parent")));
        },
    };
    let fuel = s_rev.len();
    let mut used: usize = 0;
    let mut lines_out: Vec<String> = Vec::new();
    assert(strs(lines_out@) =~= Seq::<Seq<char>>::empty());
    let found = ensure_target_parent(
        csvs,
        s_parent.as_str(),
        s_root,
        s_rev,
        &mut st_fwd,
        t_root,
        fresh,
        &mut used,
        fuel,
        &mut lines_out,
    );
    proof {
        lemma_ensure_used(
            s_parent@,
            s_root@,
            s_rev@,
            forward_or_empty(c0, structure_target()),
            t_root@,
            pairs(c0.tablets@),
            strs(fresh@),
            0,
            fuel as nat,
        );
    }
    let parent = found?;
    let mut cs: Vec<String> = Vec::new();
    cs.push(current);
    assert(strs(cs@) =~= seq![current@]);
    Ok((parent, cs, lines_out, used))
}

/// Where auto mode puts the new node (see `auto_placement`); what is
/// written on the way is written.
fn find_placement(csvs: &mut Csvs, same: bool, fresh: &Vec<String>) -> (r: Result<(String, Vec<String>, Vec<String>, usize), String>)
    requires
        fresh@.len() >= id_budget(*old(csvs)),
    ensures
        match auto_placement(*old(csvs), same, strs(fresh@)) {
            Ok(pl) => r matches Ok(x) && x.0@ == pl.parent && strs(x.1@) == pl.structures && strs(x.2@)
                == pl.lines && x.3 == pl.used && pairs(final(csvs).tablets@) == pl.tablets
                && final(csvs).prose == old(csvs).prose && pl.used < fresh@.len(),
            Err(e) => r matches Err(m) && m@ == e && *final(csvs) == *old(csvs),
        },
{
    let sc = match csvs.tablet("structure-child.csv") {
        Some(t) => copy_string(t),
        None => {
            return Err(string_of(&chars_of("No structure-child.csv found. Run init first.")));
        },
    };
    let (s_fwd, s_rev) = load_edges(sc.as_str());
    let s_root = match find_root(&s_fwd, &s_rev) {
        Some(r) => r,
        None => {
            return Err(string_of(&chars_of("No root found in structure tree")));
        },
    };
    let st_fwd = crate::store::load_forward(csvs, "structure-target.csv");
    let st_back = crate::store::load_backward(csvs, "structure-target.csv");
    let (t_fwd, t_rev) = match csvs.tablet("target-child.csv") {
        Some(t) => load_edges(t.as_str()),
        None => (ChildMap::new(), ParentMap::new()),
    };
    let t_root = match find_root(&t_fwd, &t_rev) {
        Some(r) => r,
        None => match st_fwd.get(s_root.as_str()) {
            Some(ts) => {
                if ts.len() > 0 {
                    copy_string(&ts[0])
                } else {
                    return Err(string_of(&chars_of("No target root. Create it with write --root first.")));
                }
            },
            None => {
                return Err(string_of(&chars_of("No target root. Create it with write --root first.")));
            },
        },
    };
    if same {
        place_same(csvs, &t_fwd, &t_rev, &st_back, t_root.as_str(), fresh)
    } else {
        place_next(csvs, &s_fwd, &s_rev, s_root.as_str(), t_root.as_str(), fresh)
    }
}

/// Auto mode: the node goes under the target counterpart of the current
/// structure leaf's parent and is linked to that leaf (or, with `same`,
/// repeats the previous leaf's parent and links).
fn run_auto(csvs: &mut Csvs, text: &str, same: bool, fresh: &Vec<String>) -> (r: (Vec<String>, Result<(), String>))
    requires
        fresh@.len() >= id_budget(*old(csvs)),
    ensures
        match auto_outcome(*old(csvs), text@, same, strs(fresh@)) {
            Ok(w) => r.1 is Ok && strs(r.0@) == w.lines && pairs(final(csvs).tablets@) == w.tablets && pairs(
                final(csvs).prose@,
            ) == w.prose,
            Err(e) => r.1 matches Err(m) && m@ == e && strs(r.0@) == Seq::<Seq<char>>::empty() && *final(csvs)
                == *old(csvs),
        },
{
    let ghost c0 = *csvs;
    let (parent, structures, mut lines_out, used) = match find_placement(csvs, same, fresh) {
        Ok(x) => x,
        Err(e) => {
            let v: Vec<String> = Vec::new();
            assert(strs(v@) =~= Seq::<Seq<char>>::empty());
            return (v, Err(e));
        },
    };
    let ghost pl = auto_placement(c0, same, strs(fresh@))->Ok_0;
    let n_fresh = fresh.len();
    let new_uuid = copy_string(&fresh[used]);
    assert(new_uuid@ == strs(fresh@)[pl.used as int]);
    csvs.write_prose(new_uuid.as_str(), text);
    let mut edge = chars_of(parent.as_str());
    append_str(&mut edge, ",");
    append_str(&mut edge, new_uuid.as_str());
    csvs.append_line("target-child.csv", string_of(&edge).as_str());
    append_links(csvs, &structures, new_uuid.as_str());
    let mut line = chars_of("[");
    append_chars(&mut line, &short_of_exec(&chars_of(new_uuid.as_str())));
    append_str(&mut line, "] under [");
    append_chars(&mut line, &short_of_exec(&chars_of(parent.as_str())));
    append_str(&mut line, "] → [");
    append_chars(&mut line, &shorts_exec(&structures));
    append_str(&mut line, "]: ");
    append_str(&mut line, "\"");
    append_str(&mut line, text);
    append_str(&mut line, "\"");
    let ghost l1 = strs(lines_out@);
    lines_out.push(string_of(&line));
    let progress = print_progress(csvs);
    lines_out.push(progress);
    assert(strs(lines_out@) =~= l1 + seq![line@, progress@]);
    let ghost nu = strs(fresh@)[pl.used as int];
    let ghost ts1 = app_links(app(pl.tablets, target_child(), pl.parent + ","@ + nu), pl.structures, nu);
    assert(pairs(csvs.tablets@) == ts1);
    assert(progress@ == progress_line(ts1));
    assert(line@ =~= "["@ + short_of(nu) + "] under ["@ + short_of(pl.parent) + "] → ["@ + shorts(pl.structures)
        + "]: "@ + quoted(text@));
    assert(pairs(csvs.prose@) == set_value(pairs(c0.prose@), nu, text@));
    (lines_out, Ok(()))
}


fn err_write(msg: &str) -> (r: (Vec<String>, Result<Option<String>, String>))
    ensures
        strs(r.0@) == Seq::<Seq<char>>::empty(),
        r.1 matches Err(m) && m@ == msg@,
{
    let v: Vec<String> = Vec::new();
    assert(strs(v@) =~= Seq::<Seq<char>>::empty());
    (v, Err(string_of(&chars_of(msg))))
}

/// `--root`: the target root.
fn run_root(csvs: &mut Csvs, text: &str, fresh: &Vec<String>) -> (r: (Vec<String>, Result<Option<String>, String>))
    requires
        fresh@.len() >= 1,
    ensures
        write_matches(root_outcome(*old(csvs), text@, strs(fresh@)), r, *old(csvs), *final(csvs)),
{
    let ghost c0 = *csvs;
    let new_uuid = copy_string(&fresh[0]);
    match csvs.tablet("target-child.csv") {
        Some(t) => {
            if trim_exec(&chars_of(t.as_str())).len() > 0 {
                return err_write("Target root already exists. Use --parent to add children.");
            }
        },
        None => {},
    }
    csvs.write_prose(new_uuid.as_str(), text);
    let s_root = match csvs.tablet("structure-child.csv") {
        Some(t) => {
            let (s_fwd, s_rev) = load_edges(t.as_str());
            find_root(&s_fwd, &s_rev)
        },
        None => None,
    };
    match s_root {
        Some(sr) => {
            let mut link = chars_of(sr.as_str());
            append_str(&mut link, ",");
            append_str(&mut link, new_uuid.as_str());
            csvs.append_line("structure-target.csv", string_of(&link).as_str());
        },
        None => {},
    }
    let mut line = chars_of("root [");
    append_chars(&mut line, &short_of_exec(&chars_of(new_uuid.as_str())));
    append_str(&mut line, "]: ");
    append_str(&mut line, "\"");
    append_str(&mut line, text);
    append_str(&mut line, "\"");
    assert(line@ =~= "root ["@ + short_of(new_uuid@) + "]: "@ + quoted(text@));
    let mut out: Vec<String> = Vec::new();
    out.push(string_of(&line));
    let progress = print_progress(csvs);
    out.push(progress);
    assert(strs(out@) =~= seq![line@, progress@]);
    (out, Ok(Some(new_uuid)))
}

/// `--parent <addr>`: a node under the node `addr` names (without one:
/// under the saved parent, or else the target root).
fn run_parented(
    csvs: &mut Csvs,
    text: &str,
    parent_addr: Option<&str>,
    saved: Option<&str>,
    fresh: &Vec<String>,
) -> (r: (Vec<String>, Result<Option<String>, String>))
    requires
        fresh@.len() >= 1,
    ensures
        write_matches(
            parented_outcome(*old(csvs), text@, str_opt(parent_addr), str_opt(saved), strs(fresh@)),
            r,
            *old(csvs),
            *final(csvs),
        ),
{
    let parent = match parent_addr {
        Some(addr) => match resolve_uuid(csvs, addr) {
            Some(p) => p,
            None => {
                let mut msg = chars_of("Parent not found: ");
                append_str(&mut msg, addr);
                return err_write(string_of(&msg).as_str());
            },
        },
        None => match load_current_parent(saved) {
            Some(p) => p,
            None => match find_target_root(csvs) {
                Some(p) => p,
                None => {
                    return err_write("No target nodes exist yet. Use --root to create the first one.");
                },
            },
        },
    };
    let new_uuid = copy_string(&fresh[0]);
    csvs.write_prose(new_uuid.as_str(), text);
    let mut edge = chars_of(parent.as_str());
    append_str(&mut edge, ",");
    append_str(&mut edge, new_uuid.as_str());
    csvs.append_line("target-child.csv", string_of(&edge).as_str());
    let mut line = chars_of("[");
    append_chars(&mut line, &short_of_exec(&chars_of(new_uuid.as_str())));
    append_str(&mut line, "] under [");
    append_chars(&mut line, &short_of_exec(&chars_of(parent.as_str())));
    append_str(&mut line, "]: ");
    append_str(&mut line, "\"");
    append_str(&mut line, text);
    append_str(&mut line, "\"");
    assert(line@ =~= "["@ + short_of(new_uuid@) + "] under ["@ + short_of(parent@) + "]: "@ + quoted(text@));
    let mut out: Vec<String> = Vec::new();
    out.push(string_of(&line));
    let progress = print_progress(csvs);
    out.push(progress);
    assert(strs(out@) =~= seq![line@, progress@]);
    (out, Ok(Some(parent)))
}

/// Creates a new target node with `text`, taking its UUID (and those of any
/// paragraph nodes made on the way) from `fresh`, in order. Returns the
/// lines printed and, on success, what the state file is to hold (`None`:
/// left as it is).
pub fn write_with(
    csvs: &mut Csvs,
    text: &str,
    parent_addr: Option<&str>,
    is_root: bool,
    same: bool,
    saved: Option<&str>,
    fresh: &Vec<String>,
) -> (r: (Vec<String>, Result<Option<String>, String>))
    requires
        fresh@.len() >= id_budget(*old(csvs)),
    ensures
        write_matches(
            write_outcome(*old(csvs), text@, str_opt(parent_addr), is_root, same, str_opt(saved), strs(fresh@)),
            r,
            *old(csvs),
            *final(csvs),
        ),
{
    if !is_root && parent_addr.is_none() {
        let (lines_out, res) = run_auto(csvs, text, same, fresh);
        return match res {
            Ok(()) => (lines_out, Ok(None)),
            Err(e) => (lines_out, Err(e)),
        };
    }
    if is_root {
        run_root(csvs, text, fresh)
    } else {
        run_parented(csvs, text, parent_addr, saved, fresh)
    }
}

/// Creates a new target node with `text` (see `write_with`), with fresh
/// random UUIDs.
pub fn run(
    csvs: &mut Csvs,
    text: &str,
    parent_addr: Option<&str>,
    is_root: bool,
    same: bool,
    saved: Option<&str>,
) -> (r: (Vec<String>, Result<Option<String>, String>))
    ensures
        exists|fresh: Seq<Seq<char>>|
            fresh.len() >= id_budget(*old(csvs)) && (forall|i: int| 0 <= i < fresh.len() ==> hyphenated(#[trigger] fresh[i]))
                && write_matches(
                #[trigger] write_outcome(*old(csvs), text@, str_opt(parent_addr), is_root, same, str_opt(saved), fresh),
                r,
                *old(csvs),
                *final(csvs),
            ),
{
    let rev_len: usize = match csvs.tablet("structure-child.csv") {
        Some(t) => load_edges(t.as_str()).1.len(),
        None => 0,
    };
    assert(id_budget(*csvs) == rev_len + 2);
    let mut fresh: Vec<String> = Vec::new();
    while fresh.len() <= rev_len
        invariant
            forall|i: int| 0 <= i < fresh@.len() ==> hyphenated(#[trigger] strs(fresh@)[i]),
        decreases rev_len + 1 - fresh@.len(),
    {
        let ghost f0 = strs(fresh@);
        let u = new_v4();
        fresh.push(u);
        assert(strs(fresh@) == f0.push(u@));
    }
    let ghost f0 = strs(fresh@);
    let u = new_v4();
    fresh.push(u);
    assert(strs(fresh@) == f0.push(u@));
    let r = write_with(csvs, text, parent_addr, is_root, same, saved, &fresh);
    assert(strs(fresh@).len() >= id_budget(*old(csvs)));
    r
}


/// Provenance: a node written in auto mode is linked to at least one
/// structure node.
pub proof fn law_auto_write_has_provenance(c: Csvs, same: bool, fresh: Seq<Seq<char>>)
    requires
        auto_placement(c, same, fresh) is Ok,
    ensures
        auto_placement(c, same, fresh)->Ok_0.structures.len() >= 1,
{
}


pub proof fn lemma_distinct_tablets()
    ensures
        target_child() != structure_target(),
{
    reveal_strlit("target-child.csv");
    reveal_strlit("structure-target.csv");
    assert(target_child().len() != structure_target().len());
}

/// Whether the file `name` of a list of files is missing or ends a line.
pub open spec fn ends_line_or_missing(ts: Seq<(Seq<char>, Seq<char>)>, name: Seq<char>) -> bool {
    match lookup(ts, name) {
        Some(x) => ends_line(x),
        None => true,
    }
}

pub proof fn lemma_app_lookup(ts: Seq<(Seq<char>, Seq<char>)>, name: Seq<char>, line: Seq<char>, q: Seq<char>)
    ensures
        lookup(app(ts, name, line), q) == if q == name {
            Some(appended(lookup(ts, name), line))
        } else {
            lookup(ts, q)
        },
{
    lemma_lookup_set_value(ts, name, appended(lookup(ts, name), line), q);
}

/// Making paragraph breaks keeps `structure-target.csv` ending a line.
pub proof fn lemma_ensure_keeps_lines(
    s: Seq<char>,
    s_root: Seq<char>,
    s_rev: Seq<(Seq<char>, Seq<char>)>,
    st_fwd: Seq<(Seq<char>, Seq<Seq<char>>)>,
    t_root: Seq<char>,
    ts: Seq<(Seq<char>, Seq<char>)>,
    fresh: Seq<Seq<char>>,
    used: nat,
    fuel: nat,
)
    requires
        ends_line_or_missing(ts, structure_target()),
    ensures
        ensure_parent(s, s_root, s_rev, st_fwd, t_root, ts, fresh, used, fuel) matches Ok(en)
            ==> ends_line_or_missing(en.tablets, structure_target()),
    decreases fuel,
{
    if fuel > 0 && s != s_root && !(kids(st_fwd, s).len() > 0) {
        match lookup(s_rev, s) {
            Some(g) => {
                lemma_ensure_keeps_lines(g, s_root, s_rev, st_fwd, t_root, ts, fresh, used, (fuel - 1) as nat);
                match ensure_parent(g, s_root, s_rev, st_fwd, t_root, ts, fresh, used, (fuel - 1) as nat) {
                    Ok(up) => {
                        let nu = fresh[up.used as int];
                        let ts1 = app(up.tablets, target_child(), up.node + ","@ + nu);
                        lemma_distinct_tablets();
                        lemma_app_lookup(up.tablets, target_child(), up.node + ","@ + nu, structure_target());
                        lemma_app_lookup(ts1, structure_target(), s + ","@ + nu, structure_target());
                        lemma_appended_ends_line(lookup(ts1, structure_target()), s + ","@ + nu);
                    },
                    Err(_) => {},
                }
            },
            None => {},
        }
    }
}

/// Whether structure node `x` already has a target counterpart: it is the
/// root or is linked to a target node.
pub open spec fn settled(st_fwd: Seq<(Seq<char>, Seq<Seq<char>>)>, x: Seq<char>, s_root: Seq<char>) -> bool {
    x == s_root || kids(st_fwd, x).len() > 0
}

/// The node `k` steps up the parent chain from `x`, walking only through
/// nodes without a counterpart.
pub open spec fn chain_at(
    x: Seq<char>,
    s_root: Seq<char>,
    s_rev: Seq<(Seq<char>, Seq<char>)>,
    st_fwd: Seq<(Seq<char>, Seq<Seq<char>>)>,
    k: nat,
) -> Option<Seq<char>>
    decreases k,
{
    if k == 0 {
        Some(x)
    } else if settled(st_fwd, x, s_root) {
        None
    } else {
        match lookup(s_rev, x) {
            Some(g) => chain_at(g, s_root, s_rev, st_fwd, (k - 1) as nat),
            None => None,
        }
    }
}

/// Walking `k` steps up the chain uses `k` of the fuel, and what is found
/// there is found with the rest.
pub proof fn lemma_chain_walk(
    y: Seq<char>,
    z: Seq<char>,
    s_root: Seq<char>,
    s_rev: Seq<(Seq<char>, Seq<char>)>,
    st_fwd: Seq<(Seq<char>, Seq<Seq<char>>)>,
    t_root: Seq<char>,
    ts: Seq<(Seq<char>, Seq<char>)>,
    fresh: Seq<Seq<char>>,
    used: nat,
    f: nat,
    k: nat,
)
    requires
        ensure_parent(y, s_root, s_rev, st_fwd, t_root, ts, fresh, used, f) is Ok,
        chain_at(y, s_root, s_rev, st_fwd, k) == Some(z),
    ensures
        k <= f,
        ensure_parent(z, s_root, s_rev, st_fwd, t_root, ts, fresh, used, (f - k) as nat) is Ok,
    decreases k,
{
    if k > 0 {
        let g = lookup(s_rev, y)->0;
        lemma_chain_walk(g, z, s_root, s_rev, st_fwd, t_root, ts, fresh, used, (f - 1) as nat, (k - 1) as nat);
    }
}

/// A node whose chain comes back to it never gets a counterpart.
pub proof fn lemma_chain_cycle(
    x: Seq<char>,
    s_root: Seq<char>,
    s_rev: Seq<(Seq<char>, Seq<char>)>,
    st_fwd: Seq<(Seq<char>, Seq<Seq<char>>)>,
    t_root: Seq<char>,
    ts: Seq<(Seq<char>, Seq<char>)>,
    fresh: Seq<Seq<char>>,
    used: nat,
    f: nat,
    k: nat,
)
    requires
        k >= 1,
        chain_at(x, s_root, s_rev, st_fwd, k) == Some(x),
    ensures
        ensure_parent(x, s_root, s_rev, st_fwd, t_root, ts, fresh, used, f) is Err,
    decreases f,
{
    if ensure_parent(x, s_root, s_rev, st_fwd, t_root, ts, fresh, used, f) is Ok {
        lemma_chain_walk(x, x, s_root, s_rev, st_fwd, t_root, ts, fresh, used, f, k);
        lemma_chain_cycle(x, s_root, s_rev, st_fwd, t_root, ts, fresh, used, (f - k) as nat, k);
    }
}

/// Finding a counterpart links only nodes on the chain it walks.
pub proof fn lemma_ensure_links_chain(
    x: Seq<char>,
    s_root: Seq<char>,
    s_rev: Seq<(Seq<char>, Seq<char>)>,
    st_fwd: Seq<(Seq<char>, Seq<Seq<char>>)>,
    t_root: Seq<char>,
    ts: Seq<(Seq<char>, Seq<char>)>,
    fresh: Seq<Seq<char>>,
    used: nat,
    f: nat,
    q: Seq<char>,
)
    requires
        ensure_parent(x, s_root, s_rev, st_fwd, t_root, ts, fresh, used, f) is Ok,
        forall|k: nat| #[trigger] chain_at(x, s_root, s_rev, st_fwd, k) != Some(q),
    ensures
        kids(ensure_parent(x, s_root, s_rev, st_fwd, t_root, ts, fresh, used, f)->Ok_0.st_fwd, q) == kids(st_fwd, q),
    decreases f,
{
    assert(chain_at(x, s_root, s_rev, st_fwd, 0) != Some(q));
    if !settled(st_fwd, x, s_root) {
        let g = lookup(s_rev, x)->0;
        assert forall|k: nat| #[trigger] chain_at(g, s_root, s_rev, st_fwd, k) != Some(q) by {
            assert(chain_at(x, s_root, s_rev, st_fwd, k + 1) == chain_at(g, s_root, s_rev, st_fwd, k));
        }
        lemma_ensure_links_chain(g, s_root, s_rev, st_fwd, t_root, ts, fresh, used, (f - 1) as nat, q);
        let up = ensure_parent(g, s_root, s_rev, st_fwd, t_root, ts, fresh, used, (f - 1) as nat)->Ok_0;
        let nu = fresh[up.used as int];
        lemma_lookup_add_child(up.st_fwd, x, nu, q);
    }
}

/// The target counterpart of a structure node settles: once it has been
/// found or made, asking again with the links left by the first call adds
/// no node, writes no line, prints nothing and uses no UUID, and gives the
/// target root for the structure root, else the first target node the
/// structure node is now linked to, which is the node the first call gave.
/// A node that was linked (or the root) keeps its counterpart, and the first
/// call writes nothing for it.
pub proof fn law_ensure_parent_settles(
    s: Seq<char>,
    s_root: Seq<char>,
    s_rev: Seq<(Seq<char>, Seq<char>)>,
    st_fwd: Seq<(Seq<char>, Seq<Seq<char>>)>,
    t_root: Seq<char>,
    ts: Seq<(Seq<char>, Seq<char>)>,
    fresh: Seq<Seq<char>>,
    used: nat,
    fuel: nat,
    ts2: Seq<(Seq<char>, Seq<char>)>,
    fresh2: Seq<Seq<char>>,
    used2: nat,
    fuel2: nat,
)
    requires
        ensure_parent(s, s_root, s_rev, st_fwd, t_root, ts, fresh, used, fuel) is Ok,
    ensures
        ({
            let e = ensure_parent(s, s_root, s_rev, st_fwd, t_root, ts, fresh, used, fuel)->Ok_0;
            &&& s != s_root ==> kids(e.st_fwd, s).len() > 0
            &&& ensure_parent(s, s_root, s_rev, e.st_fwd, t_root, ts2, fresh2, used2, fuel2) == Ok::<Ensured, Seq<char>>(
                Ensured {
                    node: if s == s_root {
                        t_root
                    } else {
                        kids(e.st_fwd, s)[0]
                    },
                    tablets: ts2,
                    st_fwd: e.st_fwd,
                    lines: Seq::empty(),
                    used: used2,
                },
            )
            &&& e.node == (if s == s_root {
                t_root
            } else {
                kids(e.st_fwd, s)[0]
            })
            &&& (s == s_root || kids(st_fwd, s).len() > 0) ==> e.tablets == ts && e.st_fwd == st_fwd
        }),
{
    let e = ensure_parent(s, s_root, s_rev, st_fwd, t_root, ts, fresh, used, fuel)->Ok_0;
    if s != s_root && kids(st_fwd, s).len() == 0 {
        let g = lookup(s_rev, s)->0;
        let up = ensure_parent(g, s_root, s_rev, st_fwd, t_root, ts, fresh, used, (fuel - 1) as nat)->Ok_0;
        let nu = fresh[up.used as int];
        assert(e.st_fwd == add_child(up.st_fwd, s, nu));
        lemma_lookup_add_child(up.st_fwd, s, nu, s);
        assert(kids(e.st_fwd, s) == kids(up.st_fwd, s).push(nu));
        // the walk up from the parent never comes back to `s`, so `s` gets
        // exactly one counterpart, the new node
        assert forall|k: nat| #[trigger] chain_at(g, s_root, s_rev, st_fwd, k) != Some(s) by {
            if chain_at(g, s_root, s_rev, st_fwd, k) == Some(s) {
                assert(chain_at(s, s_root, s_rev, st_fwd, k + 1) == chain_at(g, s_root, s_rev, st_fwd, k));
                lemma_chain_cycle(s, s_root, s_rev, st_fwd, t_root, ts, fresh, used, fuel, k + 1);
            }
        }
        lemma_ensure_links_chain(g, s_root, s_rev, st_fwd, t_root, ts, fresh, used, (fuel - 1) as nat, s);
        assert(kids(e.st_fwd, s) =~= seq![nu]);
    }
}

/// Advancing is free: after a write in auto mode (without `--same`), the
/// structure leaf it wrote for is mapped in the new store, so the next
/// write no longer lands on it.
pub proof fn law_write_advances(c: Csvs, text: Seq<char>, fresh: Seq<Seq<char>>, after: Csvs)
    requires
        auto_outcome(c, text, false, fresh) is Ok,
        pairs(after.tablets@) == auto_outcome(c, text, false, fresh)->Ok_0.tablets,
        fresh.len() >= id_budget(c),
        forall|i: int| 0 <= i < fresh.len() ==> hyphenated(#[trigger] fresh[i]),
        clean_id(auto_placement(c, false, fresh)->Ok_0.structures[0]),
        match tablet_text(c, structure_target()) {
            Some(x) => ends_line(x),
            None => true,
        },
    ensures
        has_key(
            forward_or_empty(after, structure_target()),
            auto_placement(c, false, fresh)->Ok_0.structures[0],
        ),
{
    let pl = auto_placement(c, false, fresh)->Ok_0;
    let cur = pl.structures[0];
    let sc = tablet_text(c, structure_child())->Some_0;
    let s_fwd = forward_of(tablet_records(sc));
    let s_rev = reverse_of(tablet_records(sc));
    let s_root = root_of(s_fwd, s_rev)->Some_0;
    let st_fwd = forward_or_empty(c, structure_target());
    let t_fwd = forward_or_empty(c, target_child());
    let t_rev = match tablet_text(c, target_child()) {
        Some(t) => reverse_of(tablet_records(t)),
        None => Seq::empty(),
    };
    let tr = match root_of(t_fwd, t_rev) {
        Some(r) => r,
        None => kids(st_fwd, s_root)[0],
    };
    let current = find_first(depth_first(s_fwd, s_root), regrow_pred(c, s_fwd, s_root))->Some_0;
    let s_parent = lookup(s_rev, current)->Some_0;
    lemma_ensure_keeps_lines(s_parent, s_root, s_rev, st_fwd, tr, pairs(c.tablets@), fresh, 0, s_rev.len());
    lemma_ensure_used(s_parent, s_root, s_rev, st_fwd, tr, pairs(c.tablets@), fresh, 0, s_rev.len());
    assert(ends_line_or_missing(pl.tablets, structure_target()));
    let nu = fresh[pl.used as int];
    lemma_hyphenated_clean(nu);
    let mid = app(pl.tablets, target_child(), pl.parent + ","@ + nu);
    lemma_distinct_tablets();
    lemma_app_lookup(pl.tablets, target_child(), pl.parent + ","@ + nu, structure_target());
    assert(pl.structures == seq![cur]);
    assert(seq![cur].drop_last() =~= Seq::<Seq<char>>::empty());
    assert(app_links(mid, seq![cur].drop_last(), nu) == mid);
    let fin = app(mid, structure_target(), cur + ","@ + nu);
    assert(app_links(mid, pl.structures, nu) == fin);
    lemma_app_lookup(mid, structure_target(), cur + ","@ + nu, structure_target());
    lemma_records_appended(lookup(mid, structure_target()), cur, nu);
    let rs = tablet_records(appended(lookup(mid, structure_target()), cur + ","@ + nu));
    assert(rs.drop_last() == match lookup(mid, structure_target()) {
        Some(x) => tablet_records(x),
        None => Seq::<(Seq<char>, Seq<char>)>::empty(),
    });
    lemma_lookup_add_child(forward_of(rs.drop_last()), cur, nu, cur);
    assert(forward_of(rs) == add_child(forward_of(rs.drop_last()), cur, nu));
}


/// `write --parent`: the new node's parent, as the target tablet is read
/// back, is the node the address names.
pub proof fn law_write_under_parent(
    c: Csvs,
    text: Seq<char>,
    parent_addr: Seq<char>,
    saved: Option<Seq<char>>,
    fresh: Seq<Seq<char>>,
    p: Seq<char>,
)
    requires
        resolved(pairs(c.tablets@), parent_addr) == Some(p),
        clean_id(p),
        fresh.len() >= 1,
        hyphenated(fresh[0]),
        ends_line_or_missing(pairs(c.tablets@), target_child()),
    ensures
        parented_outcome(c, text, Some(parent_addr), saved, fresh) matches Ok(w) && lookup(
            reverse_of(tablet_records(lookup(w.tablets, target_child())->Some_0)),
            fresh[0],
        ) == Some(p),
{
    let nu = fresh[0];
    let ts = pairs(c.tablets@);
    lemma_hyphenated_clean(nu);
    lemma_app_lookup(ts, target_child(), p + ","@ + nu, target_child());
    lemma_records_appended(lookup(ts, target_child()), p, nu);
    let rs = tablet_records(appended(lookup(ts, target_child()), p + ","@ + nu));
    assert(rs.drop_last() == match lookup(ts, target_child()) {
        Some(x) => tablet_records(x),
        None => Seq::<(Seq<char>, Seq<char>)>::empty(),
    });
    lemma_lookup_set_value(reverse_of(rs.drop_last()), nu, p, nu);
}

/// `write --root` links the new target root to the structure root, so that
/// auto mode finds the target root before it has children: the structure
/// → target tablet gains exactly that edge.
pub proof fn law_root_linked_to_structure_root(c: Csvs, text: Seq<char>, fresh: Seq<Seq<char>>, sr: Seq<char>)
    requires
        root_outcome(c, text, fresh) is Ok,
        tablet_text(c, structure_child()) matches Some(sc) && root_of(
            forward_of(tablet_records(sc)),
            reverse_of(tablet_records(sc)),
        ) == Some(sr),
        clean_id(sr),
        fresh.len() >= 1,
        hyphenated(fresh[0]),
        ends_line_or_missing(pairs(c.tablets@), structure_target()),
    ensures
        ({
            let st = lookup(root_outcome(c, text, fresh)->Ok_0.tablets, structure_target())->Some_0;
            &&& tablet_records(st) == match tablet_text(c, structure_target()) {
                Some(x) => tablet_records(x),
                None => Seq::<(Seq<char>, Seq<char>)>::empty(),
            }.push((sr, fresh[0]))
            &&& kids(forward_of(tablet_records(st)), sr).last() == fresh[0]
        }),
{
    let nu = fresh[0];
    let ts = pairs(c.tablets@);
    lemma_hyphenated_clean(nu);
    lemma_app_lookup(ts, structure_target(), sr + ","@ + nu, structure_target());
    lemma_records_appended(lookup(ts, structure_target()), sr, nu);
    let rs = tablet_records(appended(lookup(ts, structure_target()), sr + ","@ + nu));
    crate::store::law_children_in_file_order(rs, sr);
    assert(rs.drop_last() == match tablet_text(c, structure_target()) {
        Some(x) => tablet_records(x),
        None => Seq::<(Seq<char>, Seq<char>)>::empty(),
    });
}

} // verus!
