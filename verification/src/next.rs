//! What needs attention next.
//!
//! Annotate phase (breadth-first): the first structure node, other than the
//! root, with no prose. Regrow phase (depth-first): the first structure leaf
//! that no target node is linked to.
use vstd::prelude::*;

use crate::render::is_leaf;
use crate::store::{
    lemma_find_first, pairs, set_value,
    backward_or_empty, breadth_first, depth_first, find_first, find_root,
    forward_of, forward_or_empty, has_key, kids, lemma_first_in, load_backward,
    load_forward, lookup, load_edges, prose_of, reach_depth, reaches_within, reverse_of, root_of,
    tablet_records, tablet_text, walk_breadth_first, walk_depth_first, ChildMap, Csvs, ParentMap,
};
use crate::text::{
    append_chars, append_str, char_vecs, chars_of, clip_line, clip_line_exec, join, join_exec,
    short_of, short_of_exec, string_of, strs,
};

verus! {

/// The text of a source node: its prose, or else the texts of its children
/// (those that are not empty) joined with spaces.
pub open spec fn gather(c: Csvs, sfwd: Seq<(Seq<char>, Seq<Seq<char>>)>, u: Seq<char>, n: nat) -> Seq<char>
    decreases n, 0nat,
{
    let p = prose_of(c, u);
    if p.len() > 0 {
        p
    } else if n == 0 {
        Seq::empty()
    } else {
        join(gather_list(c, sfwd, kids(sfwd, u), (n - 1) as nat), " "@)
    }
}

/// The non-empty texts of some source nodes, in order.
pub open spec fn gather_list(c: Csvs, sfwd: Seq<(Seq<char>, Seq<Seq<char>>)>, ks: Seq<Seq<char>>, n: nat) -> Seq<Seq<char>>
    decreases n, ks.len(),
{
    if ks.len() == 0 {
        Seq::empty()
    } else {
        let rest = gather_list(c, sfwd, ks.drop_last(), n);
        let g = gather(c, sfwd, ks.last(), n);
        if g.len() > 0 {
            rest.push(g)
        } else {
            rest
        }
    }
}

pub open spec fn source_child() -> Seq<char> {
    "source-child.csv"@
}

pub open spec fn structure_child() -> Seq<char> {
    "structure-child.csv"@
}

pub open spec fn source_structure() -> Seq<char> {
    "source-structure.csv"@
}

pub open spec fn structure_target() -> Seq<char> {
    "structure-target.csv"@
}

/// The source tree's parent → children map.
pub open spec fn source_fwd(c: Csvs) -> Seq<(Seq<char>, Seq<Seq<char>>)> {
    forward_or_empty(c, source_child())
}

/// The source nodes that map to a structure node.
pub open spec fn sources_of(c: Csvs, su: Seq<char>) -> Option<Seq<Seq<char>>> {
    lookup(backward_or_empty(c, source_structure()), su)
}

/// Whether gathering the text of `u` ends within `n` levels: a node with
/// prose ends it, and below a node without prose every path through nodes
/// without prose has fewer than `n` nodes.
pub open spec fn gather_reach(c: Csvs, sfwd: Seq<(Seq<char>, Seq<Seq<char>>)>, u: Seq<char>, n: nat) -> bool
    decreases n,
{
    n > 0 && (prose_of(c, u).len() > 0 || forall|i: int|
        0 <= i < kids(sfwd, u).len() ==> gather_reach(c, sfwd, #[trigger] kids(sfwd, u)[i], (n - 1) as nat))
}

/// Whether gathering ends within `n` levels for each of `ks`.
pub open spec fn all_reach(c: Csvs, sfwd: Seq<(Seq<char>, Seq<Seq<char>>)>, ks: Seq<Seq<char>>, n: nat) -> bool {
    forall|i: int| 0 <= i < ks.len() ==> gather_reach(c, sfwd, #[trigger] ks[i], n)
}

/// Whether gathering the source text of `su` ends: no cycle among the
/// source nodes without prose below its sources.
pub open spec fn sources_finite(c: Csvs, su: Seq<char>) -> bool {
    source_fwd(c).len() < usize::MAX && match sources_of(c, su) {
        Some(srcs) => all_reach(c, source_fwd(c), srcs, (source_fwd(c).len() + 1) as nat),
        None => true,
    }
}

/// The source text behind a structure node: the texts of its source nodes
/// joined with ` | `.
pub open spec fn source_text_for(c: Csvs, su: Seq<char>) -> Seq<char> {
    match sources_of(c, su) {
        Some(srcs) => join(
            gather_list(c, source_fwd(c), srcs, (source_fwd(c).len() + 1) as nat),
            " | "@,
        ),
        None => Seq::empty(),
    }
}

/// Whether a structure node still needs an annotation.
pub open spec fn unannotated_pred(c: Csvs, root: Seq<char>) -> spec_fn(Seq<char>) -> bool {
    |u: Seq<char>| u != root && prose_of(c, u).len() == 0
}

/// Whether a structure leaf still needs a target node.
pub open spec fn regrow_pred(
    c: Csvs,
    fwd: Seq<(Seq<char>, Seq<Seq<char>>)>,
    root: Seq<char>,
) -> spec_fn(Seq<char>) -> bool {
    |u: Seq<char>|
        u != root && is_leaf(fwd, u) && !has_key(forward_or_empty(c, structure_target()), u)
}

/// `[short]`, then ` ` and the first line of its prose when it has one.
pub open spec fn parent_info(c: Csvs, p: Seq<char>) -> Seq<char> {
    let pp = prose_of(c, p);
    if pp.len() == 0 {
        "["@ + short_of(p) + "]"@
    } else {
        "["@ + short_of(p) + "] "@ + clip_line(pp, 60)
    }
}

/// The report of the annotate phase for structure node `su`.
pub open spec fn annotate_report(
    c: Csvs,
    fwd: Seq<(Seq<char>, Seq<Seq<char>>)>,
    rev: Seq<(Seq<char>, Seq<char>)>,
    su: Seq<char>,
) -> Seq<Seq<char>> {
    let kind = if is_leaf(fwd, su) {
        "leaf"@
    } else {
        "paragraph"@
    };
    let st = source_text_for(c, su);
    let pi = match lookup(rev, su) {
        Some(p) => parent_info(c, p),
        None => Seq::empty(),
    };
    seq!["annotate phase"@, "  structure ["@ + short_of(su) + "] "@ + kind] + (if st.len() > 0 {
        seq!["  source: "@ + st]
    } else {
        Seq::empty()
    }) + (if pi.len() > 0 {
        seq!["  parent: "@ + pi]
    } else {
        Seq::empty()
    })
}

/// The report of the regrow phase for structure leaf `su`.
pub open spec fn regrow_report(c: Csvs, su: Seq<char>) -> Seq<Seq<char>> {
    let p = prose_of(c, su);
    let ann = if p.len() == 0 {
        "(empty)"@
    } else {
        p
    };
    let st = source_text_for(c, su);
    seq!["regrow phase"@, "  structure ["@ + short_of(su) + "] "@ + clip_line(ann, 80)] + (if st.len()
        > 0 {
        seq!["  source: "@ + clip_line(st, 120)]
    } else {
        Seq::empty()
    })
}

pub open spec fn complete_report() -> Seq<Seq<char>> {
    seq!["all phases complete — all structure nodes annotated and mapped to target."@]
}

/// Whether the structure tree below `root` has no cycle (and is small
/// enough for its bound to be counted).
pub open spec fn tree_bounded(fwd: Seq<(Seq<char>, Seq<Seq<char>>)>, root: Seq<char>) -> bool {
    fwd.len() < usize::MAX && reach_depth(fwd, root, (fwd.len() + 1) as nat)
}

/// What `next` reports, or the error it fails with.
pub open spec fn next_outcome(c: Csvs) -> Result<Seq<Seq<char>>, Seq<char>> {
    match tablet_text(c, structure_child()) {
        None => Err("No structure-child.csv found. Run init first."@),
        Some(t) => {
            let fwd = forward_of(tablet_records(t));
            let rev = reverse_of(tablet_records(t));
            match root_of(fwd, rev) {
                None => Err("No root found in structure tree"@),
                Some(root) => if !tree_bounded(fwd, root) {
                    Err("The structure tree has a cycle"@)
                } else {
                    match find_first(breadth_first(fwd, root), unannotated_pred(c, root)) {
                        Some(su) => if sources_finite(c, su) {
                            Ok(annotate_report(c, fwd, rev, su))
                        } else {
                            Err("The source tree has a cycle"@)
                        },
                        None => match find_first(depth_first(fwd, root), regrow_pred(c, fwd, root)) {
                            Some(su) => if sources_finite(c, su) {
                                Ok(regrow_report(c, su))
                            } else {
                                Err("The source tree has a cycle"@)
                            },
                            None => Ok(complete_report()),
                        },
                    }
                },
            }
        },
    }
}


/// The first structure node without prose (breadth-first, root excluded),
/// or the error finding it fails with.
pub open spec fn next_unannotated_outcome(c: Csvs) -> Result<Option<Seq<char>>, Seq<char>> {
    match tablet_text(c, structure_child()) {
        None => Err("No structure-child.csv found. Run init first."@),
        Some(t) => {
            let fwd = forward_of(tablet_records(t));
            let rev = reverse_of(tablet_records(t));
            match root_of(fwd, rev) {
                None => Err("No root found in structure tree"@),
                Some(root) => if !tree_bounded(fwd, root) {
                    Err("The structure tree has a cycle"@)
                } else {
                    Ok(find_first(breadth_first(fwd, root), unannotated_pred(c, root)))
                },
            }
        },
    }
}

// ---------------------------------------------------------------------------
// Code
// ---------------------------------------------------------------------------

/// Whether gathering the text of `u` ends within `n` levels, decided.
fn gather_reaches_within(c: &Csvs, fwd: &ChildMap, u: &str, n: usize) -> (r: bool)
    ensures
        r == gather_reach(*c, fwd@, u@, n as nat),
    decreases n,
{
    if n == 0 {
        return false;
    }
    let prose = chars_of(c.read_prose(u).as_str());
    if prose.len() > 0 {
        return true;
    }
    match fwd.get(u) {
        None => {
            assert(kids(fwd@, u@).len() == 0);
            true
        },
        Some(ks) => {
            let mut i: usize = 0;
            while i < ks.len()
                invariant
                    n > 0,
                    i <= ks@.len(),
                    kids(fwd@, u@) == strs(ks@),
                    prose_of(*c, u@).len() == 0,
                    forall|j: int|
                        0 <= j < i ==> gather_reach(*c, fwd@, #[trigger] kids(fwd@, u@)[j], (n - 1) as nat),
                decreases ks@.len() - i,
            {
                assert(kids(fwd@, u@)[i as int] == ks@[i as int]@);
                if !gather_reaches_within(c, fwd, ks[i].as_str(), n - 1) {
                    return false;
                }
                i = i + 1;
            }
            true
        },
    }
}

/// Gathers text from a source node, from its children when it has none itself.
fn gather_source_text(c: &Csvs, uuid: &str, source_forward: &ChildMap, Ghost(n): Ghost<nat>) -> (r: Vec<char>)
    requires
        gather_reach(*c, source_forward@, uuid@, n),
    ensures
        r@ == gather(*c, source_forward@, uuid@, n),
    decreases n,
{
    let prose = chars_of(c.read_prose(uuid).as_str());
    if prose.len() > 0 {
        return prose;
    }
    let ghost sf = source_forward@;
    let mut parts: Vec<Vec<char>> = Vec::new();
    match source_forward.get(uuid) {
        None => {
            assert(kids(sf, uuid@).len() == 0);
        },
        Some(ks) => {
            let ghost kk = kids(sf, uuid@);
            let mut i: usize = 0;
            assert(kk.take(0) == Seq::<Seq<char>>::empty());
            while i < ks.len()
                invariant
                    n > 0,
                    sf == source_forward@,
                    gather_reach(*c, sf, uuid@, n),
                    prose_of(*c, uuid@).len() == 0,
                    kk == kids(sf, uuid@),
                    kk == strs(ks@),
                    i <= ks@.len(),
                    char_vecs(parts@) == gather_list(*c, sf, kk.take(i as int), (n - 1) as nat),
                decreases ks@.len() - i,
            {
                assert(kk.take(i + 1).drop_last() == kk.take(i as int));
                assert(kk.take(i + 1).last() == ks@[i as int]@);
                assert(gather_reach(*c, sf, kk[i as int], (n - 1) as nat));
                let g = gather_source_text(c, ks[i].as_str(), source_forward, Ghost((n - 1) as nat));
                if g.len() > 0 {
                    let ghost old_p = char_vecs(parts@);
                    parts.push(g);
                    assert(char_vecs(parts@) == old_p.push(g@));
                }
                i = i + 1;
            }
            assert(kk.take(ks@.len() as int) == kk);
        },
    }
    let sep: Vec<char> = vec![' '];
    assert(sep@ == " "@) by {
        reveal_strlit(" ");
    }
    join_exec(&parts, &sep)
}

/// The source text behind a structure node, or `None` when the source tree
/// has a cycle below one of its sources.
fn source_text(c: &Csvs, su: &str) -> (r: Option<Vec<char>>)
    ensures
        match r {
            Some(t) => sources_finite(*c, su@) && t@ == source_text_for(*c, su@),
            None => !sources_finite(*c, su@),
        },
{
    let sfwd = load_forward(c, "source-child.csv");
    let back = load_backward(c, "source-structure.csv");
    if sfwd.len() == usize::MAX {
        return None;
    }
    let bound = sfwd.len() + 1;
    match back.get(su) {
        None => Some(Vec::new()),
        Some(srcs) => {
            let ghost sv = strs(srcs@);
            let ghost sf = sfwd@;
            let mut i: usize = 0;
            while i < srcs.len()
                invariant
                    sv == strs(srcs@),
                    sf == sfwd@,
                    sf == source_fwd(*c),
                    sources_of(*c, su@) == Some(sv),
                    bound == sf.len() + 1,
                    i <= srcs@.len(),
                    forall|j: int| 0 <= j < i ==> gather_reach(*c, sf, #[trigger] sv[j], bound as nat),
                decreases srcs@.len() - i,
            {
                assert(sv[i as int] == srcs@[i as int]@);
                if !gather_reaches_within(c, &sfwd, srcs[i].as_str(), bound) {
                    assert(!gather_reach(*c, source_fwd(*c), sv[i as int], (source_fwd(*c).len() + 1) as nat));
                    assert(sv.len() == srcs@.len());
                    assert(0 <= i < sv.len());
                    assert(!all_reach(*c, sf, sv, bound as nat));
                    return None;
                }
                i = i + 1;
            }
            let mut parts: Vec<Vec<char>> = Vec::new();
            let mut k: usize = 0;
            assert(sv.take(0) == Seq::<Seq<char>>::empty());
            while k < srcs.len()
                invariant
                    sv == strs(srcs@),
                    sf == sfwd@,
                    sf == source_fwd(*c),
                    sources_of(*c, su@) == Some(sv),
                    bound == sf.len() + 1,
                    k <= srcs@.len(),
                    forall|j: int| 0 <= j < srcs@.len() ==> gather_reach(*c, sf, #[trigger] sv[j], bound as nat),
                    char_vecs(parts@) == gather_list(*c, sf, sv.take(k as int), bound as nat),
                decreases srcs@.len() - k,
            {
                assert(sv.take(k + 1).drop_last() == sv.take(k as int));
                assert(sv.take(k + 1).last() == srcs@[k as int]@);
                assert(gather_reach(*c, sf, sv[k as int], bound as nat));
                let g = gather_source_text(c, srcs[k].as_str(), &sfwd, Ghost(bound as nat));
                if g.len() > 0 {
                    let ghost old_p = char_vecs(parts@);
                    parts.push(g);
                    assert(char_vecs(parts@) == old_p.push(g@));
                }
                k = k + 1;
            }
            assert(sv.take(srcs@.len() as int) == sv);
            let sep = chars_of(" | ");
            Some(join_exec(&parts, &sep))
        },
    }
}

/// The first of `order` that satisfies `unannotated_pred`.
fn first_unannotated(c: &Csvs, order: &Vec<String>, root: &str) -> (r: Option<String>)
    ensures
        match r {
            Some(u) => find_first(strs(order@), unannotated_pred(*c, root@)) == Some(u@),
            None => find_first(strs(order@), unannotated_pred(*c, root@)) is None,
        },
{
    let ghost ov = strs(order@);
    let ghost p = unannotated_pred(*c, root@);
    let rc = chars_of(root);
    let mut i: usize = 0;
    while i < order.len()
        invariant
            ov == strs(order@),
            p == unannotated_pred(*c, root@),
            rc@ == root@,
            i <= order@.len(),
            forall|j: int| 0 <= j < i ==> !p(#[trigger] ov[j]),
        decreases order@.len() - i,
    {
        assert(ov[i as int] == order@[i as int]@);
        let u = chars_of(order[i].as_str());
        if !crate::text::chars_eq(&u, &rc) && c.read_prose(order[i].as_str()).as_str().is_empty() {
            proof {
                lemma_first_in(ov, p, i as int);
            }
            return Some(string_of(&u));
        }
        i = i + 1;
    }
    proof {
        lemma_first_in(ov, p, i as int);
    }
    None
}

/// The first of `order` that satisfies `regrow_pred`.
pub(crate) fn first_regrow(c: &Csvs, fwd: &ChildMap, mapped: &ChildMap, order: &Vec<String>, root: &str) -> (r: Option<String>)
    requires
        mapped@ == forward_or_empty(*c, structure_target()),
    ensures
        match r {
            Some(u) => find_first(strs(order@), regrow_pred(*c, fwd@, root@)) == Some(u@),
            None => find_first(strs(order@), regrow_pred(*c, fwd@, root@)) is None,
        },
{
    let ghost ov = strs(order@);
    let ghost p = regrow_pred(*c, fwd@, root@);
    let rc = chars_of(root);
    let mut i: usize = 0;
    while i < order.len()
        invariant
            ov == strs(order@),
            p == regrow_pred(*c, fwd@, root@),
            mapped@ == forward_or_empty(*c, structure_target()),
            rc@ == root@,
            i <= order@.len(),
            forall|j: int| 0 <= j < i ==> !p(#[trigger] ov[j]),
        decreases order@.len() - i,
    {
        assert(ov[i as int] == order@[i as int]@);
        let u = chars_of(order[i].as_str());
        let leaf = match fwd.get(order[i].as_str()) {
            Some(ks) => ks.len() == 0,
            None => true,
        };
        if !crate::text::chars_eq(&u, &rc) && leaf && !mapped.contains_key(order[i].as_str()) {
            proof {
                lemma_first_in(ov, p, i as int);
            }
            return Some(string_of(&u));
        }
        i = i + 1;
    }
    proof {
        lemma_first_in(ov, p, i as int);
    }
    None
}

/// `label` followed by the characters of `v`, as a string.
pub(crate) fn labelled(label: &str, v: &[char]) -> (r: String)
    ensures
        r@ == label@ + v@,
{
    let mut out = chars_of(label);
    append_chars(&mut out, v);
    string_of(&out)
}

fn parent_info_exec(c: &Csvs, p: &str) -> (r: Vec<char>)
    ensures
        r@ == parent_info(*c, p@),
{
    let pc = chars_of(p);
    let sh = short_of_exec(&pc);
    let pp = chars_of(c.read_prose(p).as_str());
    let mut out = chars_of("[");
    append_chars(&mut out, &sh);
    if pp.len() == 0 {
        append_str(&mut out, "]");
    } else {
        append_str(&mut out, "] ");
        let cl = clip_line_exec(&pp, 60);
        append_chars(&mut out, &cl);
    }
    out
}

/// The report of the annotate phase for `su`.
fn annotate_lines(c: &Csvs, fwd: &ChildMap, rev: &ParentMap, su: &str, st: &Vec<char>) -> (r: Vec<String>)
    requires
        st@ == source_text_for(*c, su@),
    ensures
        strs(r@) == annotate_report(*c, fwd@, rev@, su@),
{
    let uc = chars_of(su);
    let sh = short_of_exec(&uc);
    let leaf = match fwd.get(su) {
        Some(ks) => ks.len() == 0,
        None => true,
    };
    let mut head = chars_of("  structure [");
    append_chars(&mut head, &sh);
    append_str(&mut head, "] ");
    if leaf {
        append_str(&mut head, "leaf");
    } else {
        append_str(&mut head, "paragraph");
    }
    let mut out: Vec<String> = Vec::new();
    out.push(string_of(&chars_of("annotate phase")));
    out.push(string_of(&head));
    if st.len() > 0 {
        out.push(labelled("  source: ", st));
    }
    let pi: Vec<char> = match rev.get(su) {
        Some(p) => parent_info_exec(c, p.as_str()),
        None => Vec::new(),
    };
    if pi.len() > 0 {
        out.push(labelled("  parent: ", &pi));
    }
    assert(strs(out@) =~= annotate_report(*c, fwd@, rev@, su@));
    out
}

fn regrow_lines(c: &Csvs, su: &str, st: &Vec<char>) -> (r: Vec<String>)
    requires
        st@ == source_text_for(*c, su@),
    ensures
        strs(r@) == regrow_report(*c, su@),
{
    let uc = chars_of(su);
    let sh = short_of_exec(&uc);
    let p = chars_of(c.read_prose(su).as_str());
    let ann = if p.len() == 0 { chars_of("(empty)") } else { p };
    let mut head = chars_of("  structure [");
    append_chars(&mut head, &sh);
    append_str(&mut head, "] ");
    let cl = clip_line_exec(&ann, 80);
    append_chars(&mut head, &cl);
    let mut out: Vec<String> = Vec::new();
    out.push(string_of(&chars_of("regrow phase")));
    out.push(string_of(&head));
    if st.len() > 0 {
        let cs = clip_line_exec(st, 120);
        out.push(labelled("  source: ", &cs));
    }
    assert(strs(out@) =~= regrow_report(*c, su@));
    out
}

/// The lines that `next` prints: the node that needs attention next.
///
/// Fails when there is no structure tablet, when its tree has no root, and
/// when a tree it walks has a cycle.
pub fn run(c: &Csvs) -> (r: Result<Vec<String>, String>)
    ensures
        match next_outcome(*c) {
            Ok(lines) => r matches Ok(v) && strs(v@) == lines,
            Err(m) => r matches Err(e) && e@ == m,
        },
{
    let t = match c.tablet("structure-child.csv") {
        Some(t) => t,
        None => {
            return Err(string_of(&chars_of("No structure-child.csv found. Run init first.")));
        },
    };
    let (fwd, rev) = load_edges(t.as_str());
    let root = match find_root(&fwd, &rev) {
        Some(r) => r,
        None => {
            return Err(string_of(&chars_of("No root found in structure tree")));
        },
    };
    let bound = fwd.len();
    if bound == usize::MAX || !reaches_within(&fwd, root.as_str(), bound + 1) {
        return Err(string_of(&chars_of("The structure tree has a cycle")));
    }
    let bf = walk_breadth_first(root.as_str(), &fwd);
    if let Some(su) = first_unannotated(c, &bf, root.as_str()) {
        return match source_text(c, su.as_str()) {
            Some(st) => Ok(annotate_lines(c, &fwd, &rev, su.as_str(), &st)),
            None => Err(string_of(&chars_of("The source tree has a cycle"))),
        };
    }
    let mapped = load_forward(c, "structure-target.csv");
    let df = walk_depth_first(root.as_str(), &fwd);
    if let Some(su) = first_regrow(c, &fwd, &mapped, &df, root.as_str()) {
        return match source_text(c, su.as_str()) {
            Some(st) => Ok(regrow_lines(c, su.as_str(), &st)),
            None => Err(string_of(&chars_of("The source tree has a cycle"))),
        };
    }
    let mut out: Vec<String> = Vec::new();
    out.push(
        string_of(
            &chars_of("all phases complete — all structure nodes annotated and mapped to target."),
        ),
    );
    assert(strs(out@) =~= complete_report());
    Ok(out)
}

/// Finds the next unannotated structure UUID (for the annotate command).
pub fn find_next_unannotated(c: &Csvs) -> (r: Result<Option<String>, String>)
    ensures
        match next_unannotated_outcome(*c) {
            Ok(Some(u)) => r matches Ok(Some(x)) && x@ == u,
            Ok(None) => r matches Ok(None),
            Err(m) => r matches Err(e) && e@ == m,
        },
{
    let t = match c.tablet("structure-child.csv") {
        Some(t) => t,
        None => {
            return Err(string_of(&chars_of("No structure-child.csv found. Run init first.")));
        },
    };
    let (fwd, rev) = load_edges(t.as_str());
    let root = match find_root(&fwd, &rev) {
        Some(r) => r,
        None => {
            return Err(string_of(&chars_of("No root found in structure tree")));
        },
    };
    let bound = fwd.len();
    if bound == usize::MAX || !reaches_within(&fwd, root.as_str(), bound + 1) {
        return Err(string_of(&chars_of("The structure tree has a cycle")));
    }
    let bf = walk_breadth_first(root.as_str(), &fwd);
    Ok(first_unannotated(c, &bf, root.as_str()))
}


// ---------------------------------------------------------------------------
// Laws
// ---------------------------------------------------------------------------

/// The node the annotate phase offers is a structure node, other than the
/// root, that has no prose yet.
pub proof fn law_next_offers_unannotated(c: Csvs, t: Seq<char>, u: Seq<char>)
    requires
        tablet_text(c, structure_child()) == Some(t),
        next_unannotated_outcome(c) == Ok::<Option<Seq<char>>, Seq<char>>(Some(u)),
    ensures
        prose_of(c, u).len() == 0,
        Some(u) != root_of(forward_of(tablet_records(t)), reverse_of(tablet_records(t))),
        breadth_first(forward_of(tablet_records(t)), root_of(forward_of(tablet_records(t)), reverse_of(tablet_records(t)))->Some_0).contains(u),
{
    let fwd = forward_of(tablet_records(t));
    let rev = reverse_of(tablet_records(t));
    let root = root_of(fwd, rev)->Some_0;
    lemma_find_first(breadth_first(fwd, root), unannotated_pred(c, root));
}

/// Annotating moves the annotate phase on: once the node it offers has
/// prose, it is offered no more.
pub proof fn law_annotation_moves_next_on(c: Csvs, u: Seq<char>, blob: Seq<char>, after: Csvs)
    requires
        next_unannotated_outcome(c) == Ok::<Option<Seq<char>>, Seq<char>>(Some(u)),
        blob.len() > 0,
        after.tablets == c.tablets,
        pairs(after.prose@) == set_value(pairs(c.prose@), u, blob),
    ensures
        next_unannotated_outcome(after) != Ok::<Option<Seq<char>>, Seq<char>>(Some(u)),
{
    crate::store::lemma_lookup_set_value(pairs(c.prose@), u, blob, u);
    assert(prose_of(after, u) == blob);
    match tablet_text(after, structure_child()) {
        Some(t) => {
            let fwd = forward_of(tablet_records(t));
            let rev = reverse_of(tablet_records(t));
            match root_of(fwd, rev) {
                Some(root) => {
                    lemma_find_first(breadth_first(fwd, root), unannotated_pred(after, root));
                },
                None => {},
            }
        },
        None => {},
    }
}

/// The texts gathered from some source nodes are their own texts, in the
/// order of the nodes, the empty ones left out.
pub proof fn lemma_gather_list_in_order(c: Csvs, sfwd: Seq<(Seq<char>, Seq<Seq<char>>)>, ks: Seq<Seq<char>>, n: nat)
    ensures
        gather_list(c, sfwd, ks, n) == ks.map_values(|k: Seq<char>| gather(c, sfwd, k, n)).filter(
            |g: Seq<char>| g.len() > 0,
        ),
    decreases ks.len(),
{
    reveal(Seq::filter);
    let m = ks.map_values(|k: Seq<char>| gather(c, sfwd, k, n));
    if ks.len() == 0 {
        assert(m =~= Seq::<Seq<char>>::empty());
    } else {
        lemma_gather_list_in_order(c, sfwd, ks.drop_last(), n);
        assert(m.drop_last() =~= ks.drop_last().map_values(|k: Seq<char>| gather(c, sfwd, k, n)));
        assert(m.last() == gather(c, sfwd, ks.last(), n));
    }
}

/// Source text comes in document order: a source node with prose gives its
/// prose; one without gives its children's texts in child (file) order,
/// joined with spaces, the empty ones left out; and the text behind a
/// structure node is its sources' texts, in the order of the bridge,
/// joined with ` | `.
pub proof fn law_source_text_in_order(c: Csvs, sfwd: Seq<(Seq<char>, Seq<Seq<char>>)>, u: Seq<char>, n: nat, su: Seq<char>)
    ensures
        prose_of(c, u).len() > 0 ==> gather(c, sfwd, u, n) == prose_of(c, u),
        prose_of(c, u).len() == 0 && n > 0 ==> gather(c, sfwd, u, n) == join(
            kids(sfwd, u).map_values(|k: Seq<char>| gather(c, sfwd, k, (n - 1) as nat)).filter(
                |g: Seq<char>| g.len() > 0,
            ),
            " "@,
        ),
        source_text_for(c, su) == match sources_of(c, su) {
            Some(srcs) => join(
                srcs.map_values(|k: Seq<char>| gather(c, source_fwd(c), k, (source_fwd(c).len() + 1) as nat)).filter(
                    |g: Seq<char>| g.len() > 0,
                ),
                " | "@,
            ),
            None => Seq::empty(),
        },
{
    if n > 0 {
        lemma_gather_list_in_order(c, sfwd, kids(sfwd, u), (n - 1) as nat);
    }
    match sources_of(c, su) {
        Some(srcs) => {
            lemma_gather_list_in_order(c, source_fwd(c), srcs, (source_fwd(c).len() + 1) as nat);
        },
        None => {},
    }
}

} // verus!
