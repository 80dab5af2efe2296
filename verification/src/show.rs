//! `show`: a node in context — its text, parent, children, bridge
//! counterparts and siblings, in each tree it belongs to.
use vstd::prelude::*;

use crate::next::{source_structure, structure_target};
use crate::store::{
    backward_of, backward_or_empty, forward_of, forward_or_empty, has_key, kids, law_children_in_file_order,
    lemma_forward_keys, lemma_lookup_add_child, lookup, pairs, load_edges, prose_of, rights_of,
    resolve_uuid, resolved, reverse_of, tablet_records, tablet_text, ChildMap, Csvs, ParentMap,
};
use crate::text::{
    str_eq, append_chars, append_str, chars_eq, chars_of, clip_line, clip_line_exec, copy_string, decimal,
    decimal_exec, repeat, short_of, short_of_exec, string_of, strs,
};

verus! {

/// The three trees a node can belong to.
#[derive(Clone, Copy)]
pub enum ShowTree {
    Source,
    Structure,
    Target,
}

pub open spec fn tree_name(t: ShowTree) -> Seq<char> {
    match t {
        ShowTree::Source => "source"@,
        ShowTree::Structure => "structure"@,
        ShowTree::Target => "target"@,
    }
}

pub open spec fn tree_tablet(t: ShowTree) -> Seq<char> {
    match t {
        ShowTree::Source => "source-child.csv"@,
        ShowTree::Structure => "structure-child.csv"@,
        ShowTree::Target => "target-child.csv"@,
    }
}

/// The trees to look in: the one named, or all three; `Err` with the name
/// when it names none.
pub open spec fn trees_for(filter: Option<Seq<char>>) -> Result<Seq<ShowTree>, Seq<char>> {
    match filter {
        None => Ok(seq![ShowTree::Source, ShowTree::Structure, ShowTree::Target]),
        Some(t) => if t == "source"@ {
            Ok(seq![ShowTree::Source])
        } else if t == "structure"@ {
            Ok(seq![ShowTree::Structure])
        } else if t == "target"@ {
            Ok(seq![ShowTree::Target])
        } else {
            Err(t)
        },
    }
}

/// A kind label from a node's place in its tree and its prose.
pub open spec fn kind_label(has_parent: bool, has_children: bool, prose: Seq<char>) -> Seq<char> {
    if !has_parent {
        "root"@
    } else if has_children {
        if prose.len() == 0 {
            "paragraph"@
        } else {
            "heading"@
        }
    } else if prose.len() == 0 {
        "empty"@
    } else {
        "leaf"@
    }
}

/// `(empty)` for no prose, else its first line cut to `n` characters.
pub open spec fn text_or_empty(prose: Seq<char>, n: nat) -> Seq<char> {
    if prose.len() == 0 {
        "(empty)"@
    } else {
        clip_line(prose, n)
    }
}

/// How many more levels may be shown below `depth`.
pub open spec fn levels_left(max_depth: nat, depth: nat) -> nat {
    if depth < max_depth {
        (max_depth - depth) as nat
    } else {
        0
    }
}

/// The lines for the children `ks` at `depth`, each followed by its own
/// children while `depth` is below `max_depth`.
pub open spec fn child_lines(c: Csvs, fwd: Seq<(Seq<char>, Seq<Seq<char>>)>, ks: Seq<Seq<char>>, max_depth: nat, depth: nat) -> Seq<
    Seq<char>,
>
    decreases levels_left(max_depth, depth), ks.len(),
{
    if ks.len() == 0 {
        Seq::empty()
    } else {
        let k = ks.last();
        let p = prose_of(c, k);
        let line = repeat(' ', 2 * (depth + 1)) + "["@ + short_of(k) + "] "@ + kind_label(
            true,
            kids(fwd, k).len() > 0,
            p,
        ) + " "@ + text_or_empty(p, 72);
        let below = if depth < max_depth && has_key(fwd, k) {
            child_lines(c, fwd, kids(fwd, k), max_depth, depth + 1)
        } else {
            Seq::empty()
        };
        child_lines(c, fwd, ks.drop_last(), max_depth, depth) + seq![line] + below
    }
}

/// The lines listing the counterparts of `u` in a bridge map under `label`.
pub open spec fn bridge_block(c: Csvs, label: Seq<char>, m: Seq<(Seq<char>, Seq<Seq<char>>)>, u: Seq<char>) -> Seq<
    Seq<char>,
> {
    match lookup(m, u) {
        None => Seq::empty(),
        Some(ts) => seq!["  "@ + label + ":"@] + ts.map_values(
            |t: Seq<char>| "    ["@ + short_of(t) + "] "@ + text_or_empty(prose_of(c, t), 60),
        ),
    }
}

/// The bridge counterparts of `u` in tree `t`.
pub open spec fn bridge_lines(c: Csvs, t: ShowTree, u: Seq<char>) -> Seq<Seq<char>> {
    match t {
        ShowTree::Source => bridge_block(c, "structure"@, forward_or_empty(c, source_structure()), u),
        ShowTree::Structure => bridge_block(c, "source"@, backward_or_empty(c, source_structure()), u)
            + bridge_block(c, "target"@, forward_or_empty(c, structure_target()), u),
        ShowTree::Target => bridge_block(c, "structure"@, backward_or_empty(c, structure_target()), u),
    }
}

/// Index of the first `u` in `s`, or the length.
pub open spec fn index_of(s: Seq<Seq<char>>, u: Seq<char>) -> int
    decreases s.len(),
{
    if s.len() == 0 {
        0
    } else if s[0] == u {
        0
    } else {
        1 + index_of(s.drop_first(), u)
    }
}

/// The previous and next siblings of `u` among `sibs`.
pub open spec fn sibling_lines(sibs: Seq<Seq<char>>, u: Seq<char>) -> Seq<Seq<char>> {
    let pos = index_of(sibs, u);
    if pos >= sibs.len() {
        Seq::empty()
    } else {
        (if pos > 0 {
            seq!["  prev: ["@ + short_of(sibs[pos - 1]) + "]"@]
        } else {
            Seq::empty()
        }) + (if pos + 1 < sibs.len() {
            seq!["  next: ["@ + short_of(sibs[pos + 1]) + "]"@]
        } else {
            Seq::empty()
        })
    }
}

/// How many children are shown: all with no limit, else at most `limit`.
pub open spec fn shown(total: nat, limit: nat) -> nat {
    if limit == 0 || total < limit {
        total
    } else {
        limit
    }
}

/// The first lines of a section: tree, short id and kind; text.
pub open spec fn head_lines(c: Csvs, t: ShowTree, fwd: Seq<(Seq<char>, Seq<Seq<char>>)>, rev: Seq<(Seq<char>, Seq<char>)>, u: Seq<char>) -> Seq<
    Seq<char>,
> {
    let p = prose_of(c, u);
    seq![
        "["@ + tree_name(t) + "] ["@ + short_of(u) + "] "@ + kind_label(has_key(rev, u), kids(fwd, u).len() > 0, p),
        "  text: "@ + text_or_empty(p, 120),
    ]
}

/// The parent line, when `u` has a parent.
pub open spec fn parent_lines(c: Csvs, rev: Seq<(Seq<char>, Seq<char>)>, u: Seq<char>) -> Seq<Seq<char>> {
    match lookup(rev, u) {
        Some(pu) => seq!["  parent: ["@ + short_of(pu) + "] "@ + text_or_empty(prose_of(c, pu), 60)],
        None => Seq::empty(),
    }
}

/// The children of `u` (at most `limit` of them, all with 0), with a count
/// of those left out; none at depth 0, which shows the node alone.
pub open spec fn children_lines(c: Csvs, fwd: Seq<(Seq<char>, Seq<Seq<char>>)>, u: Seq<char>, limit: nat, max_depth: nat) -> Seq<
    Seq<char>,
> {
    let ks = kids(fwd, u);
    let n = shown(ks.len(), limit);
    if ks.len() > 0 && max_depth >= 1 {
        seq!["  children ("@ + decimal(ks.len()) + "):"@] + child_lines(c, fwd, ks.take(n as int), max_depth, 1) + if n
            < ks.len() {
            seq!["    ... and "@ + decimal((ks.len() - n) as nat) + " more"@]
        } else {
            Seq::empty()
        }
    } else {
        Seq::empty()
    }
}

/// The previous and next siblings of `u`, when it has a parent.
pub open spec fn siblings_of(fwd: Seq<(Seq<char>, Seq<Seq<char>>)>, rev: Seq<(Seq<char>, Seq<char>)>, u: Seq<char>) -> Seq<
    Seq<char>,
> {
    match lookup(rev, u) {
        Some(pu) => match lookup(fwd, pu) {
            Some(ss) => sibling_lines(ss, u),
            None => Seq::empty(),
        },
        None => Seq::empty(),
    }
}

/// The section for `u` in tree `t`, when the tree exists and holds `u`.
pub open spec fn section(c: Csvs, t: ShowTree, u: Seq<char>, limit: nat, max_depth: nat) -> Option<Seq<Seq<char>>> {
    match tablet_text(c, tree_tablet(t)) {
        None => None,
        Some(content) => {
            let fwd = forward_of(tablet_records(content));
            let rev = reverse_of(tablet_records(content));
            if !has_key(fwd, u) && !has_key(rev, u) {
                None
            } else {
                Some(
                    head_lines(c, t, fwd, rev, u) + parent_lines(c, rev, u) + children_lines(c, fwd, u, limit, max_depth)
                        + bridge_lines(c, t, u) + siblings_of(fwd, rev, u),
                )
            }
        },
    }
}

/// The sections for `u` in the trees `ts`, separated by blank lines, and
/// whether there was any.
pub open spec fn sections(c: Csvs, ts: Seq<ShowTree>, u: Seq<char>, limit: nat, max_depth: nat) -> (Seq<Seq<char>>, bool)
    decreases ts.len(),
{
    if ts.len() == 0 {
        (Seq::empty(), false)
    } else {
        let (before, found) = sections(c, ts.drop_last(), u, limit, max_depth);
        match section(c, ts.last(), u, limit, max_depth) {
            None => (before, found),
            Some(ls) => (
                before + (if found {
                    seq![Seq::<char>::empty()]
                } else {
                    Seq::empty()
                }) + ls,
                true,
            ),
        }
    }
}

/// What `show` prints, and whether it succeeds or the error it fails with.
pub open spec fn show_outcome(
    c: Csvs,
    addr: Seq<char>,
    filter: Option<Seq<char>>,
    limit: nat,
    max_depth: nat,
) -> (Seq<Seq<char>>, Result<(), Seq<char>>) {
    match resolved(pairs(c.tablets@), addr) {
        None => (Seq::empty(), Err("Node not found: "@ + addr)),
        Some(u) => match trees_for(filter) {
            Err(t) => (Seq::empty(), Err("Unknown tree: "@ + t)),
            Ok(ts) => {
                let (ls, found) = sections(c, ts, u, limit, max_depth);
                (ls, if found {
                    Ok(())
                } else {
                    Err("Node not found in any tree: "@ + addr)
                })
            },
        },
    }
}


// ---------------------------------------------------------------------------
// Code
// ---------------------------------------------------------------------------

/// A kind label from a node's place in its tree and its prose.
fn node_kind(has_parent: bool, has_children: bool, prose: &str) -> (r: &'static str)
    ensures
        r@ == kind_label(has_parent, has_children, prose@),
{
    if !has_parent {
        "root"
    } else if has_children {
        if prose.is_empty() {
            "paragraph"
        } else {
            "heading"
        }
    } else if prose.is_empty() {
        "empty"
    } else {
        "leaf"
    }
}

/// The first line of `s`, cut to `max_len` characters with `...`.
fn truncate(s: &str, max_len: usize) -> (r: Vec<char>)
    ensures
        r@ == clip_line(s@, max_len as nat),
{
    clip_line_exec(&chars_of(s), max_len)
}

fn text_or_empty_exec(prose: &str, n: usize) -> (r: Vec<char>)
    ensures
        r@ == text_or_empty(prose@, n as nat),
{
    if prose.is_empty() {
        chars_of("(empty)")
    } else {
        truncate(prose, n)
    }
}

/// `2 * (depth + 1)` spaces.
fn indent(depth: usize) -> (r: Vec<char>)
    ensures
        r@ == repeat(' ', 2 * (depth + 1) as nat),
{
    let mut out: Vec<char> = Vec::new();
    out.push(' ');
    out.push(' ');
    let mut i: usize = 0;
    while i < depth
        invariant
            i <= depth,
            out@ == repeat(' ', 2 * (i + 1) as nat),
        decreases depth - i,
    {
        out.push(' ');
        out.push(' ');
        assert(out@ =~= repeat(' ', 2 * (i + 2) as nat));
        i = i + 1;
    }
    assert(out@ =~= repeat(' ', 2 * (depth + 1) as nat));
    out
}

/// Lists the first `n` of `kids` at `current_depth`, each followed by its
/// own children while `current_depth` is below `max_depth`.
fn print_children(
    c: &Csvs,
    forward: &ChildMap,
    kids_v: &Vec<String>,
    n: usize,
    max_depth: usize,
    current_depth: usize,
    out: &mut Vec<String>,
)
    requires
        n <= kids_v@.len(),
    ensures
        strs(final(out)@) == strs(old(out)@) + child_lines(
            *c,
            forward@,
            strs(kids_v@).take(n as int),
            max_depth as nat,
            current_depth as nat,
        ),
    decreases levels_left(max_depth as nat, current_depth as nat),
{
    let ghost kv = strs(kids_v@).take(n as int);
    let ghost start = strs(out@);
    let pad = indent(current_depth);
    let mut i: usize = 0;
    assert(kv.take(0) == Seq::<Seq<char>>::empty());
    while i < n
        invariant
            n <= kids_v@.len(),
            kv == strs(kids_v@).take(n as int),
            pad@ == repeat(' ', 2 * (current_depth + 1) as nat),
            i <= n,
            strs(out@) == start + child_lines(*c, forward@, kv.take(i as int), max_depth as nat, current_depth as nat),
        decreases n - i,
    {
        assert(kv.take(i + 1).drop_last() == kv.take(i as int));
        assert(kv.take(i + 1).last() == kids_v@[i as int]@);
        let kid = kids_v[i].as_str();
        let prose = c.read_prose(kid);
        let text = text_or_empty_exec(prose.as_str(), 72);
        let has_kids = match forward.get(kid) {
            Some(k) => k.len() > 0,
            None => false,
        };
        let kind = node_kind(true, has_kids, prose.as_str());
        let mut line = copy_chars_vec(&pad);
        append_str(&mut line, "[");
        append_chars(&mut line, &short_of_exec(&chars_of(kid)));
        append_str(&mut line, "] ");
        append_str(&mut line, kind);
        append_str(&mut line, " ");
        append_chars(&mut line, &text);
        let ghost o1 = strs(out@);
        out.push(string_of(&line));
        assert(strs(out@) == o1.push(line@));
        if current_depth < max_depth {
            match forward.get(kid) {
                Some(grandkids) => {
                    assert(strs(grandkids@).take(grandkids@.len() as int) == strs(grandkids@));
                    print_children(c, forward, grandkids, grandkids.len(), max_depth, current_depth + 1, out);
                },
                None => {},
            }
        }
        i = i + 1;
    }
    assert(kv.take(n as int) == kv);
}

fn copy_chars_vec(v: &Vec<char>) -> (r: Vec<char>)
    ensures
        r@ == v@,
{
    crate::text::copy_range(v, 0, v.len())
}

/// Lists the counterparts `targets` (when there are any) under `label`.
fn print_block(c: &Csvs, label: &str, targets: Option<&Vec<String>>, out: &mut Vec<String>)
    ensures
        strs(final(out)@) == strs(old(out)@) + match targets {
            Some(ts) => seq!["  "@ + label@ + ":"@] + strs(ts@).map_values(
                |t: Seq<char>| "    ["@ + short_of(t) + "] "@ + text_or_empty(prose_of(*c, t), 60),
            ),
            None => Seq::<Seq<char>>::empty(),
        },
{
    match targets {
        None => {
            assert(strs(out@) =~= strs(out@) + Seq::<Seq<char>>::empty());
        },
        Some(ts) => {
            let ghost start = strs(out@);
            let ghost mv = strs(ts@).map_values(
                |t: Seq<char>| "    ["@ + short_of(t) + "] "@ + text_or_empty(prose_of(*c, t), 60),
            );
            let mut head = chars_of("  ");
            append_str(&mut head, label);
            append_str(&mut head, ":");
            out.push(string_of(&head));
            let mut i: usize = 0;
            while i < ts.len()
                invariant
                    mv == strs(ts@).map_values(
                        |t: Seq<char>| "    ["@ + short_of(t) + "] "@ + text_or_empty(prose_of(*c, t), 60),
                    ),
                    i <= ts@.len(),
                    strs(out@) == start + seq![head@] + mv.take(i as int),
                decreases ts@.len() - i,
            {
                let t = ts[i].as_str();
                let mut line = chars_of("    [");
                append_chars(&mut line, &short_of_exec(&chars_of(t)));
                append_str(&mut line, "] ");
                let prose = c.read_prose(t);
                append_chars(&mut line, &text_or_empty_exec(prose.as_str(), 60));
                let ghost o1 = strs(out@);
                out.push(string_of(&line));
                assert(strs(out@) == o1.push(line@));
                assert(mv.take(i + 1) == mv.take(i as int).push(mv[i as int]));
                i = i + 1;
            }
            assert(mv.take(ts@.len() as int) == mv);
        },
    }
}

/// Lists the bridge counterparts of `uuid` in tree `tree`.
fn print_bridges(c: &Csvs, tree: &ShowTree, uuid: &str, out: &mut Vec<String>)
    ensures
        strs(final(out)@) == strs(old(out)@) + bridge_lines(*c, *tree, uuid@),
{
    match tree {
        ShowTree::Source => {
            let fwd = crate::store::load_forward(c, "source-structure.csv");
            print_block(c, "structure", fwd.get(uuid), out);
        },
        ShowTree::Structure => {
            let back = crate::store::load_backward(c, "source-structure.csv");
            print_block(c, "source", back.get(uuid), out);
            let ghost mid = strs(out@);
            let fwd = crate::store::load_forward(c, "structure-target.csv");
            print_block(c, "target", fwd.get(uuid), out);
        },
        ShowTree::Target => {
            let back = crate::store::load_backward(c, "structure-target.csv");
            print_block(c, "structure", back.get(uuid), out);
        },
    }
}

/// The previous and next siblings of `uuid` among `siblings`.
fn print_siblings(siblings: &Vec<String>, uuid: &str, out: &mut Vec<String>)
    ensures
        strs(final(out)@) == strs(old(out)@) + sibling_lines(strs(siblings@), uuid@),
{
    let ghost sv = strs(siblings@);
    let pos = position(siblings, uuid);
    if pos >= siblings.len() {
        assert(strs(out@) =~= strs(out@) + Seq::<Seq<char>>::empty());
        return;
    }
    let ghost start = strs(out@);
    if pos > 0 {
        let mut line = chars_of("  prev: [");
        append_chars(&mut line, &short_of_exec(&chars_of(siblings[pos - 1].as_str())));
        append_str(&mut line, "]");
        out.push(string_of(&line));
    }
    let ghost mid = strs(out@);
    if pos + 1 < siblings.len() {
        let mut line = chars_of("  next: [");
        append_chars(&mut line, &short_of_exec(&chars_of(siblings[pos + 1].as_str())));
        append_str(&mut line, "]");
        out.push(string_of(&line));
    }
    assert(strs(out@) =~= start + sibling_lines(sv, uuid@));
}

/// Index of the first `uuid` in `siblings`, or the length.
fn position(siblings: &Vec<String>, uuid: &str) -> (r: usize)
    ensures
        r as int == index_of(strs(siblings@), uuid@),
        r <= siblings@.len(),
{
    let ghost sv = strs(siblings@);
    let uc = chars_of(uuid);
    let mut pos: usize = 0;
    while pos < siblings.len()
        invariant
            sv == strs(siblings@),
            uc@ == uuid@,
            pos <= sv.len(),
            forall|j: int| 0 <= j < pos ==> sv[j] != uuid@,
        decreases sv.len() - pos,
    {
        assert(sv[pos as int] == siblings@[pos as int]@);
        if chars_eq(&chars_of(siblings[pos].as_str()), &uc) {
            proof {
                lemma_index_of(sv, uuid@, pos as int);
            }
            return pos;
        }
        pos = pos + 1;
    }
    proof {
        lemma_index_of(sv, uuid@, pos as int);
    }
    pos
}

/// `index_of` is `i` when nothing before `i` is `u` and `i` is the length
/// or holds `u`.
pub proof fn lemma_index_of(s: Seq<Seq<char>>, u: Seq<char>, i: int)
    requires
        0 <= i <= s.len(),
        forall|j: int| 0 <= j < i ==> s[j] != u,
        i < s.len() ==> s[i] == u,
    ensures
        index_of(s, u) == i,
    decreases s.len(),
{
    if s.len() > 0 && i > 0 {
        assert forall|j: int| 0 <= j < i - 1 implies s.drop_first()[j] != u by {
            assert(s.drop_first()[j] == s[j + 1]);
        }
        if i < s.len() {
            assert(s.drop_first()[i - 1] == s[i]);
        }
        lemma_index_of(s.drop_first(), u, i - 1);
    }
}


fn tree_label(t: &ShowTree) -> (r: &'static str)
    ensures
        r@ == tree_name(*t),
{
    match t {
        ShowTree::Source => "source",
        ShowTree::Structure => "structure",
        ShowTree::Target => "target",
    }
}

fn tree_file(t: &ShowTree) -> (r: &'static str)
    ensures
        r@ == tree_tablet(*t),
{
    match t {
        ShowTree::Source => "source-child.csv",
        ShowTree::Structure => "structure-child.csv",
        ShowTree::Target => "target-child.csv",
    }
}

fn print_head(c: &Csvs, tree: &ShowTree, forward: &ChildMap, reverse: &ParentMap, uuid: &str, out: &mut Vec<String>)
    ensures
        strs(final(out)@) == strs(old(out)@) + head_lines(*c, *tree, forward@, reverse@, uuid@),
{
    let prose = c.read_prose(uuid);
    let has_children = match forward.get(uuid) {
        Some(k) => k.len() > 0,
        None => false,
    };
    let has_parent = reverse.contains_key(uuid);
    let kind = node_kind(has_parent, has_children, prose.as_str());
    let ghost s0 = strs(out@);
    let mut head = chars_of("[");
    append_str(&mut head, tree_label(tree));
    append_str(&mut head, "] [");
    append_chars(&mut head, &short_of_exec(&chars_of(uuid)));
    append_str(&mut head, "] ");
    append_str(&mut head, kind);
    out.push(string_of(&head));
    let mut text_line = chars_of("  text: ");
    append_chars(&mut text_line, &text_or_empty_exec(prose.as_str(), 120));
    out.push(string_of(&text_line));
    assert(strs(out@) =~= s0 + seq![head@, text_line@]);
}

fn print_parent(c: &Csvs, reverse: &ParentMap, uuid: &str, out: &mut Vec<String>)
    ensures
        strs(final(out)@) == strs(old(out)@) + parent_lines(*c, reverse@, uuid@),
{
    let ghost s1 = strs(out@);
    match reverse.get(uuid) {
        Some(parent_uuid) => {
            let mut line = chars_of("  parent: [");
            append_chars(&mut line, &short_of_exec(&chars_of(parent_uuid.as_str())));
            append_str(&mut line, "] ");
            let pp = c.read_prose(parent_uuid.as_str());
            append_chars(&mut line, &text_or_empty_exec(pp.as_str(), 60));
            out.push(string_of(&line));
            assert(strs(out@) =~= s1 + seq![line@]);
        },
        None => {
            assert(strs(out@) =~= s1 + Seq::<Seq<char>>::empty());
        },
    }
}

fn print_children_block(c: &Csvs, forward: &ChildMap, uuid: &str, child_limit: usize, max_depth: usize, out: &mut Vec<String>)
    ensures
        strs(final(out)@) == strs(old(out)@) + children_lines(*c, forward@, uuid@, child_limit as nat, max_depth as nat),
{
    let ghost s2 = strs(out@);
    let ghost ks = kids(forward@, uuid@);
    match forward.get(uuid) {
        Some(kids_v) => {
            if kids_v.len() > 0 && max_depth >= 1 {
                let total = kids_v.len();
                let show_count = if child_limit == 0 {
                    total
                } else if child_limit < total {
                    child_limit
                } else {
                    total
                };
                let mut line = chars_of("  children (");
                append_chars(&mut line, &decimal_exec(total));
                append_str(&mut line, "):");
                out.push(string_of(&line));
                print_children(c, forward, kids_v, show_count, max_depth, 1, out);
                let ghost s25 = strs(out@);
                if show_count < total {
                    let mut more = chars_of("    ... and ");
                    append_chars(&mut more, &decimal_exec(total - show_count));
                    append_str(&mut more, " more");
                    out.push(string_of(&more));
                    assert(strs(out@) == s25.push(more@));
                } else {
                    assert(strs(out@) =~= s25 + Seq::<Seq<char>>::empty());
                }
                assert(ks == strs(kids_v@));
                assert(show_count == shown(ks.len(), child_limit as nat));
                assert(strs(out@) =~= s2 + children_lines(*c, forward@, uuid@, child_limit as nat, max_depth as nat));
            } else {
                assert(strs(out@) =~= s2 + Seq::<Seq<char>>::empty());
            }
        },
        None => {
            assert(strs(out@) =~= s2 + Seq::<Seq<char>>::empty());
        },
    }
}

fn print_sibling_block(forward: &ChildMap, reverse: &ParentMap, uuid: &str, out: &mut Vec<String>)
    ensures
        strs(final(out)@) == strs(old(out)@) + siblings_of(forward@, reverse@, uuid@),
{
    let ghost s4 = strs(out@);
    match reverse.get(uuid) {
        Some(parent_uuid) => match forward.get(parent_uuid.as_str()) {
            Some(siblings) => {
                print_siblings(siblings, uuid, out);
            },
            None => {
                assert(strs(out@) =~= s4 + Seq::<Seq<char>>::empty());
            },
        },
        None => {
            assert(strs(out@) =~= s4 + Seq::<Seq<char>>::empty());
        },
    }
}

/// The section for `uuid` in tree `tree`, when the tree exists and holds it.
fn print_section(c: &Csvs, tree: &ShowTree, uuid: &str, child_limit: usize, max_depth: usize) -> (r: Option<Vec<String>>)
    ensures
        match section(*c, *tree, uuid@, child_limit as nat, max_depth as nat) {
            Some(ls) => r matches Some(v) && strs(v@) == ls,
            None => r is None,
        },
{
    let content = match c.tablet(tree_file(tree)) {
        Some(t) => t,
        None => {
            return None;
        },
    };
    let (forward, reverse) = load_edges(content.as_str());
    if !forward.contains_key(uuid) && !reverse.contains_key(uuid) {
        return None;
    }
    let mut out: Vec<String> = Vec::new();
    assert(strs(out@) =~= Seq::<Seq<char>>::empty());
    print_head(c, tree, &forward, &reverse, uuid, &mut out);
    print_parent(c, &reverse, uuid, &mut out);
    print_children_block(c, &forward, uuid, child_limit, max_depth, &mut out);
    print_bridges(c, tree, uuid, &mut out);
    print_sibling_block(&forward, &reverse, uuid, &mut out);
    assert(strs(out@) =~= head_lines(*c, *tree, forward@, reverse@, uuid@) + parent_lines(*c, reverse@, uuid@)
        + children_lines(*c, forward@, uuid@, child_limit as nat, max_depth as nat) + bridge_lines(*c, *tree, uuid@)
        + siblings_of(forward@, reverse@, uuid@));
    Some(out)
}

/// Shows a node with its context in each tree it belongs to (or only in
/// `tree_filter`); returns the lines printed and the result.
pub fn run(c: &Csvs, addr_str: &str, tree_filter: Option<&str>, child_limit: usize, max_depth: usize) -> (r: (
    Vec<String>,
    Result<(), String>,
))
    ensures
        ({
            let o = show_outcome(
                *c,
                addr_str@,
                match tree_filter {
                    Some(t) => Some(t@),
                    None => None,
                },
                child_limit as nat,
                max_depth as nat,
            );
            &&& strs(r.0@) == o.0
            &&& match o.1 {
                Ok(_) => r.1 is Ok,
                Err(e) => r.1 matches Err(m) && m@ == e,
            }
        }),
{
    let empty: Vec<String> = Vec::new();
    assert(strs(empty@) =~= Seq::<Seq<char>>::empty());
    let uuid = match resolve_uuid(c, addr_str) {
        Some(u) => u,
        None => {
            return (empty, Err(crate::next::labelled("Node not found: ", &chars_of(addr_str))));
        },
    };
    let mut trees: Vec<ShowTree> = Vec::new();
    match tree_filter {
        Some(t) => {
            if str_eq(t, "source") {
                trees.push(ShowTree::Source);
                assert(trees@ =~= seq![ShowTree::Source]);
            } else if str_eq(t, "structure") {
                trees.push(ShowTree::Structure);
                assert(trees@ =~= seq![ShowTree::Structure]);
            } else if str_eq(t, "target") {
                trees.push(ShowTree::Target);
                assert(trees@ =~= seq![ShowTree::Target]);
            } else {
                return (empty, Err(crate::next::labelled("Unknown tree: ", &chars_of(t))));
            }
        },
        None => {
            trees.push(ShowTree::Source);
            trees.push(ShowTree::Structure);
            trees.push(ShowTree::Target);
            assert(trees@ =~= seq![ShowTree::Source, ShowTree::Structure, ShowTree::Target]);
        },
    }
    let ghost tv = trees@;
    assert(trees_for(match tree_filter {
        Some(t) => Some(t@),
        None => None,
    }) == Ok::<Seq<ShowTree>, Seq<char>>(tv));
    let mut out: Vec<String> = Vec::new();
    let mut found = false;
    let mut i: usize = 0;
    assert(tv.take(0) == Seq::<ShowTree>::empty());
    while i < trees.len()
        invariant
            tv == trees@,
            i <= tv.len(),
            (strs(out@), found) == sections(*c, tv.take(i as int), uuid@, child_limit as nat, max_depth as nat),
        decreases tv.len() - i,
    {
        assert(tv.take(i + 1).drop_last() == tv.take(i as int));
        assert(tv.take(i + 1).last() == tv[i as int]);
        match print_section(c, &trees[i], uuid.as_str(), child_limit, max_depth) {
            Some(ls) => {
                let ghost before = strs(out@);
                if found {
                    out.push(String::new());
                    assert(strs(out@) =~= before + seq![Seq::<char>::empty()]);
                } else {
                    assert(strs(out@) =~= before + Seq::<Seq<char>>::empty());
                }
                let ghost mid = strs(out@);
                let mut j: usize = 0;
                while j < ls.len()
                    invariant
                        j <= ls@.len(),
                        strs(out@) == mid + strs(ls@).take(j as int),
                    decreases ls@.len() - j,
                {
                    let ghost o1 = strs(out@);
                    out.push(copy_string(&ls[j]));
                    assert(strs(out@) == o1.push(ls@[j as int]@));
                    assert(strs(ls@).take(j + 1) == strs(ls@).take(j as int).push(ls@[j as int]@));
                    j = j + 1;
                }
                assert(strs(ls@).take(ls@.len() as int) == strs(ls@));
                found = true;
            },
            None => {},
        }
        i = i + 1;
    }
    assert(tv.take(tv.len() as int) == tv);
    if found {
        (out, Ok(()))
    } else {
        (out, Err(crate::next::labelled("Node not found in any tree: ", &chars_of(addr_str))))
    }
}

/// The edges of a bridge tablet, or none when it is missing.
pub open spec fn edges_of(c: Csvs, name: Seq<char>) -> Seq<(Seq<char>, Seq<char>)> {
    match tablet_text(c, name) {
        Some(t) => tablet_records(t),
        None => Seq::empty(),
    }
}

/// The left sides of the edges whose right side is `v`, in file order.
pub open spec fn lefts_of(rs: Seq<(Seq<char>, Seq<char>)>, v: Seq<char>) -> Seq<Seq<char>>
    decreases rs.len(),
{
    if rs.len() == 0 {
        Seq::empty()
    } else if rs.last().1 == v {
        lefts_of(rs.drop_last(), v).push(rs.last().0)
    } else {
        lefts_of(rs.drop_last(), v)
    }
}

/// A labelled list of nodes, one line each; nothing when there are none.
pub open spec fn node_block(c: Csvs, label: Seq<char>, ts: Seq<Seq<char>>) -> Seq<Seq<char>> {
    if ts.len() == 0 {
        Seq::empty()
    } else {
        seq!["  "@ + label + ":"@] + ts.map_values(
            |t: Seq<char>| "    ["@ + short_of(t) + "] "@ + text_or_empty(prose_of(c, t), 60),
        )
    }
}

pub proof fn lemma_backward_lefts(rs: Seq<(Seq<char>, Seq<char>)>, v: Seq<char>)
    ensures
        kids(backward_of(rs), v) == lefts_of(rs, v),
        has_key(backward_of(rs), v) <==> lefts_of(rs, v).len() > 0,
    decreases rs.len(),
{
    if rs.len() > 0 {
        lemma_backward_lefts(rs.drop_last(), v);
        lemma_lookup_add_child(backward_of(rs.drop_last()), rs.last().1, rs.last().0, v);
    }
}

/// A bridge block over a map read from edges lists the given nodes.
pub proof fn lemma_block_of_edges(c: Csvs, label: Seq<char>, m: Seq<(Seq<char>, Seq<Seq<char>>)>, u: Seq<char>, ts: Seq<Seq<char>>)
    requires
        kids(m, u) == ts,
        has_key(m, u) <==> ts.len() > 0,
    ensures
        bridge_block(c, label, m, u) == node_block(c, label, ts),
{
}

/// Bridges are read in the right direction: a source node shows the
/// structure nodes its `source-structure.csv` edges lead to; a structure
/// node shows the source nodes whose edges lead to it and the target nodes
/// its `structure-target.csv` edges lead to; a target node shows the
/// structure nodes whose edges lead to it. Each list is in file order, and
/// a node with no such edge shows no block.
pub proof fn law_bridges_follow_edges(c: Csvs, u: Seq<char>)
    ensures
        bridge_lines(c, ShowTree::Source, u) == node_block(
            c,
            "structure"@,
            rights_of(edges_of(c, source_structure()), u),
        ),
        bridge_lines(c, ShowTree::Structure, u) == node_block(c, "source"@, lefts_of(edges_of(c, source_structure()), u))
            + node_block(c, "target"@, rights_of(edges_of(c, structure_target()), u)),
        bridge_lines(c, ShowTree::Target, u) == node_block(
            c,
            "structure"@,
            lefts_of(edges_of(c, structure_target()), u),
        ),
{
    let ss = edges_of(c, source_structure());
    let st = edges_of(c, structure_target());
    law_children_in_file_order(ss, u);
    lemma_forward_keys(ss, u);
    law_children_in_file_order(st, u);
    lemma_forward_keys(st, u);
    lemma_backward_lefts(ss, u);
    lemma_backward_lefts(st, u);
    assert(forward_or_empty(c, source_structure()) == forward_of(ss));
    assert(forward_or_empty(c, structure_target()) == forward_of(st));
    assert(backward_or_empty(c, source_structure()) == backward_of(ss));
    assert(backward_or_empty(c, structure_target()) == backward_of(st));
    assert(forward_of(Seq::<(Seq<char>, Seq<char>)>::empty()) == Seq::<(Seq<char>, Seq<Seq<char>>)>::empty());
    assert(backward_of(Seq::<(Seq<char>, Seq<char>)>::empty()) == Seq::<(Seq<char>, Seq<Seq<char>>)>::empty());
    lemma_block_of_edges(c, "structure"@, forward_of(ss), u, rights_of(ss, u));
    lemma_block_of_edges(c, "source"@, backward_of(ss), u, lefts_of(ss, u));
    lemma_block_of_edges(c, "target"@, forward_of(st), u, rights_of(st, u));
    lemma_block_of_edges(c, "structure"@, backward_of(st), u, lefts_of(st, u));
}

} // verus!
