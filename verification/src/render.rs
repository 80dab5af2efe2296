//! Rendering a tree back to Fountain and Markdown.
//!
//! Inner nodes become headings (`#` repeated depth + 1 times) and leaves
//! become action blocks, each followed by its `[[short id]]`. In Markdown,
//! leaves under a container are joined into one paragraph; leaves directly
//! under the root stay separate paragraphs.
use vstd::prelude::*;

use crate::store::{
    kids, prose_of, reach_depth, reaches_within, find_root, load_edges, root_of, tablet_records,
    forward_of, reverse_of, ChildMap, Csvs, tablet_text,
};
use crate::text::{
    append_chars, append_str, char_vecs, chars_of, copy_range, ends_with, join, join_exec, lines,
    lines_exec, repeat, repeat_exec, short_of, short_of_exec, starts_with, string_of, trim,
    trim_end, trim_end_exec, trim_exec, starts_with_exec, ends_with_exec, end_non_ws, is_ws, lemma_end_non_ws,
};

verus! {

/// Which tree to render.
#[derive(Debug, Clone, Copy)]
pub enum RenderTree {
    Source,
    Structure,
    Target,
}

impl RenderTree {
    /// The containment tablet of this tree.
    pub fn child_tablet(&self) -> (r: &'static str)
        ensures
            *self is Source ==> r@ == "source-child.csv"@,
            *self is Structure ==> r@ == "structure-child.csv"@,
            *self is Target ==> r@ == "target-child.csv"@,
    {
        match self {
            RenderTree::Source => "source-child.csv",
            RenderTree::Structure => "structure-child.csv",
            RenderTree::Target => "target-child.csv",
        }
    }

    /// The Fountain file this tree renders to.
    pub fn fountain_filename(&self) -> (r: &'static str)
        ensures
            *self is Source ==> r@ == "source.fountain"@,
            *self is Structure ==> r@ == "structure.fountain"@,
            *self is Target ==> r@ == "target.fountain"@,
    {
        match self {
            RenderTree::Source => "source.fountain",
            RenderTree::Structure => "structure.fountain",
            RenderTree::Target => "target.fountain",
        }
    }

    /// The Markdown file this tree renders to.
    pub fn md_filename(&self) -> (r: &'static str)
        ensures
            *self is Source ==> r@ == "source.md"@,
            *self is Structure ==> r@ == "structure.md"@,
            *self is Target ==> r@ == "target.md"@,
    {
        match self {
            RenderTree::Source => "source.md",
            RenderTree::Structure => "structure.md",
            RenderTree::Target => "target.md",
        }
    }
}

/// Whether a node has no children.
pub open spec fn is_leaf(fwd: Seq<(Seq<char>, Seq<Seq<char>>)>, u: Seq<char>) -> bool {
    kids(fwd, u).len() == 0
}

/// ` [[short]]`: the id note that follows a node's text.
pub open spec fn id_tag(u: Seq<char>) -> Seq<char> {
    " [["@ + short_of(u) + "]]"@
}

/// A run of leaf texts closed as a Markdown paragraph.
pub open spec fn flush(run: Seq<char>) -> Seq<char> {
    if run.len() > 0 {
        trim_end(run) + "\n\n"@
    } else {
        Seq::empty()
    }
}

/// Fountain and Markdown of a source or target node at `depth`.
pub open spec fn content(c: Csvs, fwd: Seq<(Seq<char>, Seq<Seq<char>>)>, u: Seq<char>, depth: nat, n: nat) -> (Seq<char>, Seq<char>)
    decreases n, 0nat,
{
    let p = prose_of(c, u);
    if is_leaf(fwd, u) {
        (
            if p.len() > 0 {
                p + id_tag(u) + "\n\n"@
            } else {
                Seq::empty()
            },
            Seq::empty(),
        )
    } else if n == 0 {
        (Seq::empty(), Seq::empty())
    } else {
        let hashes = repeat('#', depth + 1);
        let head_f = if p.len() > 0 {
            hashes + " "@ + p + id_tag(u) + "\n\n"@
        } else {
            hashes + id_tag(u) + "\n\n"@
        };
        let head_m = if p.len() > 0 && depth > 0 {
            hashes + " "@ + p + "\n\n"@
        } else {
            Seq::empty()
        };
        let st = content_kids(c, fwd, kids(fwd, u), depth, (n - 1) as nat);
        (head_f + st.0, head_m + st.1 + flush(st.2))
    }
}

/// Fountain, Markdown and open leaf run after the children `ks` of a node at `depth`.
pub open spec fn content_kids(c: Csvs, fwd: Seq<(Seq<char>, Seq<Seq<char>>)>, ks: Seq<Seq<char>>, depth: nat, n: nat) -> (Seq<char>, Seq<char>, Seq<char>)
    decreases n, ks.len(),
{
    if ks.len() == 0 {
        (Seq::empty(), Seq::empty(), Seq::empty())
    } else {
        let st = content_kids(c, fwd, ks.drop_last(), depth, n);
        let k = ks.last();
        if is_leaf(fwd, k) {
            let cp = prose_of(c, k);
            if cp.len() > 0 {
                (
                    st.0 + cp + id_tag(k) + "\n\n"@,
                    if depth > 0 {
                        st.1
                    } else {
                        st.1 + cp + "\n\n"@
                    },
                    if depth > 0 {
                        st.2 + cp + " "@
                    } else {
                        st.2
                    },
                )
            } else {
                st
            }
        } else {
            let sub = content(c, fwd, k, depth + 1, n);
            (st.0 + sub.0, st.1 + flush(st.2) + sub.1, Seq::empty())
        }
    }
}

/// Whether a trimmed prose line is a note line `[[...]]`.
pub open spec fn is_note_line(t: Seq<char>) -> bool {
    starts_with(t, "[["@) && ends_with(t, "]]"@)
}

/// The annotation lines of a structure prose blob (everything but notes).
pub open spec fn annotation_lines(ls: Seq<Seq<char>>) -> Seq<Seq<char>>
    decreases ls.len(),
{
    if ls.len() == 0 {
        Seq::empty()
    } else if is_note_line(trim(ls.last())) {
        annotation_lines(ls.drop_last())
    } else {
        annotation_lines(ls.drop_last()).push(ls.last())
    }
}

/// The note lines of a structure prose blob, trimmed.
pub open spec fn note_lines(ls: Seq<Seq<char>>) -> Seq<Seq<char>>
    decreases ls.len(),
{
    if ls.len() == 0 {
        Seq::empty()
    } else if is_note_line(trim(ls.last())) {
        note_lines(ls.drop_last()).push(trim(ls.last()))
    } else {
        note_lines(ls.drop_last())
    }
}

/// A structure prose blob split into its annotation (the other lines joined
/// and trimmed) and its note lines.
pub open spec fn structure_prose(prose: Seq<char>) -> (Seq<char>, Seq<Seq<char>>) {
    (trim(join(annotation_lines(lines(prose)), "\n"@)), note_lines(lines(prose)))
}

/// Each note followed by a newline.
pub open spec fn note_block(notes: Seq<Seq<char>>) -> Seq<char>
    decreases notes.len(),
{
    if notes.len() == 0 {
        Seq::empty()
    } else {
        note_block(notes.drop_last()) + notes.last() + "\n"@
    }
}

/// Fountain and Markdown of a structure node at `depth`.
pub open spec fn structure(c: Csvs, fwd: Seq<(Seq<char>, Seq<Seq<char>>)>, u: Seq<char>, depth: nat, n: nat) -> (Seq<char>, Seq<char>)
    decreases n, 0nat,
{
    let sp = structure_prose(prose_of(c, u));
    let ann = sp.0;
    let notes = note_block(sp.1) + "\n"@;
    if is_leaf(fwd, u) {
        (
            if ann.len() > 0 {
                ann + id_tag(u) + "\n"@ + notes
            } else {
                "[["@ + short_of(u) + "]]\n"@ + notes
            },
            Seq::empty(),
        )
    } else if n == 0 {
        (Seq::empty(), Seq::empty())
    } else {
        let hashes = repeat('#', depth + 1);
        let head_f = if ann.len() > 0 {
            hashes + " "@ + ann + id_tag(u) + "\n"@ + notes
        } else {
            hashes + id_tag(u) + "\n"@ + notes
        };
        let head_m = if ann.len() > 0 && depth > 0 {
            hashes + " "@ + ann + "\n\n"@
        } else {
            Seq::empty()
        };
        let st = structure_kids(c, fwd, kids(fwd, u), depth, (n - 1) as nat);
        (head_f + st.0, head_m + st.1 + flush(st.2))
    }
}

/// Fountain, Markdown and open annotation run after the children `ks` of a
/// structure node at `depth`.
pub open spec fn structure_kids(c: Csvs, fwd: Seq<(Seq<char>, Seq<Seq<char>>)>, ks: Seq<Seq<char>>, depth: nat, n: nat) -> (Seq<char>, Seq<char>, Seq<char>)
    decreases n, ks.len(),
{
    if ks.len() == 0 {
        (Seq::empty(), Seq::empty(), Seq::empty())
    } else {
        let st = structure_kids(c, fwd, ks.drop_last(), depth, n);
        let k = ks.last();
        let sub = structure(c, fwd, k, depth + 1, n);
        if is_leaf(fwd, k) {
            let a = structure_prose(prose_of(c, k)).0;
            (
                st.0 + sub.0,
                st.1 + sub.1,
                if a.len() > 0 {
                    st.2 + a + " "@
                } else {
                    st.2
                },
            )
        } else {
            (st.0 + sub.0, st.1 + flush(st.2) + sub.1, Seq::empty())
        }
    }
}

/// The rendering of a whole tree: structure trees by `structure`, the others by `content`.
pub open spec fn rendered(which: RenderTree, c: Csvs, fwd: Seq<(Seq<char>, Seq<Seq<char>>)>, root: Seq<char>) -> (Seq<char>, Seq<char>) {
    match which {
        RenderTree::Structure => structure(c, fwd, root, 0, (fwd.len() + 1) as nat),
        _ => content(c, fwd, root, 0, (fwd.len() + 1) as nat),
    }
}

// ---------------------------------------------------------------------------
// Code
// ---------------------------------------------------------------------------

/// Appends ` [[short]]` for a node.
fn push_tag(out: &mut Vec<char>, u: &str)
    ensures
        final(out)@ == old(out)@ + id_tag(u@),
{
    let cs = chars_of(u);
    let sh = short_of_exec(&cs);
    append_str(out, " [[");
    append_chars(out, &sh);
    append_str(out, "]]");
}

fn flush_exec(run: &Vec<char>, md: &mut Vec<char>)
    ensures
        final(md)@ == old(md)@ + flush(run@),
{
    if run.len() > 0 {
        let t = trim_end_exec(run);
        append_chars(md, &t);
        append_str(md, "\n\n");
    }
}

fn is_leaf_exec(fwd: &ChildMap, u: &str) -> (r: bool)
    ensures
        r == is_leaf(fwd@, u@),
{
    match fwd.get(u) {
        Some(ks) => ks.len() == 0,
        None => true,
    }
}

/// Renders a source or target node and, below it, its children.
fn render_content_node(
    c: &Csvs,
    fwd: &ChildMap,
    uuid: &str,
    depth: usize,
    fountain: &mut Vec<char>,
    md: &mut Vec<char>,
    Ghost(n): Ghost<nat>,
)
    requires
        reach_depth(fwd@, uuid@, n),
        depth + n <= usize::MAX,
    ensures
        final(fountain)@ == old(fountain)@ + content(*c, fwd@, uuid@, depth as nat, n).0,
        final(md)@ == old(md)@ + content(*c, fwd@, uuid@, depth as nat, n).1,
    decreases n,
{
    let prose = chars_of(c.read_prose(uuid).as_str());
    let ghost cv = content(*c, fwd@, uuid@, depth as nat, n);
    if is_leaf_exec(fwd, uuid) {
        if prose.len() > 0 {
            append_chars(fountain, &prose);
            push_tag(fountain, uuid);
            append_str(fountain, "\n\n");
        }
        return;
    }
    let ks = fwd.get(uuid).unwrap();
    let hashes = repeat_exec('#', depth + 1);
    append_chars(fountain, &hashes);
    if prose.len() > 0 {
        append_str(fountain, " ");
        append_chars(fountain, &prose);
        push_tag(fountain, uuid);
        append_str(fountain, "\n\n");
        if depth > 0 {
            append_chars(md, &hashes);
            append_str(md, " ");
            append_chars(md, &prose);
            append_str(md, "\n\n");
        }
    } else {
        push_tag(fountain, uuid);
        append_str(fountain, "\n\n");
    }
    let ghost f0 = fountain@;
    let ghost m0 = md@;
    let ghost kk = kids(fwd@, uuid@);
    let mut run: Vec<char> = Vec::new();
    let mut i: usize = 0;
    assert(kk.take(0) == Seq::<Seq<char>>::empty());
    while i < ks.len()
        invariant
            n > 0,
            reach_depth(fwd@, uuid@, n),
            depth + n <= usize::MAX,
            kk == kids(fwd@, uuid@),
            kk == crate::text::strs(ks@),
            i <= ks@.len(),
            fountain@ == f0 + content_kids(*c, fwd@, kk.take(i as int), depth as nat, (n - 1) as nat).0,
            md@ == m0 + content_kids(*c, fwd@, kk.take(i as int), depth as nat, (n - 1) as nat).1,
            run@ == content_kids(*c, fwd@, kk.take(i as int), depth as nat, (n - 1) as nat).2,
        decreases ks@.len() - i,
    {
        assert(kk.take(i + 1).drop_last() == kk.take(i as int));
        assert(kk.take(i + 1).last() == ks@[i as int]@);
        let child = ks[i].as_str();
        if is_leaf_exec(fwd, child) {
            let cp = chars_of(c.read_prose(child).as_str());
            if cp.len() > 0 {
                append_chars(fountain, &cp);
                push_tag(fountain, child);
                append_str(fountain, "\n\n");
                if depth > 0 {
                    append_chars(&mut run, &cp);
                    append_str(&mut run, " ");
                } else {
                    append_chars(md, &cp);
                    append_str(md, "\n\n");
                }
            }
        } else {
            flush_exec(&run, md);
            run = Vec::new();
            assert(reach_depth(fwd@, kk[i as int], (n - 1) as nat));
            render_content_node(c, fwd, child, depth + 1, fountain, md, Ghost((n - 1) as nat));
        }
        i = i + 1;
    }
    assert(kk.take(ks@.len() as int) == kk);
    flush_exec(&run, md);
}

/// Lines of a prose blob split into annotation lines and trimmed note lines.
fn split_structure_lines(ls: &Vec<Vec<char>>) -> (r: (Vec<Vec<char>>, Vec<Vec<char>>))
    ensures
        char_vecs(r.0@) == annotation_lines(char_vecs(ls@)),
        char_vecs(r.1@) == note_lines(char_vecs(ls@)),
{
    let ghost lv = char_vecs(ls@);
    let mut ann: Vec<Vec<char>> = Vec::new();
    let mut notes: Vec<Vec<char>> = Vec::new();
    let mut i: usize = 0;
    let open: Vec<char> = vec!['[', '['];
    let close: Vec<char> = vec![']', ']'];
    assert(open@ == "[["@) by {
        reveal_strlit("[[");
    }
    assert(close@ == "]]"@) by {
        reveal_strlit("]]");
    }
    assert(lv.take(0) == Seq::<Seq<char>>::empty());
    while i < ls.len()
        invariant
            lv == char_vecs(ls@),
            open@ == "[["@,
            close@ == "]]"@,
            i <= ls@.len(),
            char_vecs(ann@) == annotation_lines(lv.take(i as int)),
            char_vecs(notes@) == note_lines(lv.take(i as int)),
        decreases ls@.len() - i,
    {
        assert(lv.take(i + 1).drop_last() == lv.take(i as int));
        assert(lv.take(i + 1).last() == ls@[i as int]@);
        let t = trim_exec(&ls[i]);
        let is_note = starts_with_exec(&t, &open) && ends_with_exec(&t, &close);
        assert(is_note == is_note_line(trim(lv.take(i + 1).last())));
        if is_note {
            let ghost old_n = char_vecs(notes@);
            notes.push(t);
            assert(char_vecs(notes@) == old_n.push(t@));
            assert(annotation_lines(lv.take(i + 1)) == annotation_lines(lv.take(i as int)));
        } else {
            let line = copy_range(&ls[i], 0, ls[i].len());
            let ghost old_a = char_vecs(ann@);
            ann.push(line);
            assert(char_vecs(ann@) == old_a.push(line@));
            assert(line@ == lv.take(i + 1).last());
            assert(annotation_lines(lv.take(i + 1)) == annotation_lines(lv.take(i as int)).push(line@));
        }
        i = i + 1;
    }
    assert(lv.take(ls@.len() as int) == lv);
    (ann, notes)
}

/// Splits a structure prose blob into its annotation text and its `[[note]]` lines.
pub fn parse_structure_prose(prose: &str) -> (r: (String, Vec<String>))
    ensures
        r.0@ == structure_prose(prose@).0,
        crate::text::strs(r.1@) == structure_prose(prose@).1,
{
    let cs = chars_of(prose);
    let ls = lines_exec(&cs);
    let (ann, notes) = split_structure_lines(&ls);
    let nl: Vec<char> = vec!['\n'];
    assert(nl@ == "\n"@) by {
        reveal_strlit("\n");
    }
    let joined = join_exec(&ann, &nl);
    let a = trim_exec(&joined);
    let mut out: Vec<String> = Vec::new();
    let mut i: usize = 0;
    let ghost nv = char_vecs(notes@);
    while i < notes.len()
        invariant
            nv == char_vecs(notes@),
            i <= notes@.len(),
            crate::text::strs(out@) == nv.take(i as int),
        decreases notes@.len() - i,
    {
        let ghost old_o = crate::text::strs(out@);
        out.push(string_of(&notes[i]));
        assert(crate::text::strs(out@) == old_o.push(notes@[i as int]@));
        assert(nv.take(i + 1) == nv.take(i as int).push(nv[i as int]));
        i = i + 1;
    }
    assert(nv.take(notes@.len() as int) == nv);
    (string_of(&a), out)
}

fn structure_parts(c: &Csvs, u: &str) -> (r: (Vec<char>, Vec<char>))
    ensures
        r.0@ == structure_prose(prose_of(*c, u@)).0,
        r.1@ == note_block(structure_prose(prose_of(*c, u@)).1) + "\n"@,
{
    let prose = c.read_prose(u);
    let (ann, notes) = parse_structure_prose(prose.as_str());
    let mut block: Vec<char> = Vec::new();
    let mut i: usize = 0;
    let ghost nv = crate::text::strs(notes@);
    while i < notes.len()
        invariant
            nv == crate::text::strs(notes@),
            i <= notes@.len(),
            block@ == note_block(nv.take(i as int)),
        decreases notes@.len() - i,
    {
        assert(nv.take(i + 1).drop_last() == nv.take(i as int));
        assert(nv.take(i + 1).last() == notes@[i as int]@);
        append_str(&mut block, notes[i].as_str());
        append_str(&mut block, "\n");
        i = i + 1;
    }
    assert(nv.take(notes@.len() as int) == nv);
    append_str(&mut block, "\n");
    (chars_of(ann.as_str()), block)
}

/// Renders a structure node and, below it, its children.
#[verifier::spinoff_prover]
#[verifier::rlimit(30)]
fn render_structure_node(
    c: &Csvs,
    fwd: &ChildMap,
    uuid: &str,
    depth: usize,
    fountain: &mut Vec<char>,
    md: &mut Vec<char>,
    Ghost(n): Ghost<nat>,
)
    requires
        reach_depth(fwd@, uuid@, n),
        depth + n <= usize::MAX,
    ensures
        final(fountain)@ == old(fountain)@ + structure(*c, fwd@, uuid@, depth as nat, n).0,
        final(md)@ == old(md)@ + structure(*c, fwd@, uuid@, depth as nat, n).1,
    decreases n,
{
    let (ann, notes) = structure_parts(c, uuid);
    if is_leaf_exec(fwd, uuid) {
        if ann.len() > 0 {
            append_chars(fountain, &ann);
            push_tag(fountain, uuid);
            append_str(fountain, "\n");
        } else {
            let cs = chars_of(uuid);
            let sh = short_of_exec(&cs);
            append_str(fountain, "[[");
            append_chars(fountain, &sh);
            append_str(fountain, "]]\n");
        }
        append_chars(fountain, &notes);
        return;
    }
    let ks = fwd.get(uuid).unwrap();
    let hashes = repeat_exec('#', depth + 1);
    append_chars(fountain, &hashes);
    if ann.len() > 0 {
        append_str(fountain, " ");
        append_chars(fountain, &ann);
    }
    push_tag(fountain, uuid);
    append_str(fountain, "\n");
    append_chars(fountain, &notes);
    if ann.len() > 0 && depth > 0 {
        append_chars(md, &hashes);
        append_str(md, " ");
        append_chars(md, &ann);
        append_str(md, "\n\n");
    }
    let ghost f0 = fountain@;
    let ghost m0 = md@;
    let ghost kk = kids(fwd@, uuid@);
    let mut run: Vec<char> = Vec::new();
    let mut i: usize = 0;
    assert(kk.take(0) == Seq::<Seq<char>>::empty());
    while i < ks.len()
        invariant
            n > 0,
            reach_depth(fwd@, uuid@, n),
            depth + n <= usize::MAX,
            kk == kids(fwd@, uuid@),
            kk == crate::text::strs(ks@),
            i <= ks@.len(),
            fountain@ == f0 + structure_kids(*c, fwd@, kk.take(i as int), depth as nat, (n - 1) as nat).0,
            md@ == m0 + structure_kids(*c, fwd@, kk.take(i as int), depth as nat, (n - 1) as nat).1,
            run@ == structure_kids(*c, fwd@, kk.take(i as int), depth as nat, (n - 1) as nat).2,
        decreases ks@.len() - i,
    {
        assert(kk.take(i + 1).drop_last() == kk.take(i as int));
        assert(kk.take(i + 1).last() == ks@[i as int]@);
        let child = ks[i].as_str();
        assert(reach_depth(fwd@, kk[i as int], (n - 1) as nat));
        if is_leaf_exec(fwd, child) {
            let (a, _) = structure_parts(c, child);
            render_structure_node(c, fwd, child, depth + 1, fountain, md, Ghost((n - 1) as nat));
            if a.len() > 0 {
                append_chars(&mut run, &a);
                append_str(&mut run, " ");
            }
        } else {
            flush_exec(&run, md);
            run = Vec::new();
            render_structure_node(c, fwd, child, depth + 1, fountain, md, Ghost((n - 1) as nat));
        }
        i = i + 1;
    }
    assert(kk.take(ks@.len() as int) == kk);
    flush_exec(&run, md);
}

/// Renders a tree of the store to Fountain and Markdown.
///
/// Fails when the tree's tablet is missing, when every node is a child (no
/// root), or when the tree has a cycle below its root.
pub fn run(c: &Csvs, tree: RenderTree) -> (r: Result<(String, String), String>)
    ensures
        match render_outcome(*c, tree) {
            Ok((f, m)) => r matches Ok((fo, mo)) && fo@ == f && mo@ == m,
            Err(e) => r matches Err(x) && x@ == e,
        },
{
    let name = tree.child_tablet();
    assert(name@ == tree.child_tablet_spec());
    let content = match c.tablet(name) {
        Some(t) => t,
        None => {
            let mut msg = chars_of(name);
            append_str(&mut msg, " not found");
            return Err(string_of(&msg));
        },
    };
    let (fwd, rev) = load_edges(content.as_str());
    let root = match find_root(&fwd, &rev) {
        Some(r) => r,
        None => {
            return Err(string_of(&chars_of("No root found — every node appears as a child")));
        },
    };
    let bound = fwd.len();
    if bound == usize::MAX || !reaches_within(&fwd, root.as_str(), bound + 1) {
        return Err(string_of(&chars_of("The tree has a cycle below its root")));
    }
    let mut fountain: Vec<char> = Vec::new();
    let mut md: Vec<char> = Vec::new();
    match tree {
        RenderTree::Structure => render_structure_node(
            c,
            &fwd,
            root.as_str(),
            0,
            &mut fountain,
            &mut md,
            Ghost((bound + 1) as nat),
        ),
        _ => render_content_node(
            c,
            &fwd,
            root.as_str(),
            0,
            &mut fountain,
            &mut md,
            Ghost((bound + 1) as nat),
        ),
    }
    Ok((string_of(&fountain), string_of(&md)))
}

/// The Fountain and Markdown of a tree, or the error rendering fails with:
/// a missing tablet, no root, or a cycle below the root.
pub open spec fn render_outcome(c: Csvs, tree: RenderTree) -> Result<(Seq<char>, Seq<char>), Seq<char>> {
    match tablet_text(c, tree.child_tablet_spec()) {
        None => Err(tree.child_tablet_spec() + " not found"@),
        Some(t) => {
            let fwd = forward_of(tablet_records(t));
            match root_of(fwd, reverse_of(tablet_records(t))) {
                None => Err("No root found — every node appears as a child"@),
                Some(root) => if fwd.len() < usize::MAX && reach_depth(
                    fwd,
                    root,
                    (fwd.len() + 1) as nat,
                ) {
                    Ok(rendered(tree, c, fwd, root))
                } else {
                    Err("The tree has a cycle below its root"@)
                },
            }
        },
    }
}

impl RenderTree {
    /// The containment tablet of this tree, as text.
    pub open spec fn child_tablet_spec(self) -> Seq<char> {
        match self {
            RenderTree::Source => "source-child.csv"@,
            RenderTree::Structure => "structure-child.csv"@,
            RenderTree::Target => "target-child.csv"@,
        }
    }
}

// ---------------------------------------------------------------------------
// What the Markdown holds
// ---------------------------------------------------------------------------

/// Whether the texts `ps` occur in `s` one after another, in order.
pub open spec fn in_order(s: Seq<char>, ps: Seq<Seq<char>>) -> bool
    decreases ps.len(),
{
    if ps.len() == 0 {
        true
    } else {
        exists|i: int|
            0 <= i && i + ps.last().len() <= s.len() && #[trigger] s.subrange(i, i + ps.last().len()) == ps.last()
                && in_order(s.take(i), ps.drop_last())
    }
}

/// The prose of the leaves below `u` (not `u` itself), in tree order, each
/// without trailing whitespace; leaves without prose are left out.
pub open spec fn leaf_texts(c: Csvs, fwd: Seq<(Seq<char>, Seq<Seq<char>>)>, u: Seq<char>, n: nat) -> Seq<Seq<char>>
    decreases n, 0nat,
{
    if is_leaf(fwd, u) || n == 0 {
        Seq::empty()
    } else {
        leaf_texts_kids(c, fwd, kids(fwd, u), (n - 1) as nat)
    }
}

/// The prose of the leaves among and below the nodes `ks`, in tree order.
pub open spec fn leaf_texts_kids(c: Csvs, fwd: Seq<(Seq<char>, Seq<Seq<char>>)>, ks: Seq<Seq<char>>, n: nat) -> Seq<
    Seq<char>,
>
    decreases n, ks.len(),
{
    if ks.len() == 0 {
        Seq::empty()
    } else {
        let rest = leaf_texts_kids(c, fwd, ks.drop_last(), n);
        let k = ks.last();
        if is_leaf(fwd, k) {
            if prose_of(c, k).len() > 0 {
                rest.push(trim_end(prose_of(c, k)))
            } else {
                rest
            }
        } else {
            rest + leaf_texts(c, fwd, k, n)
        }
    }
}

/// Text found in order stays found after more text.
pub proof fn lemma_in_order_extend(a: Seq<char>, x: Seq<char>, ps: Seq<Seq<char>>)
    requires
        in_order(a, ps),
    ensures
        in_order(a + x, ps),
        in_order(x + a, ps),
    decreases ps.len(),
{
    if ps.len() > 0 {
        let p = ps.last();
        let i = choose|i: int|
            0 <= i && i + p.len() <= a.len() && #[trigger] a.subrange(i, i + p.len()) == p && in_order(
                a.take(i),
                ps.drop_last(),
            );
        lemma_in_order_extend(a.take(i), x, ps.drop_last());
        assert((a + x).subrange(i, i + p.len()) =~= a.subrange(i, i + p.len()));
        assert((a + x).take(i) =~= a.take(i));
        let j = x.len() + i;
        assert((x + a).subrange(j, j + p.len()) =~= a.subrange(i, i + p.len()));
        assert((x + a).take(j) =~= x + a.take(i));
    }
}

/// Texts found in order in two pieces are found in order in both together.
pub proof fn lemma_in_order_concat(a: Seq<char>, b: Seq<char>, ps: Seq<Seq<char>>, qs: Seq<Seq<char>>)
    requires
        in_order(a, ps),
        in_order(b, qs),
    ensures
        in_order(a + b, ps + qs),
    decreases qs.len(),
{
    if qs.len() == 0 {
        lemma_in_order_extend(a, b, ps);
        assert(ps + qs =~= ps);
    } else {
        let q = qs.last();
        let j = choose|j: int|
            0 <= j && j + q.len() <= b.len() && #[trigger] b.subrange(j, j + q.len()) == q && in_order(
                b.take(j),
                qs.drop_last(),
            );
        lemma_in_order_concat(a, b.take(j), ps, qs.drop_last());
        let s = a + b;
        let i = a.len() + j;
        assert(s.subrange(i, i + q.len()) =~= b.subrange(j, j + q.len()));
        assert(s.take(i) =~= a + b.take(j));
        assert((ps + qs).drop_last() =~= ps + qs.drop_last());
        assert((ps + qs).last() == q);
    }
}

/// A text is found at the start of any text it begins.
pub proof fn lemma_in_order_one(p: Seq<char>, rest: Seq<char>)
    ensures
        in_order(p + rest, seq![p]),
{
    let s = p + rest;
    let ps = seq![p];
    assert(ps.last() == p);
    assert(ps.drop_last() =~= Seq::<Seq<char>>::empty());
    assert(s.subrange(0, 0 + p.len() as int) =~= p);
    assert(in_order(s.take(0), ps.drop_last()));
}

/// Whitespace at the end of some text: where trimming it stops.
pub proof fn lemma_end_non_ws_concat(a: Seq<char>, b: Seq<char>)
    ensures
        end_non_ws(a + b) == if end_non_ws(b) > 0 {
            a.len() + end_non_ws(b)
        } else {
            end_non_ws(a)
        },
    decreases b.len(),
{
    if b.len() == 0 {
        assert(a + b =~= a);
    } else {
        assert((a + b).last() == b.last());
        assert((a + b).drop_last() =~= a + b.drop_last());
        if is_ws(b.last()) {
            lemma_end_non_ws_concat(a, b.drop_last());
        }
    }
}

/// Trimming a run that ends with a leaf's text and a space.
pub proof fn lemma_trim_run(x: Seq<char>, cp: Seq<char>)
    ensures
        trim_end(x + cp + " "@) == if trim_end(cp).len() > 0 {
            x + trim_end(cp)
        } else {
            trim_end(x)
        },
{
    reveal_strlit(" ");
    let y = x + cp + " "@;
    assert(is_ws(y.last()));
    assert(y.drop_last() =~= x + cp);
    lemma_end_non_ws_concat(x, cp);
    lemma_end_non_ws(cp);
    lemma_end_non_ws(x);
    if end_non_ws(cp) > 0 {
        assert(y.take(x.len() + end_non_ws(cp)) =~= x + cp.take(end_non_ws(cp)));
    } else {
        assert(y.take(end_non_ws(x)) =~= x.take(end_non_ws(x)));
    }
}

/// Text found in order in a prefix is found in the whole.
pub proof fn lemma_in_order_prefix(a: Seq<char>, k: int, ps: Seq<Seq<char>>)
    requires
        0 <= k <= a.len(),
        in_order(a.take(k), ps),
    ensures
        in_order(a, ps),
{
    lemma_in_order_extend(a.take(k), a.skip(k), ps);
    assert(a.take(k) + a.skip(k) =~= a);
}

/// A leaf's text added to an open run is found after what was found before.
#[verifier::spinoff_prover]
pub proof fn lemma_step_run(s1: Seq<char>, s2: Seq<char>, l: Seq<Seq<char>>, cp: Seq<char>)
    requires
        in_order(s1 + trim_end(s2), l),
    ensures
        in_order(s1 + trim_end(s2 + cp + " "@), l.push(trim_end(cp))),
{
    let t = trim_end(cp);
    lemma_trim_run(s2, cp);
    lemma_end_non_ws(s2);
    if t.len() > 0 {
        let whole = s1 + s2;
        assert(s1 + trim_end(s2) =~= whole.take(s1.len() + end_non_ws(s2)));
        lemma_in_order_prefix(whole, s1.len() + end_non_ws(s2), l);
        lemma_in_order_one(t, Seq::empty());
        assert(t + Seq::<char>::empty() =~= t);
        lemma_in_order_concat(whole, t, l, seq![t]);
        assert(s1 + trim_end(s2 + cp + " "@) =~= whole + t);
        assert(l + seq![t] =~= l.push(t));
    } else {
        assert(s1 + trim_end(s2 + cp + " "@) == s1 + trim_end(s2));
        lemma_in_order_push_empty(s1 + trim_end(s2), l, t);
    }
}

/// An empty text is found anywhere after the others.
pub proof fn lemma_in_order_push_empty(x: Seq<char>, l: Seq<Seq<char>>, t: Seq<char>)
    requires
        in_order(x, l),
        t.len() == 0,
    ensures
        in_order(x, l.push(t)),
{
    let lp = l.push(t);
    assert(lp.last() == t);
    assert(x.subrange(x.len() as int, x.len() + t.len() as int) =~= t);
    assert(x.take(x.len() as int) =~= x);
    assert(lp.drop_last() =~= l);
}

/// A top-level leaf is a paragraph of its own, found after what came before.
pub proof fn lemma_step_top(s1: Seq<char>, l: Seq<Seq<char>>, cp: Seq<char>)
    requires
        in_order(s1, l),
    ensures
        in_order(s1 + cp + "\n\n"@, l.push(trim_end(cp))),
{
    let t = trim_end(cp);
    lemma_end_non_ws(cp);
    let rest = cp.skip(end_non_ws(cp)) + "\n\n"@;
    lemma_in_order_one(t, rest);
    assert(t + rest =~= cp + "\n\n"@);
    lemma_in_order_concat(s1, cp + "\n\n"@, l, seq![t]);
    assert(s1 + (cp + "\n\n"@) =~= s1 + cp + "\n\n"@);
    assert(l + seq![t] =~= l.push(t));
}

/// An inner child's Markdown comes after the run before it is closed.
pub proof fn lemma_step_inner(s1: Seq<char>, s2: Seq<char>, sub: Seq<char>, l: Seq<Seq<char>>, lk: Seq<Seq<char>>)
    requires
        in_order(s1 + trim_end(s2), l),
        in_order(sub, lk),
    ensures
        in_order(s1 + flush(s2) + sub, l + lk),
        in_order(s1 + flush(s2), l),
{
    reveal_strlit("\n\n");
    let base = s1 + trim_end(s2);
    if s2.len() > 0 {
        assert(s1 + flush(s2) =~= base + "\n\n"@);
        lemma_in_order_extend(base, "\n\n"@, l);
    } else {
        assert(trim_end(s2) =~= Seq::<char>::empty());
        assert(s1 + flush(s2) =~= base);
    }
    lemma_in_order_concat(s1 + flush(s2), sub, l, lk);
}

/// The leaf texts found so far after some children, and a run of leaf
/// texts still to be closed (empty at the top level).
#[verifier::spinoff_prover]
pub proof fn lemma_kids_markdown(c: Csvs, fwd: Seq<(Seq<char>, Seq<Seq<char>>)>, ks: Seq<Seq<char>>, depth: nat, n: nat)
    ensures
        ({
            let st = content_kids(c, fwd, ks, depth, n);
            &&& in_order(st.1 + trim_end(st.2), leaf_texts_kids(c, fwd, ks, n))
            &&& depth == 0 ==> st.2.len() == 0
        }),
    decreases n, ks.len(),
{
    if ks.len() == 0 {
        assert(trim_end(Seq::<char>::empty()) =~= Seq::<char>::empty());
        assert(Seq::<char>::empty() + Seq::<char>::empty() =~= Seq::<char>::empty());
    } else {
        lemma_kids_markdown(c, fwd, ks.drop_last(), depth, n);
        let st = content_kids(c, fwd, ks.drop_last(), depth, n);
        let l = leaf_texts_kids(c, fwd, ks.drop_last(), n);
        let k = ks.last();
        let r = content_kids(c, fwd, ks, depth, n);
        if is_leaf(fwd, k) {
            let cp = prose_of(c, k);
            if cp.len() > 0 {
                if depth > 0 {
                    assert(r.1 == st.1 && r.2 == st.2 + cp + " "@);
                    lemma_step_run(st.1, st.2, l, cp);
                } else {
                    assert(r.1 == st.1 + cp + "\n\n"@ && r.2 == st.2);
                    assert(trim_end(st.2) =~= Seq::<char>::empty());
                    assert(st.1 + Seq::<char>::empty() =~= st.1);
                    lemma_step_top(st.1, l, cp);
                    assert(r.1 + trim_end(r.2) =~= st.1 + cp + "\n\n"@);
                }
            }
        } else {
            let sub = content(c, fwd, k, depth + 1, n);
            lemma_content_markdown(c, fwd, k, depth + 1, n);
            lemma_step_inner(st.1, st.2, sub.1, l, leaf_texts(c, fwd, k, n));
            assert(r.1 == st.1 + flush(st.2) + sub.1 && r.2 == Seq::<char>::empty());
            assert(trim_end(Seq::<char>::empty()) =~= Seq::<char>::empty());
            assert(r.1 + trim_end(r.2) =~= r.1);
        }
    }
}

/// The Markdown of a node holds the prose of every leaf below it, in tree
/// order (each without trailing whitespace).
pub proof fn lemma_content_markdown(c: Csvs, fwd: Seq<(Seq<char>, Seq<Seq<char>>)>, u: Seq<char>, depth: nat, n: nat)
    ensures
        in_order(content(c, fwd, u, depth, n).1, leaf_texts(c, fwd, u, n)),
    decreases n, 0nat,
{
    if !is_leaf(fwd, u) && n > 0 {
        let st = content_kids(c, fwd, kids(fwd, u), depth, (n - 1) as nat);
        lemma_kids_markdown(c, fwd, kids(fwd, u), depth, (n - 1) as nat);
        let l = leaf_texts_kids(c, fwd, kids(fwd, u), (n - 1) as nat);
        assert(in_order(Seq::<char>::empty(), Seq::<Seq<char>>::empty()));
        lemma_step_inner(st.1, st.2, Seq::empty(), l, Seq::empty());
        let p = prose_of(c, u);
        let hashes = repeat('#', depth + 1);
        let head_m = if p.len() > 0 && depth > 0 {
            hashes + " "@ + p + "\n\n"@
        } else {
            Seq::empty()
        };
        lemma_in_order_extend(st.1 + flush(st.2), head_m, l);
        assert(head_m + (st.1 + flush(st.2)) =~= head_m + st.1 + flush(st.2));
        assert(content(c, fwd, u, depth, n).1 == head_m + st.1 + flush(st.2));
        assert(leaf_texts(c, fwd, u, n) == l);
    }
}

/// Rendering keeps every sentence: the Markdown of a source or target tree
/// holds the prose of each leaf below the root, in tree order (each
/// without trailing whitespace), whether the leaves stand alone or are
/// joined into one paragraph.
pub proof fn law_markdown_keeps_leaves(c: Csvs, fwd: Seq<(Seq<char>, Seq<Seq<char>>)>, root: Seq<char>)
    ensures
        in_order(content(c, fwd, root, 0, (fwd.len() + 1) as nat).1, leaf_texts(c, fwd, root, (fwd.len() + 1) as nat)),
{
    lemma_content_markdown(c, fwd, root, 0, (fwd.len() + 1) as nat);
}

} // verus!
