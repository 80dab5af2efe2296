//! `init`: a markdown document becomes the source tree (headings as inner
//! nodes over the blocks after them, paragraphs split into sentences, list
//! items, footnote bodies) and a structure tree that mirrors it, written as
//! CSVS tablets and prose blobs.
//!
//! Every source node has a name-based UUID made from its text and how many
//! nodes with the same text came before it, so that parsing the same
//! document again gives the same UUIDs.
use vstd::prelude::*;

use crate::ids::{hyphenated, new_v4, new_v5, uuid_v5};
use crate::mdtree::{
    collect_footnote_refs, collect_item_refs, extract_text, fits, gfm_tree, inline_refs, inline_text, item_refs,
    md_view, node_texts, parse_markdown, texts_of_nodes, MdNode,
};
use crate::store::{
    forward_of, has_key, key_index, kids, last_left, law_children_in_file_order, law_last_parent_wins,
    lemma_forward_keys, lemma_key_index, lemma_key_index_is, lemma_record_of_edge, lookup, pairs, records,
    reverse_of, rights_of, set_value, tablet_records, tablet_text, Csvs,
};
use crate::text::{
    append_chars, append_str, char_vecs, chars_eq, chars_of, copy_range, copy_string, decimal, decimal_exec,
    clean_id, first_where, is_ws, join, join_exec, lemma_edge_line, lemma_join_first, lemma_first_where, lemma_first_where_is, not_ws_pred, ws_pred, lemma_lines_join, lines, plain_line, split_ws, split_ws_exec,
    string_of, strs, trim, trim_exec,
};

verus! {

// ---------------------------------------------------------------------------
// Names
// ---------------------------------------------------------------------------

/// The namespace of the name-based UUIDs: the bytes of `tsugiki-ns`, then
/// six zero bytes.
pub open spec fn tsugiki_ns() -> Seq<u8> {
    seq![0x74u8, 0x73u8, 0x75u8, 0x67u8, 0x69u8, 0x6bu8, 0x69u8, 0x2du8, 0x6eu8, 0x73u8, 0u8, 0u8, 0u8, 0u8, 0u8, 0u8]
}

fn namespace() -> (r: [u8; 16])
    ensures
        r@ == tsugiki_ns(),
{
    let r: [u8; 16] = [0x74, 0x73, 0x75, 0x67, 0x69, 0x6b, 0x69, 0x2d, 0x6e, 0x73, 0, 0, 0, 0, 0, 0];
    assert(r@ =~= tsugiki_ns());
    r
}

/// The UUID of a source node: from `source:<text>:<occurrence>`.
pub open spec fn source_uuid_of(text: Seq<char>, occurrence: nat) -> Seq<char> {
    uuid_v5(tsugiki_ns(), "source:"@ + text + ":"@ + decimal(occurrence))
}

/// The UUID of the structure node that mirrors a source node.
pub open spec fn structure_uuid_of(source: Seq<char>) -> Seq<char> {
    uuid_v5(tsugiki_ns(), "structure:"@ + source)
}

/// The UUID of a paragraph split into sentences: from the UUIDs of its
/// sentences joined with `+`.
pub open spec fn container_uuid_of(children: Seq<Seq<char>>) -> Seq<char> {
    uuid_v5(tsugiki_ns(), "container:"@ + join(children, "+"@))
}

/// What the UAX#29 sentence splitter of `unicode-segmentation` gives for a
/// text: its sentences (the pieces with an alphanumeric character), in order.
pub uninterp spec fn sentences(text: Seq<char>) -> Seq<Seq<char>>;

/// `UnicodeSegmentation::unicode_sentences`: the result is `sentences` of
/// the text.
#[verifier::external_body]
fn unicode_sentences(text: &str) -> (r: Vec<String>)
    ensures
        strs(r@) == sentences(text@),
{
    unicode_segmentation::UnicodeSegmentation::unicode_sentences(text).map(|s| s.to_string()).collect()
}

/// Runs of whitespace collapsed into single spaces, ends trimmed.
pub open spec fn normalize(s: Seq<char>) -> Seq<char> {
    join(split_ws(s), " "@)
}

/// A word: not empty, without whitespace.
pub open spec fn is_word(w: Seq<char>) -> bool {
    w.len() > 0 && forall|i: int| 0 <= i < w.len() ==> !is_ws(#[trigger] w[i])
}

/// The words of a text are words.
pub proof fn lemma_split_ws_words(s: Seq<char>)
    ensures
        forall|k: int| 0 <= k < split_ws(s).len() ==> is_word(#[trigger] split_ws(s)[k]),
    decreases s.len(),
{
    let a = first_where(s, not_ws_pred());
    lemma_first_where(s, not_ws_pred());
    if 0 <= a < s.len() {
        let t = s.skip(a);
        let b = first_where(t, ws_pred());
        lemma_first_where(t, ws_pred());
        if 0 < b <= t.len() {
            lemma_split_ws_words(t.skip(b));
            let w = t.take(b);
            assert forall|i: int| 0 <= i < w.len() implies !is_ws(#[trigger] w[i]) by {
                assert(w[i] == t[i]);
                assert(!ws_pred()(t[i]));
            }
            let r = split_ws(s);
            assert forall|k: int| 0 <= k < r.len() implies is_word(#[trigger] r[k]) by {
                if k > 0 {
                    assert(r[k] == split_ws(t.skip(b))[k - 1]);
                }
            }
        }
    }
}

/// Leading whitespace does not change the words.
pub proof fn lemma_split_ws_space(r: Seq<char>)
    ensures
        split_ws(" "@ + r) == split_ws(r),
{
    reveal_strlit(" ");
    let s = " "@ + r;
    assert(s[0] == ' ');
    assert(s.drop_first() =~= r);
    lemma_first_where(r, not_ws_pred());
    let a = first_where(r, not_ws_pred());
    assert(first_where(s, not_ws_pred()) == 1 + a);
    assert(s.skip(1 + a) =~= r.skip(a));
}

/// The words of a word followed by a space and more text.
pub proof fn lemma_split_ws_word(w: Seq<char>, rest: Seq<char>)
    requires
        is_word(w),
    ensures
        split_ws(w + rest) == if rest.len() > 0 && is_ws(rest[0]) || rest.len() == 0 {
            seq![w] + split_ws(rest)
        } else {
            split_ws(w + rest)
        },
{
    let s = w + rest;
    assert(!not_ws_pred()(s[0]) == false);
    lemma_first_where_is(s, not_ws_pred(), 0);
    assert(s.skip(0) =~= s);
    if rest.len() == 0 || is_ws(rest[0]) {
        assert forall|j: int| 0 <= j < w.len() implies !(#[trigger] ws_pred()(s[j])) by {
            assert(s[j] == w[j]);
        }
        lemma_first_where_is(s, ws_pred(), w.len() as int);
        assert(s.take(w.len() as int) =~= w);
        assert(s.skip(w.len() as int) =~= rest);
    }
}

/// Splitting words joined with single spaces gives the words back.
pub proof fn lemma_split_join(ws: Seq<Seq<char>>)
    requires
        forall|k: int| 0 <= k < ws.len() ==> is_word(#[trigger] ws[k]),
    ensures
        split_ws(join(ws, " "@)) == ws,
    decreases ws.len(),
{
    reveal_strlit(" ");
    if ws.len() == 0 {
        assert(split_ws(Seq::<char>::empty()) == Seq::<Seq<char>>::empty());
    } else {
        let w = ws[0];
        assert(is_word(ws[0]));
        let rest = ws.drop_first();
        assert forall|k: int| 0 <= k < rest.len() implies is_word(#[trigger] rest[k]) by {
            assert(rest[k] == ws[k + 1]);
        }
        assert(seq![w] + rest =~= ws);
        if rest.len() == 0 {
            assert(join(ws, " "@) == w);
            lemma_split_ws_word(w, Seq::empty());
            assert(w + Seq::<char>::empty() =~= w);
            assert(split_ws(Seq::<char>::empty()) == Seq::<Seq<char>>::empty());
        } else {
            lemma_join_first(w, rest, " "@);
            lemma_split_join(rest);
            let tail = " "@ + join(rest, " "@);
            assert(w + " "@ + join(rest, " "@) =~= w + tail);
            assert(is_ws(tail[0]));
            lemma_split_ws_word(w, tail);
            lemma_split_ws_space(join(rest, " "@));
        }
    }
}

/// Single spacing: every whitespace character is a space between two
/// characters that are not whitespace.
pub open spec fn single_spaced(r: Seq<char>) -> bool {
    forall|i: int|
        0 <= i < r.len() && is_ws(#[trigger] r[i]) ==> r[i] == ' ' && 0 < i < r.len() - 1 && !is_ws(r[i - 1])
            && !is_ws(r[i + 1])
}

/// Words joined with single spaces are single spaced.
pub proof fn lemma_join_spacing(ws: Seq<Seq<char>>)
    requires
        forall|k: int| 0 <= k < ws.len() ==> is_word(#[trigger] ws[k]),
    ensures
        single_spaced(join(ws, " "@)),
        ws.len() > 0 ==> join(ws, " "@).len() > 0 && !is_ws(join(ws, " "@)[0]) && !is_ws(
            join(ws, " "@).last(),
        ),
    decreases ws.len(),
{
    reveal_strlit(" ");
    if ws.len() == 1 {
        assert(is_word(ws[0]));
        assert(join(ws, " "@) == ws[0]);
    } else if ws.len() > 1 {
        let d = ws.drop_last();
        assert forall|k: int| 0 <= k < d.len() implies is_word(#[trigger] d[k]) by {
            assert(d[k] == ws[k]);
        }
        lemma_join_spacing(d);
        let j = join(d, " "@);
        let w = ws.last();
        assert(is_word(ws[ws.len() - 1]));
        let r = j + " "@ + w;
        assert(join(ws, " "@) == r);
        assert forall|i: int| 0 <= i < r.len() && is_ws(#[trigger] r[i]) implies r[i] == ' ' && 0 < i < r.len() - 1
            && !is_ws(r[i - 1]) && !is_ws(r[i + 1]) by {
            if i < j.len() {
                assert(r[i] == j[i]);
                assert(r[i - 1] == j[i - 1]);
                assert(i + 1 < j.len());
                assert(r[i + 1] == j[i + 1]);
            } else if i == j.len() {
                assert(r[i - 1] == j.last());
                assert(r[i + 1] == w[0]);
            } else {
                assert(r[i] == w[i - j.len() - 1]);
            }
        }
        assert(r[0] == j[0]);
        assert(r.last() == w.last());
    }
}

/// Normalizing whitespace keeps the words and leaves single spaces
/// between them (none at the ends), so doing it twice is doing it once.
pub proof fn law_normalize_idempotent(s: Seq<char>)
    ensures
        split_ws(normalize(s)) == split_ws(s),
        normalize(normalize(s)) == normalize(s),
        single_spaced(normalize(s)),
{
    lemma_split_ws_words(s);
    lemma_split_join(split_ws(s));
    lemma_join_spacing(split_ws(s));
}

/// Whether `p` occurs in `s`.
pub open spec fn has_sub(s: Seq<char>, p: Seq<char>) -> bool {
    exists|i: int| 0 <= i <= s.len() - p.len() && #[trigger] s.subrange(i, i + p.len()) == p
}

/// The labels of `refs` whose reference `[^label]` occurs in `s`.
pub open spec fn refs_in(refs: Seq<Seq<char>>, s: Seq<char>) -> Seq<Seq<char>>
    decreases refs.len(),
{
    if refs.len() == 0 {
        Seq::empty()
    } else if has_sub(s, "[^"@ + refs.last() + "]"@) {
        refs_in(refs.drop_last(), s).push(refs.last())
    } else {
        refs_in(refs.drop_last(), s)
    }
}

// ---------------------------------------------------------------------------
// The source tree as it is parsed
// ---------------------------------------------------------------------------

/// A parsed node: UUID, depth, text, children (indices) and the footnote
/// labels its text references.
pub struct NodeView {
    pub uuid: Seq<char>,
    pub depth: u8,
    pub text: Seq<char>,
    pub children: Seq<usize>,
    pub refs: Seq<Seq<char>>,
}

/// The parse so far: the nodes, footnote label → node index, and text →
/// how many nodes had it.
pub struct ParseView {
    pub nodes: Seq<NodeView>,
    pub defs: Seq<(Seq<char>, usize)>,
    pub occ: Seq<(Seq<char>, usize)>,
}

/// `v` stored under `k` (a new last key when `k` is absent).
pub open spec fn put<V>(es: Seq<(Seq<char>, V)>, k: Seq<char>, v: V) -> Seq<(Seq<char>, V)> {
    let i = key_index(es, k);
    if 0 <= i < es.len() {
        es.update(i, (k, v))
    } else {
        es.push((k, v))
    }
}

/// How many nodes had `text` before.
pub open spec fn occurrence(st: ParseView, text: Seq<char>) -> usize {
    match lookup(st.occ, text) {
        Some(n) => n,
        None => 0,
    }
}

/// `st` with `n` appended as the last child of `parent`.
pub open spec fn with_node(st: ParseView, parent: int, n: NodeView) -> ParseView {
    let p = st.nodes[parent];
    ParseView {
        nodes: st.nodes.update(
            parent,
            NodeView {
                uuid: p.uuid,
                depth: p.depth,
                text: p.text,
                children: p.children.push(st.nodes.len() as usize),
                refs: p.refs,
            },
        ).push(n),
        defs: st.defs,
        occ: st.occ,
    }
}

/// `st` with a node for `text` under `parent`, its UUID made from the text
/// and how many nodes had it before.
pub open spec fn with_text_node(st: ParseView, parent: int, depth: u8, text: Seq<char>, refs: Seq<Seq<char>>) -> ParseView {
    let n = occurrence(st, text);
    let st1 = with_node(
        st,
        parent,
        NodeView { uuid: source_uuid_of(text, n as nat), depth, text, children: Seq::empty(), refs },
    );
    ParseView { nodes: st1.nodes, defs: st1.defs, occ: put(st1.occ, text, (n + 1) as usize) }
}

/// `st` with the sentences `ss` (trimmed, empty ones skipped) under the
/// paragraph `para`, and their UUIDs in order.
pub open spec fn with_sentences(
    st: ParseView,
    ss: Seq<Seq<char>>,
    para: int,
    depth: u8,
    refs: Seq<Seq<char>>,
) -> (ParseView, Seq<Seq<char>>)
    decreases ss.len(),
{
    if ss.len() == 0 {
        (st, Seq::empty())
    } else {
        let (st1, us) = with_sentences(st, ss.drop_last(), para, depth, refs);
        let s = trim(ss.last());
        if s.len() == 0 {
            (st1, us)
        } else {
            (
                with_text_node(st1, para, depth, s, refs_in(refs, s)),
                us.push(source_uuid_of(s, occurrence(st1, s) as nat)),
            )
        }
    }
}

/// `st` with the UUID of node `i` replaced.
pub open spec fn with_uuid(st: ParseView, i: int, u: Seq<char>) -> ParseView {
    let p = st.nodes[i];
    ParseView {
        nodes: st.nodes.update(
            i,
            NodeView { uuid: u, depth: p.depth, text: p.text, children: p.children, refs: p.refs },
        ),
        defs: st.defs,
        occ: st.occ,
    }
}

/// A paragraph: one node for its text, or, when it has more than one
/// sentence and splitting is on, a node for the paragraph with one child
/// per sentence. An empty paragraph adds nothing.
pub open spec fn with_paragraph(st: ParseView, cs: Seq<MdNode>, parent: int, depth: u8, no_split: bool) -> ParseView {
    let text = normalize(inline_text(cs));
    let refs = inline_refs(cs);
    if text.len() == 0 {
        st
    } else if no_split || sentences(text).len() <= 1 {
        with_text_node(st, parent, depth, text, refs)
    } else {
        let para = st.nodes.len() as int;
        let st1 = with_node(
            st,
            parent,
            NodeView {
                uuid: Seq::empty(),
                depth,
                text: Seq::empty(),
                children: Seq::empty(),
                refs: Seq::empty(),
            },
        );
        let (st2, us) = with_sentences(st1, sentences(text), para, (depth + 1) as u8, refs);
        with_uuid(st2, para, container_uuid_of(us))
    }
}

/// The items of a list: one node per non-empty item.
pub open spec fn with_items(st: ParseView, items: Seq<MdNode>, parent: int, depth: u8) -> ParseView
    decreases items.len(),
{
    if items.len() == 0 {
        st
    } else {
        let st1 = with_items(st, items.drop_last(), parent, depth);
        match items.last() {
            MdNode::ListItem(cs) => {
                let text = normalize(join(node_texts(cs@), " "@));
                if text.len() == 0 {
                    st1
                } else {
                    with_text_node(st1, parent, depth, text, item_refs(cs@))
                }
            },
            _ => st1,
        }
    }
}

/// One block of the document: headings, footnote bodies, paragraphs and
/// lists become nodes; other blocks are skipped.
pub open spec fn with_child(st: ParseView, child: MdNode, parent: int, depth: u8, no_split: bool) -> ParseView {
    match child {
        MdNode::Heading(d, cs) => with_text_node(
            st,
            parent,
            if d > depth {
                d
            } else {
                depth
            },
            inline_text(cs@),
            Seq::empty(),
        ),
        MdNode::FootnoteDefinition(id, cs) => {
            let st1 = with_text_node(st, parent, depth, normalize(join(node_texts(cs@), "\n"@)), Seq::empty());
            ParseView { nodes: st1.nodes, defs: put(st1.defs, id@, st.nodes.len() as usize), occ: st1.occ }
        },
        MdNode::Paragraph(cs) => with_paragraph(st, cs@, parent, depth, no_split),
        MdNode::List(items) => with_items(st, items@, parent, depth),
        _ => st,
    }
}

/// The sections still open after a heading of level `d`: those of a
/// shallower level (a heading closes the sections of its level and deeper).
pub open spec fn close_sections(open: Seq<(u8, int, u8)>, d: u8) -> Seq<(u8, int, u8)>
    decreases open.len(),
{
    if open.len() > 0 && open.last().0 >= d {
        close_sections(open.drop_last(), d)
    } else {
        open
    }
}

/// Where the next block goes: under the innermost open section, or under
/// `parent` when no section is open.
pub open spec fn section_parent(open: Seq<(u8, int, u8)>, parent: int) -> int {
    if open.len() == 0 {
        parent
    } else {
        open.last().1
    }
}

/// The depth of the next block: one below the innermost open heading, or
/// `depth` when no section is open.
pub open spec fn section_depth(open: Seq<(u8, int, u8)>, depth: u8) -> u8 {
    if open.len() == 0 {
        depth
    } else {
        open.last().2
    }
}

/// The depth of the blocks under a heading at depth `hd` (kept below 255).
pub open spec fn inner_depth(hd: u8) -> u8 {
    if hd < 254 {
        (hd + 1) as u8
    } else {
        254
    }
}

/// The depth of a heading of level `d` placed at depth `depth`.
pub open spec fn heading_node_depth(d: u8, depth: u8) -> u8 {
    if d > depth {
        d
    } else {
        depth
    }
}

/// The blocks `cs` parsed under `parent`, and the sections left open (each
/// heading's level, node, and the depth of the blocks under it). A heading
/// becomes an inner node: the blocks after it go under it, one level
/// deeper, until a heading of its level or a shallower one.
pub open spec fn with_blocks(st: ParseView, cs: Seq<MdNode>, parent: int, depth: u8, no_split: bool) -> (
    ParseView,
    Seq<(u8, int, u8)>,
)
    decreases cs.len(),
{
    if cs.len() == 0 {
        (st, Seq::empty())
    } else {
        let (st1, open) = with_blocks(st, cs.drop_last(), parent, depth, no_split);
        match cs.last() {
            MdNode::Heading(d, _) => {
                let still = close_sections(open, d);
                let dd = section_depth(still, depth);
                (
                    with_child(st1, cs.last(), section_parent(still, parent), dd, no_split),
                    still.push((d, st1.nodes.len() as int, inner_depth(heading_node_depth(d, dd)))),
                )
            },
            _ => (
                with_child(st1, cs.last(), section_parent(open, parent), section_depth(open, depth), no_split),
                open,
            ),
        }
    }
}

/// The blocks `cs` parsed under `parent`.
pub open spec fn with_children(st: ParseView, cs: Seq<MdNode>, parent: int, depth: u8, no_split: bool) -> ParseView {
    with_blocks(st, cs, parent, depth, no_split).0
}

/// The parse before the document: the root node alone, with empty text.
pub open spec fn root_state() -> ParseView {
    ParseView {
        nodes: seq![
            NodeView {
                uuid: source_uuid_of(Seq::empty(), 0),
                depth: 0,
                text: Seq::empty(),
                children: Seq::empty(),
                refs: Seq::empty(),
            },
        ],
        defs: Seq::empty(),
        occ: seq![(Seq::<char>::empty(), 1usize)],
    }
}

/// The source tree of a document: the blocks of its root under the root
/// node, at depth 1.
pub open spec fn parsed(doc: MdNode, no_split: bool) -> ParseView {
    match doc {
        MdNode::Root(cs) => with_children(root_state(), cs@, 0, 1, no_split),
        _ => root_state(),
    }
}

/// Children come after their parent, every index points at a node, and no
/// text was seen more often than there are nodes.
pub open spec fn wf(st: ParseView) -> bool {
    &&& st.nodes.len() >= 1
    &&& tree_ordered(st.nodes)
    &&& forall|j: int| 0 <= j < st.defs.len() ==> (#[trigger] st.defs[j]).1 < st.nodes.len()
    &&& forall|j: int| 0 <= j < st.occ.len() ==> (#[trigger] st.occ[j]).1 <= st.nodes.len()
}


/// Every child comes after its parent and is a node.
pub open spec fn tree_ordered(nodes: Seq<NodeView>) -> bool {
    forall|i: int, j: int|
        0 <= i < nodes.len() && 0 <= j < nodes[i].children.len() ==> i < #[trigger] nodes[i].children[j]
            < nodes.len()
}

// ---------------------------------------------------------------------------
// What is written
// ---------------------------------------------------------------------------

/// The parent → child edges below node `i`, depth first.
pub open spec fn edges_from(nodes: Seq<NodeView>, i: int) -> Seq<(Seq<char>, Seq<char>)>
    decreases nodes.len() - i, 1int, 0int,
{
    if 0 <= i < nodes.len() {
        edges_below(nodes, i, nodes[i].children)
    } else {
        Seq::empty()
    }
}

/// The edges from node `i` to the children `ks`, each followed by the edges
/// below that child.
pub open spec fn edges_below(nodes: Seq<NodeView>, i: int, ks: Seq<usize>) -> Seq<(Seq<char>, Seq<char>)>
    decreases nodes.len() - i, 0int, ks.len(),
{
    if ks.len() == 0 || !(0 <= i < nodes.len()) {
        Seq::empty()
    } else {
        let c = ks.last() as int;
        edges_below(nodes, i, ks.drop_last()) + if i < c < nodes.len() {
            seq![(nodes[i].uuid, nodes[c].uuid)] + edges_from(nodes, c)
        } else {
            Seq::empty()
        }
    }
}

/// Whether `u` is the UUID of a footnote body.
pub open spec fn is_def(nodes: Seq<NodeView>, defs: Seq<(Seq<char>, usize)>, u: Seq<char>) -> bool
    decreases defs.len(),
{
    if defs.len() == 0 {
        false
    } else {
        is_def(nodes, defs.drop_last(), u) || (defs.last().1 < nodes.len() && nodes[defs.last().1 as int].uuid
            == u)
    }
}

/// The structure tree that mirrors the source tree below node `i`, footnote
/// bodies left out: its edges, and the (source, structure) pairs of its
/// nodes, depth first.
pub open spec fn scaffold_from(nodes: Seq<NodeView>, defs: Seq<(Seq<char>, usize)>, i: int) -> (
    Seq<(Seq<char>, Seq<char>)>,
    Seq<(Seq<char>, Seq<char>)>,
)
    decreases nodes.len() - i, 1int, 0int,
{
    if !(0 <= i < nodes.len()) || is_def(nodes, defs, nodes[i].uuid) {
        (Seq::empty(), Seq::empty())
    } else {
        let (e, b) = scaffold_below(nodes, defs, i, nodes[i].children);
        (e, seq![(nodes[i].uuid, structure_uuid_of(nodes[i].uuid))] + b)
    }
}

pub open spec fn scaffold_below(nodes: Seq<NodeView>, defs: Seq<(Seq<char>, usize)>, i: int, ks: Seq<usize>) -> (
    Seq<(Seq<char>, Seq<char>)>,
    Seq<(Seq<char>, Seq<char>)>,
)
    decreases nodes.len() - i, 0int, ks.len(),
{
    if ks.len() == 0 || !(0 <= i < nodes.len()) {
        (Seq::empty(), Seq::empty())
    } else {
        let (e, b) = scaffold_below(nodes, defs, i, ks.drop_last());
        let c = ks.last() as int;
        if i < c < nodes.len() && !is_def(nodes, defs, nodes[c].uuid) {
            let (e2, b2) = scaffold_from(nodes, defs, c);
            (
                e + seq![(structure_uuid_of(nodes[i].uuid), structure_uuid_of(nodes[c].uuid))] + e2,
                b + b2,
            )
        } else {
            (e, b)
        }
    }
}

/// The edges from `u` to the footnote bodies its labels `refs` name.
pub open spec fn ref_edges(nodes: Seq<NodeView>, defs: Seq<(Seq<char>, usize)>, u: Seq<char>, refs: Seq<Seq<char>>) -> Seq<
    (Seq<char>, Seq<char>),
>
    decreases refs.len(),
{
    if refs.len() == 0 {
        Seq::empty()
    } else {
        ref_edges(nodes, defs, u, refs.drop_last()) + match lookup(defs, refs.last()) {
            Some(k) => if k < nodes.len() {
                seq![(u, nodes[k as int].uuid)]
            } else {
                Seq::empty()
            },
            None => Seq::empty(),
        }
    }
}

/// The footnote edges of the first `k` nodes.
pub open spec fn footnote_edges_upto(nodes: Seq<NodeView>, defs: Seq<(Seq<char>, usize)>, k: nat) -> Seq<
    (Seq<char>, Seq<char>),
>
    decreases k,
{
    if k == 0 || k > nodes.len() {
        Seq::empty()
    } else {
        footnote_edges_upto(nodes, defs, (k - 1) as nat) + ref_edges(
            nodes,
            defs,
            nodes[k - 1].uuid,
            nodes[k - 1].refs,
        )
    }
}

/// The edges from each node to the footnote bodies it references.
pub open spec fn footnote_edges(st: ParseView) -> Seq<(Seq<char>, Seq<char>)> {
    footnote_edges_upto(st.nodes, st.defs, st.nodes.len())
}

pub open spec fn edge_line(e: (Seq<char>, Seq<char>)) -> Seq<char> {
    e.0 + ","@ + e.1
}

/// A tablet holding `es`, one `a,b` line each.
pub open spec fn tablet_of(es: Seq<(Seq<char>, Seq<char>)>) -> Seq<char> {
    if es.len() == 0 {
        Seq::empty()
    } else {
        join(es.map_values(|e: (Seq<char>, Seq<char>)| edge_line(e)), "\n"@) + "\n"@
    }
}

/// The edge lines of edges between plain identifiers read back as the edges.
pub proof fn lemma_records_of_edge_lines(es: Seq<(Seq<char>, Seq<char>)>)
    requires
        forall|k: int| 0 <= k < es.len() ==> clean_id(#[trigger] es[k].0) && clean_id(es[k].1),
    ensures
        records(es.map_values(|e: (Seq<char>, Seq<char>)| edge_line(e))) == es,
    decreases es.len(),
{
    let ls = es.map_values(|e: (Seq<char>, Seq<char>)| edge_line(e));
    if es.len() == 0 {
        assert(ls.len() == 0);
    } else {
        let d = es.drop_last();
        assert forall|k: int| 0 <= k < d.len() implies clean_id(#[trigger] d[k].0) && clean_id(d[k].1) by {
            assert(d[k] == es[k]);
        }
        lemma_records_of_edge_lines(d);
        assert(ls.drop_last() =~= d.map_values(|e: (Seq<char>, Seq<char>)| edge_line(e)));
        let e = es.last();
        assert(clean_id(es[es.len() - 1].0));
        lemma_record_of_edge(e.0, e.1);
        assert(ls.last() == edge_line(e));
        assert(d.push(e) =~= es);
    }
}

/// Tablets round-trip: a tablet written from edges between plain
/// identifiers (as every tablet `init` writes) reads back as the same edges,
/// in the same order.
pub proof fn law_tablet_round_trip(es: Seq<(Seq<char>, Seq<char>)>)
    requires
        forall|k: int| 0 <= k < es.len() ==> clean_id(#[trigger] es[k].0) && clean_id(es[k].1),
    ensures
        tablet_records(tablet_of(es)) == es,
{
    lemma_records_of_edge_lines(es);
    if es.len() == 0 {
        assert(lines(Seq::<char>::empty()) == Seq::<Seq<char>>::empty());
        assert(records(Seq::<Seq<char>>::empty()) == Seq::<(Seq<char>, Seq<char>)>::empty());
    } else {
        let ls = es.map_values(|e: (Seq<char>, Seq<char>)| edge_line(e));
        assert forall|k: int| 0 <= k < ls.len() implies plain_line(#[trigger] ls[k]) by {
            assert(clean_id(es[k].0));
            lemma_edge_line(es[k].0, es[k].1);
        }
        lemma_lines_join(ls);
    }
}

/// Edges round-trip through a tablet: loading a tablet written from edges
/// between plain identifiers gives each parent (and only those with an
/// edge) its children in the order written, and each child the parent of
/// its last edge.
pub proof fn law_edges_load_back(es: Seq<(Seq<char>, Seq<char>)>, p: Seq<char>, c: Seq<char>)
    requires
        forall|k: int| 0 <= k < es.len() ==> clean_id(#[trigger] es[k].0) && clean_id(es[k].1),
    ensures
        has_key(forward_of(tablet_records(tablet_of(es))), p) <==> rights_of(es, p).len() > 0,
        kids(forward_of(tablet_records(tablet_of(es))), p) == rights_of(es, p),
        lookup(reverse_of(tablet_records(tablet_of(es))), c) == last_left(es, c),
{
    law_tablet_round_trip(es);
    lemma_forward_keys(es, p);
    law_children_in_file_order(es, p);
    law_last_parent_wins(es, c);
}

/// Pairs as a map: keys in order of first appearance, the last value of each.
pub open spec fn map_of(ps: Seq<(Seq<char>, Seq<char>)>) -> Seq<(Seq<char>, Seq<char>)>
    decreases ps.len(),
{
    if ps.len() == 0 {
        Seq::empty()
    } else {
        set_value(map_of(ps.drop_last()), ps.last().0, ps.last().1)
    }
}

/// The schema tablet: the relations of the store.
pub open spec fn schema(with_footnotes: bool) -> Seq<char> {
    "source,child\nstructure,child\ntarget,child\nsource,structure\nstructure,target\n"@ + if with_footnotes {
        "source,footnote\n"@
    } else {
        Seq::empty()
    }
}

/// The files after `init`: the dataset file, the schema, the source and
/// structure trees, the bridge between them and, when there are any, the
/// footnote edges.
pub open spec fn init_tablets(ts: Seq<(Seq<char>, Seq<char>)>, p: ParseView, dataset: Seq<char>) -> Seq<
    (Seq<char>, Seq<char>),
> {
    let fe = footnote_edges(p);
    let sc = scaffold_from(p.nodes, p.defs, 0);
    let t1 = set_value(ts, ".csvs.csv"@, "csvs,0.0.4\nuuid,"@ + dataset + "\n"@);
    let t2 = set_value(t1, "_-_.csv"@, schema(fe.len() > 0));
    let t3 = set_value(t2, "source-child.csv"@, tablet_of(edges_from(p.nodes, 0)));
    let t4 = set_value(t3, "structure-child.csv"@, tablet_of(sc.0));
    let t5 = set_value(t4, "source-structure.csv"@, tablet_of(map_of(sc.1)));
    if fe.len() > 0 {
        set_value(t5, "source-footnote.csv"@, tablet_of(fe))
    } else {
        t5
    }
}

/// The prose blobs after writing the texts of `nodes` (empty texts skipped).
pub open spec fn init_prose(ps: Seq<(Seq<char>, Seq<char>)>, nodes: Seq<NodeView>) -> Seq<(Seq<char>, Seq<char>)>
    decreases nodes.len(),
{
    if nodes.len() == 0 {
        ps
    } else {
        let before = init_prose(ps, nodes.drop_last());
        let n = nodes.last();
        if n.text.len() > 0 {
            set_value(before, n.uuid, n.text)
        } else {
            before
        }
    }
}

/// How many nodes have no children.
pub open spec fn leaf_count(nodes: Seq<NodeView>) -> nat
    decreases nodes.len(),
{
    if nodes.len() == 0 {
        0
    } else {
        leaf_count(nodes.drop_last()) + if nodes.last().children.len() == 0 {
            1nat
        } else {
            0nat
        }
    }
}

/// How many nodes are at depth `d`.
pub open spec fn depth_count(nodes: Seq<NodeView>, d: int) -> nat
    decreases nodes.len(),
{
    if nodes.len() == 0 {
        0
    } else {
        depth_count(nodes.drop_last(), d) + if nodes.last().depth == d {
            1nat
        } else {
            0nat
        }
    }
}

/// `  depth <d>: <count>` for each depth below `k` that some node has.
pub open spec fn depth_lines(nodes: Seq<NodeView>, k: nat) -> Seq<Seq<char>>
    decreases k,
{
    if k == 0 {
        Seq::empty()
    } else {
        let d = k - 1;
        depth_lines(nodes, d as nat) + if depth_count(nodes, d) > 0 {
            seq!["  depth "@ + decimal(d as nat) + ": "@ + decimal(depth_count(nodes, d))]
        } else {
            Seq::empty()
        }
    }
}

/// The summary printed after `init`.
pub open spec fn init_summary(p: ParseView) -> Seq<Seq<char>> {
    seq![
        "initialized: "@ + decimal(p.nodes.len()) + " source nodes ("@ + decimal(leaf_count(p.nodes))
            + " leaves), "@ + decimal(scaffold_from(p.nodes, p.defs, 0).1.len()) + " structure nodes"@,
    ] + depth_lines(p.nodes, 256)
}

pub open spec fn already_initialized(c: Csvs) -> bool {
    tablet_text(c, "source-child.csv"@) is Some
}


/// What `init` prints and the files and prose blobs it leaves, or the error
/// it fails with, for a parsed document and a dataset UUID.
pub open spec fn init_outcome(c: Csvs, doc: MdNode, no_split: bool, dataset: Seq<char>) -> Result<
    (Seq<Seq<char>>, Seq<(Seq<char>, Seq<char>)>, Seq<(Seq<char>, Seq<char>)>),
    Seq<char>,
> {
    if already_initialized(c) {
        Err("Intent already initialized. Remove csvs/ to reinitialize."@)
    } else {
        let p = parsed(doc, no_split);
        Ok((init_summary(p), init_tablets(pairs(c.tablets@), p, dataset), init_prose(pairs(c.prose@), p.nodes)))
    }
}


// ---------------------------------------------------------------------------
// Parsing
// ---------------------------------------------------------------------------

/// A parsed node.
pub struct ParsedNode {
    pub uuid: String,
    pub depth: u8,
    pub text: String,
    pub children: Vec<usize>,
    pub footnote_refs: Vec<String>,
}

/// The parse so far.
pub struct ParseState {
    pub nodes: Vec<ParsedNode>,
    pub footnote_defs: Vec<(String, usize)>,
    pub occurrence: Vec<(String, usize)>,
}

pub open spec fn node_view(n: ParsedNode) -> NodeView {
    NodeView { uuid: n.uuid@, depth: n.depth, text: n.text@, children: n.children@, refs: strs(n.footnote_refs@) }
}

pub open spec fn node_views(v: Seq<ParsedNode>) -> Seq<NodeView> {
    v.map_values(|n: ParsedNode| node_view(n))
}

pub open spec fn counts(v: Seq<(String, usize)>) -> Seq<(Seq<char>, usize)> {
    v.map_values(|e: (String, usize)| (e.0@, e.1))
}

impl View for ParseState {
    type V = ParseView;

    open spec fn view(&self) -> ParseView {
        ParseView { nodes: node_views(self.nodes@), defs: counts(self.footnote_defs@), occ: counts(self.occurrence@) }
    }
}

fn count_index(v: &Vec<(String, usize)>, k: &str) -> (r: usize)
    ensures
        r as int == key_index(counts(v@), k@),
        r <= v@.len(),
{
    let kc = chars_of(k);
    let ghost cs = counts(v@);
    let mut i: usize = 0;
    while i < v.len()
        invariant
            cs == counts(v@),
            kc@ == k@,
            i <= v@.len(),
            forall|j: int| 0 <= j < i ==> (#[trigger] cs[j]).0 != k@,
        decreases v@.len() - i,
    {
        let key = chars_of(v[i].0.as_str());
        assert(cs[i as int].0 == v@[i as int].0@);
        if chars_eq(&key, &kc) {
            proof {
                lemma_key_index_is(cs, k@, i as int);
            }
            return i;
        }
        i = i + 1;
    }
    proof {
        lemma_key_index_is(cs, k@, i as int);
    }
    i
}

fn set_count(v: &mut Vec<(String, usize)>, k: &str, n: usize)
    ensures
        counts(final(v)@) == put(counts(old(v)@), k@, n),
{
    let i = count_index(v, k);
    if i < v.len() {
        let ghost before = v@;
        let (key, _old) = v.remove(i);
        v.insert(i, (key, n));
        assert(v@ =~= before.update(i as int, (key, n)));
        proof {
            lemma_key_index(counts(before), k@);
            assert(key@ == counts(before)[i as int].0);
        }
        assert(counts(v@) =~= put(counts(old(v)@), k@, n));
    } else {
        v.push((string_of(&chars_of(k)), n));
        assert(counts(v@) =~= put(counts(old(v)@), k@, n));
    }
}

fn lookup_count(v: &Vec<(String, usize)>, k: &str) -> (r: Option<usize>)
    ensures
        r == lookup(counts(v@), k@),
{
    let i = count_index(v, k);
    if i < v.len() {
        Some(v[i].1)
    } else {
        None
    }
}

/// The UUID of a source node.
fn source_uuid(text: &str, occurrence: usize) -> (r: String)
    ensures
        r@ == source_uuid_of(text@, occurrence as nat),
{
    let mut name = chars_of("source:");
    append_str(&mut name, text);
    append_str(&mut name, ":");
    append_chars(&mut name, &decimal_exec(occurrence));
    let ns = namespace();
    new_v5(&ns, string_of(&name).as_str())
}

/// The UUID of the structure node that mirrors a source node.
fn structure_uuid(source: &str) -> (r: String)
    ensures
        r@ == structure_uuid_of(source@),
{
    let mut name = chars_of("structure:");
    append_str(&mut name, source);
    let ns = namespace();
    new_v5(&ns, string_of(&name).as_str())
}

/// Appends `node` as the last child of `parent`.
fn push_child(state: &mut ParseState, parent: usize, node: ParsedNode)
    requires
        wf(old(state)@),
        parent < old(state)@.nodes.len(),
        node.children@.len() == 0,
    ensures
        final(state)@ == with_node(old(state)@, parent as int, node_view(node)),
        wf(final(state)@),
        final(state)@.nodes.len() == old(state)@.nodes.len() + 1,
{
    let idx = state.nodes.len();
    let ghost before = state@;
    state.nodes[parent].children.push(idx);
    state.nodes.push(node);
    let ghost after = with_node(before, parent as int, node_view(node));
    assert(state@.nodes =~= after.nodes);
    assert(state@ == after);
    proof {
        let ns = state@.nodes;
        assert forall|i: int, j: int| 0 <= i < ns.len() && 0 <= j < ns[i].children.len() implies i
            < #[trigger] ns[i].children[j] < ns.len() by {
            if i == parent {
                assert(ns[i].children == before.nodes[i].children.push(idx));
                if j < before.nodes[i].children.len() {
                    assert(ns[i].children[j] == before.nodes[i].children[j]);
                    assert(i < before.nodes[i].children[j] < before.nodes.len());
                } else {
                    assert(ns[i].children[j] == idx);
                    assert(idx == before.nodes.len());
                }
            } else if i < before.nodes.len() {
                assert(ns[i] == before.nodes[i]);
                assert(ns[i].children[j] == before.nodes[i].children[j]);
                assert(wf(before));
                assert(i < before.nodes[i].children[j] < before.nodes.len());
            } else {
                assert(ns[i] == node_view(node));
            }
        }
    }
}

/// Adds a node for `text` under `parent`.
fn add_text_node(state: &mut ParseState, parent: usize, depth: u8, text: String, refs: Vec<String>) -> (r: String)
    requires
        wf(old(state)@),
        parent < old(state)@.nodes.len(),
    ensures
        final(state)@ == with_text_node(old(state)@, parent as int, depth, text@, strs(refs@)),
        wf(final(state)@),
        final(state)@.nodes.len() == old(state)@.nodes.len() + 1,
        r@ == source_uuid_of(text@, occurrence(old(state)@, text@) as nat),
{
    let n = match lookup_count(&state.occurrence, text.as_str()) {
        Some(n) => n,
        None => 0,
    };
    proof {
        let es = state@.occ;
        lemma_key_index(es, text@);
        if key_index(es, text@) < es.len() {
            assert(es[key_index(es, text@)].1 <= state@.nodes.len());
        }
    }
    let uuid = source_uuid(text.as_str(), n);
    let result = copy_string(&uuid);
    let key = copy_string(&text);
    let node = ParsedNode { uuid, depth, text, children: Vec::new(), footnote_refs: refs };
    push_child(state, parent, node);
    let len = state.nodes.len();
    assert(n < len);
    let ghost mid = state@;
    set_count(&mut state.occurrence, key.as_str(), n + 1);
    proof {
        let es = mid.occ;
        lemma_key_index(es, key@);
        assert forall|j: int| 0 <= j < state@.occ.len() implies (#[trigger] state@.occ[j]).1 <= state@.nodes.len() by {
            if j < es.len() && j != key_index(es, key@) {
                assert(state@.occ[j] == es[j]);
            }
        }
    }
    result
}


pub(crate) fn copy_strings_of(v: &Vec<String>) -> (r: Vec<String>)
    ensures
        strs(r@) == strs(v@),
{
    let mut out: Vec<String> = Vec::new();
    let mut i: usize = 0;
    while i < v.len()
        invariant
            i <= v@.len(),
            strs(out@) == strs(v@).take(i as int),
        decreases v@.len() - i,
    {
        let ghost old_o = strs(out@);
        out.push(copy_string(&v[i]));
        assert(strs(out@) == old_o.push(v@[i as int]@));
        assert(strs(v@).take(i + 1) == strs(v@).take(i as int).push(v@[i as int]@));
        i = i + 1;
    }
    assert(strs(v@).take(v@.len() as int) == strs(v@));
    out
}

/// Runs of whitespace collapsed into single spaces, ends trimmed.
fn normalize_whitespace(s: &str) -> (r: String)
    ensures
        r@ == normalize(s@),
{
    let ws = split_ws_exec(&chars_of(s));
    let sp = chars_of(" ");
    string_of(&join_exec(&ws, &sp))
}

/// Whether `p` occurs in `s`.
fn has_sub_exec(s: &[char], p: &[char]) -> (r: bool)
    ensures
        r == has_sub(s@, p@),
{
    if p.len() > s.len() {
        return false;
    }
    if p.len() == 0 {
        assert(s@.subrange(0, 0 + p@.len() as int) =~= p@);
        return true;
    }
    let mut i: usize = 0;
    while i <= s.len() - p.len()
        invariant
            1 <= p@.len() <= s@.len(),
            i <= s@.len() - p@.len() + 1,
            forall|k: int| 0 <= k < i ==> #[trigger] s@.subrange(k, k + p@.len()) != p@,
        decreases s@.len() - p@.len() + 1 - i,
    {
        let w = copy_range(s, i, i + p.len());
        if chars_eq(&w, p) {
            return true;
        }
        i = i + 1;
    }
    false
}

/// The labels of `refs` whose reference `[^label]` occurs in `s`.
fn refs_in_exec(refs: &Vec<String>, s: &[char]) -> (r: Vec<String>)
    ensures
        strs(r@) == refs_in(strs(refs@), s@),
{
    let ghost rv = strs(refs@);
    let mut out: Vec<String> = Vec::new();
    let mut i: usize = 0;
    assert(rv.take(0) == Seq::<Seq<char>>::empty());
    while i < refs.len()
        invariant
            rv == strs(refs@),
            i <= refs@.len(),
            strs(out@) == refs_in(rv.take(i as int), s@),
        decreases refs@.len() - i,
    {
        assert(rv.take(i + 1).drop_last() == rv.take(i as int));
        assert(rv.take(i + 1).last() == refs@[i as int]@);
        let mut pat = chars_of("[^");
        append_str(&mut pat, refs[i].as_str());
        append_str(&mut pat, "]");
        if has_sub_exec(s, &pat) {
            let ghost old_o = strs(out@);
            out.push(copy_string(&refs[i]));
            assert(strs(out@) == old_o.push(refs@[i as int]@));
        }
        i = i + 1;
    }
    assert(rv.take(refs@.len() as int) == rv);
    out
}

/// Adds the sentences `ss` (trimmed, empty ones skipped) under the
/// paragraph `para`; returns their UUIDs.
fn add_sentences(state: &mut ParseState, ss: &Vec<String>, para: usize, depth: u8, refs: &Vec<String>) -> (r: Vec<String>)
    requires
        wf(old(state)@),
        para < old(state)@.nodes.len(),
    ensures
        (final(state)@, strs(r@)) == with_sentences(old(state)@, strs(ss@), para as int, depth, strs(refs@)),
        wf(final(state)@),
        final(state)@.nodes.len() >= old(state)@.nodes.len(),
{
    let ghost sv = strs(ss@);
    let ghost st0 = state@;
    let mut uuids: Vec<String> = Vec::new();
    let mut i: usize = 0;
    assert(sv.take(0) == Seq::<Seq<char>>::empty());
    while i < ss.len()
        invariant
            sv == strs(ss@),
            i <= ss@.len(),
            wf(state@),
            para < state@.nodes.len(),
            state@.nodes.len() >= st0.nodes.len(),
            (state@, strs(uuids@)) == with_sentences(st0, sv.take(i as int), para as int, depth, strs(refs@)),
        decreases ss@.len() - i,
    {
        assert(sv.take(i + 1).drop_last() == sv.take(i as int));
        assert(sv.take(i + 1).last() == ss@[i as int]@);
        let s = trim_exec(&chars_of(ss[i].as_str()));
        if s.len() > 0 {
            let sr = refs_in_exec(refs, &s);
            let u = add_text_node(state, para, depth, string_of(&s), sr);
            let ghost old_u = strs(uuids@);
            uuids.push(u);
            assert(strs(uuids@) == old_u.push(u@));
        }
        i = i + 1;
    }
    assert(sv.take(ss@.len() as int) == sv);
    uuids
}

/// The UUID of a paragraph split into sentences.
fn container_uuid(children: &Vec<String>) -> (r: String)
    ensures
        r@ == container_uuid_of(strs(children@)),
{
    let mut parts: Vec<Vec<char>> = Vec::new();
    let mut i: usize = 0;
    while i < children.len()
        invariant
            i <= children@.len(),
            char_vecs(parts@) == strs(children@).take(i as int),
        decreases children@.len() - i,
    {
        let ghost old_p = char_vecs(parts@);
        parts.push(chars_of(children[i].as_str()));
        assert(char_vecs(parts@) == old_p.push(children@[i as int]@));
        assert(strs(children@).take(i + 1) == strs(children@).take(i as int).push(children@[i as int]@));
        i = i + 1;
    }
    assert(strs(children@).take(children@.len() as int) == strs(children@));
    let mut name = chars_of("container:");
    let plus = chars_of("+");
    append_chars(&mut name, &join_exec(&parts, &plus));
    let ns = namespace();
    new_v5(&ns, string_of(&name).as_str())
}

/// A paragraph: one node, or a node with one child per sentence.
fn parse_paragraph(state: &mut ParseState, cs: &Vec<MdNode>, parent: usize, depth: u8, no_split: bool)
    requires
        wf(old(state)@),
        parent < old(state)@.nodes.len(),
        depth < 255,
    ensures
        final(state)@ == with_paragraph(old(state)@, cs@, parent as int, depth, no_split),
        wf(final(state)@),
        final(state)@.nodes.len() >= old(state)@.nodes.len(),
{
    let raw = extract_text(cs);
    let text = normalize_whitespace(raw.as_str());
    if text.as_str().is_empty() {
        return;
    }
    let fn_refs = collect_footnote_refs(cs);
    if no_split {
        add_text_node(state, parent, depth, text, fn_refs);
        return;
    }
    let ss = unicode_sentences(text.as_str());
    if ss.len() <= 1 {
        add_text_node(state, parent, depth, text, fn_refs);
        return;
    }
    let para = state.nodes.len();
    let placeholder = ParsedNode {
        uuid: String::new(),
        depth,
        text: String::new(),
        children: Vec::new(),
        footnote_refs: Vec::new(),
    };
    assert(placeholder.uuid@ =~= Seq::<char>::empty());
    assert(placeholder.text@ =~= Seq::<char>::empty());
    assert(strs(placeholder.footnote_refs@) =~= Seq::<Seq<char>>::empty());
    assert(node_view(placeholder) == NodeView {
        uuid: Seq::empty(),
        depth,
        text: Seq::empty(),
        children: Seq::empty(),
        refs: Seq::empty(),
    });
    push_child(state, parent, placeholder);
    let uuids = add_sentences(state, &ss, para, depth + 1, &fn_refs);
    let u = container_uuid(&uuids);
    let ghost before = state@;
    state.nodes[para].uuid = u;
    assert(state@.nodes =~= with_uuid(before, para as int, u@).nodes);
    proof {
        let ns = state@.nodes;
        assert forall|i: int, j: int| 0 <= i < ns.len() && 0 <= j < ns[i].children.len() implies i
            < #[trigger] ns[i].children[j] < ns.len() by {
            assert(ns[i].children == before.nodes[i].children);
            assert(ns[i].children[j] == before.nodes[i].children[j]);
        }
    }
}

/// The items of a list: one node per non-empty item.
fn parse_list_items(state: &mut ParseState, items: &Vec<MdNode>, parent: usize, depth: u8)
    requires
        wf(old(state)@),
        parent < old(state)@.nodes.len(),
    ensures
        final(state)@ == with_items(old(state)@, items@, parent as int, depth),
        wf(final(state)@),
        final(state)@.nodes.len() >= old(state)@.nodes.len(),
{
    let ghost st0 = state@;
    let mut i: usize = 0;
    assert(items@.take(0) == Seq::<MdNode>::empty());
    while i < items.len()
        invariant
            i <= items@.len(),
            wf(state@),
            parent < st0.nodes.len(),
            state@.nodes.len() >= st0.nodes.len(),
            state@ == with_items(st0, items@.take(i as int), parent as int, depth),
        decreases items@.len() - i,
    {
        assert(items@.take(i + 1).drop_last() == items@.take(i as int));
        assert(items@.take(i + 1).last() == items@[i as int]);
        match &items[i] {
            MdNode::ListItem(cs) => {
                let texts = texts_of_nodes(cs);
                let mut parts: Vec<Vec<char>> = Vec::new();
                let mut k: usize = 0;
                while k < texts.len()
                    invariant
                        k <= texts@.len(),
                        char_vecs(parts@) == strs(texts@).take(k as int),
                    decreases texts@.len() - k,
                {
                    let ghost old_p = char_vecs(parts@);
                    parts.push(chars_of(texts[k].as_str()));
                    assert(char_vecs(parts@) == old_p.push(texts@[k as int]@));
                    assert(strs(texts@).take(k + 1) == strs(texts@).take(k as int).push(texts@[k as int]@));
                    k = k + 1;
                }
                assert(strs(texts@).take(texts@.len() as int) == strs(texts@));
                let joined = string_of(&join_exec(&parts, &chars_of(" ")));
                let text = normalize_whitespace(joined.as_str());
                if !text.as_str().is_empty() {
                    let fn_refs = collect_item_refs(cs);
                    add_text_node(state, parent, depth, text, fn_refs);
                }
            },
            _ => {},
        }
        i = i + 1;
    }
    assert(items@.take(items@.len() as int) == items@);
}


/// Parses one block into nodes under `parent`.
fn parse_child(child: &MdNode, parent: usize, depth: u8, state: &mut ParseState, no_split: bool)
    requires
        wf(old(state)@),
        parent < old(state)@.nodes.len(),
        depth < 255,
    ensures
        final(state)@ == with_child(old(state)@, *child, parent as int, depth, no_split),
        wf(final(state)@),
        final(state)@.nodes.len() >= old(state)@.nodes.len(),
{
    match child {
        MdNode::Heading(d, cs) => {
            let text = extract_text(cs);
            let actual_depth = if *d > depth { *d } else { depth };
            let none: Vec<String> = Vec::new();
            assert(strs(none@) =~= Seq::<Seq<char>>::empty());
            add_text_node(state, parent, actual_depth, text, none);
        },
        MdNode::FootnoteDefinition(id, cs) => {
            let texts = texts_of_nodes(cs);
            let mut parts: Vec<Vec<char>> = Vec::new();
            let mut k: usize = 0;
            while k < texts.len()
                invariant
                    k <= texts@.len(),
                    char_vecs(parts@) == strs(texts@).take(k as int),
                decreases texts@.len() - k,
            {
                let ghost old_p = char_vecs(parts@);
                parts.push(chars_of(texts[k].as_str()));
                assert(char_vecs(parts@) == old_p.push(texts@[k as int]@));
                assert(strs(texts@).take(k + 1) == strs(texts@).take(k as int).push(texts@[k as int]@));
                k = k + 1;
            }
            assert(strs(texts@).take(texts@.len() as int) == strs(texts@));
            let joined = string_of(&join_exec(&parts, &chars_of("\n")));
            let text = normalize_whitespace(joined.as_str());
            let idx = state.nodes.len();
            let none: Vec<String> = Vec::new();
            assert(strs(none@) =~= Seq::<Seq<char>>::empty());
            add_text_node(state, parent, depth, text, none);
            let ghost mid = state@;
            set_count(&mut state.footnote_defs, id.as_str(), idx);
            proof {
                let es = mid.defs;
                lemma_key_index(es, id@);
                assert forall|j: int| 0 <= j < state@.defs.len() implies (#[trigger] state@.defs[j]).1
                    < state@.nodes.len() by {
                    if j < es.len() && j != key_index(es, id@) {
                        assert(state@.defs[j] == es[j]);
                    }
                }
            }
        },
        MdNode::Paragraph(cs) => {
            parse_paragraph(state, cs, parent, depth, no_split);
        },
        MdNode::List(items) => {
            parse_list_items(state, items, parent, depth);
        },
        _ => {},
    }
}

/// The open sections as indices.
pub open spec fn open_view(v: Seq<(u8, usize, u8)>) -> Seq<(u8, int, u8)> {
    v.map_values(|e: (u8, usize, u8)| (e.0, e.1 as int, e.2))
}

/// Parses the blocks `children` into nodes under `parent_idx`; a heading
/// takes the blocks after it, one level deeper, up to a heading of its
/// level or a shallower one.
fn parse_children(children: &Vec<MdNode>, parent_idx: usize, depth: u8, state: &mut ParseState, no_split: bool)
    requires
        wf(old(state)@),
        parent_idx < old(state)@.nodes.len(),
        depth < 255,
    ensures
        final(state)@ == with_children(old(state)@, children@, parent_idx as int, depth, no_split),
        wf(final(state)@),
{
    let ghost st0 = state@;
    let mut open: Vec<(u8, usize, u8)> = Vec::new();
    let mut i: usize = 0;
    assert(children@.take(0) == Seq::<MdNode>::empty());
    assert(open_view(open@) =~= Seq::<(u8, int, u8)>::empty());
    while i < children.len()
        invariant
            i <= children@.len(),
            wf(state@),
            parent_idx < st0.nodes.len(),
            depth < 255,
            state@.nodes.len() >= st0.nodes.len(),
            (state@, open_view(open@)) == with_blocks(st0, children@.take(i as int), parent_idx as int, depth, no_split),
            forall|k: int| 0 <= k < open@.len() ==> (#[trigger] open@[k]).1 < state@.nodes.len() && open@[k].2 < 255,
        decreases children@.len() - i,
    {
        assert(children@.take(i + 1).drop_last() == children@.take(i as int));
        assert(children@.take(i + 1).last() == children@[i as int]);
        let child = &children[i];
        let is_heading = match child {
            MdNode::Heading(_, _) => true,
            _ => false,
        };
        if is_heading {
            let d: u8 = match child {
                MdNode::Heading(d, _) => *d,
                _ => 0,
            };
            let ghost before = open_view(open@);
            while open.len() > 0 && open[open.len() - 1].0 >= d
                invariant
                    close_sections(open_view(open@), d) == close_sections(before, d),
                    forall|k: int| 0 <= k < open@.len() ==> (#[trigger] open@[k]).1 < state@.nodes.len() && open@[k].2 < 255,
                decreases open@.len(),
            {
                let ghost ov = open_view(open@);
                open.pop();
                assert(open_view(open@) =~= ov.drop_last());
            }
            let ghost still = open_view(open@);
            assert(still == close_sections(before, d));
            let (p, dd) = if open.len() == 0 {
                (parent_idx, depth)
            } else {
                (open[open.len() - 1].1, open[open.len() - 1].2)
            };
            assert(p as int == section_parent(still, parent_idx as int));
            assert(dd == section_depth(still, depth));
            let idx = state.nodes.len();
            parse_child(child, p, dd, state, no_split);
            let hd = if d > dd { d } else { dd };
            let inner = if hd < 254 { hd + 1 } else { 254 };
            open.push((d, idx, inner));
            assert(open_view(open@) =~= still.push((d, idx as int, inner_depth(heading_node_depth(d, dd)))));
        } else {
            let (p, dd) = if open.len() == 0 {
                (parent_idx, depth)
            } else {
                (open[open.len() - 1].1, open[open.len() - 1].2)
            };
            assert(p as int == section_parent(open_view(open@), parent_idx as int));
            assert(dd == section_depth(open_view(open@), depth));
            parse_child(child, p, dd, state, no_split);
        }
        i = i + 1;
    }
    assert(children@.take(children@.len() as int) == children@);
}

/// The root node alone.
fn root_parse_state() -> (r: ParseState)
    ensures
        r@ == root_state(),
        wf(r@),
{
    let uuid = source_uuid("", 0);
    let root = ParsedNode {
        uuid,
        depth: 0,
        text: String::new(),
        children: Vec::new(),
        footnote_refs: Vec::new(),
    };
    let mut nodes: Vec<ParsedNode> = Vec::new();
    nodes.push(root);
    let mut occurrence: Vec<(String, usize)> = Vec::new();
    occurrence.push((String::new(), 1));
    let r = ParseState { nodes, footnote_defs: Vec::new(), occurrence };
    assert(""@ =~= Seq::<char>::empty()) by {
        reveal_strlit("");
    }
    assert(root.text@ =~= Seq::<char>::empty());
    assert(strs(root.footnote_refs@) =~= Seq::<Seq<char>>::empty());
    assert(r@.nodes =~= root_state().nodes);
    assert(r@.defs =~= root_state().defs);
    assert(r@.occ =~= root_state().occ);
    r
}

/// Parses a document into the source tree.
pub fn parse_document(doc: &MdNode, no_split: bool) -> (r: ParseState)
    ensures
        r@ == parsed(*doc, no_split),
        wf(r@),
{
    let mut state = root_parse_state();
    match doc {
        MdNode::Root(cs) => {
            parse_children(cs, 0, 1, &mut state, no_split);
        },
        _ => {},
    }
    state
}

/// Collects the parent → child edges below node `idx`, depth first.
fn collect_edges(nodes: &Vec<ParsedNode>, idx: usize, edges: &mut Vec<(String, String)>)
    requires
        tree_ordered(node_views(nodes@)),
        idx < nodes@.len(),
    ensures
        pairs(final(edges)@) == pairs(old(edges)@) + edges_from(node_views(nodes@), idx as int),
    decreases nodes@.len() - idx,
{
    let ghost nv = node_views(nodes@);
    let ghost start = pairs(edges@);
    let ghost ks = nv[idx as int].children;
    let kids = &nodes[idx].children;
    assert(kids@ == ks);
    let mut k: usize = 0;
    assert(ks.take(0) == Seq::<usize>::empty());
    while k < kids.len()
        invariant
            nv == node_views(nodes@),
            tree_ordered(nv),
            idx < nv.len(),
            ks == nv[idx as int].children,
            kids@ == ks,
            k <= ks.len(),
            pairs(edges@) == start + edges_below(nv, idx as int, ks.take(k as int)),
        decreases ks.len() - k,
    {
        assert(ks.take(k + 1).drop_last() == ks.take(k as int));
        assert(ks.take(k + 1).last() == ks[k as int]);
        let c = kids[k];
        assert(idx < c < nv.len());
        let ghost old_e = pairs(edges@);
        edges.push((copy_string(&nodes[idx].uuid), copy_string(&nodes[c].uuid)));
        assert(pairs(edges@) == old_e + seq![(nv[idx as int].uuid, nv[c as int].uuid)]);
        collect_edges(nodes, c, edges);
        k = k + 1;
    }
    assert(ks.take(ks.len() as int) == ks);
}

/// Whether `u` is the UUID of a footnote body.
fn is_footnote(nodes: &Vec<ParsedNode>, defs: &Vec<(String, usize)>, u: &str) -> (r: bool)
    ensures
        r == is_def(node_views(nodes@), counts(defs@), u@),
{
    let ghost nv = node_views(nodes@);
    let ghost dv = counts(defs@);
    let uc = chars_of(u);
    let mut found = false;
    let mut j: usize = 0;
    assert(dv.take(0) == Seq::<(Seq<char>, usize)>::empty());
    while j < defs.len()
        invariant
            nv == node_views(nodes@),
            dv == counts(defs@),
            uc@ == u@,
            j <= dv.len(),
            found == is_def(nv, dv.take(j as int), u@),
        decreases dv.len() - j,
    {
        assert(dv.take(j + 1).drop_last() == dv.take(j as int));
        assert(dv.take(j + 1).last() == dv[j as int]);
        let k = defs[j].1;
        if k < nodes.len() && chars_eq(&chars_of(nodes[k].uuid.as_str()), &uc) {
            found = true;
        }
        j = j + 1;
    }
    assert(dv.take(dv.len() as int) == dv);
    found
}

/// The structure tree mirroring the source tree below `source_idx`,
/// footnote bodies left out: its edges and its (source, structure) pairs.
fn build_structure_scaffold(
    source_nodes: &Vec<ParsedNode>,
    source_idx: usize,
    defs: &Vec<(String, usize)>,
    edges: &mut Vec<(String, String)>,
    bridge: &mut Vec<(String, String)>,
)
    requires
        tree_ordered(node_views(source_nodes@)),
        source_idx < source_nodes@.len(),
    ensures
        pairs(final(edges)@) == pairs(old(edges)@) + scaffold_from(
            node_views(source_nodes@),
            counts(defs@),
            source_idx as int,
        ).0,
        pairs(final(bridge)@) == pairs(old(bridge)@) + scaffold_from(
            node_views(source_nodes@),
            counts(defs@),
            source_idx as int,
        ).1,
    decreases source_nodes@.len() - source_idx,
{
    let ghost nv = node_views(source_nodes@);
    let ghost dv = counts(defs@);
    let source = &source_nodes[source_idx];
    if is_footnote(source_nodes, defs, source.uuid.as_str()) {
        return;
    }
    let struct_uuid = structure_uuid(source.uuid.as_str());
    let ghost b0 = pairs(bridge@);
    bridge.push((copy_string(&source.uuid), copy_string(&struct_uuid)));
    assert(pairs(bridge@) == b0 + seq![(nv[source_idx as int].uuid, structure_uuid_of(nv[source_idx as int].uuid))]);
    let ghost e_start = pairs(edges@);
    let ghost b_start = pairs(bridge@);
    let ghost ks = nv[source_idx as int].children;
    let kids = &source.children;
    assert(kids@ == ks);
    let mut k: usize = 0;
    assert(ks.take(0) == Seq::<usize>::empty());
    while k < kids.len()
        invariant
            nv == node_views(source_nodes@),
            dv == counts(defs@),
            tree_ordered(nv),
            source_idx < nv.len(),
            ks == nv[source_idx as int].children,
            kids@ == ks,
            struct_uuid@ == structure_uuid_of(nv[source_idx as int].uuid),
            k <= ks.len(),
            pairs(edges@) == e_start + scaffold_below(nv, dv, source_idx as int, ks.take(k as int)).0,
            pairs(bridge@) == b_start + scaffold_below(nv, dv, source_idx as int, ks.take(k as int)).1,
        decreases ks.len() - k,
    {
        assert(ks.take(k + 1).drop_last() == ks.take(k as int));
        assert(ks.take(k + 1).last() == ks[k as int]);
        let c = kids[k];
        assert(source_idx < c < nv.len());
        if !is_footnote(source_nodes, defs, source_nodes[c].uuid.as_str()) {
            let child_struct = structure_uuid(source_nodes[c].uuid.as_str());
            let ghost old_e = pairs(edges@);
            edges.push((copy_string(&struct_uuid), child_struct));
            assert(pairs(edges@) == old_e + seq![
                (structure_uuid_of(nv[source_idx as int].uuid), structure_uuid_of(nv[c as int].uuid)),
            ]);
            build_structure_scaffold(source_nodes, c, defs, edges, bridge);
        }
        k = k + 1;
    }
    assert(ks.take(ks.len() as int) == ks);
}

/// The edges from each node to the footnote bodies its text references.
fn collect_footnote_edges(nodes: &Vec<ParsedNode>, defs: &Vec<(String, usize)>) -> (r: Vec<(String, String)>)
    requires
        forall|j: int| 0 <= j < defs@.len() ==> (#[trigger] defs@[j]).1 < nodes@.len(),
    ensures
        pairs(r@) == footnote_edges_upto(node_views(nodes@), counts(defs@), nodes@.len()),
{
    let ghost nv = node_views(nodes@);
    let ghost dv = counts(defs@);
    let mut out: Vec<(String, String)> = Vec::new();
    let mut i: usize = 0;
    while i < nodes.len()
        invariant
            nv == node_views(nodes@),
            dv == counts(defs@),
            forall|j: int| 0 <= j < defs@.len() ==> (#[trigger] defs@[j]).1 < nodes@.len(),
            i <= nodes@.len(),
            pairs(out@) == footnote_edges_upto(nv, dv, i as nat),
        decreases nodes@.len() - i,
    {
        let node = &nodes[i];
        let ghost rs = nv[i as int].refs;
        let ghost before = pairs(out@);
        let mut j: usize = 0;
        assert(rs.take(0) == Seq::<Seq<char>>::empty());
        while j < node.footnote_refs.len()
            invariant
                nv == node_views(nodes@),
                dv == counts(defs@),
                forall|m: int| 0 <= m < defs@.len() ==> (#[trigger] defs@[m]).1 < nodes@.len(),
                i < nodes@.len(),
                node == &nodes@[i as int],
                rs == strs(node.footnote_refs@),
                j <= rs.len(),
                pairs(out@) == before + ref_edges(nv, dv, nv[i as int].uuid, rs.take(j as int)),
            decreases rs.len() - j,
        {
            assert(rs.take(j + 1).drop_last() == rs.take(j as int));
            assert(rs.take(j + 1).last() == node.footnote_refs@[j as int]@);
            match lookup_count(defs, node.footnote_refs[j].as_str()) {
                Some(k) => {
                    proof {
                        lemma_key_index(dv, rs[j as int]);
                        assert(dv[key_index(dv, rs[j as int])].1 == defs@[key_index(dv, rs[j as int])].1);
                    }
                    let ghost old_o = pairs(out@);
                    out.push((copy_string(&node.uuid), copy_string(&nodes[k].uuid)));
                    assert(pairs(out@) == old_o + seq![(nv[i as int].uuid, nv[k as int].uuid)]);
                },
                None => {},
            }
            j = j + 1;
        }
        assert(rs.take(rs.len() as int) == rs);
        i = i + 1;
    }
    out
}

/// The text of a tablet holding `edges`.
fn tablet_text_of(edges: &Vec<(String, String)>) -> (r: String)
    ensures
        r@ == tablet_of(pairs(edges@)),
{
    if edges.len() == 0 {
        return String::new();
    }
    let ghost ev = pairs(edges@);
    let ghost lv = ev.map_values(|e: (Seq<char>, Seq<char>)| edge_line(e));
    let mut lines: Vec<Vec<char>> = Vec::new();
    let mut i: usize = 0;
    while i < edges.len()
        invariant
            ev == pairs(edges@),
            lv == ev.map_values(|e: (Seq<char>, Seq<char>)| edge_line(e)),
            i <= edges@.len(),
            char_vecs(lines@) == lv.take(i as int),
        decreases edges@.len() - i,
    {
        let mut line = chars_of(edges[i].0.as_str());
        append_str(&mut line, ",");
        append_str(&mut line, edges[i].1.as_str());
        let ghost old_l = char_vecs(lines@);
        lines.push(line);
        assert(char_vecs(lines@) == old_l.push(line@));
        assert(lv.take(i + 1) == lv.take(i as int).push(lv[i as int]));
        i = i + 1;
    }
    assert(lv.take(edges@.len() as int) == lv);
    let mut text = join_exec(&lines, &chars_of("\n"));
    append_str(&mut text, "\n");
    string_of(&text)
}

/// Pairs as a map: keys in order of first appearance, the last value of each.
fn map_of_pairs(ps: &Vec<(String, String)>) -> (r: Vec<(String, String)>)
    ensures
        pairs(r@) == map_of(pairs(ps@)),
{
    let ghost pv = pairs(ps@);
    let mut out: Vec<(String, String)> = Vec::new();
    let mut i: usize = 0;
    assert(pv.take(0) == Seq::<(Seq<char>, Seq<char>)>::empty());
    while i < ps.len()
        invariant
            pv == pairs(ps@),
            i <= ps@.len(),
            pairs(out@) == map_of(pv.take(i as int)),
        decreases ps@.len() - i,
    {
        assert(pv.take(i + 1).drop_last() == pv.take(i as int));
        assert(pv.take(i + 1).last() == pv[i as int]);
        crate::store::set_pair(&mut out, ps[i].0.as_str(), ps[i].1.as_str());
        i = i + 1;
    }
    assert(pv.take(ps@.len() as int) == pv);
    out
}

/// Writes the texts of the nodes as prose blobs (empty texts skipped).
fn write_prose_blobs(csvs: &mut Csvs, nodes: &Vec<ParsedNode>)
    ensures
        pairs(final(csvs).prose@) == init_prose(pairs(old(csvs).prose@), node_views(nodes@)),
        final(csvs).tablets == old(csvs).tablets,
{
    let ghost nv = node_views(nodes@);
    let ghost p0 = pairs(csvs.prose@);
    let ghost t0 = csvs.tablets;
    let mut i: usize = 0;
    assert(nv.take(0) == Seq::<NodeView>::empty());
    while i < nodes.len()
        invariant
            nv == node_views(nodes@),
            i <= nodes@.len(),
            pairs(csvs.prose@) == init_prose(p0, nv.take(i as int)),
            csvs.tablets == t0,
        decreases nodes@.len() - i,
    {
        assert(nv.take(i + 1).drop_last() == nv.take(i as int));
        assert(nv.take(i + 1).last() == nv[i as int]);
        if !nodes[i].text.as_str().is_empty() {
            csvs.write_prose(nodes[i].uuid.as_str(), nodes[i].text.as_str());
        }
        i = i + 1;
    }
    assert(nv.take(nodes@.len() as int) == nv);
}

/// The summary printed after `init`.
fn summary_lines(nodes: &Vec<ParsedNode>, structure_count: usize) -> (r: Vec<String>)
    ensures
        strs(r@) == seq![
            "initialized: "@ + decimal(nodes@.len()) + " source nodes ("@ + decimal(
                leaf_count(node_views(nodes@)),
            ) + " leaves), "@ + decimal(structure_count as nat) + " structure nodes"@,
        ] + depth_lines(node_views(nodes@), 256),
{
    let ghost nv = node_views(nodes@);
    let mut leaves: usize = 0;
    let mut i: usize = 0;
    assert(nv.take(0) == Seq::<NodeView>::empty());
    while i < nodes.len()
        invariant
            nv == node_views(nodes@),
            i <= nodes@.len(),
            leaves == leaf_count(nv.take(i as int)),
            leaves <= i,
        decreases nodes@.len() - i,
    {
        assert(nv.take(i + 1).drop_last() == nv.take(i as int));
        assert(nv.take(i + 1).last() == nv[i as int]);
        if nodes[i].children.len() == 0 {
            leaves = leaves + 1;
        }
        i = i + 1;
    }
    assert(nv.take(nodes@.len() as int) == nv);
    let mut first = chars_of("initialized: ");
    append_chars(&mut first, &decimal_exec(nodes.len()));
    append_str(&mut first, " source nodes (");
    append_chars(&mut first, &decimal_exec(leaves));
    append_str(&mut first, " leaves), ");
    append_chars(&mut first, &decimal_exec(structure_count));
    append_str(&mut first, " structure nodes");
    let mut out: Vec<String> = Vec::new();
    out.push(string_of(&first));
    let ghost head = strs(out@);
    let mut d: u16 = 0;
    while d < 256
        invariant
            nv == node_views(nodes@),
            d <= 256,
            strs(out@) == head + depth_lines(nv, d as nat),
        decreases 256 - d,
    {
        let mut count: usize = 0;
        let mut j: usize = 0;
        assert(nv.take(0) == Seq::<NodeView>::empty());
        while j < nodes.len()
            invariant
                nv == node_views(nodes@),
                j <= nodes@.len(),
                count == depth_count(nv.take(j as int), d as int),
                count <= j,
            decreases nodes@.len() - j,
        {
            assert(nv.take(j + 1).drop_last() == nv.take(j as int));
            assert(nv.take(j + 1).last() == nv[j as int]);
            if nodes[j].depth as u16 == d {
                count = count + 1;
            }
            j = j + 1;
        }
        assert(nv.take(nodes@.len() as int) == nv);
        if count > 0 {
            let mut line = chars_of("  depth ");
            append_chars(&mut line, &decimal_exec(d as usize));
            append_str(&mut line, ": ");
            append_chars(&mut line, &decimal_exec(count));
            let ghost old_o = strs(out@);
            out.push(string_of(&line));
            assert(strs(out@) == old_o.push(line@));
        }
        d = d + 1;
    }
    out
}


/// Writes the source and structure trees of a parsed document, with the
/// given dataset UUID; returns the summary lines.
pub fn init_from_tree(csvs: &mut Csvs, doc: &MdNode, no_split: bool, dataset_uuid: &str) -> (r: Result<Vec<String>, String>)
    ensures
        match init_outcome(*old(csvs), *doc, no_split, dataset_uuid@) {
            Ok((lines, ts, ps)) => r matches Ok(v) && strs(v@) == lines && pairs(final(csvs).tablets@) == ts
                && pairs(final(csvs).prose@) == ps,
            Err(m) => r matches Err(e) && e@ == m && *final(csvs) == *old(csvs),
        },
{
    if csvs.tablet("source-child.csv").is_some() {
        return Err(string_of(&chars_of("Intent already initialized. Remove csvs/ to reinitialize.")));
    }
    let ghost c0 = *csvs;
    let state = parse_document(doc, no_split);
    let ghost p = state@;
    let nodes = &state.nodes;
    let mut source_child: Vec<(String, String)> = Vec::new();
    collect_edges(nodes, 0, &mut source_child);
    assert(pairs(source_child@) =~= edges_from(p.nodes, 0));
    assert forall|j: int| 0 <= j < state.footnote_defs@.len() implies (#[trigger] state.footnote_defs@[j]).1
        < nodes@.len() by {
        assert(p.defs[j].1 == state.footnote_defs@[j].1);
    }
    let source_footnote = collect_footnote_edges(nodes, &state.footnote_defs);
    assert(pairs(source_footnote@) == footnote_edges(p));
    let mut structure_child: Vec<(String, String)> = Vec::new();
    let mut source_to_structure: Vec<(String, String)> = Vec::new();
    build_structure_scaffold(nodes, 0, &state.footnote_defs, &mut structure_child, &mut source_to_structure);
    assert(pairs(structure_child@) =~= scaffold_from(p.nodes, p.defs, 0).0);
    assert(pairs(source_to_structure@) =~= scaffold_from(p.nodes, p.defs, 0).1);

    let mut dataset = chars_of("csvs,0.0.4\nuuid,");
    append_str(&mut dataset, dataset_uuid);
    append_str(&mut dataset, "\n");
    csvs.write_tablet(".csvs.csv", string_of(&dataset).as_str());
    let mut schema_text = chars_of("source,child\nstructure,child\ntarget,child\nsource,structure\nstructure,target\n");
    if source_footnote.len() > 0 {
        append_str(&mut schema_text, "source,footnote\n");
    } else {
        assert(schema_text@ =~= schema(false));
    }
    csvs.write_tablet("_-_.csv", string_of(&schema_text).as_str());
    csvs.write_tablet("source-child.csv", tablet_text_of(&source_child).as_str());
    csvs.write_tablet("structure-child.csv", tablet_text_of(&structure_child).as_str());
    let bridge = map_of_pairs(&source_to_structure);
    csvs.write_tablet("source-structure.csv", tablet_text_of(&bridge).as_str());
    if source_footnote.len() > 0 {
        csvs.write_tablet("source-footnote.csv", tablet_text_of(&source_footnote).as_str());
    }
    let ghost t_done = csvs.tablets;
    write_prose_blobs(csvs, nodes);
    assert(pairs(csvs.tablets@) == init_tablets(pairs(c0.tablets@), p, dataset_uuid@));
    let lines = summary_lines(nodes, source_to_structure.len());
    Ok(lines)
}

/// Parses a markdown document into source and structure trees and writes
/// their tablets and prose blobs; returns the summary lines.
pub fn run(csvs: &mut Csvs, md_text: &str, no_split: bool) -> (r: Result<Vec<String>, String>)
    ensures
        already_initialized(*old(csvs)) ==> (r matches Err(e) && e@
            == "Intent already initialized. Remove csvs/ to reinitialize."@ && *final(csvs) == *old(csvs)),
        !already_initialized(*old(csvs)) ==> match gfm_tree(md_text@) {
            None => r matches Err(e) && e@.len() >= 22 && e@.take(22) == "Markdown parse error: "@
                && *final(csvs) == *old(csvs),
            Some(tree) => if fits(tree, usize::MAX as nat) {
                r matches Ok(v) && exists|doc: MdNode, ds: Seq<char>|
                    md_view(doc) == tree && hyphenated(ds) && #[trigger] init_outcome(*old(csvs), doc, no_split, ds)
                        == Ok::<
                        (Seq<Seq<char>>, Seq<(Seq<char>, Seq<char>)>, Seq<(Seq<char>, Seq<char>)>),
                        Seq<char>,
                    >((strs(v@), pairs(final(csvs).tablets@), pairs(final(csvs).prose@)))
            } else {
                r matches Err(e) && e@ == "Markdown parse error: the document nests too deeply"@
                    && *final(csvs) == *old(csvs)
            },
        },
{
    if csvs.tablet("source-child.csv").is_some() {
        return Err(string_of(&chars_of("Intent already initialized. Remove csvs/ to reinitialize.")));
    }
    let doc = match parse_markdown(md_text) {
        Ok(d) => d,
        Err(m) => {
            let mut msg = chars_of("Markdown parse error: ");
            proof {
                reveal_strlit("Markdown parse error: ");
            }
            append_str(&mut msg, m.as_str());
            assert(msg@.take(22) =~= "Markdown parse error: "@);
            proof {
                reveal_strlit("the document nests too deeply");
                reveal_strlit("Markdown parse error: the document nests too deeply");
                if gfm_tree(md_text@) is Some {
                    assert(msg@ =~= "Markdown parse error: the document nests too deeply"@);
                }
            }
            return Err(string_of(&msg));
        },
    };
    let dataset_uuid = new_v4();
    let r = init_from_tree(csvs, &doc, no_split, dataset_uuid.as_str());
    proof {
        if r is Ok {
            let v = r->Ok_0;
            assert(hyphenated(dataset_uuid@));
            assert(init_outcome(*old(csvs), doc, no_split, dataset_uuid@) == Ok::<
                (Seq<Seq<char>>, Seq<(Seq<char>, Seq<char>)>, Seq<(Seq<char>, Seq<char>)>),
                Seq<char>,
            >((strs(v@), pairs(csvs.tablets@), pairs(csvs.prose@))));
        }
    }
    r
}


// ---------------------------------------------------------------------------
// Laws
// ---------------------------------------------------------------------------

/// Each (source, structure) pair of the scaffold below node `i` pairs a
/// source node with the structure UUID made from it.
pub proof fn law_bridge_pairs_mirror(nodes: Seq<NodeView>, defs: Seq<(Seq<char>, usize)>, i: int)
    ensures
        forall|k: int|
            0 <= k < scaffold_from(nodes, defs, i).1.len() ==> (#[trigger] scaffold_from(nodes, defs, i).1[k]).1
                == structure_uuid_of(scaffold_from(nodes, defs, i).1[k].0),
    decreases nodes.len() - i, 1int, 0int,
{
    if 0 <= i < nodes.len() && !is_def(nodes, defs, nodes[i].uuid) {
        lemma_bridge_below_mirror(nodes, defs, i, nodes[i].children);
        let b = scaffold_below(nodes, defs, i, nodes[i].children).1;
        let all = seq![(nodes[i].uuid, structure_uuid_of(nodes[i].uuid))] + b;
        assert forall|k: int| 0 <= k < all.len() implies (#[trigger] all[k]).1 == structure_uuid_of(all[k].0) by {
            if k > 0 {
                assert(all[k] == b[k - 1]);
            }
        }
    }
}

#[verifier::spinoff_prover]
pub proof fn lemma_bridge_below_mirror(nodes: Seq<NodeView>, defs: Seq<(Seq<char>, usize)>, i: int, ks: Seq<usize>)
    ensures
        forall|k: int|
            0 <= k < scaffold_below(nodes, defs, i, ks).1.len() ==> (#[trigger] scaffold_below(
                nodes,
                defs,
                i,
                ks,
            ).1[k]).1 == structure_uuid_of(scaffold_below(nodes, defs, i, ks).1[k].0),
    decreases nodes.len() - i, 0int, ks.len(),
{
    if ks.len() > 0 && 0 <= i < nodes.len() {
        lemma_bridge_below_mirror(nodes, defs, i, ks.drop_last());
        let c = ks.last() as int;
        if i < c < nodes.len() && !is_def(nodes, defs, nodes[c].uuid) {
            law_bridge_pairs_mirror(nodes, defs, c);
            let b = scaffold_below(nodes, defs, i, ks.drop_last()).1;
            let b2 = scaffold_from(nodes, defs, c).1;
            let all = b + b2;
            assert forall|k: int| 0 <= k < all.len() implies (#[trigger] all[k]).1 == structure_uuid_of(all[k].0) by {
                if k < b.len() {
                    assert(all[k] == b[k]);
                } else {
                    assert(all[k] == b2[k - b.len()]);
                }
            }
        }
    }
}

/// Source edges with both ends replaced by their structure UUIDs.
pub open spec fn mirrored(es: Seq<(Seq<char>, Seq<char>)>) -> Seq<(Seq<char>, Seq<char>)> {
    es.map_values(|e: (Seq<char>, Seq<char>)| (structure_uuid_of(e.0), structure_uuid_of(e.1)))
}

/// Structural fidelity: without footnote bodies, the structure tree is the
/// source tree with every node replaced by its structure counterpart — edge
/// for edge, in the same order.
pub proof fn law_structure_mirrors_source(nodes: Seq<NodeView>, i: int)
    ensures
        scaffold_from(nodes, Seq::empty(), i).0 == mirrored(edges_from(nodes, i)),
    decreases nodes.len() - i, 1int, 0int,
{
    if 0 <= i < nodes.len() {
        lemma_below_mirrors(nodes, i, nodes[i].children);
    } else {
        assert(mirrored(Seq::<(Seq<char>, Seq<char>)>::empty()) =~= Seq::<(Seq<char>, Seq<char>)>::empty());
    }
}

pub proof fn lemma_below_mirrors(nodes: Seq<NodeView>, i: int, ks: Seq<usize>)
    ensures
        scaffold_below(nodes, Seq::empty(), i, ks).0 == mirrored(edges_below(nodes, i, ks)),
    decreases nodes.len() - i, 0int, ks.len(),
{
    if ks.len() == 0 || !(0 <= i < nodes.len()) {
        assert(mirrored(Seq::<(Seq<char>, Seq<char>)>::empty()) =~= Seq::<(Seq<char>, Seq<char>)>::empty());
    } else {
        lemma_below_mirrors(nodes, i, ks.drop_last());
        let c = ks.last() as int;
        let front = edges_below(nodes, i, ks.drop_last());
        if i < c < nodes.len() {
            law_structure_mirrors_source(nodes, c);
            let tail = seq![(nodes[i].uuid, nodes[c].uuid)] + edges_from(nodes, c);
            assert(mirrored(front + tail) =~= mirrored(front) + seq![
                (structure_uuid_of(nodes[i].uuid), structure_uuid_of(nodes[c].uuid)),
            ] + mirrored(edges_from(nodes, c)));
        } else {
            assert(front + Seq::<(Seq<char>, Seq<char>)>::empty() =~= front);
        }
    }
}

/// Parsing only adds nodes.
pub proof fn lemma_sentences_len(st: ParseView, ss: Seq<Seq<char>>, para: int, depth: u8, refs: Seq<Seq<char>>)
    requires
        0 <= para < st.nodes.len(),
    ensures
        with_sentences(st, ss, para, depth, refs).0.nodes.len() >= st.nodes.len(),
    decreases ss.len(),
{
    if ss.len() > 0 {
        lemma_sentences_len(st, ss.drop_last(), para, depth, refs);
    }
}

pub proof fn lemma_items_len(st: ParseView, items: Seq<MdNode>, parent: int, depth: u8)
    requires
        0 <= parent < st.nodes.len(),
    ensures
        with_items(st, items, parent, depth).nodes.len() >= st.nodes.len(),
    decreases items.len(),
{
    if items.len() > 0 {
        lemma_items_len(st, items.drop_last(), parent, depth);
    }
}

pub proof fn lemma_child_len(st: ParseView, child: MdNode, parent: int, depth: u8, no_split: bool)
    requires
        0 <= parent < st.nodes.len(),
    ensures
        with_child(st, child, parent, depth, no_split).nodes.len() >= st.nodes.len(),
{
    match child {
        MdNode::Paragraph(cs) => {
            let text = normalize(inline_text(cs@));
            if text.len() > 0 && !(no_split || sentences(text).len() <= 1) {
                let n = NodeView {
                    uuid: Seq::empty(),
                    depth,
                    text: Seq::empty(),
                    children: Seq::empty(),
                    refs: Seq::empty(),
                };
                lemma_sentences_len(with_node(st, parent, n), sentences(text), st.nodes.len() as int, (depth + 1) as u8, inline_refs(cs@));
            }
        },
        MdNode::List(items) => {
            lemma_items_len(st, items@, parent, depth);
        },
        _ => {},
    }
}

/// The sections a heading leaves open are the first of those open before it.
pub proof fn lemma_close_sections(open: Seq<(u8, int, u8)>, d: u8)
    ensures
        close_sections(open, d).len() <= open.len(),
        forall|k: int| 0 <= k < close_sections(open, d).len() ==> #[trigger] close_sections(open, d)[k] == open[k],
    decreases open.len(),
{
    if open.len() > 0 && open.last().0 >= d {
        lemma_close_sections(open.drop_last(), d);
    }
}

/// Parsing blocks only adds nodes, and every open section is a node.
pub proof fn lemma_blocks_len(st: ParseView, cs: Seq<MdNode>, parent: int, depth: u8, no_split: bool)
    requires
        0 <= parent < st.nodes.len(),
    ensures
        with_blocks(st, cs, parent, depth, no_split).0.nodes.len() >= st.nodes.len(),
        forall|k: int|
            0 <= k < with_blocks(st, cs, parent, depth, no_split).1.len() ==> 0 <= (#[trigger] with_blocks(
                st,
                cs,
                parent,
                depth,
                no_split,
            ).1[k]).1 < with_blocks(st, cs, parent, depth, no_split).0.nodes.len(),
    decreases cs.len(),
{
    if cs.len() > 0 {
        lemma_blocks_len(st, cs.drop_last(), parent, depth, no_split);
        let (st1, open) = with_blocks(st, cs.drop_last(), parent, depth, no_split);
        let r = with_blocks(st, cs, parent, depth, no_split);
        match cs.last() {
            MdNode::Heading(d, _) => {
                let still = close_sections(open, d);
                lemma_close_sections(open, d);
                assert(forall|k: int| 0 <= k < still.len() ==> #[trigger] still[k] == open[k]);
                let p = section_parent(still, parent);
                if still.len() > 0 {
                    assert(still.last() == open[still.len() - 1]);
                }
                lemma_child_len(st1, cs.last(), p, section_depth(still, depth), no_split);
                assert forall|k: int| 0 <= k < r.1.len() implies 0 <= (#[trigger] r.1[k]).1 < r.0.nodes.len() by {
                    if k < still.len() {
                        assert(r.1[k] == open[k]);
                    }
                }
            },
            _ => {
                let p = section_parent(open, parent);
                lemma_child_len(st1, cs.last(), p, section_depth(open, depth), no_split);
            },
        }
    }
}

/// Footnote bodies are indices of leaves (and never the root).
pub open spec fn footnotes_are_leaves(st: ParseView) -> bool {
    forall|j: int|
        0 <= j < st.defs.len() ==> 1 <= (#[trigger] st.defs[j]).1 < st.nodes.len() && st.nodes[st.defs[j].1 as int].children.len()
            == 0
}

/// No footnote body is node `p`.
pub open spec fn not_a_footnote(st: ParseView, p: int) -> bool {
    forall|j: int| 0 <= j < st.defs.len() ==> (#[trigger] st.defs[j]).1 != p
}

pub proof fn lemma_put_entries<V>(es: Seq<(Seq<char>, V)>, k: Seq<char>, v: V)
    ensures
        forall|j: int|
            0 <= j < put(es, k, v).len() ==> (#[trigger] put(es, k, v)[j]) == (k, v) || (j < es.len() && put(
                es,
                k,
                v,
            )[j] == es[j]),
{
}

pub proof fn lemma_with_node_leaves(st: ParseView, parent: int, n: NodeView)
    requires
        footnotes_are_leaves(st),
        not_a_footnote(st, parent),
        0 <= parent < st.nodes.len(),
    ensures
        footnotes_are_leaves(with_node(st, parent, n)),
        with_node(st, parent, n).defs == st.defs,
        with_node(st, parent, n).nodes.len() == st.nodes.len() + 1,
{
    let r = with_node(st, parent, n);
    assert forall|j: int| 0 <= j < r.defs.len() implies 1 <= (#[trigger] r.defs[j]).1 < r.nodes.len()
        && r.nodes[r.defs[j].1 as int].children.len() == 0 by {
        let d = st.defs[j].1 as int;
        assert(d != parent);
        assert(r.nodes[d] == st.nodes[d]);
    }
}

pub proof fn lemma_text_node_leaves(st: ParseView, parent: int, depth: u8, text: Seq<char>, refs: Seq<Seq<char>>)
    requires
        footnotes_are_leaves(st),
        not_a_footnote(st, parent),
        0 <= parent < st.nodes.len(),
    ensures
        footnotes_are_leaves(with_text_node(st, parent, depth, text, refs)),
        with_text_node(st, parent, depth, text, refs).defs == st.defs,
        with_text_node(st, parent, depth, text, refs).nodes.len() == st.nodes.len() + 1,
{
    let n = occurrence(st, text);
    lemma_with_node_leaves(
        st,
        parent,
        NodeView { uuid: source_uuid_of(text, n as nat), depth, text, children: Seq::empty(), refs },
    );
}

pub proof fn lemma_sentences_leaves(st: ParseView, ss: Seq<Seq<char>>, para: int, depth: u8, refs: Seq<Seq<char>>)
    requires
        footnotes_are_leaves(st),
        not_a_footnote(st, para),
        0 <= para < st.nodes.len(),
    ensures
        footnotes_are_leaves(with_sentences(st, ss, para, depth, refs).0),
        with_sentences(st, ss, para, depth, refs).0.defs == st.defs,
        with_sentences(st, ss, para, depth, refs).0.nodes.len() >= st.nodes.len(),
    decreases ss.len(),
{
    if ss.len() > 0 {
        lemma_sentences_leaves(st, ss.drop_last(), para, depth, refs);
        let st1 = with_sentences(st, ss.drop_last(), para, depth, refs).0;
        let s = trim(ss.last());
        if s.len() > 0 {
            lemma_text_node_leaves(st1, para, depth, s, refs_in(refs, s));
        }
    }
}

pub proof fn lemma_items_leaves(st: ParseView, items: Seq<MdNode>, parent: int, depth: u8)
    requires
        footnotes_are_leaves(st),
        not_a_footnote(st, parent),
        0 <= parent < st.nodes.len(),
    ensures
        footnotes_are_leaves(with_items(st, items, parent, depth)),
        with_items(st, items, parent, depth).defs == st.defs,
        with_items(st, items, parent, depth).nodes.len() >= st.nodes.len(),
    decreases items.len(),
{
    if items.len() > 0 {
        lemma_items_leaves(st, items.drop_last(), parent, depth);
        let st1 = with_items(st, items.drop_last(), parent, depth);
        match items.last() {
            MdNode::ListItem(cs) => {
                let text = normalize(join(node_texts(cs@), " "@));
                if text.len() > 0 {
                    lemma_text_node_leaves(st1, parent, depth, text, item_refs(cs@));
                }
            },
            _ => {},
        }
    }
}

pub proof fn lemma_child_leaves(st: ParseView, child: MdNode, parent: int, depth: u8, no_split: bool)
    requires
        footnotes_are_leaves(st),
        not_a_footnote(st, parent),
        0 <= parent < st.nodes.len(),
        with_child(st, child, parent, depth, no_split).nodes.len() <= usize::MAX,
    ensures
        footnotes_are_leaves(with_child(st, child, parent, depth, no_split)),
        not_a_footnote(with_child(st, child, parent, depth, no_split), parent),
        with_child(st, child, parent, depth, no_split).nodes.len() >= st.nodes.len(),
{
    match child {
        MdNode::Heading(d, cs) => {
            lemma_text_node_leaves(
                st,
                parent,
                if d > depth {
                    d
                } else {
                    depth
                },
                inline_text(cs@),
                Seq::empty(),
            );
        },
        MdNode::FootnoteDefinition(id, cs) => {
            let text = normalize(join(node_texts(cs@), "\n"@));
            lemma_text_node_leaves(st, parent, depth, text, Seq::empty());
            let st1 = with_text_node(st, parent, depth, text, Seq::empty());
            let r = with_child(st, child, parent, depth, no_split);
            lemma_put_entries(st1.defs, id@, st.nodes.len() as usize);
            let idx = st.nodes.len() as int;
            assert(r.nodes == st1.nodes);
            assert(st1.nodes[idx].children.len() == 0);
            assert forall|j: int| 0 <= j < r.defs.len() implies 1 <= (#[trigger] r.defs[j]).1 < r.nodes.len()
                && r.nodes[r.defs[j].1 as int].children.len() == 0 by {
                if r.defs[j] != (id@, st.nodes.len() as usize) {
                    assert(r.defs[j] == st1.defs[j]);
                } else {
                    assert(r.defs[j].1 as int == idx);
                }
            }
            assert forall|j: int| 0 <= j < r.defs.len() implies (#[trigger] r.defs[j]).1 != parent by {
                if r.defs[j] != (id@, st.nodes.len() as usize) {
                    assert(r.defs[j] == st1.defs[j]);
                }
            }
        },
        MdNode::Paragraph(cs) => {
            let text = normalize(inline_text(cs@));
            let refs = inline_refs(cs@);
            if text.len() == 0 {
            } else if no_split || sentences(text).len() <= 1 {
                lemma_text_node_leaves(st, parent, depth, text, refs);
            } else {
                let para = st.nodes.len() as int;
                let n = NodeView {
                    uuid: Seq::empty(),
                    depth,
                    text: Seq::empty(),
                    children: Seq::empty(),
                    refs: Seq::empty(),
                };
                lemma_with_node_leaves(st, parent, n);
                let st1 = with_node(st, parent, n);
                lemma_sentences_leaves(st1, sentences(text), para, (depth + 1) as u8, refs);
            }
        },
        MdNode::List(items) => {
            lemma_items_leaves(st, items@, parent, depth);
        },
        _ => {},
    }
}

/// The footnote bodies after some sentences are those before.
pub proof fn lemma_sentences_defs(st: ParseView, ss: Seq<Seq<char>>, para: int, depth: u8, refs: Seq<Seq<char>>)
    ensures
        with_sentences(st, ss, para, depth, refs).0.defs == st.defs,
    decreases ss.len(),
{
    if ss.len() > 0 {
        lemma_sentences_defs(st, ss.drop_last(), para, depth, refs);
    }
}

/// The footnote bodies after some list items are those before.
pub proof fn lemma_items_defs(st: ParseView, items: Seq<MdNode>, parent: int, depth: u8)
    ensures
        with_items(st, items, parent, depth).defs == st.defs,
    decreases items.len(),
{
    if items.len() > 0 {
        lemma_items_defs(st, items.drop_last(), parent, depth);
    }
}

/// A footnote definition records its node as a footnote body; every other
/// block leaves the footnote bodies as they are.
pub proof fn lemma_child_defs(st: ParseView, child: MdNode, parent: int, depth: u8, no_split: bool)
    ensures
        with_child(st, child, parent, depth, no_split).defs == match child {
            MdNode::FootnoteDefinition(id, _) => put(st.defs, id@, st.nodes.len() as usize),
            _ => st.defs,
        },
{
    match child {
        MdNode::Paragraph(cs) => {
            let text = normalize(inline_text(cs@));
            if text.len() > 0 && !(no_split || sentences(text).len() <= 1) {
                let n = NodeView {
                    uuid: Seq::empty(),
                    depth,
                    text: Seq::empty(),
                    children: Seq::empty(),
                    refs: Seq::empty(),
                };
                lemma_sentences_defs(with_node(st, parent, n), sentences(text), st.nodes.len() as int, (depth + 1) as u8, inline_refs(cs@));
            }
        },
        MdNode::List(items) => {
            lemma_items_defs(st, items@, parent, depth);
        },
        _ => {},
    }
}

/// A node that is no footnote body stays so when a block is parsed.
pub proof fn lemma_child_keeps_plain(st: ParseView, child: MdNode, parent: int, depth: u8, no_split: bool, q: int)
    requires
        0 <= q < st.nodes.len(),
        0 <= parent < st.nodes.len(),
        not_a_footnote(st, q),
        with_child(st, child, parent, depth, no_split).nodes.len() <= usize::MAX,
    ensures
        not_a_footnote(with_child(st, child, parent, depth, no_split), q),
{
    lemma_child_defs(st, child, parent, depth, no_split);
    let r = with_child(st, child, parent, depth, no_split);
    match child {
        MdNode::FootnoteDefinition(id, _) => {
            assert(r.nodes.len() == st.nodes.len() + 1);
            lemma_put_entries(st.defs, id@, st.nodes.len() as usize);
            assert forall|j: int| 0 <= j < r.defs.len() implies (#[trigger] r.defs[j]).1 != q by {
                if r.defs[j] != (id@, st.nodes.len() as usize) {
                    assert(r.defs[j] == st.defs[j]);
                }
            }
        },
        _ => {},
    }
}

pub proof fn lemma_blocks_leaves(st: ParseView, cs: Seq<MdNode>, parent: int, depth: u8, no_split: bool)
    requires
        footnotes_are_leaves(st),
        not_a_footnote(st, parent),
        0 <= parent < st.nodes.len(),
        with_blocks(st, cs, parent, depth, no_split).0.nodes.len() <= usize::MAX,
    ensures
        footnotes_are_leaves(with_blocks(st, cs, parent, depth, no_split).0),
        not_a_footnote(with_blocks(st, cs, parent, depth, no_split).0, parent),
        forall|k: int|
            0 <= k < with_blocks(st, cs, parent, depth, no_split).1.len() ==> not_a_footnote(
                with_blocks(st, cs, parent, depth, no_split).0,
                (#[trigger] with_blocks(st, cs, parent, depth, no_split).1[k]).1,
            ),
    decreases cs.len(),
{
    if cs.len() > 0 {
        lemma_blocks_len(st, cs.drop_last(), parent, depth, no_split);
        lemma_blocks_len(st, cs, parent, depth, no_split);
        let (st1, open) = with_blocks(st, cs.drop_last(), parent, depth, no_split);
        let r = with_blocks(st, cs, parent, depth, no_split);
        let c = cs.last();
        let still = match c {
            MdNode::Heading(d, _) => close_sections(open, d),
            _ => open,
        };
        match c {
            MdNode::Heading(d, _) => {
                lemma_close_sections(open, d);
            },
            _ => {},
        }
        assert(forall|k: int| 0 <= k < still.len() ==> #[trigger] still[k] == open[k]);
        assert(still.len() <= open.len());
        let p = section_parent(still, parent);
        let dd = section_depth(still, depth);
        if still.len() > 0 {
            assert(still.last() == open[still.len() - 1]);
        }
        lemma_child_len(st1, c, p, dd, no_split);
        assert(r.0 == with_child(st1, c, p, dd, no_split));
        lemma_blocks_leaves(st, cs.drop_last(), parent, depth, no_split);
        lemma_child_leaves(st1, c, p, dd, no_split);
        lemma_child_keeps_plain(st1, c, p, dd, no_split, parent);
        assert forall|k: int| 0 <= k < r.1.len() implies not_a_footnote(r.0, (#[trigger] r.1[k]).1) by {
            if k < still.len() {
                assert(r.1[k] == open[k]);
                lemma_child_keeps_plain(st1, c, p, dd, no_split, open[k].1);
            } else {
                // the heading just parsed: a node past every footnote body
                let idx = st1.nodes.len() as int;
                assert(r.1[k].1 == idx);
                lemma_child_defs(st1, c, p, dd, no_split);
                assert forall|j: int| 0 <= j < r.0.defs.len() implies (#[trigger] r.0.defs[j]).1 != idx by {
                    assert(r.0.defs[j] == st1.defs[j]);
                }
            }
        }
    }
}

/// Whether a node's UUID is a name made from what it holds: from its text
/// and an occurrence count, or, for a paragraph split into sentences (which
/// has no text of its own), from its sentences' UUIDs.
pub open spec fn name_based(n: NodeView) -> bool {
    ||| exists|k: nat| n.uuid == #[trigger] source_uuid_of(n.text, k)
    ||| (n.text.len() == 0 && exists|us: Seq<Seq<char>>| n.uuid == #[trigger] container_uuid_of(us))
}

/// Whether every node but node `e` has a name-based UUID.
pub open spec fn named_except(st: ParseView, e: int) -> bool {
    forall|i: int| 0 <= i < st.nodes.len() && i != e ==> name_based(#[trigger] st.nodes[i])
}

pub proof fn lemma_with_node_named(st: ParseView, parent: int, n: NodeView, e: int)
    requires
        named_except(st, e),
        0 <= parent < st.nodes.len(),
        parent != e,
        name_based(n) || e == st.nodes.len(),
    ensures
        named_except(with_node(st, parent, n), e),
{
    let r = with_node(st, parent, n);
    assert forall|i: int| 0 <= i < r.nodes.len() && i != e implies name_based(#[trigger] r.nodes[i]) by {
        if i == parent {
            assert(r.nodes[i].uuid == st.nodes[i].uuid && r.nodes[i].text == st.nodes[i].text);
            assert(name_based(st.nodes[i]));
        } else if i < st.nodes.len() {
            assert(r.nodes[i] == st.nodes[i]);
        } else {
            assert(r.nodes[i] == n);
        }
    }
}

pub proof fn lemma_text_node_named(st: ParseView, parent: int, depth: u8, text: Seq<char>, refs: Seq<Seq<char>>, e: int)
    requires
        named_except(st, e),
        0 <= parent < st.nodes.len(),
        parent != e,
    ensures
        named_except(with_text_node(st, parent, depth, text, refs), e),
{
    let k = occurrence(st, text);
    let n = NodeView { uuid: source_uuid_of(text, k as nat), depth, text, children: Seq::empty(), refs };
    assert(name_based(n));
    lemma_with_node_named(st, parent, n, e);
}

pub proof fn lemma_sentences_named(st: ParseView, ss: Seq<Seq<char>>, para: int, depth: u8, refs: Seq<Seq<char>>)
    requires
        named_except(st, para),
        0 <= para < st.nodes.len(),
    ensures
        named_except(with_sentences(st, ss, para, depth, refs).0, para),
        with_sentences(st, ss, para, depth, refs).0.nodes.len() >= st.nodes.len(),
    decreases ss.len(),
{
    if ss.len() > 0 {
        lemma_sentences_named(st, ss.drop_last(), para, depth, refs);
        lemma_sentences_len(st, ss.drop_last(), para, depth, refs);
        let st1 = with_sentences(st, ss.drop_last(), para, depth, refs).0;
        let t = trim(ss.last());
        if t.len() > 0 {
            let k = occurrence(st1, t);
            let n = NodeView { uuid: source_uuid_of(t, k as nat), depth, text: t, children: Seq::empty(), refs: refs_in(refs, t) };
            assert(name_based(n));
            let r = with_node(st1, para, n);
            assert forall|i: int| 0 <= i < r.nodes.len() && i != para implies name_based(#[trigger] r.nodes[i]) by {
                if i < st1.nodes.len() {
                    assert(r.nodes[i] == st1.nodes[i]);
                } else {
                    assert(r.nodes[i] == n);
                }
            }
        }
    }
}

pub proof fn lemma_items_named(st: ParseView, items: Seq<MdNode>, parent: int, depth: u8)
    requires
        named_except(st, -1),
        0 <= parent < st.nodes.len(),
    ensures
        named_except(with_items(st, items, parent, depth), -1),
    decreases items.len(),
{
    if items.len() > 0 {
        lemma_items_named(st, items.drop_last(), parent, depth);
        lemma_items_len(st, items.drop_last(), parent, depth);
        let st1 = with_items(st, items.drop_last(), parent, depth);
        match items.last() {
            MdNode::ListItem(cs) => {
                let text = normalize(join(node_texts(cs@), " "@));
                if text.len() > 0 {
                    lemma_text_node_named(st1, parent, depth, text, item_refs(cs@), -1);
                }
            },
            _ => {},
        }
    }
}

pub proof fn lemma_child_named(st: ParseView, child: MdNode, parent: int, depth: u8, no_split: bool)
    requires
        named_except(st, -1),
        0 <= parent < st.nodes.len(),
    ensures
        named_except(with_child(st, child, parent, depth, no_split), -1),
{
    match child {
        MdNode::Heading(d, cs) => {
            lemma_text_node_named(st, parent, heading_node_depth(d, depth), inline_text(cs@), Seq::empty(), -1);
        },
        MdNode::FootnoteDefinition(id, cs) => {
            lemma_text_node_named(st, parent, depth, normalize(join(node_texts(cs@), "\n"@)), Seq::empty(), -1);
        },
        MdNode::Paragraph(cs) => {
            let text = normalize(inline_text(cs@));
            let refs = inline_refs(cs@);
            if text.len() == 0 {
            } else if no_split || sentences(text).len() <= 1 {
                lemma_text_node_named(st, parent, depth, text, refs, -1);
            } else {
                let para = st.nodes.len() as int;
                let n = NodeView {
                    uuid: Seq::empty(),
                    depth,
                    text: Seq::empty(),
                    children: Seq::empty(),
                    refs: Seq::empty(),
                };
                let st1 = with_node(st, parent, n);
                assert forall|i: int| 0 <= i < st1.nodes.len() && i != para implies name_based(#[trigger] st1.nodes[i]) by {
                    if i == parent {
                        assert(st1.nodes[i].uuid == st.nodes[i].uuid && st1.nodes[i].text == st.nodes[i].text);
                        assert(name_based(st.nodes[i]));
                    } else {
                        assert(st1.nodes[i] == st.nodes[i]);
                    }
                }
                lemma_sentences_named(st1, sentences(text), para, (depth + 1) as u8, refs);
                let (st2, us) = with_sentences(st1, sentences(text), para, (depth + 1) as u8, refs);
                let r = with_uuid(st2, para, container_uuid_of(us));
                assert(st1.nodes[para].text.len() == 0);
                assert(st2.nodes[para].text == st1.nodes[para].text) by {
                    lemma_sentences_keep(st1, sentences(text), para, (depth + 1) as u8, refs, para);
                }
                assert forall|i: int| 0 <= i < r.nodes.len() && i != -1 implies name_based(#[trigger] r.nodes[i]) by {
                    if i == para {
                        assert(r.nodes[i].uuid == container_uuid_of(us));
                        assert(r.nodes[i].text.len() == 0);
                    } else {
                        assert(r.nodes[i] == st2.nodes[i]);
                    }
                }
            }
        },
        MdNode::List(items) => {
            lemma_items_named(st, items@, parent, depth);
        },
        _ => {},
    }
}

/// Adding sentences keeps the text of the nodes there were.
pub proof fn lemma_sentences_keep(st: ParseView, ss: Seq<Seq<char>>, para: int, depth: u8, refs: Seq<Seq<char>>, q: int)
    requires
        0 <= q < st.nodes.len(),
        0 <= para < st.nodes.len(),
    ensures
        with_sentences(st, ss, para, depth, refs).0.nodes[q].text == st.nodes[q].text,
        with_sentences(st, ss, para, depth, refs).0.nodes.len() >= st.nodes.len(),
    decreases ss.len(),
{
    if ss.len() > 0 {
        lemma_sentences_keep(st, ss.drop_last(), para, depth, refs, q);
    }
}

pub proof fn lemma_blocks_named(st: ParseView, cs: Seq<MdNode>, parent: int, depth: u8, no_split: bool)
    requires
        named_except(st, -1),
        0 <= parent < st.nodes.len(),
    ensures
        named_except(with_blocks(st, cs, parent, depth, no_split).0, -1),
    decreases cs.len(),
{
    if cs.len() > 0 {
        lemma_blocks_named(st, cs.drop_last(), parent, depth, no_split);
        lemma_blocks_len(st, cs.drop_last(), parent, depth, no_split);
        let (st1, open) = with_blocks(st, cs.drop_last(), parent, depth, no_split);
        let c = cs.last();
        let still = match c {
            MdNode::Heading(d, _) => close_sections(open, d),
            _ => open,
        };
        match c {
            MdNode::Heading(d, _) => {
                lemma_close_sections(open, d);
            },
            _ => {},
        }
        assert(forall|k: int| 0 <= k < still.len() ==> #[trigger] still[k] == open[k]);
        if still.len() > 0 {
            assert(still.last() == open[still.len() - 1]);
        }
        lemma_child_named(st1, c, section_parent(still, parent), section_depth(still, depth), no_split);
    }
}

/// Parsing is deterministic: every UUID of the source tree is a name made
/// from what the node holds (its text and how often that text came before,
/// or its sentences' UUIDs); nothing random goes into the tree.
pub proof fn law_parse_uuids_name_based(doc: MdNode, no_split: bool)
    ensures
        forall|i: int| 0 <= i < parsed(doc, no_split).nodes.len() ==> name_based(#[trigger] parsed(doc, no_split).nodes[i]),
{
    let r0 = root_state();
    assert(name_based(r0.nodes[0])) by {
        assert(r0.nodes[0].uuid == source_uuid_of(r0.nodes[0].text, 0));
    }
    assert(named_except(r0, -1));
    match doc {
        MdNode::Root(cs) => {
            lemma_blocks_named(r0, cs@, 0, 1, no_split);
        },
        _ => {},
    }
}

/// Footnote bodies are never split: in the source tree of any document
/// (that fits in memory), every footnote body is a leaf.
pub proof fn law_footnote_bodies_are_leaves(doc: MdNode, no_split: bool)
    requires
        parsed(doc, no_split).nodes.len() <= usize::MAX,
    ensures
        footnotes_are_leaves(parsed(doc, no_split)),
{
    match doc {
        MdNode::Root(cs) => {
            lemma_blocks_leaves(root_state(), cs@, 0, 1, no_split);
        },
        _ => {},
    }
}

} // verus!
