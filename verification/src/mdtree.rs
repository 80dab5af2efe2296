//! The part of a markdown syntax tree that the source parser reads.
//!
//! `markdown::to_mdast` parses the text; the tree it returns is copied,
//! node by node, into an `MdNode`, keeping the kinds of node the parser
//! looks at and what it reads of them.
use vstd::prelude::*;

use markdown::mdast::Node;

use crate::text::{append_str, chars_of, string_of, strs};

verus! {

/// A markdown node: the kinds the source parser looks at, with what it
/// reads of them; every other kind is `Other`.
pub enum MdNode {
    Root(Vec<MdNode>),
    Heading(u8, Vec<MdNode>),
    FootnoteDefinition(String, Vec<MdNode>),
    Paragraph(Vec<MdNode>),
    List(Vec<MdNode>),
    ListItem(Vec<MdNode>),
    Text(String),
    InlineCode(String),
    Strong(Vec<MdNode>),
    Emphasis(Vec<MdNode>),
    Link(Vec<MdNode>),
    FootnoteReference(String),
    Break,
    Other,
}

// ---------------------------------------------------------------------------
// What the parser reads of a tree
// ---------------------------------------------------------------------------

/// The plain text of some inline nodes: text and code as they are, strong,
/// emphasis and links by their content, a footnote reference as `[^id]`, a
/// break as a newline.
pub open spec fn inline_text(ns: Seq<MdNode>) -> Seq<char>
    decreases ns,
{
    if ns.len() == 0 {
        Seq::empty()
    } else {
        inline_text(ns.subrange(0, ns.len() - 1)) + match ns.last() {
            MdNode::Text(v) => v@,
            MdNode::InlineCode(v) => v@,
            MdNode::Strong(cs) => inline_text(cs@),
            MdNode::Emphasis(cs) => inline_text(cs@),
            MdNode::Link(cs) => inline_text(cs@),
            MdNode::FootnoteReference(id) => "[^"@ + id@ + "]"@,
            MdNode::Break => "\n"@,
            _ => Seq::empty(),
        }
    }
}

/// The plain text of one node of a footnote body or list item.
pub open spec fn node_text(n: MdNode) -> Seq<char> {
    match n {
        MdNode::Text(v) => v@,
        MdNode::InlineCode(v) => v@,
        MdNode::Paragraph(cs) => inline_text(cs@),
        MdNode::Strong(cs) => inline_text(cs@),
        MdNode::Emphasis(cs) => inline_text(cs@),
        MdNode::Link(cs) => inline_text(cs@),
        MdNode::Break => "\n"@,
        _ => Seq::empty(),
    }
}

/// The texts of some nodes, one per node.
pub open spec fn node_texts(ns: Seq<MdNode>) -> Seq<Seq<char>> {
    ns.map_values(|n: MdNode| node_text(n))
}

/// The footnote labels referenced in some inline nodes, in order.
pub open spec fn inline_refs(ns: Seq<MdNode>) -> Seq<Seq<char>>
    decreases ns,
{
    if ns.len() == 0 {
        Seq::empty()
    } else {
        inline_refs(ns.subrange(0, ns.len() - 1)) + match ns.last() {
            MdNode::FootnoteReference(id) => seq![id@],
            MdNode::Strong(cs) => inline_refs(cs@),
            MdNode::Emphasis(cs) => inline_refs(cs@),
            MdNode::Link(cs) => inline_refs(cs@),
            _ => Seq::empty(),
        }
    }
}

/// The footnote labels referenced in one node of a list item.
pub open spec fn node_refs(n: MdNode) -> Seq<Seq<char>> {
    match n {
        MdNode::Paragraph(cs) => inline_refs(cs@),
        MdNode::Strong(cs) => inline_refs(cs@),
        MdNode::Emphasis(cs) => inline_refs(cs@),
        MdNode::Link(cs) => inline_refs(cs@),
        MdNode::FootnoteReference(id) => seq![id@],
        _ => Seq::empty(),
    }
}

/// The footnote labels referenced in the nodes of a list item, in order.
pub open spec fn item_refs(ns: Seq<MdNode>) -> Seq<Seq<char>>
    decreases ns.len(),
{
    if ns.len() == 0 {
        Seq::empty()
    } else {
        item_refs(ns.drop_last()) + node_refs(ns.last())
    }
}

/// The plain text of some inline nodes.
pub fn extract_text(children: &Vec<MdNode>) -> (r: String)
    ensures
        r@ == inline_text(children@),
    decreases children@,
{
    let mut out: Vec<char> = Vec::new();
    let mut i: usize = 0;
    while i < children.len()
        invariant
            i <= children@.len(),
            out@ == inline_text(children@.subrange(0, i as int)),
        decreases children@.len() - i,
    {
        let ghost pre = children@.subrange(0, i + 1);
        assert(pre.subrange(0, pre.len() - 1) == children@.subrange(0, i as int));
        assert(pre.last() == children@[i as int]);
        match &children[i] {
            MdNode::Text(v) => {
                append_str(&mut out, v.as_str());
            },
            MdNode::InlineCode(v) => {
                append_str(&mut out, v.as_str());
            },
            MdNode::Strong(cs) => {
                assert(decreases_to!(children@ => cs@));
                let t = extract_text(cs);
                append_str(&mut out, t.as_str());
            },
            MdNode::Emphasis(cs) => {
                assert(decreases_to!(children@ => cs@));
                let t = extract_text(cs);
                append_str(&mut out, t.as_str());
            },
            MdNode::Link(cs) => {
                assert(decreases_to!(children@ => cs@));
                let t = extract_text(cs);
                append_str(&mut out, t.as_str());
            },
            MdNode::FootnoteReference(id) => {
                append_str(&mut out, "[^");
                append_str(&mut out, id.as_str());
                append_str(&mut out, "]");
            },
            MdNode::Break => {
                append_str(&mut out, "\n");
            },
            _ => {},
        }
        i = i + 1;
    }
    assert(children@.subrange(0, children@.len() as int) == children@);
    string_of(&out)
}

/// The plain text of one node of a footnote body or list item.
pub fn extract_text_from_node(node: &MdNode) -> (r: String)
    ensures
        r@ == node_text(*node),
{
    match node {
        MdNode::Text(v) => crate::text::copy_string(v),
        MdNode::InlineCode(v) => crate::text::copy_string(v),
        MdNode::Paragraph(cs) => extract_text(cs),
        MdNode::Strong(cs) => extract_text(cs),
        MdNode::Emphasis(cs) => extract_text(cs),
        MdNode::Link(cs) => extract_text(cs),
        MdNode::Break => string_of(&chars_of("\n")),
        _ => String::new(),
    }
}

/// The texts of some nodes, one per node.
pub fn texts_of_nodes(ns: &Vec<MdNode>) -> (r: Vec<String>)
    ensures
        strs(r@) == node_texts(ns@),
{
    let mut out: Vec<String> = Vec::new();
    let mut i: usize = 0;
    while i < ns.len()
        invariant
            i <= ns@.len(),
            strs(out@) == node_texts(ns@.take(i as int)),
        decreases ns@.len() - i,
    {
        let t = extract_text_from_node(&ns[i]);
        let ghost old_o = strs(out@);
        out.push(t);
        assert(strs(out@) == old_o.push(t@));
        assert(node_texts(ns@.take(i + 1)) == node_texts(ns@.take(i as int)).push(node_text(ns@[i as int])));
        i = i + 1;
    }
    assert(ns@.take(ns@.len() as int) == ns@);
    out
}

fn push_all(out: &mut Vec<String>, more: Vec<String>)
    ensures
        strs(final(out)@) == strs(old(out)@) + strs(more@),
{
    let mut i: usize = 0;
    let ghost start = strs(out@);
    while i < more.len()
        invariant
            i <= more@.len(),
            strs(out@) == start + strs(more@).take(i as int),
        decreases more@.len() - i,
    {
        let s = crate::text::copy_string(&more[i]);
        let ghost old_o = strs(out@);
        out.push(s);
        assert(strs(out@) == old_o.push(s@));
        assert(strs(more@).take(i + 1) == strs(more@).take(i as int).push(more@[i as int]@));
        i = i + 1;
    }
    assert(strs(more@).take(more@.len() as int) == strs(more@));
}

/// The footnote labels referenced in some inline nodes.
pub fn collect_footnote_refs(children: &Vec<MdNode>) -> (r: Vec<String>)
    ensures
        strs(r@) == inline_refs(children@),
    decreases children@,
{
    let mut out: Vec<String> = Vec::new();
    let mut i: usize = 0;
    while i < children.len()
        invariant
            i <= children@.len(),
            strs(out@) == inline_refs(children@.subrange(0, i as int)),
        decreases children@.len() - i,
    {
        let ghost pre = children@.subrange(0, i + 1);
        assert(pre.subrange(0, pre.len() - 1) == children@.subrange(0, i as int));
        assert(pre.last() == children@[i as int]);
        match &children[i] {
            MdNode::FootnoteReference(id) => {
                let ghost old_o = strs(out@);
                out.push(crate::text::copy_string(id));
                assert(strs(out@) == old_o + seq![id@]);
            },
            MdNode::Strong(cs) => {
                assert(decreases_to!(children@ => cs@));
                let more = collect_footnote_refs(cs);
                push_all(&mut out, more);
            },
            MdNode::Emphasis(cs) => {
                assert(decreases_to!(children@ => cs@));
                let more = collect_footnote_refs(cs);
                push_all(&mut out, more);
            },
            MdNode::Link(cs) => {
                assert(decreases_to!(children@ => cs@));
                let more = collect_footnote_refs(cs);
                push_all(&mut out, more);
            },
            _ => {},
        }
        i = i + 1;
    }
    assert(children@.subrange(0, children@.len() as int) == children@);
    out
}

/// The footnote labels referenced in one node of a list item.
pub fn collect_footnote_refs_from_node(node: &MdNode) -> (r: Vec<String>)
    ensures
        strs(r@) == node_refs(*node),
{
    match node {
        MdNode::Paragraph(cs) => collect_footnote_refs(cs),
        MdNode::Strong(cs) => collect_footnote_refs(cs),
        MdNode::Emphasis(cs) => collect_footnote_refs(cs),
        MdNode::Link(cs) => collect_footnote_refs(cs),
        MdNode::FootnoteReference(id) => {
            let mut out: Vec<String> = Vec::new();
            out.push(crate::text::copy_string(id));
            assert(strs(out@) == seq![id@]);
            out
        },
        _ => Vec::new(),
    }
}

/// The footnote labels referenced in the nodes of a list item.
pub fn collect_item_refs(ns: &Vec<MdNode>) -> (r: Vec<String>)
    ensures
        strs(r@) == item_refs(ns@),
{
    let mut out: Vec<String> = Vec::new();
    let mut i: usize = 0;
    while i < ns.len()
        invariant
            i <= ns@.len(),
            strs(out@) == item_refs(ns@.take(i as int)),
        decreases ns@.len() - i,
    {
        assert(ns@.take(i + 1).drop_last() == ns@.take(i as int));
        let more = collect_footnote_refs_from_node(&ns[i]);
        push_all(&mut out, more);
        i = i + 1;
    }
    assert(ns@.take(ns@.len() as int) == ns@);
    out
}

// ---------------------------------------------------------------------------
// Reading the tree `markdown` builds
// ---------------------------------------------------------------------------

#[verifier::external_type_specification]
#[verifier::external_body]
pub struct ExMdastNode(markdown::mdast::Node);

#[verifier::external_type_specification]
#[verifier::external_body]
pub struct ExMarkdownMessage(markdown::message::Message);

/// `markdown::mdast::Node::children`: the children of a parent node, in
/// order; `None` for text, inline code, footnote references and breaks.
/// Nothing is stated of the kinds of node the parser does not read.
pub assume_specification[markdown::mdast::Node::children](n: &markdown::mdast::Node) -> (r: Option<&Vec<markdown::mdast::Node>>)
    ensures
        !(node_contents(*n) is Other) ==> match children_of(node_contents(*n)) {
            Some(cs) => r matches Some(v) && v@.map_values(|c: Node| node_contents(c)) == cs,
            None => r is None,
        };

/// `markdown::to_mdast` with `ParseOptions::gfm()`: the tree it parses,
/// which is `gfm_tree` of the text, or an error exactly where `gfm_tree`
/// is `None`. Nothing is stated of the error message.
#[verifier::external_body]
fn to_mdast(text: &str) -> (r: Result<markdown::mdast::Node, markdown::message::Message>)
    ensures
        match r {
            Ok(t) => gfm_tree(text@) == Some(node_contents(t)),
            Err(_) => gfm_tree(text@) is None,
        },
{
    markdown::to_mdast(text, &markdown::ParseOptions::gfm())
}

/// The `Display` text of a `markdown::message::Message`. Nothing is stated of it.
#[verifier::external_body]
fn message_text(m: &markdown::message::Message) -> String {
    m.to_string()
}

/// Which kind of `markdown::mdast::Node` a node is, among those read here.
pub enum MdKind {
    Root,
    Heading,
    FootnoteDefinition,
    Paragraph,
    List,
    ListItem,
    Text,
    InlineCode,
    Strong,
    Emphasis,
    Link,
    FootnoteReference,
    Break,
    Other,
}

/// What the source parser reads of a markdown node, as a value: its kind,
/// the text, label or level it carries, and its children. Every kind of node
/// the parser does not look at is `Other`.
pub enum MdView {
    Root(Seq<MdView>),
    Heading(u8, Seq<MdView>),
    FootnoteDefinition(Seq<char>, Seq<MdView>),
    Paragraph(Seq<MdView>),
    List(Seq<MdView>),
    ListItem(Seq<MdView>),
    Text(Seq<char>),
    InlineCode(Seq<char>),
    Strong(Seq<MdView>),
    Emphasis(Seq<MdView>),
    Link(Seq<MdView>),
    FootnoteReference(Seq<char>),
    Break,
    Other,
}

/// What the parser reads of a `markdown::mdast::Node`: the tree of its
/// nodes, each as an `MdView`.
pub uninterp spec fn node_contents(n: Node) -> MdView;

/// What `markdown::to_mdast` with GitHub-flavoured options gives for a
/// text: the tree it parses (as the parser reads it), or `None` where it
/// returns an error.
pub uninterp spec fn gfm_tree(text: Seq<char>) -> Option<MdView>;

pub open spec fn kind_of(v: MdView) -> MdKind {
    match v {
        MdView::Root(_) => MdKind::Root,
        MdView::Heading(_, _) => MdKind::Heading,
        MdView::FootnoteDefinition(_, _) => MdKind::FootnoteDefinition,
        MdView::Paragraph(_) => MdKind::Paragraph,
        MdView::List(_) => MdKind::List,
        MdView::ListItem(_) => MdKind::ListItem,
        MdView::Text(_) => MdKind::Text,
        MdView::InlineCode(_) => MdKind::InlineCode,
        MdView::Strong(_) => MdKind::Strong,
        MdView::Emphasis(_) => MdKind::Emphasis,
        MdView::Link(_) => MdKind::Link,
        MdView::FootnoteReference(_) => MdKind::FootnoteReference,
        MdView::Break => MdKind::Break,
        MdView::Other => MdKind::Other,
    }
}

/// The `value` of a text or inline code node; empty for the others.
pub open spec fn value_of(v: MdView) -> Seq<char> {
    match v {
        MdView::Text(t) => t,
        MdView::InlineCode(t) => t,
        _ => Seq::empty(),
    }
}

/// The `identifier` of a footnote definition or reference; empty for the others.
pub open spec fn identifier_of(v: MdView) -> Seq<char> {
    match v {
        MdView::FootnoteDefinition(id, _) => id,
        MdView::FootnoteReference(id) => id,
        _ => Seq::empty(),
    }
}

/// The `depth` of a heading; 0 for the others.
pub open spec fn depth_of(v: MdView) -> u8 {
    match v {
        MdView::Heading(d, _) => d,
        _ => 0,
    }
}

/// The children of a parent node; `None` for the others.
pub open spec fn children_of(v: MdView) -> Option<Seq<MdView>> {
    match v {
        MdView::Root(cs) => Some(cs),
        MdView::Heading(_, cs) => Some(cs),
        MdView::FootnoteDefinition(_, cs) => Some(cs),
        MdView::Paragraph(cs) => Some(cs),
        MdView::List(cs) => Some(cs),
        MdView::ListItem(cs) => Some(cs),
        MdView::Strong(cs) => Some(cs),
        MdView::Emphasis(cs) => Some(cs),
        MdView::Link(cs) => Some(cs),
        _ => None,
    }
}

/// An `MdNode` as a value.
pub open spec fn md_view(t: MdNode) -> MdView
    decreases t,
{
    match t {
        MdNode::Root(cs) => MdView::Root(md_views(cs@)),
        MdNode::Heading(d, cs) => MdView::Heading(d, md_views(cs@)),
        MdNode::FootnoteDefinition(id, cs) => MdView::FootnoteDefinition(id@, md_views(cs@)),
        MdNode::Paragraph(cs) => MdView::Paragraph(md_views(cs@)),
        MdNode::List(cs) => MdView::List(md_views(cs@)),
        MdNode::ListItem(cs) => MdView::ListItem(md_views(cs@)),
        MdNode::Text(v) => MdView::Text(v@),
        MdNode::InlineCode(v) => MdView::InlineCode(v@),
        MdNode::Strong(cs) => MdView::Strong(md_views(cs@)),
        MdNode::Emphasis(cs) => MdView::Emphasis(md_views(cs@)),
        MdNode::Link(cs) => MdView::Link(md_views(cs@)),
        MdNode::FootnoteReference(id) => MdView::FootnoteReference(id@),
        MdNode::Break => MdView::Break,
        MdNode::Other => MdView::Other,
    }
}

/// Some `MdNode`s as values, in order.
pub open spec fn md_views(ns: Seq<MdNode>) -> Seq<MdView>
    decreases ns,
{
    if ns.len() == 0 {
        Seq::empty()
    } else {
        md_views(ns.subrange(0, ns.len() - 1)).push(md_view(ns.last()))
    }
}

/// Whether a tree can be copied with `fuel`: a node takes one level, and a
/// parent one more for its list of children.
pub open spec fn fits(v: MdView, fuel: nat) -> bool
    decreases v,
{
    if fuel == 0 {
        false
    } else {
        match children_of(v) {
            Some(cs) => fuel >= 2 && fits_all(cs, (fuel - 2) as nat),
            None => true,
        }
    }
}

/// Whether each of some trees can be copied with `fuel`.
pub open spec fn fits_all(cs: Seq<MdView>, fuel: nat) -> bool
    decreases cs,
{
    if cs.len() == 0 {
        true
    } else {
        fits_all(cs.subrange(0, cs.len() - 1), fuel) && fits(cs.last(), fuel)
    }
}

/// The variant of a `markdown::mdast::Node`, among those read here.
#[verifier::external_body]
fn node_kind(n: &Node) -> (r: MdKind)
    ensures
        r == kind_of(node_contents(*n)),
{
    match n {
        Node::Root(_) => MdKind::Root, Node::Heading(_) => MdKind::Heading,
        Node::FootnoteDefinition(_) => MdKind::FootnoteDefinition,
        Node::Paragraph(_) => MdKind::Paragraph, Node::List(_) => MdKind::List,
        Node::ListItem(_) => MdKind::ListItem, Node::Text(_) => MdKind::Text,
        Node::InlineCode(_) => MdKind::InlineCode, Node::Strong(_) => MdKind::Strong,
        Node::Emphasis(_) => MdKind::Emphasis, Node::Link(_) => MdKind::Link,
        Node::FootnoteReference(_) => MdKind::FootnoteReference, Node::Break(_) => MdKind::Break,
        _ => MdKind::Other,
    }
}

/// The `value` of a text or inline code node (empty for other nodes).
#[verifier::external_body]
fn node_value(n: &Node) -> (r: String)
    ensures
        r@ == value_of(node_contents(*n)),
{
    match n {
        Node::Text(t) => t.value.clone(),
        Node::InlineCode(c) => c.value.clone(),
        _ => String::new(),
    }
}

/// The `identifier` of a footnote definition or reference (empty for other
/// nodes).
#[verifier::external_body]
fn node_identifier(n: &Node) -> (r: String)
    ensures
        r@ == identifier_of(node_contents(*n)),
{
    match n {
        Node::FootnoteDefinition(d) => d.identifier.clone(),
        Node::FootnoteReference(r) => r.identifier.clone(),
        _ => String::new(),
    }
}

/// The `depth` of a heading (0 for other nodes).
#[verifier::external_body]
fn node_depth(n: &Node) -> (r: u8)
    ensures
        r == depth_of(node_contents(*n)),
{
    match n {
        Node::Heading(h) => h.depth,
        _ => 0,
    }
}

/// A copy of a node, as far as `fuel` levels down; `None` below that.
fn copy_node(n: &Node, fuel: usize) -> (r: Option<MdNode>)
    ensures
        r is Some <==> fits(node_contents(*n), fuel as nat),
        r matches Some(t) ==> md_view(t) == node_contents(*n),
    decreases fuel,
{
    if fuel == 0 {
        return None;
    }
    match node_kind(n) {
        MdKind::Root => Some(MdNode::Root(copy_children(n, fuel - 1)?)),
        MdKind::Heading => Some(MdNode::Heading(node_depth(n), copy_children(n, fuel - 1)?)),
        MdKind::FootnoteDefinition => {
            let cs = copy_children(n, fuel - 1)?;
            Some(MdNode::FootnoteDefinition(node_identifier(n), cs))
        },
        MdKind::Paragraph => Some(MdNode::Paragraph(copy_children(n, fuel - 1)?)),
        MdKind::List => Some(MdNode::List(copy_children(n, fuel - 1)?)),
        MdKind::ListItem => Some(MdNode::ListItem(copy_children(n, fuel - 1)?)),
        MdKind::Text => Some(MdNode::Text(node_value(n))),
        MdKind::InlineCode => Some(MdNode::InlineCode(node_value(n))),
        MdKind::Strong => Some(MdNode::Strong(copy_children(n, fuel - 1)?)),
        MdKind::Emphasis => Some(MdNode::Emphasis(copy_children(n, fuel - 1)?)),
        MdKind::Link => Some(MdNode::Link(copy_children(n, fuel - 1)?)),
        MdKind::FootnoteReference => Some(MdNode::FootnoteReference(node_identifier(n))),
        MdKind::Break => Some(MdNode::Break),
        MdKind::Other => Some(MdNode::Other),
    }
}

/// Copies of the children of a node, as far as `fuel` levels down.
fn copy_children(n: &Node, fuel: usize) -> (r: Option<Vec<MdNode>>)
    ensures
        !(node_contents(*n) is Other) ==> match children_of(node_contents(*n)) {
            Some(cs) => (r is Some <==> fuel >= 1 && fits_all(cs, (fuel - 1) as nat))
                && (r matches Some(v) ==> md_views(v@) == cs),
            None => r matches Some(v) && v@.len() == 0,
        },
    decreases fuel,
{
    let mut out: Vec<MdNode> = Vec::new();
    match n.children() {
        None => Some(out),
        Some(cs) => {
            if fuel == 0 {
                return None;
            }
            let ghost vs = cs@.map_values(|c: Node| node_contents(c));
            let mut i: usize = 0;
            while i < cs.len()
                invariant
                    fuel > 0,
                    i <= cs@.len(),
                    vs == cs@.map_values(|c: Node| node_contents(c)),
                    !(node_contents(*n) is Other) ==> children_of(node_contents(*n)) == Some(vs),
                    md_views(out@) == vs.take(i as int),
                    fits_all(vs.take(i as int), (fuel - 1) as nat),
                decreases cs.len() - i,
            {
                let c = match copy_node(&cs[i], fuel - 1) {
                    Some(c) => c,
                    None => {
                        proof {
                            lemma_fits_all(vs, (fuel - 1) as nat);
                            assert(vs[i as int] == node_contents(cs@[i as int]));
                            assert(!fits(vs[i as int], (fuel - 1) as nat));
                            assert(!fits_all(vs, (fuel - 1) as nat));
                        }
                        return None;
                    },
                };
                proof {
                    lemma_md_views_push(out@, c);
                    let t = vs.take(i + 1);
                    assert(t.subrange(0, t.len() - 1) =~= vs.take(i as int));
                    assert(t.last() == vs[i as int]);
                    assert(vs.take(i as int).push(vs[i as int]) =~= t);
                }
                out.push(c);
                i = i + 1;
            }
            assert(vs.take(cs@.len() as int) =~= vs);
            Some(out)
        },
    }
}

/// Each of some trees can be copied with `fuel` exactly when all can.
pub proof fn lemma_fits_all(cs: Seq<MdView>, fuel: nat)
    ensures
        fits_all(cs, fuel) <==> forall|i: int| 0 <= i < cs.len() ==> fits(#[trigger] cs[i], fuel),
    decreases cs.len(),
{
    if cs.len() > 0 {
        let d = cs.subrange(0, cs.len() - 1);
        lemma_fits_all(d, fuel);
        assert forall|i: int| 0 <= i < d.len() implies d[i] == cs[i] by {}
        if forall|i: int| 0 <= i < cs.len() ==> fits(#[trigger] cs[i], fuel) {
            assert forall|i: int| 0 <= i < d.len() implies fits(#[trigger] d[i], fuel) by {
                assert(d[i] == cs[i]);
            }
        }
    }
}

/// The values of some nodes with one more after them.
pub proof fn lemma_md_views_push(ns: Seq<MdNode>, x: MdNode)
    ensures
        md_views(ns.push(x)) == md_views(ns).push(md_view(x)),
{
    assert(ns.push(x).subrange(0, ns.len() as int) =~= ns);
}

/// Parses markdown text (GitHub flavoured) into the tree the source parser
/// reads; the error is the parser's message.
pub(crate) fn parse_markdown(text: &str) -> (r: Result<MdNode, String>)
    ensures
        match gfm_tree(text@) {
            None => r is Err,
            Some(v) => if fits(v, usize::MAX as nat) {
                r matches Ok(t) && md_view(t) == v
            } else {
                r matches Err(e) && e@ == "the document nests too deeply"@
            },
        },
{
    match to_mdast(text) {
        Err(m) => Err(message_text(&m)),
        Ok(tree) => match copy_node(&tree, usize::MAX) {
            Some(t) => Ok(t),
            None => Err(string_of(&chars_of("the document nests too deeply"))),
        },
    }
}

} // verus!
