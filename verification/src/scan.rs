//! Scanning Fountain text for nodes.
//!
//! A node line carries an id note `[[id]]`, where the id is eight lower-case
//! hex digits, up to three groups of `-` and four hex digits, and an optional
//! group of `-` and twelve hex digits. A line that is nothing but a
//! `[[note]]` is a translator note, not a node. A heading's depth is its
//! number of leading `#`.
use vstd::prelude::*;

use crate::text::{
    append_chars, char_vecs, chars_of, copy_range, first_where, has_char, has_char_exec, lemma_first_where_is, lines, lines_exec, split_char, split_char_exec, string_of, strs, trim, trim_exec, trim_start, trim_start_exec,
};
use crate::types::{NodeId, ScannedNode};

verus! {

// ---------------------------------------------------------------------------
// The id grammar
// ---------------------------------------------------------------------------

pub open spec fn is_hex(c: char) -> bool {
    ('0' as u32 <= c as u32 <= '9' as u32) || ('a' as u32 <= c as u32 <= 'f' as u32)
}

pub open spec fn is_hex_or_dash(c: char) -> bool {
    is_hex(c) || c == '-'
}

pub open spec fn not_hex_or_dash_pred() -> spec_fn(char) -> bool {
    |c: char| !is_hex_or_dash(c)
}

pub open spec fn all_hex(g: Seq<char>) -> bool {
    forall|j: int| 0 <= j < g.len() ==> is_hex(#[trigger] g[j])
}

/// Whether the last group of an id is its optional twelve-digit group.
pub open spec fn has_long_tail(gs: Seq<Seq<char>>) -> bool {
    gs.len() >= 2 && gs.last().len() == 12
}

/// The `-`-separated groups of a candidate id.
pub open spec fn id_groups(r: Seq<char>) -> Seq<Seq<char>> {
    split_char(r, '-')
}

/// 1 when the last group is the twelve-digit one, else 0.
pub open spec fn tail_len(gs: Seq<Seq<char>>) -> int {
    if has_long_tail(gs) {
        1
    } else {
        0
    }
}

/// Whether `r` is an id: eight hex digits, up to three `-`-led groups of four,
/// and an optional `-`-led group of twelve.
pub open spec fn is_id(r: Seq<char>) -> bool {
    &&& 1 <= id_groups(r).len()
    &&& forall|i: int| 0 <= i < id_groups(r).len() ==> all_hex(#[trigger] id_groups(r)[i])
    &&& id_groups(r)[0].len() == 8
    &&& forall|i: int|
        1 <= i < id_groups(r).len() - tail_len(id_groups(r)) ==> (#[trigger] id_groups(r)[i]).len()
            == 4
    &&& id_groups(r).len() - 1 - tail_len(id_groups(r)) <= 3
}

/// End of the run of hex digits and dashes that starts at `from`.
pub open spec fn run_end(s: Seq<char>, from: int) -> int {
    from + first_where(s.skip(from), not_hex_or_dash_pred())
}

/// Whether an id note `[[id]]` starts at position `p` of `s`.
pub open spec fn id_note_at(s: Seq<char>, p: int) -> bool {
    let q = run_end(s, p + 2);
    &&& 0 <= p
    &&& p + 2 <= s.len()
    &&& s[p] == '['
    &&& s[p + 1] == '['
    &&& q + 2 <= s.len()
    &&& s[q] == ']'
    &&& s[q + 1] == ']'
    &&& is_id(s.subrange(p + 2, q))
}

/// The first position at or after `from` where an id note starts, or the length.
pub open spec fn first_id_note_from(s: Seq<char>, from: int) -> int
    decreases s.len() - from,
{
    if from >= s.len() || from < 0 {
        s.len() as int
    } else if id_note_at(s, from) {
        from
    } else {
        first_id_note_from(s, from + 1)
    }
}

pub open spec fn first_id_note(s: Seq<char>) -> int {
    first_id_note_from(s, 0)
}

/// The id of the first id note in `s`.
pub open spec fn extract_id(s: Seq<char>) -> Option<Seq<char>> {
    let p = first_id_note(s);
    if p < s.len() {
        Some(s.subrange(p + 2, run_end(s, p + 2)))
    } else {
        None
    }
}

/// `s` with its first id note removed, then trimmed.
pub open spec fn strip_id(s: Seq<char>) -> Seq<char> {
    let p = first_id_note(s);
    if p < s.len() {
        trim(s.take(p) + s.skip(run_end(s, p + 2) + 2))
    } else {
        trim(s)
    }
}

pub proof fn lemma_first_id_note_from(s: Seq<char>, from: int, p: int)
    requires
        0 <= from <= p <= s.len(),
        forall|k: int| from <= k < p ==> !id_note_at(s, k),
        p < s.len() ==> id_note_at(s, p),
    ensures
        first_id_note_from(s, from) == p,
    decreases p - from,
{
    if from < p {
        lemma_first_id_note_from(s, from + 1, p);
    }
}

// ---------------------------------------------------------------------------
// Headings and notes
// ---------------------------------------------------------------------------

pub open spec fn not_hash_pred() -> spec_fn(char) -> bool {
    |c: char| c != '#'
}

/// The number of leading `#` of a line after its leading whitespace,
/// kept as a `u8` (modulo 256), for lines that start with `#`.
pub open spec fn heading_depth(line: Seq<char>) -> Option<u8> {
    let t = trim_start(line);
    if t.len() > 0 && t[0] == '#' {
        Some((first_where(t, not_hash_pred()) % 256) as u8)
    } else {
        None
    }
}

/// A heading line without its leading `#` and surrounding whitespace.
pub open spec fn strip_heading_markers(line: Seq<char>) -> Seq<char> {
    let t = trim_start(line);
    trim(t.skip(first_where(t, not_hash_pred())))
}

/// Whether a (trimmed) line is a note `[[text]]`: non-empty text without
/// `]` that is not an id.
pub open spec fn is_note(t: Seq<char>) -> bool {
    &&& t.len() >= 5
    &&& t[0] == '['
    &&& t[1] == '['
    &&& t[t.len() - 2] == ']'
    &&& t[t.len() - 1] == ']'
    &&& !has_char(t.subrange(2, t.len() - 2), ']')
    &&& !is_id(t.subrange(2, t.len() - 2))
}

/// The text of a note `[[text]]`.
pub open spec fn note_text(t: Seq<char>) -> Seq<char> {
    t.subrange(2, t.len() - 2)
}

// ---------------------------------------------------------------------------
// Scanning
// ---------------------------------------------------------------------------

/// What a scan finds at one node.
pub struct NodeView {
    pub line: nat,
    pub id: Seq<char>,
    pub depth: Option<u8>,
    pub text: Seq<char>,
    pub notes: Seq<Seq<char>>,
}

/// The model of a scanned node.
pub open spec fn node_view(n: ScannedNode) -> NodeView {
    NodeView {
        line: n.line_number as nat,
        id: n.id.short@,
        depth: n.depth,
        text: n.text@,
        notes: strs(n.notes@),
    }
}

/// Whether a node's full and short ids are the same hex string, as scanning makes them.
pub open spec fn short_ids(n: ScannedNode) -> bool {
    n.id.full@ == n.id.short@
}

/// The end of the block that starts at line `i`: the next blank line, or the end.
pub open spec fn block_end(ls: Seq<Seq<char>>, from: int) -> int
    decreases ls.len() - from,
{
    if from >= ls.len() || from < 0 {
        ls.len() as int
    } else if trim(ls[from]).len() == 0 {
        from
    } else {
        block_end(ls, from + 1)
    }
}

/// The notes among some lines, trimmed and unwrapped, in order.
pub open spec fn notes_of(ls: Seq<Seq<char>>) -> Seq<Seq<char>>
    decreases ls.len(),
{
    if ls.len() == 0 {
        Seq::empty()
    } else {
        let rest = notes_of(ls.drop_last());
        let t = trim(ls.last());
        if is_note(t) {
            rest.push(note_text(t))
        } else {
            rest
        }
    }
}

/// The text of a node line: heading markers and the id note removed.
pub open spec fn node_text(line: Seq<char>) -> Seq<char> {
    if heading_depth(line) is Some {
        strip_id(strip_heading_markers(line))
    } else {
        strip_id(line)
    }
}

/// Whether line `i` starts a node: it holds an id note and is not a bare note.
pub open spec fn is_node_line(line: Seq<char>) -> bool {
    &&& trim(line).len() != 0
    &&& extract_id(line) is Some
    &&& !is_note(trim(line))
}

/// The nodes found from line `i` on.
pub open spec fn scan_from(ls: Seq<Seq<char>>, i: int) -> Seq<NodeView>
    decreases ls.len() - i,
{
    if i >= ls.len() || i < 0 {
        Seq::empty()
    } else if !is_node_line(ls[i]) {
        scan_from(ls, i + 1)
    } else {
        let j = block_end(ls, i + 1);
        if j <= i || j > ls.len() {
            Seq::empty()
        } else {
            seq![
                NodeView {
                    line: (i + 1) as nat,
                    id: extract_id(ls[i])->0,
                    depth: heading_depth(ls[i]),
                    text: node_text(ls[i]),
                    notes: notes_of(ls.subrange(i + 1, j)),
                },
            ] + scan_from(ls, j)
        }
    }
}

/// All nodes of a Fountain text.
pub open spec fn scan(content: Seq<char>) -> Seq<NodeView> {
    scan_from(lines(content), 0)
}


pub proof fn lemma_block_end(ls: Seq<Seq<char>>, from: int, j: int)
    requires
        0 <= from <= j <= ls.len(),
        forall|k: int| from <= k < j ==> trim(#[trigger] ls[k]).len() != 0,
        j < ls.len() ==> trim(ls[j]).len() == 0,
    ensures
        block_end(ls, from) == j,
    decreases j - from,
{
    if from < j {
        lemma_block_end(ls, from + 1, j);
    }
}

/// Each node found from line `i` on sits on a node line at or after `i`,
/// whose id note is the node's id.
pub proof fn lemma_scan_from_lines(ls: Seq<Seq<char>>, i: int)
    requires
        0 <= i,
    ensures
        forall|k: int|
            0 <= k < scan_from(ls, i).len() ==> {
                let n = #[trigger] scan_from(ls, i)[k];
                &&& i + 1 <= n.line <= ls.len()
                &&& is_node_line(ls[n.line - 1])
                &&& extract_id(ls[n.line - 1]) == Some(n.id)
            },
    decreases ls.len() - i,
{
    if i >= ls.len() {
    } else if !is_node_line(ls[i]) {
        lemma_scan_from_lines(ls, i + 1);
    } else {
        let j = block_end(ls, i + 1);
        if j <= i || j > ls.len() {
        } else {
            lemma_scan_from_lines(ls, j);
            let s = scan_from(ls, i);
            let rest = scan_from(ls, j);
            assert forall|k: int| 0 <= k < s.len() implies {
                let n = #[trigger] s[k];
                &&& i + 1 <= n.line <= ls.len()
                &&& is_node_line(ls[n.line - 1])
                &&& extract_id(ls[n.line - 1]) == Some(n.id)
            } by {
                if k > 0 {
                    assert(s[k] == rest[k - 1]);
                }
            }
        }
    }
}

/// Notes and nodes: a line that holds nothing but a note `[[...]]` (text
/// that is not an id) is never a node. Every node sits on a line that holds
/// an id note, and its id is that line's id note.
pub proof fn law_standalone_notes_never_nodes(content: Seq<char>)
    ensures
        forall|k: int|
            0 <= k < scan(content).len() ==> {
                let n = #[trigger] scan(content)[k];
                let line = lines(content)[n.line - 1];
                &&& 1 <= n.line <= lines(content).len()
                &&& !is_note(trim(line))
                &&& trim(line).len() != 0
                &&& extract_id(line) == Some(n.id)
            },
{
    lemma_scan_from_lines(lines(content), 0);
}

// ---------------------------------------------------------------------------
// Code
// ---------------------------------------------------------------------------

fn is_hex_exec(c: char) -> (r: bool)
    ensures
        r == is_hex(c),
{
    let u = c as u32;
    ('0' as u32 <= u && u <= '9' as u32) || ('a' as u32 <= u && u <= 'f' as u32)
}

fn all_hex_exec(g: &[char]) -> (r: bool)
    ensures
        r == all_hex(g@),
{
    let mut i: usize = 0;
    while i < g.len()
        invariant
            i <= g@.len(),
            forall|j: int| 0 <= j < i ==> is_hex(#[trigger] g@[j]),
        decreases g@.len() - i,
    {
        if !is_hex_exec(g[i]) {
            return false;
        }
        i = i + 1;
    }
    true
}

fn is_id_exec(r: &[char]) -> (b: bool)
    ensures
        b == is_id(r@),
{
    let gs = split_char_exec(r, '-');
    let ghost sg = id_groups(r@);
    assert(forall|i: int| 0 <= i < gs@.len() ==> #[trigger] gs@[i]@ == sg[i]);
    let g = gs.len();
    if g < 1 {
        return false;
    }
    let mut i: usize = 0;
    while i < g
        invariant
            g == gs@.len(),
            g == sg.len(),
            sg == id_groups(r@),
            i <= g,
            forall|k: int| 0 <= k < g ==> #[trigger] gs@[k]@ == sg[k],
            forall|k: int| 0 <= k < i ==> all_hex(#[trigger] sg[k]),
        decreases g - i,
    {
        if !all_hex_exec(&gs[i]) {
            assert(!all_hex(id_groups(r@)[i as int]));
            return false;
        }
        i = i + 1;
    }
    if gs[0].len() != 8 {
        return false;
    }
    let tail: usize = if g >= 2 && gs[g - 1].len() == 12 { 1 } else { 0 };
    assert(tail == tail_len(sg));
    let mut k: usize = 1;
    while k < g - tail
        invariant
            g == gs@.len(),
            g == sg.len(),
            sg == id_groups(r@),
            1 <= k,
            tail <= 1,
            tail == tail_len(sg),
            g >= 1,
            forall|m: int| 0 <= m < g ==> #[trigger] gs@[m]@ == sg[m],
            forall|m: int| 1 <= m < k && m < g - tail ==> (#[trigger] sg[m]).len() == 4,
        decreases g - k,
    {
        if gs[k].len() != 4 {
            assert(id_groups(r@)[k as int].len() != 4);
            return false;
        }
        k = k + 1;
    }
    g - 1 - tail <= 3
}

fn run_end_exec(s: &[char], from: usize) -> (r: usize)
    requires
        from <= s@.len(),
    ensures
        r as int == run_end(s@, from as int),
        from <= r <= s@.len(),
{
    let mut q = from;
    while q < s.len() && (is_hex_exec(s[q]) || s[q] == '-')
        invariant
            from <= q <= s@.len(),
            forall|j: int| from <= j < q ==> is_hex_or_dash(#[trigger] s@[j]),
        decreases s@.len() - q,
    {
        q = q + 1;
    }
    proof {
        let t = s@.skip(from as int);
        assert forall|j: int| 0 <= j < q - from implies !(#[trigger] not_hex_or_dash_pred()(t[j])) by {
            assert(t[j] == s@[from + j]);
        }
        lemma_first_where_is(t, not_hex_or_dash_pred(), q - from);
    }
    q
}

fn id_note_at_exec(s: &[char], p: usize) -> (r: bool)
    requires
        p <= s@.len(),
    ensures
        r == id_note_at(s@, p as int),
{
    if s.len() - p < 2 || s[p] != '[' || s[p + 1] != '[' {
        return false;
    }
    let q = run_end_exec(s, p + 2);
    if s.len() - q < 2 || s[q] != ']' || s[q + 1] != ']' {
        return false;
    }
    let inner = copy_range(s, p + 2, q);
    is_id_exec(&inner)
}

fn first_id_note_exec(s: &[char]) -> (r: usize)
    ensures
        r as int == first_id_note(s@),
        r <= s@.len(),
        r < s@.len() ==> id_note_at(s@, r as int),
{
    let mut p: usize = 0;
    while p < s.len() && !id_note_at_exec(s, p)
        invariant
            p <= s@.len(),
            forall|k: int| 0 <= k < p ==> !id_note_at(s@, k),
        decreases s@.len() - p,
    {
        p = p + 1;
    }
    proof {
        lemma_first_id_note_from(s@, 0, p as int);
    }
    p
}

fn extract_id_chars(line: &[char]) -> (r: Option<Vec<char>>)
    ensures
        match r {
            Some(v) => extract_id(line@) == Some(v@),
            None => extract_id(line@) is None,
        },
{
    let p = first_id_note_exec(line);
    if p < line.len() {
        let q = run_end_exec(line, p + 2);
        Some(copy_range(line, p + 2, q))
    } else {
        None
    }
}

fn strip_id_chars(line: &[char]) -> (r: Vec<char>)
    ensures
        r@ == strip_id(line@),
{
    let p = first_id_note_exec(line);
    if p < line.len() {
        let q = run_end_exec(line, p + 2);
        let mut joined = copy_range(line, 0, p);
        let rest = copy_range(line, q + 2, line.len());
        append_chars(&mut joined, &rest);
        trim_exec(&joined)
    } else {
        trim_exec(line)
    }
}

fn hash_run(t: &[char]) -> (r: usize)
    ensures
        r as int == first_where(t@, not_hash_pred()),
        r <= t@.len(),
{
    let mut k: usize = 0;
    while k < t.len() && t[k] == '#'
        invariant
            k <= t@.len(),
            forall|j: int| 0 <= j < k ==> t@[j] == '#',
        decreases t@.len() - k,
    {
        k = k + 1;
    }
    proof {
        lemma_first_where_is(t@, not_hash_pred(), k as int);
    }
    k
}

fn heading_depth_chars(line: &[char]) -> (r: Option<u8>)
    ensures
        r == heading_depth(line@),
{
    let t = trim_start_exec(line);
    if t.len() > 0 && t[0] == '#' {
        let k = hash_run(&t);
        Some((k % 256) as u8)
    } else {
        None
    }
}

fn strip_heading_markers_chars(line: &[char]) -> (r: Vec<char>)
    ensures
        r@ == strip_heading_markers(line@),
{
    let t = trim_start_exec(line);
    let k = hash_run(&t);
    let rest = copy_range(&t, k, t.len());
    trim_exec(&rest)
}

fn is_note_exec(t: &[char]) -> (r: bool)
    ensures
        r == is_note(t@),
{
    let n = t.len();
    if n < 5 || t[0] != '[' || t[1] != '[' || t[n - 2] != ']' || t[n - 1] != ']' {
        return false;
    }
    let inner = copy_range(t, 2, n - 2);
    !has_char_exec(&inner, ']') && !is_id_exec(&inner)
}

/// The id in the first `[[id]]` of a line.
pub fn extract_id_of(line: &str) -> (r: Option<String>)
    ensures
        match r {
            Some(v) => extract_id(line@) == Some(v@),
            None => extract_id(line@) is None,
        },
{
    let cs = chars_of(line);
    match extract_id_chars(&cs) {
        Some(v) => Some(string_of(&v)),
        None => None,
    }
}

/// A line without its first `[[id]]`, trimmed.
pub fn strip_id_of(line: &str) -> (r: String)
    ensures
        r@ == strip_id(line@),
{
    let cs = chars_of(line);
    let v = strip_id_chars(&cs);
    string_of(&v)
}

/// The depth of a heading line: its number of leading `#` (modulo 256).
pub fn heading_depth_of(line: &str) -> (r: Option<u8>)
    ensures
        r == heading_depth(line@),
{
    let cs = chars_of(line);
    heading_depth_chars(&cs)
}

/// A heading line without its `#` markers, trimmed.
pub fn strip_heading_markers_of(line: &str) -> (r: String)
    ensures
        r@ == strip_heading_markers(line@),
{
    let cs = chars_of(line);
    let v = strip_heading_markers_chars(&cs);
    string_of(&v)
}

/// All nodes of a Fountain text, in order.
pub fn scan_all(content: &str) -> (r: Vec<ScannedNode>)
    ensures
        r@.map_values(|n: ScannedNode| node_view(n)) == scan(content@),
        forall|k: int| 0 <= k < r@.len() ==> short_ids(#[trigger] r@[k]),
{
    let cs = chars_of(content);
    let ls = lines_exec(&cs);
    let ghost lv = char_vecs(ls@);
    assert(forall|k: int| 0 <= k < ls@.len() ==> #[trigger] ls@[k]@ == lv[k]);
    let n = ls.len();
    let mut nodes: Vec<ScannedNode> = Vec::new();
    let mut i: usize = 0;
    assert(nodes@.map_values(|x: ScannedNode| node_view(x)) + scan_from(lv, 0) == scan_from(lv, 0));
    while i < n
        invariant
            n == ls@.len(),
            lv == char_vecs(ls@),
            lv == lines(content@),
            i <= n,
            forall|k: int| 0 <= k < ls@.len() ==> #[trigger] ls@[k]@ == lv[k],
            scan(content@) == nodes@.map_values(|x: ScannedNode| node_view(x)) + scan_from(lv, i as int),
            forall|k: int| 0 <= k < nodes@.len() ==> short_ids(#[trigger] nodes@[k]),
        decreases n - i,
    {
        let line = &ls[i];
        let t = trim_exec(line);
        let id = if t.len() == 0 { None } else { extract_id_chars(line) };
        let is_node = match &id {
            None => false,
            Some(_) => !is_note_exec(&t),
        };
        if !is_node {
            assert(!is_node_line(lv[i as int]));
            i = i + 1;
        } else {
            let idv = id.unwrap();
            let depth = heading_depth_chars(line);
            let text = if depth.is_some() {
                let h = strip_heading_markers_chars(line);
                strip_id_chars(&h)
            } else {
                strip_id_chars(line)
            };
            let mut notes: Vec<String> = Vec::new();
            let mut j = i + 1;
            assert(lv.subrange(i + 1, j as int) == Seq::<Seq<char>>::empty());
            while j < n
                invariant
                    n == ls@.len(),
                    lv == char_vecs(ls@),
                    forall|k: int| 0 <= k < ls@.len() ==> #[trigger] ls@[k]@ == lv[k],
                    i < j <= n,
                    forall|k: int| i + 1 <= k < j ==> trim(#[trigger] lv[k]).len() != 0,
                    strs(notes@) == notes_of(lv.subrange(i + 1, j as int)),
                ensures
                    j < n ==> trim(lv[j as int]).len() == 0,
                decreases n - j,
            {
                let next = trim_exec(&ls[j]);
                if next.len() == 0 {
                    break;
                }
                assert(lv.subrange(i + 1, j + 1).drop_last() == lv.subrange(i + 1, j as int));
                assert(lv.subrange(i + 1, j + 1).last() == lv[j as int]);
                if is_note_exec(&next) {
                    let body = copy_range(&next, 2, next.len() - 2);
                    let ghost old_notes = notes@;
                    notes.push(string_of(&body));
                    assert(strs(notes@) == strs(old_notes).push(body@));
                }
                j = j + 1;
            }
            proof {
                lemma_block_end(lv, i + 1, j as int);
            }
            let node = ScannedNode {
                line_number: i + 1,
                id: NodeId::from_short(string_of(&idv).as_str()),
                depth,
                text: string_of(&text),
                notes,
            };
            let ghost old_nodes = nodes@;
            nodes.push(node);
            assert(nodes@.map_values(|x: ScannedNode| node_view(x)) == old_nodes.map_values(
                |x: ScannedNode| node_view(x),
            ).push(node_view(node)));
            i = j;
        }
    }
    assert(scan_from(lv, n as int) == Seq::<NodeView>::empty());
    assert(nodes@.map_values(|x: ScannedNode| node_view(x)) + Seq::<NodeView>::empty()
        == nodes@.map_values(|x: ScannedNode| node_view(x)));
    nodes
}


// ---------------------------------------------------------------------------
// Lookups
// ---------------------------------------------------------------------------

/// Whether `n` is the first node in `nodes` that satisfies `p`.
pub open spec fn is_first(nodes: Seq<ScannedNode>, p: spec_fn(ScannedNode) -> bool, n: ScannedNode) -> bool {
    exists|i: int|
        0 <= i < nodes.len() && nodes[i] == n && p(nodes[i]) && forall|j: int|
            0 <= j < i ==> !p(#[trigger] nodes[j])
}

/// Whether no node in `nodes` satisfies `p`.
pub open spec fn none_is(nodes: Seq<ScannedNode>, p: spec_fn(ScannedNode) -> bool) -> bool {
    forall|i: int| 0 <= i < nodes.len() ==> !p(#[trigger] nodes[i])
}

pub open spec fn hex_pred(hex: Seq<char>) -> spec_fn(ScannedNode) -> bool {
    |n: ScannedNode| n.id.short@ == hex || n.id.full@ == hex
}

pub open spec fn line_pred(line: usize) -> spec_fn(ScannedNode) -> bool {
    |n: ScannedNode| n.line_number == line
}

pub open spec fn empty_text_pred() -> spec_fn(ScannedNode) -> bool {
    |n: ScannedNode| n.text@.len() == 0
}

/// Find the first node whose short or full id is `hex`.
pub fn find_by_hex<'a>(nodes: &'a [ScannedNode], hex: &str) -> (r: Option<&'a ScannedNode>)
    ensures
        match r {
            Some(n) => is_first(nodes@, hex_pred(hex@), *n),
            None => none_is(nodes@, hex_pred(hex@)),
        },
{
    let mut i: usize = 0;
    while i < nodes.len()
        invariant
            i <= nodes@.len(),
            forall|j: int| 0 <= j < i ==> !hex_pred(hex@)(#[trigger] nodes@[j]),
        decreases nodes@.len() - i,
    {
        if nodes[i].id.matches(hex) {
            assert(hex_pred(hex@)(nodes@[i as int]));
            return Some(&nodes[i]);
        }
        i = i + 1;
    }
    None
}

/// Find the first node on line `line`.
pub fn find_by_line(nodes: &[ScannedNode], line: usize) -> (r: Option<&ScannedNode>)
    ensures
        match r {
            Some(n) => is_first(nodes@, line_pred(line), *n),
            None => none_is(nodes@, line_pred(line)),
        },
{
    let mut i: usize = 0;
    while i < nodes.len()
        invariant
            i <= nodes@.len(),
            forall|j: int| 0 <= j < i ==> !line_pred(line)(#[trigger] nodes@[j]),
        decreases nodes@.len() - i,
    {
        if nodes[i].line_number == line {
            assert(line_pred(line)(nodes@[i as int]));
            return Some(&nodes[i]);
        }
        i = i + 1;
    }
    None
}

/// Find the first node with empty text: the next one to annotate.
pub fn first_empty(nodes: &[ScannedNode]) -> (r: Option<&ScannedNode>)
    ensures
        match r {
            Some(n) => is_first(nodes@, empty_text_pred(), *n),
            None => none_is(nodes@, empty_text_pred()),
        },
{
    let mut i: usize = 0;
    while i < nodes.len()
        invariant
            i <= nodes@.len(),
            forall|j: int| 0 <= j < i ==> !empty_text_pred()(#[trigger] nodes@[j]),
        decreases nodes@.len() - i,
    {
        if nodes[i].text.as_str().is_empty() {
            assert(empty_text_pred()(nodes@[i as int]));
            return Some(&nodes[i]);
        }
        i = i + 1;
    }
    None
}

/// The depth a node is compared by: its heading depth, or 255 for an action block.
pub open spec fn depth_or_max(n: ScannedNode) -> u8 {
    match n.depth {
        Some(d) => d,
        None => 255,
    }
}

/// Whether `p` is a heading shallower than depth `d`.
pub open spec fn shallower(p: ScannedNode, d: u8) -> bool {
    p.depth matches Some(pd) && pd < d
}

/// Find the parent of a node: the nearest heading before it (before the
/// first node on its line) whose depth is smaller than its own.
pub fn find_parent<'a>(nodes: &'a [ScannedNode], node: &ScannedNode) -> (r: Option<&'a ScannedNode>)
    ensures
        none_is(nodes@, line_pred(node.line_number)) ==> r is None,
        forall|idx: int|
            #![trigger nodes@[idx]]
            0 <= idx < nodes@.len() && nodes@[idx].line_number == node.line_number && (forall|j: int|
                0 <= j < idx ==> !line_pred(node.line_number)(#[trigger] nodes@[j])) ==> match r {
                Some(p) => exists|k: int|
                    0 <= k < idx && nodes@[k] == *p && shallower(nodes@[k], depth_or_max(*node))
                        && forall|m: int|
                        k < m < idx ==> !shallower(#[trigger] nodes@[m], depth_or_max(*node)),
                None => forall|k: int|
                    0 <= k < idx ==> !shallower(#[trigger] nodes@[k], depth_or_max(*node)),
            },
{
    let mut idx: usize = 0;
    while idx < nodes.len() && nodes[idx].line_number != node.line_number
        invariant
            idx <= nodes@.len(),
            forall|j: int| 0 <= j < idx ==> !line_pred(node.line_number)(#[trigger] nodes@[j]),
        decreases nodes@.len() - idx,
    {
        idx = idx + 1;
    }
    if idx == nodes.len() {
        return None;
    }
    let nd: u8 = match node.depth {
        Some(d) => d,
        None => 255,
    };
    let mut k = idx;
    while k > 0
        invariant
            k <= idx < nodes@.len(),
            nd == depth_or_max(*node),
            nodes@[idx as int].line_number == node.line_number,
            forall|j: int| 0 <= j < idx ==> !line_pred(node.line_number)(#[trigger] nodes@[j]),
            forall|m: int| k <= m < idx ==> !shallower(#[trigger] nodes@[m], nd),
        decreases k,
    {
        let cand = &nodes[k - 1];
        let hit = match cand.depth {
            Some(d) => d < nd,
            None => false,
        };
        if hit {
            assert(shallower(nodes@[k - 1], nd));
            assert(line_pred(node.line_number)(nodes@[idx as int]));
            return Some(cand);
        }
        k = k - 1;
    }
    None
}

} // verus!
