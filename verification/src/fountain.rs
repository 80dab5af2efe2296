//! The Fountain round trip: what `render` writes for a source or target
//! tree, `scan` reads back as the same nodes, block by block.
use vstd::prelude::*;

use crate::ids::{hyphenated, is_lower_hex};
use crate::render::{content, content_kids, id_tag, is_leaf};
use crate::scan::{
    all_hex, block_end, extract_id, first_id_note, heading_depth, id_groups, id_note_at, is_hex, is_id,
    is_node_line, is_note, lemma_first_id_note_from, node_text, not_hash_pred, not_hex_or_dash_pred,
    notes_of, run_end, scan, scan_from, strip_heading_markers, strip_id, NodeView,
};
use crate::store::{kids, prose_of, Csvs};
use crate::text::{
    char_pred, ends_line, is_ws, lemma_end_non_ws_is, lemma_first_where_is, lemma_lines_append,
    lemma_lines_line, lines, not_ws_pred, plain_line, repeat, short_of, split_char, trim, trim_start,
};

verus! {

/// The Fountain blocks of a source or target node at `depth`, in the order
/// they are written: each block is a heading level (`None` for an action
/// block), a text and a short id. Inner nodes give headings, leaves with
/// prose give action blocks.
pub open spec fn blocks(c: Csvs, fwd: Seq<(Seq<char>, Seq<Seq<char>>)>, u: Seq<char>, depth: nat, n: nat) -> Seq<
    (Option<nat>, Seq<char>, Seq<char>),
>
    decreases n, 0nat,
{
    let p = prose_of(c, u);
    if is_leaf(fwd, u) {
        if p.len() > 0 {
            seq![(None, p, short_of(u))]
        } else {
            Seq::empty()
        }
    } else if n == 0 {
        Seq::empty()
    } else {
        seq![(Some(depth + 1), p, short_of(u))] + blocks_kids(c, fwd, kids(fwd, u), depth, (n - 1) as nat)
    }
}

/// The blocks of the children `ks` of a node at `depth`.
pub open spec fn blocks_kids(c: Csvs, fwd: Seq<(Seq<char>, Seq<Seq<char>>)>, ks: Seq<Seq<char>>, depth: nat, n: nat) -> Seq<
    (Option<nat>, Seq<char>, Seq<char>),
>
    decreases n, ks.len(),
{
    if ks.len() == 0 {
        Seq::empty()
    } else {
        blocks_kids(c, fwd, ks.drop_last(), depth, n) + blocks(c, fwd, ks.last(), depth + 1, n)
    }
}

/// The line a block is written as: `#` repeated for its level, its text,
/// and its id note.
pub open spec fn block_line(b: (Option<nat>, Seq<char>, Seq<char>)) -> Seq<char> {
    let tag = " [["@ + b.2 + "]]"@;
    match b.0 {
        Some(d) => if b.1.len() > 0 {
            repeat('#', d) + " "@ + b.1 + tag
        } else {
            repeat('#', d) + tag
        },
        None => b.1 + tag,
    }
}

/// Blocks written one after the other, each followed by a blank line.
pub open spec fn fountain_of(bs: Seq<(Option<nat>, Seq<char>, Seq<char>)>) -> Seq<char>
    decreases bs.len(),
{
    if bs.len() == 0 {
        Seq::empty()
    } else {
        fountain_of(bs.drop_last()) + block_line(bs.last()) + "\n\n"@
    }
}

pub proof fn lemma_fountain_of_append(a: Seq<(Option<nat>, Seq<char>, Seq<char>)>, b: Seq<(Option<nat>, Seq<char>, Seq<char>)>)
    ensures
        fountain_of(a + b) == fountain_of(a) + fountain_of(b),
    decreases b.len(),
{
    if b.len() == 0 {
        assert(a + b =~= a);
        assert(fountain_of(a) + fountain_of(b) =~= fountain_of(a));
    } else {
        lemma_fountain_of_append(a, b.drop_last());
        assert((a + b).drop_last() =~= a + b.drop_last());
        assert((a + b).last() == b.last());
        assert(fountain_of(a + b) =~= fountain_of(a) + fountain_of(b));
    }
}

/// The Fountain of a node is its blocks, written out.
pub proof fn lemma_content_blocks(c: Csvs, fwd: Seq<(Seq<char>, Seq<Seq<char>>)>, u: Seq<char>, depth: nat, n: nat)
    ensures
        content(c, fwd, u, depth, n).0 == fountain_of(blocks(c, fwd, u, depth, n)),
    decreases n, 0nat,
{
    let p = prose_of(c, u);
    let tag = " [["@ + short_of(u) + "]]"@;
    if is_leaf(fwd, u) {
        if p.len() > 0 {
            let b = (None::<nat>, p, short_of(u));
            assert(seq![b].drop_last() =~= Seq::<(Option<nat>, Seq<char>, Seq<char>)>::empty());
            assert(seq![b].last() == b);
            assert(fountain_of(seq![b]) == fountain_of(Seq::<(Option<nat>, Seq<char>, Seq<char>)>::empty())
                + block_line(b) + "\n\n"@);
            assert(block_line(b) == p + tag);
            assert(fountain_of(seq![b]) =~= p + id_tag(u) + "\n\n"@);
        } else {
            assert(fountain_of(Seq::<(Option<nat>, Seq<char>, Seq<char>)>::empty()) == Seq::<char>::empty());
        }
    } else if n == 0 {
        assert(fountain_of(Seq::<(Option<nat>, Seq<char>, Seq<char>)>::empty()) == Seq::<char>::empty());
    } else {
        let b = (Some(depth + 1), p, short_of(u));
        let rest = blocks_kids(c, fwd, kids(fwd, u), depth, (n - 1) as nat);
        lemma_content_kids_blocks(c, fwd, kids(fwd, u), depth, (n - 1) as nat);
        lemma_fountain_of_append(seq![b], rest);
        assert(seq![b].drop_last() =~= Seq::<(Option<nat>, Seq<char>, Seq<char>)>::empty());
        let hashes = repeat('#', depth + 1);
        assert(seq![b].last() == b);
        assert(fountain_of(seq![b]) == fountain_of(Seq::<(Option<nat>, Seq<char>, Seq<char>)>::empty())
            + block_line(b) + "\n\n"@);
        assert(fountain_of(seq![b]) =~= block_line(b) + "\n\n"@);
        if p.len() > 0 {
            assert(block_line(b) == hashes + " "@ + p + tag);
            assert(fountain_of(seq![b]) =~= hashes + " "@ + p + id_tag(u) + "\n\n"@);
        } else {
            assert(block_line(b) == hashes + tag);
            assert(fountain_of(seq![b]) =~= hashes + id_tag(u) + "\n\n"@);
        }
    }
}

/// The Fountain after some children is their blocks, written out.
pub proof fn lemma_content_kids_blocks(
    c: Csvs,
    fwd: Seq<(Seq<char>, Seq<Seq<char>>)>,
    ks: Seq<Seq<char>>,
    depth: nat,
    n: nat,
)
    ensures
        content_kids(c, fwd, ks, depth, n).0 == fountain_of(blocks_kids(c, fwd, ks, depth, n)),
    decreases n, ks.len(),
{
    if ks.len() == 0 {
        assert(fountain_of(Seq::<(Option<nat>, Seq<char>, Seq<char>)>::empty()) == Seq::<char>::empty());
    } else {
        let k = ks.last();
        lemma_content_kids_blocks(c, fwd, ks.drop_last(), depth, n);
        lemma_content_blocks(c, fwd, k, depth + 1, n);
        lemma_fountain_of_append(blocks_kids(c, fwd, ks.drop_last(), depth, n), blocks(c, fwd, k, depth + 1, n));
        let st = content_kids(c, fwd, ks.drop_last(), depth, n);
        if is_leaf(fwd, k) {
            let cp = prose_of(c, k);
            if cp.len() > 0 {
                assert(content(c, fwd, k, depth + 1, n).0 == cp + id_tag(k) + "\n\n"@);
                assert(content_kids(c, fwd, ks, depth, n).0 =~= st.0 + content(c, fwd, k, depth + 1, n).0);
            } else {
                assert(content(c, fwd, k, depth + 1, n).0 == Seq::<char>::empty());
                assert(content_kids(c, fwd, ks, depth, n).0 =~= st.0 + content(c, fwd, k, depth + 1, n).0);
            }
        }
    }
}

// ---------------------------------------------------------------------------
// Scanning blocks back
// ---------------------------------------------------------------------------

/// Prose that renders on one line and scans back unchanged: no line break
/// and no `[`, and no whitespace at either end.
pub open spec fn tidy_prose(p: Seq<char>) -> bool {
    &&& forall|i: int| 0 <= i < p.len() ==> #[trigger] p[i] != '\n' && p[i] != '\r' && p[i] != '['
    &&& p.len() > 0 ==> !is_ws(p[0]) && !is_ws(p.last())
}

/// A block that scans back as itself: tidy text, an id of eight hex
/// digits, a heading level from 1 to 255, and for an action block text that
/// is not empty and does not start with `#`.
pub open spec fn tidy_block(b: (Option<nat>, Seq<char>, Seq<char>)) -> bool {
    &&& tidy_prose(b.1)
    &&& b.2.len() == 8
    &&& all_hex(b.2)
    &&& match b.0 {
        Some(d) => 1 <= d <= 255,
        None => b.1.len() > 0 && b.1[0] != '#',
    }
}

/// Eight hex digits are an id, and hold no `-`, `[`, `]`, whitespace or line break.
pub proof fn lemma_hex_id(id: Seq<char>)
    requires
        id.len() == 8,
        all_hex(id),
    ensures
        is_id(id),
        forall|j: int|
            0 <= j < id.len() ==> #[trigger] id[j] != '-' && id[j] != '[' && id[j] != ']' && !is_ws(id[j])
                && id[j] != '\n' && id[j] != '\r',
{
    assert forall|j: int| 0 <= j < id.len() implies #[trigger] id[j] != '-' && id[j] != '[' && id[j] != ']'
        && !is_ws(id[j]) && id[j] != '\n' && id[j] != '\r' by {
        assert(is_hex(id[j]));
    }
    assert forall|j: int| 0 <= j < 8 implies !(#[trigger] char_pred('-')(id[j])) by {}
    lemma_first_where_is(id, char_pred('-'), 8);
    assert(split_char(id, '-') == seq![id]);
    assert(id_groups(id) == seq![id]);
}

/// The short id of a UUID in text form is its first eight hex digits.
pub proof fn lemma_short_of_uuid(u: Seq<char>)
    requires
        hyphenated(u),
    ensures
        short_of(u) == u.take(8),
        short_of(u).len() == 8,
        all_hex(short_of(u)),
{
    assert forall|j: int| 0 <= j < 8 implies !(#[trigger] char_pred('-')(u[j])) by {
        assert(is_lower_hex(u[j]));
    }
    assert(u[8] == '-');
    lemma_first_where_is(u, char_pred('-'), 8);
    assert forall|j: int| 0 <= j < 8 implies is_hex(#[trigger] u.take(8)[j]) by {
        assert(is_lower_hex(u[j]));
    }
}

/// Short ids round-trip: the short id of a UUID is eight hex characters,
/// and an id note `[[short]]` written after any text without `[` is read
/// back as that short id.
pub proof fn law_short_id_round_trip(u: Seq<char>, text: Seq<char>)
    requires
        hyphenated(u),
        forall|i: int| 0 <= i < text.len() ==> #[trigger] text[i] != '[',
    ensures
        short_of(u).len() == 8,
        is_id(short_of(u)),
        extract_id(text + "[["@ + short_of(u) + "]]"@) == Some(short_of(u)),
{
    lemma_short_of_uuid(u);
    lemma_hex_id(short_of(u));
    lemma_tagged(text, short_of(u));
}

/// Text followed by an id note, with no `[` before it: the id is found and
/// removing it leaves the text, trimmed.
pub proof fn lemma_tagged(pre: Seq<char>, id: Seq<char>)
    requires
        forall|i: int| 0 <= i < pre.len() ==> #[trigger] pre[i] != '[',
        id.len() == 8,
        all_hex(id),
    ensures
        extract_id(pre + "[["@ + id + "]]"@) == Some(id),
        strip_id(pre + "[["@ + id + "]]"@) == trim(pre),
{
    reveal_strlit("[[");
    reveal_strlit("]]");
    lemma_hex_id(id);
    let s = pre + "[["@ + id + "]]"@;
    let p = pre.len() as int;
    assert(s.len() == p + 12);
    assert(s[p] == '[' && s[p + 1] == '[');
    assert(forall|j: int| 0 <= j < 8 ==> s[p + 2 + j] == id[j]);
    assert(s[p + 10] == ']' && s[p + 11] == ']');
    let t = s.skip(p + 2);
    assert(t =~= id + "]]"@);
    assert forall|j: int| 0 <= j < 8 implies !(#[trigger] not_hex_or_dash_pred()(t[j])) by {
        assert(t[j] == id[j]);
        assert(is_hex(id[j]));
    }
    assert(not_hex_or_dash_pred()(t[8]));
    lemma_first_where_is(t, not_hex_or_dash_pred(), 8);
    assert(run_end(s, p + 2) == p + 10);
    assert(s.subrange(p + 2, p + 10) =~= id);
    assert(id_note_at(s, p));
    assert forall|k: int| 0 <= k < p implies !id_note_at(s, k) by {
        assert(s[k] == pre[k]);
    }
    lemma_first_id_note_from(s, 0, p);
    assert(first_id_note(s) == p);
    assert(s.take(p) + s.skip(p + 12) =~= pre);
}

/// Trimming text that starts and ends with non-whitespace at `a` and `e`,
/// with only whitespace around, gives what lies between.
pub proof fn lemma_trim_is(s: Seq<char>, a: int, e: int)
    requires
        0 <= a < e <= s.len(),
        forall|j: int| 0 <= j < a ==> is_ws(#[trigger] s[j]),
        !is_ws(s[a]),
        forall|j: int| e <= j < s.len() ==> is_ws(#[trigger] s[j]),
        !is_ws(s[e - 1]),
    ensures
        trim(s) == s.subrange(a, e),
{
    assert forall|j: int| 0 <= j < a implies !(#[trigger] not_ws_pred()(s[j])) by {}
    lemma_first_where_is(s, not_ws_pred(), a);
    let t = s.skip(a);
    assert(trim_start(s) == t);
    assert forall|j: int| e - a <= j < t.len() implies is_ws(#[trigger] t[j]) by {
        assert(t[j] == s[a + j]);
    }
    assert(t[e - a - 1] == s[e - 1]);
    lemma_end_non_ws_is(t, e - a);
    assert(t.take(e - a) =~= s.subrange(a, e));
}

/// Tidy prose is trimmed, and stays so with a space after it.
pub proof fn lemma_trim_tidy(p: Seq<char>)
    requires
        tidy_prose(p),
    ensures
        trim(p) == p,
        trim(p + " "@) == p,
{
    reveal_strlit(" ");
    if p.len() == 0 {
        assert(trim_start(p) =~= p);
        let s = p + " "@;
        assert(s[0] == ' ');
        assert(is_ws(s[0]));
        lemma_first_where_is(s, not_ws_pred(), 1);
        assert(trim_start(s) =~= Seq::<char>::empty());
    } else {
        lemma_trim_is(p, 0, p.len() as int);
        assert(p.subrange(0, p.len() as int) =~= p);
        let s = p + " "@;
        assert(is_ws(s[p.len() as int]));
        lemma_trim_is(s, 0, p.len() as int);
        assert(s.subrange(0, p.len() as int) =~= p);
    }
}

/// What scanning finds on the line of a tidy action block.
#[verifier::spinoff_prover]
pub proof fn lemma_action_line(b: (Option<nat>, Seq<char>, Seq<char>))
    requires
        tidy_block(b),
        b.0 is None,
    ensures
        plain_line(block_line(b)),
        trim(block_line(b)).len() != 0,
        !is_note(trim(block_line(b))),
        extract_id(block_line(b)) == Some(b.2),
        heading_depth(block_line(b)) == match b.0 {
            Some(d) => Some(d as u8),
            None => None::<u8>,
        },
        node_text(block_line(b)) == b.1,
{
    reveal_strlit(" ");
    let p = b.1;
    let id = b.2;
    lemma_trim_tidy(p);
    lemma_tail(id);
    let tail = "[["@ + id + "]]"@;
    let line = block_line(b);
    let pre = p + " "@;
    assert(line =~= pre + "[["@ + id + "]]"@);
    assert forall|i: int| 0 <= i < pre.len() implies #[trigger] pre[i] != '[' by {
        if i < p.len() {
            assert(pre[i] == p[i]);
        }
    }
    lemma_tagged(pre, id);
    // the line is trimmed, on one line, and starts with the prose
    assert(line[0] == p[0]);
    assert(line.last() == ']');
    lemma_trim_is(line, 0, line.len() as int);
    assert(line.subrange(0, line.len() as int) =~= line);
    lemma_first_where_is(line, not_ws_pred(), 0);
    assert(trim_start(line) =~= line);
    assert forall|i: int| 0 <= i < line.len() implies #[trigger] line[i] != '\n' by {
        if i < p.len() {
            assert(line[i] == p[i]);
        } else if i > p.len() {
            assert(line[i] == tail[i - p.len() - 1]);
        }
    }
}

/// A line of `d` hashes, a space and `m` (trimmed, on one line) is a
/// heading of level `d` whose text without the hashes is `m`.
pub proof fn lemma_hashes_line(d: nat, m: Seq<char>)
    requires
        1 <= d <= 255,
        m.len() > 0,
        !is_ws(m[0]),
        !is_ws(m.last()),
        forall|i: int| 0 <= i < m.len() ==> #[trigger] m[i] != '\n',
    ensures
        ({
            let line = repeat('#', d) + " "@ + m;
            &&& heading_depth(line) == Some(d as u8)
            &&& strip_heading_markers(line) == m
            &&& trim(line) == line
            &&& line[0] == '#'
            &&& plain_line(line)
        }),
{
    reveal_strlit(" ");
    let h = repeat('#', d);
    let line = h + " "@ + m;
    assert(line[0] == '#');
    assert(line.last() == m.last());
    lemma_trim_is(line, 0, line.len() as int);
    assert(line.subrange(0, line.len() as int) =~= line);
    lemma_first_where_is(line, not_ws_pred(), 0);
    assert(trim_start(line) =~= line);
    assert forall|j: int| 0 <= j < d implies !(#[trigger] not_hash_pred()(line[j])) by {
        assert(line[j] == h[j]);
    }
    assert(line[d as int] == ' ');
    lemma_first_where_is(line, not_hash_pred(), d as int);
    assert(d % 256 == d);
    let r = line.skip(d as int);
    assert(r =~= " "@ + m);
    lemma_trim_is(r, 1, r.len() as int);
    assert(r.subrange(1, r.len() as int) =~= m);
    assert forall|i: int| 0 <= i < line.len() implies #[trigger] line[i] != '\n' by {
        if i < d {
            assert(line[i] == h[i]);
        } else if i > d {
            assert(line[i] == m[i - d - 1]);
        }
    }
}

/// The id tag after some text: eight hex digits in `[[` and `]]`.
pub proof fn lemma_tail(id: Seq<char>)
    requires
        id.len() == 8,
        all_hex(id),
    ensures
        ({
            let tail = "[["@ + id + "]]"@;
            &&& tail.len() == 12
            &&& tail[0] == '['
            &&& tail.last() == ']'
            &&& forall|j: int| 0 <= j < tail.len() ==> #[trigger] tail[j] != '\n'
        }),
        " [["@ + id + "]]"@ == " "@ + ("[["@ + id + "]]"@),
{
    reveal_strlit(" [[");
    reveal_strlit("[[");
    reveal_strlit("]]");
    reveal_strlit(" ");
    lemma_hex_id(id);
    let tail = "[["@ + id + "]]"@;
    assert forall|j: int| 0 <= j < tail.len() implies #[trigger] tail[j] != '\n' by {
        if 2 <= j < 10 {
            assert(tail[j] == id[j - 2]);
        }
    }
    assert(" [["@ + id + "]]"@ =~= " "@ + tail);
}

/// What scanning finds on the line of a tidy heading.
#[verifier::spinoff_prover]
pub proof fn lemma_heading_line(b: (Option<nat>, Seq<char>, Seq<char>))
    requires
        tidy_block(b),
        b.0 is Some,
    ensures
        plain_line(block_line(b)),
        trim(block_line(b)).len() != 0,
        !is_note(trim(block_line(b))),
        extract_id(block_line(b)) == Some(b.2),
        heading_depth(block_line(b)) == match b.0 {
            Some(d) => Some(d as u8),
            None => None::<u8>,
        },
        node_text(block_line(b)) == b.1,
{
    reveal_strlit(" ");
    let p = b.1;
    let id = b.2;
    let d = b.0->0;
    lemma_trim_tidy(p);
    lemma_tail(id);
    let tail = "[["@ + id + "]]"@;
    let pre2 = if p.len() > 0 { p + " "@ } else { Seq::<char>::empty() };
    let m = pre2 + tail;
    let line = block_line(b);
    assert(line =~= repeat('#', d) + " "@ + m);
    assert(m[0] == if p.len() > 0 { p[0] } else { '[' });
    assert(m.last() == ']');
    assert forall|i: int| 0 <= i < m.len() implies #[trigger] m[i] != '\n' by {
        if i < pre2.len() {
            assert(m[i] == pre2[i]);
            if i < p.len() {
                assert(pre2[i] == p[i]);
            }
        } else {
            assert(m[i] == tail[i - pre2.len()]);
        }
    }
    lemma_hashes_line(d, m);
    // the id note, in the line and in the text after the hashes
    let pre = repeat('#', d) + " "@ + pre2;
    assert(line =~= pre + "[["@ + id + "]]"@);
    assert forall|i: int| 0 <= i < pre.len() implies #[trigger] pre[i] != '[' by {
        if i > d && i - d - 1 < p.len() {
            assert(pre[i] == p[i - d - 1]);
        }
    }
    lemma_tagged(pre, id);
    assert forall|i: int| 0 <= i < pre2.len() implies #[trigger] pre2[i] != '[' by {
        if i < p.len() {
            assert(pre2[i] == p[i]);
        }
    }
    lemma_tagged(pre2, id);
    assert(m =~= pre2 + "[["@ + id + "]]"@);
    if p.len() == 0 {
        assert(trim(pre2) =~= Seq::<char>::empty());
    }
    assert(node_text(line) == strip_id(m));
}

/// What scanning finds on the line a tidy block is written as.
pub proof fn lemma_block_line(b: (Option<nat>, Seq<char>, Seq<char>))
    requires
        tidy_block(b),
    ensures
        plain_line(block_line(b)),
        trim(block_line(b)).len() != 0,
        !is_note(trim(block_line(b))),
        extract_id(block_line(b)) == Some(b.2),
        heading_depth(block_line(b)) == match b.0 {
            Some(d) => Some(d as u8),
            None => None::<u8>,
        },
        node_text(block_line(b)) == b.1,
{
    match b.0 {
        None => lemma_action_line(b),
        Some(_) => lemma_heading_line(b),
    }
}

/// The lines of written blocks: each block's line, then a blank line.
pub open spec fn block_lines(bs: Seq<(Option<nat>, Seq<char>, Seq<char>)>) -> Seq<Seq<char>>
    decreases bs.len(),
{
    if bs.len() == 0 {
        Seq::empty()
    } else {
        block_lines(bs.drop_last()) + seq![block_line(bs.last()), Seq::<char>::empty()]
    }
}

/// A line and a blank line after text that ends a line.
pub proof fn lemma_lines_block(f: Seq<char>, l: Seq<char>)
    requires
        ends_line(f),
        plain_line(l),
    ensures
        lines(f + l + "\n\n"@) == lines(f) + seq![l, Seq::<char>::empty()],
        ends_line(f + l + "\n\n"@),
{
    reveal_strlit("\n\n");
    reveal_strlit("\n");
    let one = l + "\n"@;
    let rest = one + "\n"@;
    assert(f + l + "\n\n"@ =~= f + rest);
    lemma_lines_append(f, rest);
    assert(one.last() == '\n');
    lemma_lines_append(one, "\n"@);
    lemma_lines_line(l);
    lemma_lines_line(Seq::<char>::empty());
    assert(Seq::<char>::empty() + "\n"@ =~= "\n"@);
    assert(lines(rest) =~= seq![l, Seq::<char>::empty()]);
    assert((f + rest).last() == '\n');
}

pub proof fn lemma_lines_of_fountain(bs: Seq<(Option<nat>, Seq<char>, Seq<char>)>)
    requires
        forall|k: int| 0 <= k < bs.len() ==> plain_line(block_line(#[trigger] bs[k])),
    ensures
        lines(fountain_of(bs)) == block_lines(bs),
        ends_line(fountain_of(bs)),
    decreases bs.len(),
{
    if bs.len() == 0 {
        assert(lines(Seq::<char>::empty()) == Seq::<Seq<char>>::empty());
    } else {
        let d = bs.drop_last();
        assert forall|k: int| 0 <= k < d.len() implies plain_line(block_line(#[trigger] d[k])) by {
            assert(d[k] == bs[k]);
        }
        lemma_lines_of_fountain(d);
        assert(plain_line(block_line(bs[bs.len() - 1])));
        lemma_lines_block(fountain_of(d), block_line(bs.last()));
    }
}

#[verifier::spinoff_prover]
pub proof fn lemma_block_lines_index(bs: Seq<(Option<nat>, Seq<char>, Seq<char>)>)
    ensures
        block_lines(bs).len() == 2 * bs.len(),
        forall|k: int|
            0 <= k < bs.len() ==> block_lines(bs)[2 * k] == block_line(#[trigger] bs[k])
                && block_lines(bs)[2 * k + 1] == Seq::<char>::empty(),
    decreases bs.len(),
{
    if bs.len() > 0 {
        let d = bs.drop_last();
        lemma_block_lines_index(d);
        let ld = block_lines(d);
        let tail = seq![block_line(bs.last()), Seq::<char>::empty()];
        assert(block_lines(bs) == ld + tail);
        assert forall|k: int| 0 <= k < bs.len() implies block_lines(bs)[2 * k] == block_line(#[trigger] bs[k])
            && block_lines(bs)[2 * k + 1] == Seq::<char>::empty() by {
            if k < d.len() {
                assert(d[k] == bs[k]);
                assert((ld + tail)[2 * k] == ld[2 * k]);
                assert((ld + tail)[2 * k + 1] == ld[2 * k + 1]);
            } else {
                assert(k == d.len());
                assert((ld + tail)[2 * k] == tail[0]);
                assert((ld + tail)[2 * k + 1] == tail[1]);
            }
        }
    }
}

/// What scanning finds for the `k`-th written block: a node on line
/// `2k + 1` with the block's id, heading level and text, and no notes.
pub open spec fn block_view(b: (Option<nat>, Seq<char>, Seq<char>), k: int) -> NodeView {
    NodeView {
        line: (2 * k + 1) as nat,
        id: b.2,
        depth: match b.0 {
            Some(d) => Some(d as u8),
            None => None,
        },
        text: b.1,
        notes: Seq::empty(),
    }
}

pub open spec fn block_views(bs: Seq<(Option<nat>, Seq<char>, Seq<char>)>) -> Seq<NodeView> {
    Seq::new(bs.len(), |k: int| block_view(bs[k], k))
}

pub proof fn lemma_scan_blocks(bs: Seq<(Option<nat>, Seq<char>, Seq<char>)>, k: int)
    requires
        0 <= k <= bs.len(),
        forall|j: int| 0 <= j < bs.len() ==> tidy_block(#[trigger] bs[j]),
    ensures
        scan_from(block_lines(bs), 2 * k) == block_views(bs).skip(k),
    decreases bs.len() - k,
{
    let ls = block_lines(bs);
    lemma_block_lines_index(bs);
    if k == bs.len() {
        assert(block_views(bs).skip(k) =~= Seq::<NodeView>::empty());
    } else {
        let i = 2 * k;
        let b = bs[k];
        lemma_block_line(b);
        assert(ls[i] == block_line(b));
        assert(ls[i + 1] == Seq::<char>::empty());
        assert(trim(Seq::<char>::empty()).len() == 0);
        assert(block_end(ls, i + 1) == i + 1);
        assert(ls.subrange(i + 1, i + 1) =~= Seq::<Seq<char>>::empty());
        assert(notes_of(Seq::<Seq<char>>::empty()) == Seq::<Seq<char>>::empty());
        assert(!is_node_line(ls[i + 1]));
        lemma_scan_blocks(bs, k + 1);
        assert(scan_from(ls, i + 1) == scan_from(ls, i + 2));
        assert(block_views(bs).skip(k) =~= seq![block_view(b, k)] + block_views(bs).skip(k + 1));
        assert(scan_from(ls, i) =~= seq![block_view(b, k)] + scan_from(ls, i + 2));
    }
}

/// Fountain round trip: scanning the Fountain that `render` writes for a
/// source or target tree finds each of its blocks again, in the order they
/// were written, one every other line: a node with the block's short id,
/// its heading level (none for an action block), its prose as text, and no
/// notes. This holds whenever every block is tidy (one line of prose
/// without `[`, trimmed; an id of eight hex digits; at most 255 levels).
pub proof fn law_fountain_round_trip(c: Csvs, fwd: Seq<(Seq<char>, Seq<Seq<char>>)>, root: Seq<char>, n: nat)
    requires
        forall|k: int|
            0 <= k < blocks(c, fwd, root, 0, n).len() ==> tidy_block(#[trigger] blocks(c, fwd, root, 0, n)[k]),
    ensures
        scan(content(c, fwd, root, 0, n).0) == block_views(blocks(c, fwd, root, 0, n)),
{
    let bs = blocks(c, fwd, root, 0, n);
    lemma_content_blocks(c, fwd, root, 0, n);
    assert forall|k: int| 0 <= k < bs.len() implies plain_line(block_line(#[trigger] bs[k])) by {
        lemma_block_line(bs[k]);
    }
    lemma_lines_of_fountain(bs);
    lemma_scan_blocks(bs, 0);
    assert(block_views(bs).skip(0) =~= block_views(bs));
}

} // verus!
