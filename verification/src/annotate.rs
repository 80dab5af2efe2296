//! Writing annotation text to a structure node's prose blob.
use vstd::prelude::*;

use crate::next::{find_next_unannotated, labelled, next_outcome, next_unannotated_outcome, structure_child};
use crate::store::{
    forward_of, has_key, pairs, load_edges, prose_of, resolve_uuid, resolved, reverse_of,
    set_value, tablet_records, tablet_text, Csvs,
};
use crate::fountain::lemma_trim_is;
use crate::render::{annotation_lines, is_note_line, note_lines, structure_prose};
use crate::text::{
    append_chars, append_str, chars_of, clip_line, clip_line_exec, ends_line, is_ws, join, lemma_join_lines,
    lemma_lines_append, lemma_lines_newline, lemma_lines_single, lemma_trim_newline, lines, short_of,
    short_of_exec, starts_with, string_of, strs, trim,
};

verus! {

/// The prose an annotation writes: the text, then the note as a `[[note]]`
/// line when there is one.
pub open spec fn annotation_blob(text: Seq<char>, note: Option<Seq<char>>) -> Seq<char> {
    match note {
        Some(n) => text + "\n[["@ + n + "]]"@,
        None => text,
    }
}

/// Whether a UUID is in the structure tree (or there is no structure tablet
/// to check it against).
pub open spec fn in_structure(c: Csvs, uuid: Seq<char>) -> bool {
    match tablet_text(c, structure_child()) {
        Some(t) => has_key(forward_of(tablet_records(t)), uuid) || has_key(
            reverse_of(tablet_records(t)),
            uuid,
        ),
        None => true,
    }
}

/// What annotating gives: the node, the blob written and the line printed,
/// or the error it fails with.
pub open spec fn annotate_outcome(
    c: Csvs,
    addr: Seq<char>,
    text: Seq<char>,
    note: Option<Seq<char>>,
    overwrite: bool,
) -> Result<(Seq<char>, Seq<char>, Seq<char>), Seq<char>> {
    match resolved(pairs(c.tablets@), addr) {
        None => Err("Node not found: "@ + addr),
        Some(uuid) => {
            let short = short_of(uuid);
            let existing = prose_of(c, uuid);
            if !in_structure(c, uuid) {
                Err("["@ + short + "] is not in the structure tree"@)
            } else if existing.len() > 0 && !overwrite {
                Err(
                    "Node ["@ + short + "] already has text: \""@ + clip_line(existing, 60)
                        + "\". Use --overwrite to replace."@,
                )
            } else {
                Ok(
                    (
                        uuid,
                        annotation_blob(text, note),
                        if existing.len() == 0 {
                            "annotated ["@ + short + "]: \""@ + text + "\""@
                        } else {
                            "replaced ["@ + short + "]: \""@ + text + "\""@
                        },
                    ),
                )
            }
        },
    }
}

/// Writes annotation text (and an optional translator note) to a structure
/// node's prose blob, and returns the line to print.
///
/// Refuses to write over existing prose unless `overwrite` is set.
pub fn run(csvs: &mut Csvs, addr_str: &str, text: &str, note: Option<&str>, overwrite: bool) -> (r: Result<Vec<String>, String>)
    ensures
        match annotate_outcome(
            *old(csvs),
            addr_str@,
            text@,
            match note {
                Some(n) => Some(n@),
                None => None,
            },
            overwrite,
        ) {
            Ok((uuid, blob, line)) => {
                &&& r matches Ok(v) && strs(v@) == seq![line]
                &&& pairs(final(csvs).prose@) == set_value(pairs(old(csvs).prose@), uuid, blob)
                &&& final(csvs).tablets == old(csvs).tablets
            },
            Err(m) => {
                &&& r matches Err(e) && e@ == m
                &&& *final(csvs) == *old(csvs)
            },
        },
{
    let uuid = match resolve_uuid(csvs, addr_str) {
        Some(u) => u,
        None => {
            return Err(labelled("Node not found: ", &chars_of(addr_str)));
        },
    };
    let uc = chars_of(uuid.as_str());
    let short = short_of_exec(&uc);
    match csvs.tablet("structure-child.csv") {
        Some(t) => {
            let (fwd, rev) = load_edges(t.as_str());
            if !fwd.contains_key(uuid.as_str()) && !rev.contains_key(uuid.as_str()) {
                let mut msg = chars_of("[");
                append_chars(&mut msg, &short);
                append_str(&mut msg, "] is not in the structure tree");
                return Err(string_of(&msg));
            }
        },
        None => {},
    }
    let existing = chars_of(csvs.read_prose(uuid.as_str()).as_str());
    if existing.len() > 0 && !overwrite {
        let mut msg = chars_of("Node [");
        append_chars(&mut msg, &short);
        append_str(&mut msg, "] already has text: \"");
        let cl = clip_line_exec(&existing, 60);
        append_chars(&mut msg, &cl);
        append_str(&mut msg, "\". Use --overwrite to replace.");
        return Err(string_of(&msg));
    }
    let mut content = chars_of(text);
    match note {
        Some(n) => {
            append_str(&mut content, "\n[[");
            append_str(&mut content, n);
            append_str(&mut content, "]]");
        },
        None => {},
    }
    let blob = string_of(&content);
    csvs.write_prose(uuid.as_str(), blob.as_str());
    let mut line = if existing.len() == 0 {
        chars_of("annotated [")
    } else {
        chars_of("replaced [")
    };
    append_chars(&mut line, &short);
    append_str(&mut line, "]: \"");
    append_str(&mut line, text);
    append_str(&mut line, "\"");
    let mut out: Vec<String> = Vec::new();
    out.push(string_of(&line));
    assert(strs(out@) =~= seq![line@]);
    Ok(out)
}


/// The lines `next` prints for a store, or none when it fails.
pub open spec fn next_lines(c: Csvs) -> Seq<Seq<char>> {
    match next_outcome(c) {
        Ok(ls) => ls,
        Err(_) => Seq::empty(),
    }
}

/// What annotating `addr` and then reporting what is next gives: the
/// lines printed and the result, with `after` the store left behind.
pub open spec fn annotate_then_next(
    c: Csvs,
    addr: Seq<char>,
    text: Seq<char>,
    note: Option<Seq<char>>,
    overwrite: bool,
    after: Csvs,
    r: (Vec<String>, Result<(), String>),
) -> bool {
    match annotate_outcome(c, addr, text, note, overwrite) {
        Ok((uuid, blob, line)) => {
            &&& r.1 is Ok
            &&& pairs(after.prose@) == set_value(pairs(c.prose@), uuid, blob)
            &&& after.tablets == c.tablets
            &&& strs(r.0@) == seq![line] + next_lines(after)
        },
        Err(m) => r.1 matches Err(e) && e@ == m && after == c && strs(r.0@) == Seq::<Seq<char>>::empty(),
    }
}

/// The `annotate` command: with a text and an address, annotate that node;
/// with a text only, annotate the next unannotated node; without a text,
/// report what is next. After a successful annotation, what is next is
/// reported too.
pub open spec fn command_matches(
    c: Csvs,
    text: Option<Seq<char>>,
    addr: Option<Seq<char>>,
    note: Option<Seq<char>>,
    overwrite: bool,
    after: Csvs,
    r: (Vec<String>, Result<(), String>),
) -> bool {
    match text {
        Some(t) => match addr {
            Some(a) => annotate_then_next(c, a, t, note, overwrite, after, r),
            None => match next_unannotated_outcome(c) {
                Ok(Some(u)) => annotate_then_next(c, u, t, note, overwrite, after, r),
                Ok(None) => r.1 matches Err(e) && e@ == "No unannotated nodes remaining."@ && after == c && strs(
                    r.0@,
                ) == Seq::<Seq<char>>::empty(),
                Err(m) => r.1 matches Err(e) && e@ == m && after == c && strs(r.0@) == Seq::<Seq<char>>::empty(),
            },
        },
        None => after == c && match next_outcome(c) {
            Ok(ls) => r.1 is Ok && strs(r.0@) == ls,
            Err(m) => r.1 matches Err(e) && e@ == m && strs(r.0@) == Seq::<Seq<char>>::empty(),
        },
    }
}

fn annotate_and_next(csvs: &mut Csvs, addr: &str, text: &str, note: Option<&str>, overwrite: bool) -> (r: (
    Vec<String>,
    Result<(), String>,
))
    ensures
        annotate_then_next(
            *old(csvs),
            addr@,
            text@,
            match note {
                Some(n) => Some(n@),
                None => None,
            },
            overwrite,
            *final(csvs),
            r,
        ),
{
    match run(csvs, addr, text, note, overwrite) {
        Err(e) => {
            let v: Vec<String> = Vec::new();
            assert(strs(v@) =~= Seq::<Seq<char>>::empty());
            (v, Err(e))
        },
        Ok(mut lines) => {
            let ghost l0 = strs(lines@);
            match crate::next::run(csvs) {
                Ok(more) => {
                    let mut j: usize = 0;
                    while j < more.len()
                        invariant
                            j <= more@.len(),
                            strs(lines@) == l0 + strs(more@).take(j as int),
                        decreases more@.len() - j,
                    {
                        let ghost o1 = strs(lines@);
                        lines.push(crate::text::copy_string(&more[j]));
                        assert(strs(lines@) == o1.push(more@[j as int]@));
                        assert(strs(more@).take(j + 1) == strs(more@).take(j as int).push(more@[j as int]@));
                        j = j + 1;
                    }
                    assert(strs(more@).take(more@.len() as int) == strs(more@));
                },
                Err(_) => {
                    assert(strs(lines@) =~= l0 + Seq::<Seq<char>>::empty());
                },
            }
            (lines, Ok(()))
        },
    }
}

/// The `annotate` command (see `command_matches`): returns the lines
/// printed and the result.
pub fn annotate_command(csvs: &mut Csvs, text: Option<&str>, addr: Option<&str>, note: Option<&str>, overwrite: bool) -> (r: (
    Vec<String>,
    Result<(), String>,
))
    ensures
        command_matches(
            *old(csvs),
            match text {
                Some(t) => Some(t@),
                None => None,
            },
            match addr {
                Some(a) => Some(a@),
                None => None,
            },
            match note {
                Some(n) => Some(n@),
                None => None,
            },
            overwrite,
            *final(csvs),
            r,
        ),
{
    let empty: Vec<String> = Vec::new();
    assert(strs(empty@) =~= Seq::<Seq<char>>::empty());
    match text {
        Some(t) => match addr {
            Some(a) => annotate_and_next(csvs, a, t, note, overwrite),
            None => match find_next_unannotated(csvs) {
                Ok(Some(next_addr)) => annotate_and_next(csvs, next_addr.as_str(), t, note, overwrite),
                Ok(None) => (empty, Err(string_of(&chars_of("No unannotated nodes remaining.")))),
                Err(e) => (empty, Err(e)),
            },
        },
        None => match crate::next::run(csvs) {
            Ok(lines) => (lines, Ok(())),
            Err(e) => (empty, Err(e)),
        },
    }
}

/// An annotation is never written over existing prose without
/// `overwrite`: annotating a structure node that already has prose fails.
pub proof fn law_refuses_nonempty(c: Csvs, addr: Seq<char>, text: Seq<char>, note: Option<Seq<char>>, uuid: Seq<char>)
    requires
        resolved(pairs(c.tablets@), addr) == Some(uuid),
        prose_of(c, uuid).len() > 0,
    ensures
        annotate_outcome(c, addr, text, note, false) is Err,
{
}

/// What an annotation writes is what is read back: after a successful
/// annotation the node's prose is the text (and the note), and every other
/// node keeps its prose.
pub proof fn law_annotation_read_back(
    c: Csvs,
    addr: Seq<char>,
    text: Seq<char>,
    note: Option<Seq<char>>,
    overwrite: bool,
    after: Csvs,
    q: Seq<char>,
)
    requires
        annotate_outcome(c, addr, text, note, overwrite) is Ok,
        pairs(after.prose@) == set_value(
            pairs(c.prose@),
            annotate_outcome(c, addr, text, note, overwrite)->Ok_0.0,
            annotate_outcome(c, addr, text, note, overwrite)->Ok_0.1,
        ),
    ensures
        q == annotate_outcome(c, addr, text, note, overwrite)->Ok_0.0 ==> prose_of(after, q) == annotation_blob(
            text,
            note,
        ),
        q != annotate_outcome(c, addr, text, note, overwrite)->Ok_0.0 ==> prose_of(after, q) == prose_of(c, q),
{
    let o = annotate_outcome(c, addr, text, note, overwrite)->Ok_0;
    crate::store::lemma_lookup_set_value(pairs(c.prose@), o.0, o.1, q);
}

/// Lines none of which is a note keep their annotation whole and give no notes.
pub proof fn lemma_plain_annotation(ls: Seq<Seq<char>>)
    requires
        forall|k: int| 0 <= k < ls.len() ==> !is_note_line(trim(#[trigger] ls[k])),
    ensures
        annotation_lines(ls) == ls,
        note_lines(ls) == Seq::<Seq<char>>::empty(),
    decreases ls.len(),
{
    if ls.len() > 0 {
        let d = ls.drop_last();
        assert forall|k: int| 0 <= k < d.len() implies !is_note_line(trim(#[trigger] d[k])) by {
            assert(d[k] == ls[k]);
        }
        lemma_plain_annotation(d);
        assert(!is_note_line(trim(ls[ls.len() - 1])));
        assert(d.push(ls.last()) =~= ls);
    }
}

/// Annotations round-trip: reading back the prose an annotation writes
/// gives the annotation text, trimmed, and the note as its `[[note]]` line
/// (none without a note). This holds for text without `\r` none of whose
/// lines is itself a note line, and a note on one line.
pub proof fn law_annotation_prose_round_trip(text: Seq<char>, note: Option<Seq<char>>)
    requires
        forall|i: int| 0 <= i < text.len() ==> #[trigger] text[i] != '\r',
        forall|k: int| 0 <= k < lines(text).len() ==> !is_note_line(trim(#[trigger] lines(text)[k])),
        note matches Some(n) ==> forall|i: int| 0 <= i < n.len() ==> #[trigger] n[i] != '\n' && n[i] != '\r',
    ensures
        structure_prose(annotation_blob(text, note)) == (
            trim(text),
            match note {
                Some(n) => seq!["[["@ + n + "]]"@],
                None => Seq::<Seq<char>>::empty(),
            },
        ),
{
    reveal_strlit("\n");
    reveal_strlit("[[");
    reveal_strlit("]]");
    reveal_strlit("\n[[");
    // the lines of the text followed by a line break hold no note
    lemma_lines_newline(text);
    let lt = lines(text + "\n"@);
    assert forall|k: int| 0 <= k < lt.len() implies !is_note_line(trim(#[trigger] lt[k])) by {
        if k < lines(text).len() {
            assert(lt[k] == lines(text)[k]);
        } else {
            assert(lt[k] == Seq::<char>::empty());
            assert(trim(Seq::<char>::empty()) =~= Seq::<char>::empty());
        }
    }
    lemma_plain_annotation(lt);
    lemma_join_lines(text);
    match note {
        Some(n) => {
            let l = "[["@ + n + "]]"@;
            assert(annotation_blob(text, note) =~= (text + "\n"@) + l);
            assert((text + "\n"@).last() == '\n');
            lemma_lines_append(text + "\n"@, l);
            assert(l[0] == '[' && l.last() == ']');
            assert forall|i: int| 0 <= i < l.len() implies #[trigger] l[i] != '\n' by {
                if 2 <= i < l.len() - 2 {
                    assert(l[i] == n[i - 2]);
                }
            }
            lemma_lines_single(l);
            let all = lt.push(l);
            assert(lt + seq![l] =~= all);
            lemma_trim_is(l, 0, l.len() as int);
            assert(l.subrange(0, l.len() as int) =~= l);
            assert(l.take(2) =~= "[["@);
            assert(l.skip(l.len() - 2) =~= "]]"@);
            assert(is_note_line(trim(l)));
            assert(all.drop_last() =~= lt);
            assert(annotation_lines(all) == lt);
            assert(note_lines(all) == seq![l]);
        },
        None => {
            if text.len() == 0 {
                assert(lines(text) == Seq::<Seq<char>>::empty());
                assert(join(Seq::<Seq<char>>::empty(), "\n"@) == Seq::<char>::empty());
                lemma_plain_annotation(lines(text));
            } else if ends_line(text) {
                let t0 = text.drop_last();
                assert(t0 + "\n"@ =~= text);
                assert forall|i: int| 0 <= i < t0.len() implies #[trigger] t0[i] != '\r' by {
                    assert(t0[i] == text[i]);
                }
                lemma_join_lines(t0);
                lemma_trim_newline(t0);
                lemma_plain_annotation(lines(text));
            } else {
                assert(lt == lines(text));
            }
        },
    }
}

/// Only structure nodes are annotated: when `structure-child.csv` exists,
/// a successful annotation's node is the node the address resolves to and a
/// node of the structure tree (a parent or a child in that tablet), and an
/// address that resolves to a node outside the tree is refused with
/// "[short] is not in the structure tree", while a node of the tree is
/// annotated when it has no prose yet or `overwrite` is set.
pub proof fn law_annotates_only_structure_nodes(
    c: Csvs,
    addr: Seq<char>,
    text: Seq<char>,
    note: Option<Seq<char>>,
    overwrite: bool,
)
    ensures
        annotate_outcome(c, addr, text, note, overwrite) is Ok ==> resolved(pairs(c.tablets@), addr) == Some(
            annotate_outcome(c, addr, text, note, overwrite)->Ok_0.0,
        ),
        match tablet_text(c, structure_child()) {
            Some(t) => {
                &&& annotate_outcome(c, addr, text, note, overwrite) is Ok ==> {
                    let u = annotate_outcome(c, addr, text, note, overwrite)->Ok_0.0;
                    has_key(forward_of(tablet_records(t)), u) || has_key(reverse_of(tablet_records(t)), u)
                }
                &&& forall|u: Seq<char>|
                    resolved(pairs(c.tablets@), addr) == Some(u) && !has_key(forward_of(tablet_records(t)), u)
                        && !has_key(reverse_of(tablet_records(t)), u) ==> annotate_outcome(c, addr, text, note, overwrite)
                        == Err::<(Seq<char>, Seq<char>, Seq<char>), Seq<char>>(
                        "["@ + short_of(u) + "] is not in the structure tree"@,
                    )
                &&& forall|u: Seq<char>|
                    resolved(pairs(c.tablets@), addr) == Some(u) && (has_key(forward_of(tablet_records(t)), u)
                        || has_key(reverse_of(tablet_records(t)), u)) && (prose_of(c, u).len() == 0 || overwrite)
                        ==> annotate_outcome(c, addr, text, note, overwrite) is Ok && annotate_outcome(
                        c,
                        addr,
                        text,
                        note,
                        overwrite,
                    )->Ok_0.0 == u
            },
            None => true,
        },
{
}

} // verus!
