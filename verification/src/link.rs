//! Linking a target node to a structure node, or reparenting it.
//!
//! `link <target>` lists unmapped, annotated structure nodes ranked by how
//! many words they share with the target's text; `--structure <addr>` maps
//! the target to a structure node; `--parent <addr>` moves it under a new
//! parent.
use vstd::prelude::*;

use crate::next::{labelled, structure_child, structure_target, tree_bounded};
use crate::store::{
    lemma_first_in_props,
    kids, law_children_in_file_order, lemma_lookup_set_value, lemma_record_of_edge, lemma_records_appended,
    lemma_records_push, lookup, records,
    appended, depth_first, find_root, first_in, forward_of, forward_or_empty, has_key,
    lemma_first_in, load_forward, pairs, load_edges, prose_of, reaches_within, resolve_uuid,
    resolved, reverse_of, root_of, set_value, tablet_records, tablet_text,
    walk_depth_first, ChildMap, Csvs,
};
use crate::text::{
    clean_id, ends_line, lemma_edge_line, lemma_lines_join, lemma_lines_no_newline, lemma_trim_plain, plain_line,
    append_chars, append_str, char_vecs, chars_eq, chars_of, clip_line, clip_line_exec, copy_range,
    decimal, decimal_exec, dedup, join, join_exec, lemma_end_where_is,
    lemma_first_where_is, lines, lines_exec, short_of, short_of_exec, split_once, split_once_exec,
    split_ws, split_ws_exec, string_of, strs, trim, trim_exec, trim_to, utf8_len, utf8_len_le,
};

verus! {

// ---------------------------------------------------------------------------
// Words
// ---------------------------------------------------------------------------

/// What `str::to_lowercase` gives for a string (Unicode lowercase mapping).
pub uninterp spec fn lowercase(s: Seq<char>) -> Seq<char>;

/// What `char::is_alphanumeric` gives (Unicode `Alphabetic` or `Numeric`).
pub uninterp spec fn alphanumeric(c: char) -> bool;

/// `str::to_lowercase`: the result is `lowercase` of the argument.
#[verifier::external_body]
fn to_lowercase_str(s: &str) -> (r: String)
    ensures
        r@ == lowercase(s@),
{
    s.to_lowercase()
}

/// `char::is_alphanumeric`: the result is `alphanumeric` of the argument.
#[verifier::external_body]
fn is_alphanumeric_char(c: char) -> (r: bool)
    ensures
        r == alphanumeric(c),
{
    c.is_alphanumeric()
}

pub open spec fn alnum_pred() -> spec_fn(char) -> bool {
    |c: char| alphanumeric(c)
}

/// The words kept from some whitespace-separated pieces: pieces longer than
/// three bytes, with non-alphanumeric characters trimmed off both ends, when
/// something is left.
pub open spec fn keep_words(ws: Seq<Seq<char>>) -> Seq<Seq<char>>
    decreases ws.len(),
{
    if ws.len() == 0 {
        Seq::empty()
    } else {
        let w = ws.last();
        let t = trim_to(w, alnum_pred());
        if utf8_len(w) > 3 && t.len() > 0 {
            keep_words(ws.drop_last()).push(t)
        } else {
            keep_words(ws.drop_last())
        }
    }
}

/// The keywords of a text, lower-cased, in order (with repeats).
pub open spec fn words_of(text: Seq<char>) -> Seq<Seq<char>> {
    keep_words(split_ws(lowercase(text)))
}

/// How many of `ds` occur in `ws`.
pub open spec fn count_in(ds: Seq<Seq<char>>, ws: Seq<Seq<char>>) -> nat
    decreases ds.len(),
{
    if ds.len() == 0 {
        0
    } else if ws.contains(ds.last()) {
        count_in(ds.drop_last(), ws) + 1
    } else {
        count_in(ds.drop_last(), ws)
    }
}

/// The number of distinct keywords two texts share.
pub open spec fn overlap(a: Seq<char>, b: Seq<char>) -> nat {
    count_in(dedup(words_of(a)), words_of(b))
}

fn trim_alnum(w: &[char]) -> (r: Vec<char>)
    ensures
        r@ == trim_to(w@, alnum_pred()),
{
    let mut a: usize = 0;
    while a < w.len() && !is_alphanumeric_char(w[a])
        invariant
            a <= w@.len(),
            forall|j: int| 0 <= j < a ==> !alnum_pred()(#[trigger] w@[j]),
        decreases w@.len() - a,
    {
        a = a + 1;
    }
    proof {
        lemma_first_where_is(w@, alnum_pred(), a as int);
    }
    let t = copy_range(w, a, w.len());
    let mut b: usize = t.len();
    while b > 0 && !is_alphanumeric_char(t[b - 1])
        invariant
            b <= t@.len(),
            forall|j: int| b <= j < t@.len() ==> !alnum_pred()(#[trigger] t@[j]),
        decreases b,
    {
        b = b - 1;
    }
    proof {
        lemma_end_where_is(t@, alnum_pred(), b as int);
    }
    copy_range(&t, 0, b)
}

/// The keywords of a text.
fn words(text: &str) -> (r: Vec<Vec<char>>)
    ensures
        char_vecs(r@) == words_of(text@),
{
    let lower = to_lowercase_str(text);
    let cs = chars_of(lower.as_str());
    let ws = split_ws_exec(&cs);
    let ghost wv = char_vecs(ws@);
    let mut out: Vec<Vec<char>> = Vec::new();
    let mut i: usize = 0;
    assert(wv.take(0) == Seq::<Seq<char>>::empty());
    while i < ws.len()
        invariant
            wv == char_vecs(ws@),
            i <= ws@.len(),
            char_vecs(out@) == keep_words(wv.take(i as int)),
        decreases ws@.len() - i,
    {
        assert(wv.take(i + 1).drop_last() == wv.take(i as int));
        assert(wv.take(i + 1).last() == ws@[i as int]@);
        if !utf8_len_le(&ws[i], 3) {
            let t = trim_alnum(&ws[i]);
            if t.len() > 0 {
                let ghost old_o = char_vecs(out@);
                out.push(t);
                assert(char_vecs(out@) == old_o.push(t@));
            }
        }
        i = i + 1;
    }
    assert(wv.take(ws@.len() as int) == wv);
    out
}

fn contains_word(v: &Vec<Vec<char>>, w: &[char]) -> (r: bool)
    ensures
        r == char_vecs(v@).contains(w@),
{
    let ghost vv = char_vecs(v@);
    let mut i: usize = 0;
    while i < v.len()
        invariant
            vv == char_vecs(v@),
            i <= v@.len(),
            forall|j: int| 0 <= j < i ==> vv[j] != w@,
        decreases v@.len() - i,
    {
        assert(vv[i as int] == v@[i as int]@);
        if chars_eq(&v[i], w) {
            return true;
        }
        i = i + 1;
    }
    false
}

fn dedup_exec(ws: &Vec<Vec<char>>) -> (r: Vec<Vec<char>>)
    ensures
        char_vecs(r@) == dedup(char_vecs(ws@)),
{
    let ghost wv = char_vecs(ws@);
    let mut out: Vec<Vec<char>> = Vec::new();
    let mut i: usize = 0;
    assert(wv.take(0) == Seq::<Seq<char>>::empty());
    while i < ws.len()
        invariant
            wv == char_vecs(ws@),
            i <= ws@.len(),
            char_vecs(out@) == dedup(wv.take(i as int)),
        decreases ws@.len() - i,
    {
        assert(wv.take(i + 1).drop_last() == wv.take(i as int));
        assert(wv.take(i + 1).last() == ws@[i as int]@);
        let ghost d = dedup(wv.take(i as int));
        if !contains_word(&out, &ws[i]) {
            let w = copy_range(&ws[i], 0, ws[i].len());
            let ghost old_o = char_vecs(out@);
            out.push(w);
            assert(char_vecs(out@) == old_o.push(w@));
            assert(wv[i as int] == ws@[i as int]@);
            assert(w@ == wv[i as int]);
            assert(!d.contains(wv[i as int]));
            assert(dedup(wv.take(i + 1)) == d.push(wv[i as int]));
        } else {
            assert(d.contains(wv[i as int]));
            assert(dedup(wv.take(i + 1)) == d);
        }
        i = i + 1;
    }
    assert(wv.take(ws@.len() as int) == wv);
    out
}

fn count_in_exec(ds: &Vec<Vec<char>>, ws: &Vec<Vec<char>>) -> (r: usize)
    ensures
        r == count_in(char_vecs(ds@), char_vecs(ws@)),
{
    let ghost dv = char_vecs(ds@);
    let mut n: usize = 0;
    let mut i: usize = 0;
    assert(dv.take(0) == Seq::<Seq<char>>::empty());
    while i < ds.len()
        invariant
            dv == char_vecs(ds@),
            i <= ds@.len(),
            n == count_in(dv.take(i as int), char_vecs(ws@)),
            n <= i,
        decreases ds@.len() - i,
    {
        assert(dv.take(i + 1).drop_last() == dv.take(i as int));
        assert(dv.take(i + 1).last() == ds@[i as int]@);
        if contains_word(ws, &ds[i]) {
            n = n + 1;
        }
        i = i + 1;
    }
    assert(dv.take(ds@.len() as int) == dv);
    n
}

// ---------------------------------------------------------------------------
// Candidates
// ---------------------------------------------------------------------------

/// A structure node offered for mapping: its UUID, prose and keyword overlap.
pub struct CandidateView {
    pub uuid: Seq<char>,
    pub prose: Seq<char>,
    pub score: nat,
}

/// The annotated, unmapped structure nodes of `order` (root excluded), each
/// with its overlap with the target's text.
pub open spec fn candidates_of(c: Csvs, order: Seq<Seq<char>>, root: Seq<char>, target_prose: Seq<char>) -> Seq<CandidateView>
    decreases order.len(),
{
    if order.len() == 0 {
        Seq::empty()
    } else {
        let rest = candidates_of(c, order.drop_last(), root, target_prose);
        let u = order.last();
        let p = prose_of(c, u);
        if u == root || has_key(forward_or_empty(c, structure_target()), u) || p.len() == 0 {
            rest
        } else {
            rest.push(CandidateView { uuid: u, prose: p, score: overlap(target_prose, p) })
        }
    }
}

pub open spec fn lower_score(x: CandidateView) -> spec_fn(CandidateView) -> bool {
    |e: CandidateView| e.score < x.score
}

/// `x` placed before the first element that scores lower than it.
pub open spec fn insert_desc(t: Seq<CandidateView>, x: CandidateView) -> Seq<CandidateView> {
    let k = first_in(t, lower_score(x));
    t.take(k) + seq![x] + t.skip(k)
}

/// Candidates by score, highest first; equal scores keep their order.
pub open spec fn sort_desc(s: Seq<CandidateView>) -> Seq<CandidateView>
    decreases s.len(),
{
    if s.len() == 0 {
        Seq::empty()
    } else {
        insert_desc(sort_desc(s.drop_last()), s.last())
    }
}

/// One line of the candidate list: rank, short id, score and first line.
pub open spec fn candidate_line(rank: nat, x: CandidateView) -> Seq<char> {
    "  "@ + decimal(rank) + ": ["@ + short_of(x.uuid) + "] ("@ + decimal(x.score) + ") "@
        + clip_line(x.prose, 70)
}

/// The lines for the first `k` ranked candidates.
pub open spec fn candidate_lines(s: Seq<CandidateView>, k: nat) -> Seq<Seq<char>>
    decreases k,
{
    if k == 0 || k > s.len() {
        Seq::empty()
    } else {
        candidate_lines(s, (k - 1) as nat).push(candidate_line(k, s[k - 1]))
    }
}

/// What listing candidates prints after the target line.
pub open spec fn candidate_report(ranked: Seq<CandidateView>, t_short: Seq<char>) -> Seq<Seq<char>> {
    let show: nat = if ranked.len() < 10 {
        ranked.len()
    } else {
        10
    };
    if show == 0 {
        seq!["no unmapped structure nodes with annotations found."@]
    } else {
        seq!["candidates (by keyword overlap):"@] + candidate_lines(ranked, show) + (if ranked.len()
            > show {
            seq!["  ... and "@ + decimal((ranked.len() - show) as nat) + " more unmapped"@]
        } else {
            Seq::empty()
        }) + seq![Seq::<char>::empty(), "use: tsugiki link "@ + t_short + " --structure <addr>"@]
    }
}


// ---------------------------------------------------------------------------
// Reparenting and mapping
// ---------------------------------------------------------------------------

/// The trimmed, non-empty lines of a containment tablet whose child is not `target`.
pub open spec fn kept_lines(ls: Seq<Seq<char>>, target: Seq<char>) -> Seq<Seq<char>>
    decreases ls.len(),
{
    if ls.len() == 0 {
        Seq::empty()
    } else {
        let t = trim(ls.last());
        if t.len() == 0 || split_once(t, ',').1 == target {
            kept_lines(ls.drop_last(), target)
        } else {
            kept_lines(ls.drop_last(), target).push(t)
        }
    }
}

/// Whether some line of a containment tablet has `target` as its child.
pub open spec fn has_child_line(ls: Seq<Seq<char>>, target: Seq<char>) -> bool
    decreases ls.len(),
{
    if ls.len() == 0 {
        false
    } else {
        let t = trim(ls.last());
        (t.len() > 0 && split_once(t, ',').1 == target) || has_child_line(ls.drop_last(), target)
    }
}

/// The tablet after moving `target` under `parent`: every edge into
/// `target` dropped, the new edge last.
pub open spec fn reparented(content: Seq<char>, target: Seq<char>, parent: Seq<char>) -> Seq<char> {
    join(kept_lines(lines(content), target).push(parent + ","@ + target), "\n"@) + "\n"@
}

/// The tablet text and what is printed when `target` is moved under `parent`.
fn reparent_content(content: &str, target: &str, parent: &str) -> (r: (Vec<char>, bool))
    ensures
        r.0@ == reparented(content@, target@, parent@),
        r.1 == has_child_line(lines(content@), target@),
{
    let cs = chars_of(content);
    let ls = lines_exec(&cs);
    let tc = chars_of(target);
    let ghost lv = char_vecs(ls@);
    let mut kept: Vec<Vec<char>> = Vec::new();
    let mut found = false;
    let mut i: usize = 0;
    assert(lv.take(0) == Seq::<Seq<char>>::empty());
    while i < ls.len()
        invariant
            lv == char_vecs(ls@),
            tc@ == target@,
            i <= ls@.len(),
            char_vecs(kept@) == kept_lines(lv.take(i as int), target@),
            found == has_child_line(lv.take(i as int), target@),
        decreases ls@.len() - i,
    {
        assert(lv.take(i + 1).drop_last() == lv.take(i as int));
        assert(lv.take(i + 1).last() == ls@[i as int]@);
        let t = trim_exec(&ls[i]);
        if t.len() > 0 {
            let (_left, right) = split_once_exec(&t, ',');
            if chars_eq(&right, &tc) {
                found = true;
            } else {
                let ghost old_k = char_vecs(kept@);
                kept.push(t);
                assert(char_vecs(kept@) == old_k.push(t@));
            }
        }
        i = i + 1;
    }
    assert(lv.take(ls@.len() as int) == lv);
    let mut edge = chars_of(parent);
    append_str(&mut edge, ",");
    append_str(&mut edge, target);
    let ghost old_k = char_vecs(kept@);
    kept.push(edge);
    assert(char_vecs(kept@) == old_k.push(edge@));
    let nl = chars_of("\n");
    let mut out = join_exec(&kept, &nl);
    append_str(&mut out, "\n");
    (out, found)
}

/// `[t] → [s] annotation`, the line printed after mapping.
pub open spec fn mapped_line(c: Csvs, t: Seq<char>, su: Seq<char>) -> Seq<char> {
    let p = prose_of(c, su);
    "["@ + short_of(t) + "] → ["@ + short_of(su) + "] "@ + (if p.len() == 0 {
        "(empty)"@
    } else {
        clip_line(p, 60)
    })
}

/// What reparenting prints.
pub open spec fn reparent_line(found: bool, t: Seq<char>, p: Seq<char>) -> Seq<char> {
    (if found {
        "reparented ["@
    } else {
        "parented ["@
    }) + short_of(t) + "] under ["@ + short_of(p) + "]"@
}

/// The line showing the target node before its candidates.
pub open spec fn target_line(c: Csvs, t: Seq<char>) -> Seq<char> {
    "target ["@ + short_of(t) + "]: "@ + clip_line(prose_of(c, t), 80)
}

/// What `link` gives: the lines it prints, and the tablet it rewrites (name
/// and new text), nothing, or the error it fails with.
pub type LinkOutcome = (Seq<Seq<char>>, Result<Option<(Seq<char>, Seq<char>)>, Seq<char>>);

/// `--parent`: the target `t` moved under the node `pa` names.
pub open spec fn reparent_outcome(c: Csvs, t: Seq<char>, pa: Seq<char>) -> LinkOutcome {
    match resolved(pairs(c.tablets@), pa) {
        None => (Seq::empty(), Err("Parent not found: "@ + pa)),
        Some(p) => match tablet_text(c, "target-child.csv"@) {
            None => (Seq::empty(), Err("No target tree found."@)),
            Some(content) => (
                seq![reparent_line(has_child_line(lines(content), t), t, p)],
                Ok(Some(("target-child.csv"@, reparented(content, t, p)))),
            ),
        },
    }
}

/// `--structure`: the target `t` mapped to the node `su`.
pub open spec fn map_outcome(c: Csvs, t: Seq<char>, su: Seq<char>) -> LinkOutcome {
    (
        seq![mapped_line(c, t, su)],
        Ok(Some((structure_target(), appended(tablet_text(c, structure_target()), su + ","@ + t)))),
    )
}

/// Without either: the candidate structure nodes for `t`, best first.
pub open spec fn candidates_outcome(c: Csvs, t: Seq<char>) -> LinkOutcome {
    let pre = seq![target_line(c, t), Seq::<char>::empty()];
    match tablet_text(c, structure_child()) {
        None => (pre, Err("No structure tree found."@)),
        Some(st) => {
            let fwd = forward_of(tablet_records(st));
            match root_of(fwd, reverse_of(tablet_records(st))) {
                None => (pre, Err("No root in structure tree"@)),
                Some(root) => if !tree_bounded(fwd, root) {
                    (pre, Err("The structure tree has a cycle"@))
                } else {
                    (
                        pre + candidate_report(
                            sort_desc(candidates_of(c, depth_first(fwd, root), root, prose_of(c, t))),
                            short_of(t),
                        ),
                        Ok(None),
                    )
                },
            }
        },
    }
}

/// What `link` prints, and the tablet it rewrites (name and new text) or
/// the error it fails with.
pub open spec fn link_outcome(
    c: Csvs,
    target_addr: Seq<char>,
    structure_addr: Option<Seq<char>>,
    parent_addr: Option<Seq<char>>,
) -> LinkOutcome {
    match resolved(pairs(c.tablets@), target_addr) {
        None => (Seq::empty(), Err("Target node not found: "@ + target_addr)),
        Some(t) => match parent_addr {
            Some(pa) => reparent_outcome(c, t, pa),
            None => match structure_addr {
                Some(sa) => match resolved(pairs(c.tablets@), sa) {
                    None => (Seq::empty(), Err("Structure node not found: "@ + sa)),
                    Some(su) => map_outcome(c, t, su),
                },
                None => candidates_outcome(c, t),
            },
        },
    }
}

/// What a link call returned and left matches `o`.
pub open spec fn link_matches(o: LinkOutcome, r: (Vec<String>, Result<(), String>), before: Csvs, after: Csvs) -> bool {
    &&& strs(r.0@) == o.0
    &&& after.prose == before.prose
    &&& match o.1 {
        Ok(Some((name, text))) => r.1 is Ok && pairs(after.tablets@) == set_value(pairs(before.tablets@), name, text),
        Ok(None) => r.1 is Ok && after == before,
        Err(m) => r.1 matches Err(e) && e@ == m && after == before,
    }
}

// ---------------------------------------------------------------------------
// Code
// ---------------------------------------------------------------------------

pub open spec fn cview(t: (String, String, usize)) -> CandidateView {
    CandidateView { uuid: t.0@, prose: t.1@, score: t.2 as nat }
}

pub open spec fn cviews(v: Seq<(String, String, usize)>) -> Seq<CandidateView> {
    v.map_values(|t: (String, String, usize)| cview(t))
}

/// The candidates among the nodes of `order`.
fn collect_candidates(c: &Csvs, order: &Vec<String>, root: &str, target_prose: &str, mapped: &ChildMap) -> (r: Vec<(String, String, usize)>)
    requires
        mapped@ == forward_or_empty(*c, structure_target()),
    ensures
        cviews(r@) == candidates_of(*c, strs(order@), root@, target_prose@),
{
    let tw = words(target_prose);
    let td = dedup_exec(&tw);
    let rc = chars_of(root);
    let ghost ov = strs(order@);
    let mut out: Vec<(String, String, usize)> = Vec::new();
    let mut i: usize = 0;
    assert(ov.take(0) == Seq::<Seq<char>>::empty());
    while i < order.len()
        invariant
            ov == strs(order@),
            mapped@ == forward_or_empty(*c, structure_target()),
            rc@ == root@,
            char_vecs(td@) == dedup(words_of(target_prose@)),
            i <= order@.len(),
            cviews(out@) == candidates_of(*c, ov.take(i as int), root@, target_prose@),
        decreases order@.len() - i,
    {
        assert(ov.take(i + 1).drop_last() == ov.take(i as int));
        assert(ov.take(i + 1).last() == order@[i as int]@);
        let u = chars_of(order[i].as_str());
        if !chars_eq(&u, &rc) && !mapped.contains_key(order[i].as_str()) {
            let p = c.read_prose(order[i].as_str());
            if p.as_str().len() > 0 || !p.as_str().is_empty() {
                let nw = words(p.as_str());
                let score = count_in_exec(&td, &nw);
                let ghost old_o = cviews(out@);
                let pc = chars_of(p.as_str());
                out.push((string_of(&u), string_of(&pc), score));
                assert(cviews(out@) == old_o.push(CandidateView { uuid: u@, prose: p@, score: score as nat }));
            }
        }
        i = i + 1;
    }
    assert(ov.take(order@.len() as int) == ov);
    out
}

/// Candidates by score, highest first, keeping the order of equal scores.
fn sort_candidates(cs: &Vec<(String, String, usize)>) -> (r: Vec<(String, String, usize)>)
    ensures
        cviews(r@) == sort_desc(cviews(cs@)),
{
    let ghost cv = cviews(cs@);
    let mut sorted: Vec<(String, String, usize)> = Vec::new();
    let mut i: usize = 0;
    assert(cv.take(0) == Seq::<CandidateView>::empty());
    while i < cs.len()
        invariant
            cv == cviews(cs@),
            i <= cs@.len(),
            cviews(sorted@) == sort_desc(cv.take(i as int)),
        decreases cs@.len() - i,
    {
        assert(cv.take(i + 1).drop_last() == cv.take(i as int));
        assert(cv.take(i + 1).last() == cview(cs@[i as int]));
        let score = cs[i].2;
        let ghost x = cview(cs@[i as int]);
        let ghost sv = cviews(sorted@);
        let mut k: usize = 0;
        while k < sorted.len() && !(sorted[k].2 < score)
            invariant
                sv == cviews(sorted@),
                x.score == score,
                k <= sorted@.len(),
                forall|j: int| 0 <= j < k ==> !lower_score(x)(#[trigger] sv[j]),
            decreases sorted@.len() - k,
        {
            assert(sv[k as int] == cview(sorted@[k as int]));
            k = k + 1;
        }
        proof {
            if k < sorted@.len() {
                assert(sv[k as int] == cview(sorted@[k as int]));
            }
            lemma_first_in(sv, lower_score(x), k as int);
        }
        let u = chars_of(cs[i].0.as_str());
        let p = chars_of(cs[i].1.as_str());
        let item = (string_of(&u), string_of(&p), score);
        sorted.insert(k, item);
        assert(cviews(sorted@) =~= sv.take(k as int) + seq![x] + sv.skip(k as int));
        i = i + 1;
    }
    assert(cv.take(cs@.len() as int) == cv);
    sorted
}

/// The list of ranked candidates as printed.
fn candidate_report_exec(ranked: &Vec<(String, String, usize)>, t_short: &[char]) -> (r: Vec<String>)
    ensures
        strs(r@) == candidate_report(cviews(ranked@), t_short@),
{
    let ghost rv = cviews(ranked@);
    let show: usize = if ranked.len() < 10 { ranked.len() } else { 10 };
    let mut out: Vec<String> = Vec::new();
    if show == 0 {
        out.push(string_of(&chars_of("no unmapped structure nodes with annotations found.")));
        assert(strs(out@) =~= candidate_report(rv, t_short@));
        return out;
    }
    out.push(string_of(&chars_of("candidates (by keyword overlap):")));
    let ghost head = strs(out@);
    let mut i: usize = 0;
    while i < show
        invariant
            rv == cviews(ranked@),
            show <= ranked@.len(),
            show <= 10,
            i <= show,
            strs(out@) == head + candidate_lines(rv, i as nat),
        decreases show - i,
    {
        let x = &ranked[i];
        assert(rv[i as int] == cview(ranked@[i as int]));
        let mut line = chars_of("  ");
        let rank = decimal_exec(i + 1);
        append_chars(&mut line, &rank);
        append_str(&mut line, ": [");
        let uc = chars_of(x.0.as_str());
        let sh = short_of_exec(&uc);
        append_chars(&mut line, &sh);
        append_str(&mut line, "] (");
        let sc = decimal_exec(x.2);
        append_chars(&mut line, &sc);
        append_str(&mut line, ") ");
        let pc = chars_of(x.1.as_str());
        let cl = clip_line_exec(&pc, 70);
        append_chars(&mut line, &cl);
        let ghost old_o = strs(out@);
        out.push(string_of(&line));
        assert(strs(out@) == old_o.push(line@));
        assert(line@ == candidate_line((i + 1) as nat, rv[i as int]));
        i = i + 1;
    }
    let ghost body = strs(out@);
    assert(body == seq!["candidates (by keyword overlap):"@] + candidate_lines(rv, show as nat));
    let ghost more_part: Seq<Seq<char>> = if rv.len() > show as nat {
        seq!["  ... and "@ + decimal((rv.len() - show) as nat) + " more unmapped"@]
    } else {
        Seq::empty()
    };
    if ranked.len() > show {
        let mut more = chars_of("  ... and ");
        let n = decimal_exec(ranked.len() - show);
        append_chars(&mut more, &n);
        append_str(&mut more, " more unmapped");
        out.push(string_of(&more));
        assert(strs(out@) == body.push(more@));
        assert(more_part == seq![more@]);
    }
    assert(strs(out@) =~= body + more_part);
    let ghost body2 = strs(out@);
    let blank = String::new();
    assert(blank@ =~= Seq::<char>::empty());
    out.push(blank);
    let mut tail: Vec<char> = Vec::new();
    append_chars(&mut tail, t_short);
    append_str(&mut tail, " --structure <addr>");
    let last = labelled("use: tsugiki link ", &tail);
    assert(last@ =~= "use: tsugiki link "@ + t_short@ + " --structure <addr>"@);
    let ghost body3 = strs(out@);
    out.push(last);
    assert(strs(out@) == body3.push(last@));
    assert(strs(out@) =~= body2 + seq![Seq::<char>::empty(), "use: tsugiki link "@ + t_short@ + " --structure <addr>"@]);
    assert(strs(out@) =~= candidate_report(rv, t_short@));
    out
}

/// Reparents the target node `target` under the node `parent_addr` names.
fn reparent(csvs: &mut Csvs, target: &str, parent_addr: &str) -> (r: (Vec<String>, Result<(), String>))
    ensures
        link_matches(reparent_outcome(*old(csvs), target@, parent_addr@), r, *old(csvs), *final(csvs)),
{
    let empty: Vec<String> = Vec::new();
    assert(strs(empty@) =~= Seq::<Seq<char>>::empty());
    let parent = match resolve_uuid(csvs, parent_addr) {
        Some(p) => p,
        None => {
            return (empty, Err(labelled("Parent not found: ", &chars_of(parent_addr))));
        },
    };
    let content = match csvs.tablet("target-child.csv") {
        Some(t) => copy_string_of(t),
        None => {
            return (empty, Err(string_of(&chars_of("No target tree found."))));
        },
    };
    let (text, found) = reparent_content(content.as_str(), target, parent.as_str());
    let new_text = string_of(&text);
    csvs.write_tablet("target-child.csv", new_text.as_str());
    let mut line = if found {
        chars_of("reparented [")
    } else {
        chars_of("parented [")
    };
    append_chars(&mut line, &short_of_exec(&chars_of(target)));
    append_str(&mut line, "] under [");
    append_chars(&mut line, &short_of_exec(&chars_of(parent.as_str())));
    append_str(&mut line, "]");
    let mut out: Vec<String> = Vec::new();
    out.push(string_of(&line));
    assert(strs(out@) =~= seq![line@]);
    (out, Ok(()))
}

/// Maps the target node `target` to the structure node `struct_uuid`.
fn map_to_structure(csvs: &mut Csvs, target: &str, struct_uuid: &str) -> (r: (Vec<String>, Result<(), String>))
    ensures
        link_matches(map_outcome(*old(csvs), target@, struct_uuid@), r, *old(csvs), *final(csvs)),
{
    let ghost before = *csvs;
    let struct_prose = chars_of(csvs.read_prose(struct_uuid).as_str());
    let mut edge = chars_of(struct_uuid);
    append_str(&mut edge, ",");
    append_str(&mut edge, target);
    csvs.append_line("structure-target.csv", string_of(&edge).as_str());
    let mut line = chars_of("[");
    append_chars(&mut line, &short_of_exec(&chars_of(target)));
    append_str(&mut line, "] → [");
    append_chars(&mut line, &short_of_exec(&chars_of(struct_uuid)));
    append_str(&mut line, "] ");
    if struct_prose.len() == 0 {
        append_str(&mut line, "(empty)");
    } else {
        append_chars(&mut line, &clip_line_exec(&struct_prose, 60));
    }
    let mut out: Vec<String> = Vec::new();
    out.push(string_of(&line));
    assert(strs(out@) =~= seq![line@]);
    (out, Ok(()))
}

/// Lists the unmapped, annotated structure nodes that share the most
/// keywords with the target node `target`.
fn show_candidates(c: &Csvs, target: &str) -> (r: (Vec<String>, Result<(), String>))
    ensures
        link_matches(candidates_outcome(*c, target@), r, *c, *c),
{
    let tp = c.read_prose(target);
    let t_short = short_of_exec(&chars_of(target));
    let mut first = chars_of("target [");
    append_chars(&mut first, &t_short);
    append_str(&mut first, "]: ");
    append_chars(&mut first, &clip_line_exec(&chars_of(tp.as_str()), 80));
    let mut out: Vec<String> = Vec::new();
    out.push(string_of(&first));
    out.push(String::new());
    let ghost pre = strs(out@);
    assert(pre =~= seq![target_line(*c, target@), Seq::<char>::empty()]);
    let st = match c.tablet("structure-child.csv") {
        Some(t) => t,
        None => {
            return (out, Err(string_of(&chars_of("No structure tree found."))));
        },
    };
    let (fwd, rev) = load_edges(st.as_str());
    let root = match find_root(&fwd, &rev) {
        Some(r) => r,
        None => {
            return (out, Err(string_of(&chars_of("No root in structure tree"))));
        },
    };
    let bound = fwd.len();
    if bound == usize::MAX || !reaches_within(&fwd, root.as_str(), bound + 1) {
        return (out, Err(string_of(&chars_of("The structure tree has a cycle"))));
    }
    let mapped = load_forward(c, "structure-target.csv");
    let df = walk_depth_first(root.as_str(), &fwd);
    let cands = collect_candidates(c, &df, root.as_str(), tp.as_str(), &mapped);
    let ranked = sort_candidates(&cands);
    let report = candidate_report_exec(&ranked, &t_short);
    let mut j: usize = 0;
    while j < report.len()
        invariant
            j <= report@.len(),
            strs(out@) == pre + strs(report@).take(j as int),
        decreases report@.len() - j,
    {
        let ghost old_o = strs(out@);
        out.push(copy_string_of(&report[j]));
        assert(strs(out@) == old_o.push(report@[j as int]@));
        assert(strs(report@).take(j + 1) == strs(report@).take(j as int).push(report@[j as int]@));
        j = j + 1;
    }
    assert(strs(report@).take(report@.len() as int) == strs(report@));
    (out, Ok(()))
}

/// Links a target node to a structure node (provenance), or reparents it,
/// or lists candidate structure nodes; returns the lines printed and the
/// result.
pub fn run(csvs: &mut Csvs, target_addr: &str, structure_addr: Option<&str>, parent_addr: Option<&str>) -> (r: (Vec<String>, Result<(), String>))
    ensures
        link_matches(
            link_outcome(
                *old(csvs),
                target_addr@,
                match structure_addr {
                    Some(a) => Some(a@),
                    None => None,
                },
                match parent_addr {
                    Some(a) => Some(a@),
                    None => None,
                },
            ),
            r,
            *old(csvs),
            *final(csvs),
        ),
{
    let empty: Vec<String> = Vec::new();
    assert(strs(empty@) =~= Seq::<Seq<char>>::empty());
    let target = match resolve_uuid(csvs, target_addr) {
        Some(t) => t,
        None => {
            return (empty, Err(labelled("Target node not found: ", &chars_of(target_addr))));
        },
    };
    if let Some(pa) = parent_addr {
        return reparent(csvs, target.as_str(), pa);
    }
    if let Some(sa) = structure_addr {
        let su = match resolve_uuid(csvs, sa) {
            Some(s) => s,
            None => {
                return (empty, Err(labelled("Structure node not found: ", &chars_of(sa))));
            },
        };
        return map_to_structure(csvs, target.as_str(), su.as_str());
    }
    show_candidates(csvs, target.as_str())
}

fn copy_string_of(s: &String) -> (r: String)
    ensures
        r@ == s@,
{
    crate::text::copy_string(s)
}


// ---------------------------------------------------------------------------
// Laws
// ---------------------------------------------------------------------------

pub proof fn lemma_kept_plain(ls: Seq<Seq<char>>, target: Seq<char>)
    requires
        forall|k: int, i: int| 0 <= k < ls.len() && 0 <= i < ls[k].len() ==> #[trigger] ls[k][i] != '\n',
    ensures
        forall|k: int| 0 <= k < kept_lines(ls, target).len() ==> plain_line(#[trigger] kept_lines(ls, target)[k]),
    decreases ls.len(),
{
    if ls.len() > 0 {
        let dl = ls.drop_last();
        assert forall|k: int, i: int| 0 <= k < dl.len() && 0 <= i < dl[k].len() implies #[trigger] dl[k][i]
            != '\n' by {
            assert(dl[k] == ls[k]);
        }
        lemma_kept_plain(dl, target);
        let l = ls.last();
        assert forall|i: int| 0 <= i < l.len() implies #[trigger] l[i] != '\n' by {
            assert(l[i] == ls[ls.len() - 1][i]);
        }
        lemma_trim_plain(l);
        let kd = kept_lines(dl, target);
        let kk = kept_lines(ls, target);
        assert forall|k: int| 0 <= k < kk.len() implies plain_line(#[trigger] kk[k]) by {
            if k < kd.len() {
                assert(kk[k] == kd[k]);
            }
        }
    }
}

/// Reparenting: after `link --parent`, the tablet read back gives the
/// target the new parent (its last edge is the new one).
pub proof fn law_reparent_sets_parent(content: Seq<char>, target: Seq<char>, parent: Seq<char>)
    requires
        clean_id(target),
        clean_id(parent),
    ensures
        lookup(reverse_of(tablet_records(reparented(content, target, parent))), target) == Some(parent),
        tablet_records(reparented(content, target, parent)).last() == (parent, target),
{
    let ls = lines(content);
    lemma_lines_no_newline(content);
    lemma_kept_plain(ls, target);
    let kept = kept_lines(ls, target);
    let edge = parent + ","@ + target;
    lemma_edge_line(parent, target);
    lemma_record_of_edge(parent, target);
    let all = kept.push(edge);
    assert forall|k: int| 0 <= k < all.len() implies plain_line(#[trigger] all[k]) by {
        if k < kept.len() {
            assert(all[k] == kept[k]);
        }
    }
    lemma_lines_join(all);
    lemma_records_push(kept, edge);
    let rs = records(kept).push((parent, target));
    assert(tablet_records(reparented(content, target, parent)) == rs);
    assert(rs.drop_last() =~= records(kept));
    assert(reverse_of(rs) == set_value(reverse_of(records(kept)), target, parent));
    lemma_lookup_set_value(reverse_of(records(kept)), target, parent, target);
}

/// Mapping: after `link --structure`, the bridge tablet holds its old edges
/// and then the edge from the structure node to the target, so the target
/// is the last of the structure node's targets.
pub proof fn law_link_maps_target(c: Csvs, target_addr: Seq<char>, structure_addr: Seq<char>, t: Seq<char>, su: Seq<char>)
    requires
        resolved(pairs(c.tablets@), target_addr) == Some(t),
        resolved(pairs(c.tablets@), structure_addr) == Some(su),
        clean_id(t),
        clean_id(su),
        match tablet_text(c, structure_target()) {
            Some(x) => ends_line(x),
            None => true,
        },
    ensures
        link_outcome(c, target_addr, Some(structure_addr), None).1 matches Ok(Some((name, text))) && name
            == structure_target() && tablet_records(text) == match tablet_text(c, structure_target()) {
            Some(x) => tablet_records(x),
            None => Seq::<(Seq<char>, Seq<char>)>::empty(),
        }.push((su, t)) && kids(forward_of(tablet_records(text)), su).last() == t,
{
    lemma_records_appended(tablet_text(c, structure_target()), su, t);
    let rs = tablet_records(appended(tablet_text(c, structure_target()), su + ","@ + t));
    law_children_in_file_order(rs, su);
    assert(rs.drop_last() == match tablet_text(c, structure_target()) {
        Some(x) => tablet_records(x),
        None => Seq::<(Seq<char>, Seq<char>)>::empty(),
    });
}


/// Scores never rise along a list.
pub open spec fn sorted_desc(s: Seq<CandidateView>) -> bool {
    forall|i: int, j: int| 0 <= i < j < s.len() ==> (#[trigger] s[i]).score >= (#[trigger] s[j]).score
}

pub proof fn lemma_insert_desc(t: Seq<CandidateView>, x: CandidateView)
    requires
        sorted_desc(t),
    ensures
        sorted_desc(insert_desc(t, x)),
        insert_desc(t, x) == t.insert(first_in(t, lower_score(x)), x),
{
    let k = first_in(t, lower_score(x));
    lemma_first_in_props(t, lower_score(x));
    let r = insert_desc(t, x);
    assert(r =~= t.insert(k, x));
    assert forall|i: int, j: int| 0 <= i < j < r.len() implies (#[trigger] r[i]).score >= (#[trigger] r[j]).score by {
        if j < k {
            assert(r[i] == t[i] && r[j] == t[j]);
        } else if j == k {
            assert(r[j] == x);
            assert(r[i] == t[i]);
            assert(!lower_score(x)(t[i]));
        } else if i < k {
            assert(r[i] == t[i] && r[j] == t[j - 1]);
        } else if i == k {
            assert(r[i] == x && r[j] == t[j - 1]);
            assert(lower_score(x)(t[k]));
            if j - 1 > k {
                assert(t[k].score >= t[j - 1].score);
            }
        } else {
            assert(r[i] == t[i - 1] && r[j] == t[j - 1]);
        }
    }
}

/// Candidates are listed by score, highest first, and the listing holds
/// exactly the candidates (each as often as before).
pub proof fn law_candidates_by_score(s: Seq<CandidateView>)
    ensures
        sorted_desc(sort_desc(s)),
        sort_desc(s).to_multiset() == s.to_multiset(),
    decreases s.len(),
{
    broadcast use vstd::seq_lib::to_multiset_insert, vstd::seq_lib::to_multiset_build;

    if s.len() == 0 {
        assert(sort_desc(s) =~= s);
    } else {
        law_candidates_by_score(s.drop_last());
        lemma_insert_desc(sort_desc(s.drop_last()), s.last());
        lemma_first_in_props(sort_desc(s.drop_last()), lower_score(s.last()));
        assert(s.drop_last().push(s.last()) =~= s);
    }
}

/// What `candidates_of` keeps: every candidate is an annotated node of the
/// walk, other than the root, that no target is mapped to yet; and every
/// such node is a candidate.
pub proof fn lemma_candidates_of(c: Csvs, order: Seq<Seq<char>>, root: Seq<char>, tp: Seq<char>)
    ensures
        forall|k: int|
            0 <= k < candidates_of(c, order, root, tp).len() ==> {
                let x = #[trigger] candidates_of(c, order, root, tp)[k];
                &&& order.contains(x.uuid)
                &&& x.uuid != root
                &&& !has_key(forward_or_empty(c, structure_target()), x.uuid)
                &&& x.prose == prose_of(c, x.uuid)
                &&& x.prose.len() > 0
            },
        forall|j: int|
            0 <= j < order.len() && order[j] != root && !has_key(forward_or_empty(c, structure_target()), order[j])
                && prose_of(c, order[j]).len() > 0 ==> exists|k: int|
                0 <= k < candidates_of(c, order, root, tp).len() && (#[trigger] candidates_of(c, order, root, tp)[k]).uuid
                    == #[trigger] order[j],
    decreases order.len(),
{
    if order.len() > 0 {
        let d = order.drop_last();
        lemma_candidates_of(c, d, root, tp);
        let rest = candidates_of(c, d, root, tp);
        let all = candidates_of(c, order, root, tp);
        assert forall|k: int| 0 <= k < all.len() implies {
            let x = #[trigger] all[k];
            &&& order.contains(x.uuid)
            &&& x.uuid != root
            &&& !has_key(forward_or_empty(c, structure_target()), x.uuid)
            &&& x.prose == prose_of(c, x.uuid)
            &&& x.prose.len() > 0
        } by {
            if k < rest.len() {
                assert(all[k] == rest[k]);
                let x = rest[k];
                let i = choose|i: int| 0 <= i < d.len() && d[i] == x.uuid;
                assert(order[i] == d[i]);
            } else {
                assert(all[k].uuid == order[order.len() - 1]);
            }
        }
        assert forall|j: int|
            0 <= j < order.len() && order[j] != root && !has_key(forward_or_empty(c, structure_target()), order[j])
                && prose_of(c, order[j]).len() > 0 implies exists|k: int|
            0 <= k < all.len() && (#[trigger] all[k]).uuid == #[trigger] order[j] by {
            if j < d.len() {
                assert(d[j] == order[j]);
                let k = choose|k: int| 0 <= k < rest.len() && (#[trigger] rest[k]).uuid == d[j];
                assert(all[k] == rest[k]);
            } else {
                assert(all[all.len() - 1].uuid == order[j]);
            }
        }
    }
}

/// Link offers what is left to map: the candidates it lists, ranked, are
/// exactly the annotated structure nodes (root excluded) that no target is
/// mapped to in `structure-target.csv`, each with its prose and its
/// keyword overlap with the target's text, highest overlap first.
pub proof fn law_candidates_are_unmapped(c: Csvs, t: Seq<char>)
    ensures
        ({
            let pre = seq![target_line(c, t), Seq::<char>::empty()];
            match tablet_text(c, structure_child()) {
                Some(st) => {
                    let fwd = forward_of(tablet_records(st));
                    match root_of(fwd, reverse_of(tablet_records(st))) {
                        Some(root) => tree_bounded(fwd, root) ==> exists|ranked: Seq<CandidateView>| {
                            &&& candidates_outcome(c, t) == (pre + candidate_report(ranked, short_of(t)), Ok::<Option<(Seq<char>, Seq<char>)>, Seq<char>>(None))
                            &&& sorted_desc(ranked)
                            &&& forall|k: int|
                                0 <= k < ranked.len() ==> {
                                    let x = #[trigger] ranked[k];
                                    &&& depth_first(fwd, root).contains(x.uuid)
                                    &&& x.uuid != root
                                    &&& !has_key(forward_or_empty(c, structure_target()), x.uuid)
                                    &&& x.prose == prose_of(c, x.uuid)
                                    &&& x.prose.len() > 0
                                    &&& x.score == overlap(prose_of(c, t), x.prose)
                                }
                            &&& forall|u: Seq<char>|
                                depth_first(fwd, root).contains(u) && u != root && !has_key(
                                    forward_or_empty(c, structure_target()),
                                    u,
                                ) && prose_of(c, u).len() > 0 ==> exists|k: int|
                                    0 <= k < ranked.len() && (#[trigger] ranked[k]).uuid == u
                        },
                        None => true,
                    }
                },
                None => true,
            }
        }),
{
    broadcast use vstd::seq_lib::group_to_multiset_ensures;
    match tablet_text(c, structure_child()) {
        Some(st) => {
            let fwd = forward_of(tablet_records(st));
            match root_of(fwd, reverse_of(tablet_records(st))) {
                Some(root) => {
                    if tree_bounded(fwd, root) {
                        let order = depth_first(fwd, root);
                        let tp = prose_of(c, t);
                        let cs = candidates_of(c, order, root, tp);
                        let ranked = sort_desc(cs);
                        lemma_candidates_of(c, order, root, tp);
                        law_candidates_by_score(cs);
                        assert forall|k: int| 0 <= k < ranked.len() implies {
                            let x = #[trigger] ranked[k];
                            &&& order.contains(x.uuid)
                            &&& x.uuid != root
                            &&& !has_key(forward_or_empty(c, structure_target()), x.uuid)
                            &&& x.prose == prose_of(c, x.uuid)
                            &&& x.prose.len() > 0
                            &&& x.score == overlap(tp, x.prose)
                        } by {
                            assert(ranked.contains(ranked[k]));
                            assert(ranked.to_multiset().count(ranked[k]) > 0);
                            assert(cs.to_multiset().count(ranked[k]) > 0);
                            assert(cs.contains(ranked[k]));
                            let i = choose|i: int| 0 <= i < cs.len() && cs[i] == ranked[k];
                            lemma_candidate_score(c, order, root, tp, i);
                        }
                        assert forall|u: Seq<char>|
                            order.contains(u) && u != root && !has_key(forward_or_empty(c, structure_target()), u)
                                && prose_of(c, u).len() > 0 implies exists|k: int|
                            0 <= k < ranked.len() && (#[trigger] ranked[k]).uuid == u by {
                            let j = choose|j: int| 0 <= j < order.len() && order[j] == u;
                            let i = choose|i: int| 0 <= i < cs.len() && (#[trigger] cs[i]).uuid == order[j];
                            assert(cs.contains(cs[i]));
                            assert(cs.to_multiset().count(cs[i]) > 0);
                            assert(ranked.to_multiset().count(cs[i]) > 0);
                            assert(ranked.contains(cs[i]));
                            let k = choose|k: int| 0 <= k < ranked.len() && ranked[k] == cs[i];
                            assert(ranked[k].uuid == u);
                        }
                    }
                },
                None => {},
            }
        },
        None => {},
    }
}

/// Each candidate's score is its overlap with the target's text.
pub proof fn lemma_candidate_score(c: Csvs, order: Seq<Seq<char>>, root: Seq<char>, tp: Seq<char>, i: int)
    requires
        0 <= i < candidates_of(c, order, root, tp).len(),
    ensures
        candidates_of(c, order, root, tp)[i].score == overlap(tp, candidates_of(c, order, root, tp)[i].prose),
    decreases order.len(),
{
    let rest = candidates_of(c, order.drop_last(), root, tp);
    if i < rest.len() {
        lemma_candidate_score(c, order.drop_last(), root, tp, i);
        assert(candidates_of(c, order, root, tp)[i] == rest[i]);
    }
}

} // verus!
