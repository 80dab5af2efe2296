//! Character-level text handling: whitespace, trimming, line and field
//! splitting, prefixes, byte lengths and decimal numerals.
//!
//! Everything works on `Seq<char>` in specifications and on `Vec<char>` /
//! `&[char]` in code; `chars_of` and `string_of` convert at the edges.
use vstd::prelude::*;

verus! {

broadcast use vstd::string::group_string_axioms;

/// Appends one character to a `String` (`String::push`).
#[verifier::external_body]
pub(crate) fn push_char(s: &mut String, c: char)
    ensures
        final(s)@ == old(s)@.push(c),
{
    s.push(c);
}

/// The characters of a string slice, in order.
pub fn chars_of(s: &str) -> (r: Vec<char>)
    ensures
        r@ == s@,
{
    let mut r: Vec<char> = Vec::new();
    for c in it: s.chars()
        invariant
            r@ == it.seq().take(it.index() as int),
            it.seq() == s@,
    {
        r.push(c);
    }
    r
}

/// A string holding the given characters.
pub fn string_of(cs: &[char]) -> (r: String)
    ensures
        r@ == cs@,
{
    let mut r = String::new();
    let mut i: usize = 0;
    while i < cs.len()
        invariant
            i <= cs@.len(),
            r@ == cs@.take(i as int),
        decreases cs@.len() - i,
    {
        push_char(&mut r, cs[i]);
        assert(cs@.take(i + 1) == cs@.take(i as int).push(cs@[i as int]));
        i = i + 1;
    }
    assert(cs@.take(cs@.len() as int) == cs@);
    r
}

/// The views of a sequence of strings.
pub open spec fn strs(v: Seq<String>) -> Seq<Seq<char>> {
    v.map_values(|s: String| s@)
}

/// The views of a sequence of character vectors.
pub open spec fn char_vecs(v: Seq<Vec<char>>) -> Seq<Seq<char>> {
    v.map_values(|s: Vec<char>| s@)
}

/// Copies `s[a..b]`.
pub fn copy_range(s: &[char], a: usize, b: usize) -> (r: Vec<char>)
    requires
        a <= b <= s@.len(),
    ensures
        r@ == s@.subrange(a as int, b as int),
{
    let mut r: Vec<char> = Vec::new();
    let mut i = a;
    while i < b
        invariant
            a <= i <= b <= s@.len(),
            r@ == s@.subrange(a as int, i as int),
        decreases b - i,
    {
        r.push(s[i]);
        assert(s@.subrange(a as int, i + 1) == s@.subrange(a as int, i as int).push(s@[i as int]));
        i = i + 1;
    }
    r
}

/// Appends all of `b` to `a`.
pub fn append_chars(a: &mut Vec<char>, b: &[char])
    ensures
        final(a)@ == old(a)@ + b@,
{
    let mut i: usize = 0;
    while i < b.len()
        invariant
            i <= b@.len(),
            a@ == old(a)@ + b@.take(i as int),
        decreases b@.len() - i,
    {
        a.push(b[i]);
        assert(b@.take(i + 1) == b@.take(i as int).push(b@[i as int]));
        i = i + 1;
    }
    assert(b@.take(b@.len() as int) == b@);
}

/// Appends the characters of `b` to `a`.
pub fn append_str(a: &mut Vec<char>, b: &str)
    ensures
        final(a)@ == old(a)@ + b@,
{
    let v = chars_of(b);
    append_chars(a, &v);
}

/// Whether two character slices hold the same characters.
pub fn chars_eq(a: &[char], b: &[char]) -> (r: bool)
    ensures
        r == (a@ == b@),
{
    if a.len() != b.len() {
        return false;
    }
    let mut i: usize = 0;
    while i < a.len()
        invariant
            a@.len() == b@.len(),
            i <= a@.len(),
            forall|j: int| 0 <= j < i ==> a@[j] == b@[j],
        decreases a@.len() - i,
    {
        if a[i] != b[i] {
            return false;
        }
        i = i + 1;
    }
    assert(a@ =~= b@);
    true
}

/// Whether two strings hold the same characters.
pub fn str_eq(a: &str, b: &str) -> (r: bool)
    ensures
        r == (a@ == b@),
{
    let x = chars_of(a);
    let y = chars_of(b);
    chars_eq(&x, &y)
}

// ---------------------------------------------------------------------------
// Whitespace
// ---------------------------------------------------------------------------

/// Unicode `White_Space`, the property that `char::is_whitespace` tests.
pub open spec fn is_ws(c: char) -> bool {
    let u = c as u32;
    (0x09 <= u <= 0x0D) || u == 0x20 || u == 0x85 || u == 0xA0 || u == 0x1680 || (0x2000 <= u
        <= 0x200A) || u == 0x2028 || u == 0x2029 || u == 0x202F || u == 0x205F || u == 0x3000
}

pub fn is_ws_exec(c: char) -> (r: bool)
    ensures
        r == is_ws(c),
{
    let u = c as u32;
    (0x09 <= u && u <= 0x0D) || u == 0x20 || u == 0x85 || u == 0xA0 || u == 0x1680 || (0x2000 <= u
        && u <= 0x200A) || u == 0x2028 || u == 0x2029 || u == 0x202F || u == 0x205F || u == 0x3000
}

/// Index of the first element satisfying `p`, or the length when there is none.
pub open spec fn first_where(s: Seq<char>, p: spec_fn(char) -> bool) -> int
    decreases s.len(),
{
    if s.len() == 0 {
        0
    } else if p(s[0]) {
        0
    } else {
        1 + first_where(s.drop_first(), p)
    }
}

pub proof fn lemma_first_where(s: Seq<char>, p: spec_fn(char) -> bool)
    ensures
        0 <= first_where(s, p) <= s.len(),
        forall|j: int| 0 <= j < first_where(s, p) ==> !p(#[trigger] s[j]),
        first_where(s, p) < s.len() ==> p(s[first_where(s, p)]),
    decreases s.len(),
{
    if s.len() > 0 && !p(s[0]) {
        lemma_first_where(s.drop_first(), p);
        assert forall|j: int| 0 <= j < first_where(s, p) implies !p(#[trigger] s[j]) by {
            if j > 0 {
                assert(s[j] == s.drop_first()[j - 1]);
            }
        }
    }
}

/// `first_where` is the index `i` when nothing before `i` satisfies `p` and
/// `i` is the length or satisfies `p`.
pub proof fn lemma_first_where_is(s: Seq<char>, p: spec_fn(char) -> bool, i: int)
    requires
        0 <= i <= s.len(),
        forall|j: int| 0 <= j < i ==> !p(#[trigger] s[j]),
        i < s.len() ==> p(s[i]),
    ensures
        first_where(s, p) == i,
{
    lemma_first_where(s, p);
    let f = first_where(s, p);
    if f < i {
        assert(!p(s[f]));
    }
    if i < f {
        assert(!p(s[i]));
    }
}

pub open spec fn ws_pred() -> spec_fn(char) -> bool {
    |c: char| is_ws(c)
}

pub open spec fn not_ws_pred() -> spec_fn(char) -> bool {
    |c: char| !is_ws(c)
}

pub open spec fn char_pred(c: char) -> spec_fn(char) -> bool {
    |x: char| x == c
}

/// Index of the first occurrence of `c`, or the length.
pub open spec fn first_index(s: Seq<char>, c: char) -> int {
    first_where(s, char_pred(c))
}

/// Leading whitespace removed (`str::trim_start`).
pub open spec fn trim_start(s: Seq<char>) -> Seq<char> {
    s.skip(first_where(s, not_ws_pred()))
}

/// Index just past the last non-whitespace character, or 0.
pub open spec fn end_non_ws(s: Seq<char>) -> int
    decreases s.len(),
{
    if s.len() == 0 {
        0
    } else if !is_ws(s.last()) {
        s.len() as int
    } else {
        end_non_ws(s.drop_last())
    }
}

pub proof fn lemma_end_non_ws(s: Seq<char>)
    ensures
        0 <= end_non_ws(s) <= s.len(),
        forall|j: int| end_non_ws(s) <= j < s.len() ==> is_ws(#[trigger] s[j]),
        end_non_ws(s) > 0 ==> !is_ws(s[end_non_ws(s) - 1]),
    decreases s.len(),
{
    if s.len() > 0 && is_ws(s.last()) {
        lemma_end_non_ws(s.drop_last());
        assert forall|j: int| end_non_ws(s) <= j < s.len() implies is_ws(#[trigger] s[j]) by {
            if j < s.len() - 1 {
                assert(s[j] == s.drop_last()[j]);
            }
        }
    }
}

pub proof fn lemma_end_non_ws_is(s: Seq<char>, e: int)
    requires
        0 <= e <= s.len(),
        forall|j: int| e <= j < s.len() ==> is_ws(#[trigger] s[j]),
        e > 0 ==> !is_ws(s[e - 1]),
    ensures
        end_non_ws(s) == e,
{
    lemma_end_non_ws(s);
    let f = end_non_ws(s);
    if f < e {
        assert(is_ws(s[e - 1]));
    }
    if e < f {
        assert(is_ws(s[f - 1]));
    }
}

/// Trailing whitespace removed (`str::trim_end`).
pub open spec fn trim_end(s: Seq<char>) -> Seq<char> {
    s.take(end_non_ws(s))
}

/// Whitespace removed at both ends (`str::trim`).
pub open spec fn trim(s: Seq<char>) -> Seq<char> {
    trim_end(trim_start(s))
}

pub fn trim_start_exec(s: &[char]) -> (r: Vec<char>)
    ensures
        r@ == trim_start(s@),
{
    let mut i: usize = 0;
    while i < s.len() && is_ws_exec(s[i])
        invariant
            i <= s@.len(),
            forall|j: int| 0 <= j < i ==> is_ws(#[trigger] s@[j]),
        decreases s@.len() - i,
    {
        i = i + 1;
    }
    proof {
        lemma_first_where_is(s@, not_ws_pred(), i as int);
    }
    copy_range(s, i, s.len())
}

pub fn trim_end_exec(s: &[char]) -> (r: Vec<char>)
    ensures
        r@ == trim_end(s@),
{
    let mut e: usize = s.len();
    while e > 0 && is_ws_exec(s[e - 1])
        invariant
            e <= s@.len(),
            forall|j: int| e <= j < s@.len() ==> is_ws(#[trigger] s@[j]),
        decreases e,
    {
        e = e - 1;
    }
    proof {
        lemma_end_non_ws_is(s@, e as int);
    }
    copy_range(s, 0, e)
}

pub fn trim_exec(s: &[char]) -> (r: Vec<char>)
    ensures
        r@ == trim(s@),
{
    let t = trim_start_exec(s);
    trim_end_exec(&t)
}

// ---------------------------------------------------------------------------
// Splitting
// ---------------------------------------------------------------------------

/// Lines as `str::lines` yields them: split at `\n`, a `\r` before a `\n`
/// dropped, and no empty line after a final `\n`.
pub open spec fn lines(s: Seq<char>) -> Seq<Seq<char>>
    decreases s.len(),
{
    if s.len() == 0 {
        Seq::empty()
    } else {
        let i = first_index(s, '\n');
        if i >= s.len() {
            seq![s]
        } else {
            if 0 <= i {
                seq![strip_cr(s.take(i))] + lines(s.skip(i + 1))
            } else {
                Seq::empty()
            }
        }
    }
}

/// A final `\r` removed.
pub open spec fn strip_cr(s: Seq<char>) -> Seq<char> {
    if s.len() > 0 && s.last() == '\r' {
        s.drop_last()
    } else {
        s
    }
}

/// All fields between occurrences of `c`, empty ones included (`str::split`).
pub open spec fn split_char(s: Seq<char>, c: char) -> Seq<Seq<char>>
    decreases s.len(),
{
    let i = first_index(s, c);
    if i >= s.len() || i < 0 {
        seq![s]
    } else {
        seq![s.take(i)] + split_char(s.skip(i + 1), c)
    }
}

/// Everything before the first `c`, and everything after it (empty when
/// there is no `c`): what `splitn(2, c)` yields as its two parts.
pub open spec fn split_once(s: Seq<char>, c: char) -> (Seq<char>, Seq<char>) {
    let i = first_index(s, c);
    if i >= s.len() {
        (s, Seq::empty())
    } else {
        (s.take(i), s.skip(i + 1))
    }
}

pub fn strip_cr_exec(s: &[char]) -> (r: Vec<char>)
    ensures
        r@ == strip_cr(s@),
{
    if s.len() > 0 && s[s.len() - 1] == '\r' {
        copy_range(s, 0, s.len() - 1)
    } else {
        copy_range(s, 0, s.len())
    }
}

/// `str::lines` on a character slice.
pub fn lines_exec(s: &[char]) -> (r: Vec<Vec<char>>)
    ensures
        char_vecs(r@) == lines(s@),
{
    let mut out: Vec<Vec<char>> = Vec::new();
    let mut start: usize = 0;
    let mut i: usize = 0;
    let n = s.len();
    assert(s@.subrange(0, n as int) == s@);
    assert(char_vecs(out@) + lines(s@) == lines(s@));
    while i < n
        invariant
            n == s@.len(),
            start <= i <= n,
            forall|j: int| start <= j < i ==> s@[j] != '\n',
            lines(s@) == char_vecs(out@) + lines(s@.subrange(start as int, n as int)),
        decreases n - i,
    {
        if s[i] == '\n' {
            let ghost t = s@.subrange(start as int, n as int);
            proof {
                lemma_first_where_is(t, char_pred('\n'), i - start);
                assert(t.take(i - start) == s@.subrange(start as int, i as int));
                assert(t.skip(i - start + 1) == s@.subrange(i + 1, n as int));
            }
            let piece = copy_range(s, start, i);
            let line = strip_cr_exec(&piece);
            let ghost old_out = out@;
            out.push(line);
            assert(char_vecs(out@) == char_vecs(old_out) + seq![line@]);
            start = i + 1;
        }
        i = i + 1;
    }
    if start < n {
        let ghost t = s@.subrange(start as int, n as int);
        proof {
            lemma_first_where_is(t, char_pred('\n'), t.len() as int);
        }
        let piece = copy_range(s, start, n);
        let ghost old_out = out@;
        out.push(piece);
        assert(char_vecs(out@) == char_vecs(old_out) + seq![piece@]);
    } else {
        assert(s@.subrange(start as int, n as int).len() == 0);
        assert(char_vecs(out@) + Seq::<Seq<char>>::empty() == char_vecs(out@));
    }
    out
}

/// `str::split(c)` on a character slice.
pub fn split_char_exec(s: &[char], c: char) -> (r: Vec<Vec<char>>)
    ensures
        char_vecs(r@) == split_char(s@, c),
{
    let mut out: Vec<Vec<char>> = Vec::new();
    let mut start: usize = 0;
    let mut i: usize = 0;
    let n = s.len();
    assert(s@.subrange(0, n as int) == s@);
    assert(char_vecs(out@) + split_char(s@, c) == split_char(s@, c));
    while i < n
        invariant
            n == s@.len(),
            start <= i <= n,
            forall|j: int| start <= j < i ==> s@[j] != c,
            split_char(s@, c) == char_vecs(out@) + split_char(s@.subrange(start as int, n as int), c),
        decreases n - i,
    {
        if s[i] == c {
            let ghost t = s@.subrange(start as int, n as int);
            proof {
                lemma_first_where_is(t, char_pred(c), i - start);
                assert(t.take(i - start) == s@.subrange(start as int, i as int));
                assert(t.skip(i - start + 1) == s@.subrange(i + 1, n as int));
            }
            let piece = copy_range(s, start, i);
            let ghost old_out = out@;
            out.push(piece);
            assert(char_vecs(out@) == char_vecs(old_out) + seq![piece@]);
            start = i + 1;
        }
        i = i + 1;
    }
    let ghost t = s@.subrange(start as int, n as int);
    proof {
        lemma_first_where_is(t, char_pred(c), t.len() as int);
    }
    let piece = copy_range(s, start, n);
    let ghost old_out = out@;
    out.push(piece);
    assert(char_vecs(out@) == char_vecs(old_out) + seq![piece@]);
    out
}

/// `splitn(2, c)`: the part before the first `c` and the rest after it.
pub fn split_once_exec(s: &[char], c: char) -> (r: (Vec<char>, Vec<char>))
    ensures
        (r.0@, r.1@) == split_once(s@, c),
{
    let mut i: usize = 0;
    while i < s.len() && s[i] != c
        invariant
            i <= s@.len(),
            forall|j: int| 0 <= j < i ==> s@[j] != c,
        decreases s@.len() - i,
    {
        i = i + 1;
    }
    proof {
        lemma_first_where_is(s@, char_pred(c), i as int);
    }
    if i < s.len() {
        (copy_range(s, 0, i), copy_range(s, i + 1, s.len()))
    } else {
        (copy_range(s, 0, s.len()), Vec::new())
    }
}


/// Maximal runs of non-whitespace characters (`str::split_whitespace`).
pub open spec fn split_ws(s: Seq<char>) -> Seq<Seq<char>>
    decreases s.len(),
{
    let a = first_where(s, not_ws_pred());
    if a < 0 || a >= s.len() {
        Seq::empty()
    } else {
        let t = s.skip(a);
        let b = first_where(t, ws_pred());
        if b <= 0 || b > t.len() {
            Seq::empty()
        } else {
            seq![t.take(b)] + split_ws(t.skip(b))
        }
    }
}

/// `str::split_whitespace` on a character slice.
pub fn split_ws_exec(s: &[char]) -> (r: Vec<Vec<char>>)
    ensures
        char_vecs(r@) == split_ws(s@),
{
    let n = s.len();
    let mut out: Vec<Vec<char>> = Vec::new();
    let mut i: usize = 0;
    assert(s@.subrange(0, n as int) == s@);
    assert(char_vecs(out@) + split_ws(s@) == split_ws(s@));
    while i < n
        invariant
            n == s@.len(),
            i <= n,
            split_ws(s@) == char_vecs(out@) + split_ws(s@.subrange(i as int, n as int)),
        decreases n - i,
    {
        let ghost u = s@.subrange(i as int, n as int);
        let mut a = i;
        while a < n && is_ws_exec(s[a])
            invariant
                i <= a <= n,
                n == s@.len(),
                forall|j: int| i <= j < a ==> is_ws(#[trigger] s@[j]),
            decreases n - a,
        {
            a = a + 1;
        }
        proof {
            lemma_first_where_is(u, not_ws_pred(), a - i);
        }
        if a == n {
            assert(split_ws(u) == Seq::<Seq<char>>::empty());
            assert(char_vecs(out@) + Seq::<Seq<char>>::empty() == char_vecs(out@));
            assert(s@.subrange(n as int, n as int) == Seq::<char>::empty());
            i = n;
        } else {
            let mut b = a + 1;
            while b < n && !is_ws_exec(s[b])
                invariant
                    a < b <= n,
                    n == s@.len(),
                    forall|j: int| a < j < b ==> !is_ws(#[trigger] s@[j]),
                decreases n - b,
            {
                b = b + 1;
            }
            let ghost t = u.skip(a - i);
            proof {
                assert(t == s@.subrange(a as int, n as int));
                assert(!is_ws(t[0]));
                lemma_first_where_is(t, ws_pred(), b - a);
                assert(t.take(b - a) == s@.subrange(a as int, b as int));
                assert(t.skip(b - a) == s@.subrange(b as int, n as int));
            }
            let piece = copy_range(s, a, b);
            let ghost old_out = out@;
            out.push(piece);
            assert(char_vecs(out@) == char_vecs(old_out) + seq![piece@]);
            i = b;
        }
    }
    assert(s@.subrange(n as int, n as int) == Seq::<char>::empty());
    assert(split_ws(Seq::<char>::empty()) == Seq::<Seq<char>>::empty());
    assert(char_vecs(out@) + Seq::<Seq<char>>::empty() == char_vecs(out@));
    out
}

// ---------------------------------------------------------------------------
// Byte lengths, prefixes, ids
// ---------------------------------------------------------------------------

/// Bytes that the UTF-8 encoding of `c` takes.
pub open spec fn char_width(c: char) -> nat {
    let u = c as u32;
    if u < 0x80 {
        1
    } else if u < 0x800 {
        2
    } else if u < 0x10000 {
        3
    } else {
        4
    }
}

/// Length of the UTF-8 encoding of `s` (`str::len`).
pub open spec fn utf8_len(s: Seq<char>) -> nat
    decreases s.len(),
{
    if s.len() == 0 {
        0
    } else {
        utf8_len(s.drop_last()) + char_width(s.last())
    }
}

fn char_width_exec(c: char) -> (r: u8)
    ensures
        r == char_width(c),
{
    let u = c as u32;
    if u < 0x80 {
        1
    } else if u < 0x800 {
        2
    } else if u < 0x10000 {
        3
    } else {
        4
    }
}

/// Whether the UTF-8 encoding of `s` takes at most `max` bytes.
pub fn utf8_len_le(s: &[char], max: usize) -> (r: bool)
    ensures
        r == (utf8_len(s@) <= max),
{
    let mut acc: u128 = 0;
    let mut i: usize = 0;
    while i < s.len()
        invariant
            i <= s@.len(),
            acc == utf8_len(s@.take(i as int)),
            acc <= max,
        decreases s@.len() - i,
    {
        assert(s@.take(i + 1).drop_last() == s@.take(i as int));
        acc = acc + char_width_exec(s[i]) as u128;
        if acc > max as u128 {
            proof {
                lemma_utf8_len_prefix(s@, i + 1);
            }
            return false;
        }
        i = i + 1;
    }
    assert(s@.take(s@.len() as int) == s@);
    true
}

/// A prefix never takes more bytes than the whole.
pub proof fn lemma_utf8_len_prefix(s: Seq<char>, k: int)
    requires
        0 <= k <= s.len(),
    ensures
        utf8_len(s.take(k)) <= utf8_len(s),
    decreases s.len(),
{
    if k < s.len() {
        assert(s.drop_last().take(k) == s.take(k));
        lemma_utf8_len_prefix(s.drop_last(), k);
    } else {
        assert(s.take(k) == s);
    }
}

/// The first line of `s`, or `s` itself when it has none.
pub open spec fn first_line_of(s: Seq<char>) -> Seq<char> {
    if lines(s).len() > 0 {
        lines(s)[0]
    } else {
        s
    }
}

pub open spec fn ellipsis() -> Seq<char> {
    seq!['.', '.', '.']
}

/// The first line of `s`, kept whole when its UTF-8 encoding takes at most
/// `max` bytes, else cut to its first `max` characters and marked with `...`.
pub open spec fn clip_line(s: Seq<char>, max: nat) -> Seq<char> {
    let line = first_line_of(s);
    if utf8_len(line) <= max {
        line
    } else if line.len() <= max {
        line + ellipsis()
    } else {
        line.take(max as int) + ellipsis()
    }
}

/// The first line of `s`, shortened to `max` characters as `clip_line` says.
pub fn clip_line_exec(s: &[char], max: usize) -> (r: Vec<char>)
    ensures
        r@ == clip_line(s@, max as nat),
{
    let ls = lines_exec(s);
    let mut line: Vec<char> = if ls.len() > 0 {
        copy_range(&ls[0], 0, ls[0].len())
    } else {
        copy_range(s, 0, s.len())
    };
    assert(ls.len() > 0 ==> ls@[0]@ == char_vecs(ls@)[0]);
    assert(line@ == first_line_of(s@));
    if utf8_len_le(&line, max) {
        line
    } else {
        let end = if line.len() <= max { line.len() } else { max };
        let mut out = copy_range(&line, 0, end);
        out.push('.');
        out.push('.');
        out.push('.');
        assert(out@ == line@.take(end as int) + ellipsis());
        assert(line@.len() <= max ==> line@.take(end as int) == line@);
        out
    }
}

/// Whether `p` is a prefix of `s` (`str::starts_with`).
pub open spec fn starts_with(s: Seq<char>, p: Seq<char>) -> bool {
    p.len() <= s.len() && s.take(p.len() as int) == p
}

pub fn starts_with_exec(s: &[char], p: &[char]) -> (r: bool)
    ensures
        r == starts_with(s@, p@),
{
    if p.len() > s.len() {
        return false;
    }
    let mut i: usize = 0;
    while i < p.len()
        invariant
            p@.len() <= s@.len(),
            i <= p@.len(),
            forall|j: int| 0 <= j < i ==> s@[j] == p@[j],
        decreases p@.len() - i,
    {
        if s[i] != p[i] {
            assert(s@.take(p@.len() as int)[i as int] != p@[i as int]);
            return false;
        }
        i = i + 1;
    }
    assert(s@.take(p@.len() as int) =~= p@);
    true
}

/// Whether `s` ends with `p`.
pub open spec fn ends_with(s: Seq<char>, p: Seq<char>) -> bool {
    p.len() <= s.len() && s.skip(s.len() - p.len()) == p
}

pub fn ends_with_exec(s: &[char], p: &[char]) -> (r: bool)
    ensures
        r == ends_with(s@, p@),
{
    if p.len() > s.len() {
        return false;
    }
    let off = s.len() - p.len();
    let mut i: usize = 0;
    while i < p.len()
        invariant
            p@.len() <= s@.len(),
            off + p@.len() == s@.len(),
            i <= p@.len(),
            forall|j: int| 0 <= j < i ==> s@[off + j] == p@[j],
        decreases p@.len() - i,
    {
        assert(off + i < s.len());
        if s[off + i] != p[i] {
            assert(s@.skip(off as int)[i as int] != p@[i as int]);
            return false;
        }
        i = i + 1;
    }
    assert(s@.skip(off as int) =~= p@);
    true
}

/// Whether `c` occurs in `s`.
pub open spec fn has_char(s: Seq<char>, c: char) -> bool {
    exists|j: int| 0 <= j < s.len() && s[j] == c
}

pub fn has_char_exec(s: &[char], c: char) -> (r: bool)
    ensures
        r == has_char(s@, c),
{
    let mut i: usize = 0;
    while i < s.len()
        invariant
            i <= s@.len(),
            forall|j: int| 0 <= j < i ==> s@[j] != c,
        decreases s@.len() - i,
    {
        if s[i] == c {
            return true;
        }
        i = i + 1;
    }
    false
}

/// The part of `s` before its first `-`: the short form of a UUID.
pub open spec fn short_of(s: Seq<char>) -> Seq<char> {
    s.take(first_index(s, '-'))
}

pub fn short_of_exec(s: &[char]) -> (r: Vec<char>)
    ensures
        r@ == short_of(s@),
{
    let mut i: usize = 0;
    while i < s.len() && s[i] != '-'
        invariant
            i <= s@.len(),
            forall|j: int| 0 <= j < i ==> s@[j] != '-',
        decreases s@.len() - i,
    {
        i = i + 1;
    }
    proof {
        lemma_first_where_is(s@, char_pred('-'), i as int);
    }
    copy_range(s, 0, i)
}

// ---------------------------------------------------------------------------
// Decimal numerals
// ---------------------------------------------------------------------------

pub open spec fn digit_char(d: nat) -> char {
    if d == 0 {
        '0'
    } else if d == 1 {
        '1'
    } else if d == 2 {
        '2'
    } else if d == 3 {
        '3'
    } else if d == 4 {
        '4'
    } else if d == 5 {
        '5'
    } else if d == 6 {
        '6'
    } else if d == 7 {
        '7'
    } else if d == 8 {
        '8'
    } else {
        '9'
    }
}

/// The decimal numeral of `n`, as `{}` formats an integer.
pub open spec fn decimal(n: nat) -> Seq<char>
    decreases n,
{
    if n < 10 {
        seq![digit_char(n)]
    } else {
        decimal(n / 10).push(digit_char(n % 10))
    }
}

fn digit_char_exec(d: usize) -> (r: char)
    requires
        d < 10,
    ensures
        r == digit_char(d as nat),
{
    if d == 0 {
        '0'
    } else if d == 1 {
        '1'
    } else if d == 2 {
        '2'
    } else if d == 3 {
        '3'
    } else if d == 4 {
        '4'
    } else if d == 5 {
        '5'
    } else if d == 6 {
        '6'
    } else if d == 7 {
        '7'
    } else if d == 8 {
        '8'
    } else {
        '9'
    }
}

pub fn decimal_exec(n: usize) -> (r: Vec<char>)
    ensures
        r@ == decimal(n as nat),
    decreases n,
{
    if n < 10 {
        let mut v = Vec::new();
        v.push(digit_char_exec(n));
        v
    } else {
        let mut v = decimal_exec(n / 10);
        v.push(digit_char_exec(n % 10));
        v
    }
}

/// The value of an ASCII decimal digit.
pub open spec fn digit_value(c: char) -> int {
    (c as u32) - ('0' as u32)
}

pub open spec fn is_digit(c: char) -> bool {
    '0' as u32 <= c as u32 <= '9' as u32
}

/// The value of a string of decimal digits.
pub open spec fn digits_value(s: Seq<char>) -> nat
    decreases s.len(),
{
    if s.len() == 0 {
        0
    } else {
        (digits_value(s.drop_last()) * 10 + digit_value(s.last())) as nat
    }
}

/// Whether every character of `d` is an ASCII digit.
pub open spec fn all_digits(d: Seq<char>) -> bool {
    forall|j: int| 0 <= j < d.len() ==> is_digit(#[trigger] d[j])
}

/// The digits of a numeral: `s` without one leading `+`.
pub open spec fn unsigned_digits(s: Seq<char>) -> Seq<char> {
    if s.len() > 0 && s[0] == '+' {
        s.drop_first()
    } else {
        s
    }
}

/// What `str::parse::<usize>` gives: an optional `+`, then one or more
/// ASCII digits whose value fits in `usize`.
pub open spec fn parse_usize(s: Seq<char>) -> Option<usize> {
    let d = unsigned_digits(s);
    if d.len() > 0 && all_digits(d) && digits_value(d) <= usize::MAX {
        Some(digits_value(d) as usize)
    } else {
        None
    }
}

pub proof fn lemma_digits_value_prefix(s: Seq<char>, k: int)
    requires
        0 <= k <= s.len(),
        forall|j: int| 0 <= j < s.len() ==> is_digit(#[trigger] s[j]),
    ensures
        digits_value(s.take(k)) <= digits_value(s),
    decreases s.len(),
{
    if k < s.len() {
        assert(s.drop_last().take(k) == s.take(k));
        lemma_digits_value_prefix(s.drop_last(), k);
        assert(is_digit(s[s.len() - 1]));
    } else {
        assert(s.take(k) == s);
    }
}

pub fn parse_usize_exec(s: &[char]) -> (r: Option<usize>)
    ensures
        r == parse_usize(s@),
{
    let start: usize = if s.len() > 0 && s[0] == '+' { 1 } else { 0 };
    let ghost d = unsigned_digits(s@);
    assert(d == s@.skip(start as int));
    if start >= s.len() {
        return None;
    }
    if !forall_digits(s, start) {
        proof {
            let j = choose|j: int| start <= j < s@.len() && !is_digit(#[trigger] s@[j]);
            assert(d[j - start] == s@[j]);
            assert(!is_digit(d[j - start]));
            assert(!all_digits(d));
        }
        return None;
    }
    assert forall|j: int| 0 <= j < d.len() implies is_digit(#[trigger] d[j]) by {
        assert(d[j] == s@[j + start]);
    }
    let mut acc: usize = 0;
    let mut i: usize = start;
    while i < s.len()
        invariant
            start <= i <= s@.len(),
            d == s@.skip(start as int),
            d == unsigned_digits(s@),
            forall|j: int| 0 <= j < d.len() ==> is_digit(#[trigger] d[j]),
            acc == digits_value(d.take(i - start)),
        decreases s@.len() - i,
    {
        let c = s[i];
        assert(d[i - start] == c);
        assert(d.take(i - start + 1).drop_last() == d.take(i - start));
        let dv = (c as u32 - '0' as u32) as usize;
        match acc.checked_mul(10) {
            None => {
                proof {
                    lemma_digits_value_prefix(d, i - start + 1);
                    assert(digits_value(d.take(i - start + 1)) == acc * 10 + digit_value(c));
                    assert(digits_value(d) > usize::MAX);
                }
                return None;
            },
            Some(m) => {
                match m.checked_add(dv) {
                    None => {
                        proof {
                            lemma_digits_value_prefix(d, i - start + 1);
                            assert(digits_value(d.take(i - start + 1)) == acc * 10 + digit_value(c));
                            assert(digits_value(d) > usize::MAX);
                        }
                        return None;
                    },
                    Some(v) => {
                        acc = v;
                    },
                }
            },
        }
        i = i + 1;
    }
    assert(d.take(s@.len() - start) == d);
    Some(acc)
}

/// Whether every character of `s` from `from` on is an ASCII digit.
fn forall_digits(s: &[char], from: usize) -> (r: bool)
    requires
        from <= s@.len(),
    ensures
        r == (forall|j: int| from <= j < s@.len() ==> is_digit(#[trigger] s@[j])),
{
    let mut i = from;
    while i < s.len()
        invariant
            from <= i <= s@.len(),
            forall|j: int| from <= j < i ==> is_digit(#[trigger] s@[j]),
        decreases s@.len() - i,
    {
        let c = s[i];
        if !((c as u32) >= ('0' as u32) && (c as u32) <= ('9' as u32)) {
            return false;
        }
        i = i + 1;
    }
    true
}


/// `n` copies of `c`.
pub open spec fn repeat(c: char, n: nat) -> Seq<char> {
    Seq::new(n, |i: int| c)
}

pub fn repeat_exec(c: char, n: usize) -> (r: Vec<char>)
    ensures
        r@ == repeat(c, n as nat),
{
    let mut r: Vec<char> = Vec::new();
    let mut i: usize = 0;
    while i < n
        invariant
            i <= n,
            r@ == repeat(c, i as nat),
        decreases n - i,
    {
        r.push(c);
        assert(r@ =~= repeat(c, (i + 1) as nat));
        i = i + 1;
    }
    r
}

/// Pieces joined with `sep` between them (`join`).
pub open spec fn join(ps: Seq<Seq<char>>, sep: Seq<char>) -> Seq<char>
    decreases ps.len(),
{
    if ps.len() == 0 {
        Seq::empty()
    } else if ps.len() == 1 {
        ps[0]
    } else {
        join(ps.drop_last(), sep) + sep + ps.last()
    }
}

pub fn join_exec(ps: &Vec<Vec<char>>, sep: &[char]) -> (r: Vec<char>)
    ensures
        r@ == join(char_vecs(ps@), sep@),
{
    let ghost pv = char_vecs(ps@);
    let mut r: Vec<char> = Vec::new();
    let mut i: usize = 0;
    assert(pv.take(0) == Seq::<Seq<char>>::empty());
    while i < ps.len()
        invariant
            pv == char_vecs(ps@),
            i <= ps@.len(),
            r@ == join(pv.take(i as int), sep@),
        decreases ps@.len() - i,
    {
        assert(pv.take(i + 1).drop_last() == pv.take(i as int));
        assert(pv.take(i + 1).last() == ps@[i as int]@);
        if i > 0 {
            append_chars(&mut r, sep);
        } else {
            assert(r@.len() == 0);
        }
        append_chars(&mut r, &ps[i]);
        i = i + 1;
    }
    assert(pv.take(ps@.len() as int) == pv);
    r
}

/// A copy of a string.
pub fn copy_string(s: &String) -> (r: String)
    ensures
        r@ == s@,
{
    let v = chars_of(s.as_str());
    string_of(&v)
}


/// Index just past the last element satisfying `p`, or 0.
pub open spec fn end_where(s: Seq<char>, p: spec_fn(char) -> bool) -> int
    decreases s.len(),
{
    if s.len() == 0 {
        0
    } else if p(s.last()) {
        s.len() as int
    } else {
        end_where(s.drop_last(), p)
    }
}

pub proof fn lemma_end_where_is(s: Seq<char>, p: spec_fn(char) -> bool, e: int)
    requires
        0 <= e <= s.len(),
        forall|j: int| e <= j < s.len() ==> !p(#[trigger] s[j]),
        e > 0 ==> p(s[e - 1]),
    ensures
        end_where(s, p) == e,
    decreases s.len(),
{
    if s.len() > 0 && e < s.len() {
        assert forall|j: int| e <= j < s.len() - 1 implies !p(#[trigger] s.drop_last()[j]) by {
            assert(s.drop_last()[j] == s[j]);
        }
        if e > 0 {
            assert(s.drop_last()[e - 1] == s[e - 1]);
        }
        lemma_end_where_is(s.drop_last(), p, e);
    }
}

/// `s` without the characters failing `p` at both ends (`trim_matches`
/// with the negation of `p`).
pub open spec fn trim_to(s: Seq<char>, p: spec_fn(char) -> bool) -> Seq<char> {
    let t = s.skip(first_where(s, p));
    t.take(end_where(t, p))
}

/// Distinct elements, in order of first appearance.
pub open spec fn dedup(s: Seq<Seq<char>>) -> Seq<Seq<char>>
    decreases s.len(),
{
    if s.len() == 0 {
        Seq::empty()
    } else if dedup(s.drop_last()).contains(s.last()) {
        dedup(s.drop_last())
    } else {
        dedup(s.drop_last()).push(s.last())
    }
}


// ---------------------------------------------------------------------------
// Lines of joined and appended text
// ---------------------------------------------------------------------------

/// A plain identifier: not empty, and no whitespace, commas or line breaks.
pub open spec fn clean_id(u: Seq<char>) -> bool {
    u.len() > 0 && forall|i: int| 0 <= i < u.len() ==> !is_ws(#[trigger] u[i]) && u[i] != ','
}

/// A line that `lines` gives back unchanged: no line break, no final `\r`.
pub open spec fn plain_line(l: Seq<char>) -> bool {
    (forall|i: int| 0 <= i < l.len() ==> #[trigger] l[i] != '\n') && (l.len() == 0 || l.last() != '\r')
}

/// Text that ends a line (or is empty) can be followed by more lines.
pub open spec fn ends_line(a: Seq<char>) -> bool {
    a.len() == 0 || a.last() == '\n'
}

/// The lines of text that ends a line, followed by more text, are the lines
/// of the one followed by the lines of the other.
pub proof fn lemma_lines_append(a: Seq<char>, b: Seq<char>)
    requires
        ends_line(a),
    ensures
        lines(a + b) == lines(a) + lines(b),
    decreases a.len(),
{
    if a.len() == 0 {
        assert(a + b =~= b);
        assert(lines(a) + lines(b) =~= lines(b));
    } else {
        let p = char_pred('\n');
        lemma_first_where(a, p);
        let i = first_index(a, '\n');
        if i == a.len() {
            assert(!p(a[a.len() - 1]));
        }
        assert(i < a.len());
        let s = a + b;
        assert forall|j: int| 0 <= j < i implies !p(#[trigger] s[j]) by {
            assert(s[j] == a[j]);
        }
        assert(s[i] == a[i]);
        lemma_first_where_is(s, p, i);
        let rest = a.skip(i + 1);
        assert(s.take(i) =~= a.take(i));
        assert(s.skip(i + 1) =~= rest + b);
        if rest.len() > 0 {
            assert(rest.last() == a.last());
        }
        lemma_lines_append(rest, b);
        assert(lines(a) == seq![strip_cr(a.take(i))] + lines(rest));
        assert(lines(s) == seq![strip_cr(s.take(i))] + lines(s.skip(i + 1)));
        assert(lines(s) =~= lines(a) + lines(b));
    }
}

/// A plain line followed by a line break is one line.
pub proof fn lemma_lines_line(l: Seq<char>)
    requires
        plain_line(l),
    ensures
        lines(l + "\n"@) == seq![l],
{
    reveal_strlit("\n");
    let s = l + "\n"@;
    let p = char_pred('\n');
    assert forall|j: int| 0 <= j < l.len() implies !p(#[trigger] s[j]) by {
        assert(s[j] == l[j]);
    }
    assert(s[l.len() as int] == '\n');
    lemma_first_where_is(s, p, l.len() as int);
    assert(s.take(l.len() as int) =~= l);
    assert(s.skip(l.len() + 1int) =~= Seq::<char>::empty());
    assert(strip_cr(l) == l);
    assert(first_index(s, '\n') == l.len());
    assert(lines(Seq::<char>::empty()) == Seq::<Seq<char>>::empty());
    assert(lines(s) == seq![strip_cr(s.take(l.len() as int))] + lines(s.skip(l.len() + 1int)));
    assert(lines(s) =~= seq![l]);
}

/// Plain lines joined with line breaks, with a final line break, give the
/// same lines back.
pub proof fn lemma_lines_join(ls: Seq<Seq<char>>)
    requires
        ls.len() >= 1,
        forall|k: int| 0 <= k < ls.len() ==> plain_line(#[trigger] ls[k]),
    ensures
        lines(join(ls, "\n"@) + "\n"@) == ls,
    decreases ls.len(),
{
    reveal_strlit("\n");
    if ls.len() == 1 {
        lemma_lines_line(ls[0]);
        assert(seq![ls[0]] =~= ls);
    } else {
        let dl = ls.drop_last();
        assert forall|k: int| 0 <= k < dl.len() implies plain_line(#[trigger] dl[k]) by {
            assert(dl[k] == ls[k]);
        }
        lemma_lines_join(dl);
        let a = join(dl, "\n"@) + "\n"@;
        let b = ls.last() + "\n"@;
        assert(join(ls, "\n"@) + "\n"@ =~= a + b);
        assert(a.last() == '\n');
        lemma_lines_append(a, b);
        lemma_lines_line(ls.last());
        assert(dl + seq![ls.last()] =~= ls);
    }
}

/// A line without a line break (and not ending in `\r`) is one line.
pub proof fn lemma_lines_single(l: Seq<char>)
    requires
        l.len() > 0,
        plain_line(l),
    ensures
        lines(l) == seq![l],
{
    let p = char_pred('\n');
    assert forall|j: int| 0 <= j < l.len() implies !p(#[trigger] l[j]) by {}
    lemma_first_where_is(l, p, l.len() as int);
}

/// Text without `\r`, followed by a line break: its lines, and an empty
/// one when it already ended a line.
pub proof fn lemma_lines_newline(t: Seq<char>)
    requires
        forall|i: int| 0 <= i < t.len() ==> #[trigger] t[i] != '\r',
    ensures
        lines(t + "\n"@) == if ends_line(t) {
            lines(t) + seq![Seq::<char>::empty()]
        } else {
            lines(t)
        },
    decreases t.len(),
{
    reveal_strlit("\n");
    let y = t + "\n"@;
    let p = char_pred('\n');
    if t.len() == 0 {
        lemma_lines_line(t);
        assert(t =~= Seq::<char>::empty());
        assert(lines(t) == Seq::<Seq<char>>::empty());
        assert(lines(t) + seq![Seq::<char>::empty()] =~= seq![Seq::<char>::empty()]);
        assert(ends_line(t));
    } else {
        lemma_first_where(t, p);
        let i = first_index(t, '\n');
        assert forall|j: int| 0 <= j < i implies !p(#[trigger] y[j]) by {
            assert(y[j] == t[j]);
        }
        if i == t.len() {
            assert(y[i] == '\n');
            lemma_first_where_is(y, p, i);
            assert(y.take(i) =~= t);
            assert(y.skip(i + 1) =~= Seq::<char>::empty());
            assert(strip_cr(t) == t);
            assert(lines(Seq::<char>::empty()) == Seq::<Seq<char>>::empty());
            assert(lines(y) =~= seq![t]);
            assert(lines(t) == seq![t]);
            assert(t.last() != '\n');
            assert(!ends_line(t));
        } else {
            assert(y[i] == t[i]);
            lemma_first_where_is(y, p, i);
            let r = t.skip(i + 1);
            assert forall|k: int| 0 <= k < r.len() implies #[trigger] r[k] != '\r' by {
                assert(r[k] == t[i + 1 + k]);
            }
            lemma_lines_newline(r);
            assert(y.take(i) =~= t.take(i));
            assert(y.skip(i + 1) =~= r + "\n"@);
            if r.len() > 0 {
                assert(r.last() == t.last());
            } else {
                assert(t.last() == t[i]);
            }
            assert(lines(y) == seq![strip_cr(t.take(i))] + lines(r + "\n"@));
            assert(lines(t) == seq![strip_cr(t.take(i))] + lines(r));
            if ends_line(t) {
                assert(lines(y) =~= lines(t) + seq![Seq::<char>::empty()]);
            } else {
                assert(lines(y) =~= lines(t));
            }
        }
    }
}

/// The first of some parts joined with a separator, then the rest.
pub proof fn lemma_join_first(w: Seq<char>, ws: Seq<Seq<char>>, sep: Seq<char>)
    requires
        ws.len() > 0,
    ensures
        join(seq![w] + ws, sep) == w + sep + join(ws, sep),
    decreases ws.len(),
{
    let all = seq![w] + ws;
    assert(all.len() >= 2);
    assert(join(all, sep) == join(all.drop_last(), sep) + sep + all.last());
    if ws.len() == 1 {
        assert(all.drop_last() =~= seq![w]);
        assert(join(seq![w], sep) == w);
        assert(all.last() == ws[0]);
        assert(join(ws, sep) == ws[0]);
    } else {
        lemma_join_first(w, ws.drop_last(), sep);
        assert(all.drop_last() =~= seq![w] + ws.drop_last());
        assert(all.last() == ws.last());
        assert(join(ws, sep) == join(ws.drop_last(), sep) + sep + ws.last());
        assert(join(all, sep) =~= w + sep + join(ws, sep));
    }
}

/// The lines of text without `\r`, followed by a line break, joined with
/// line breaks again, give the text back.
pub proof fn lemma_join_lines(x: Seq<char>)
    requires
        forall|i: int| 0 <= i < x.len() ==> #[trigger] x[i] != '\r',
    ensures
        join(lines(x + "\n"@), "\n"@) == x,
        lines(x + "\n"@).len() > 0,
    decreases x.len(),
{
    reveal_strlit("\n");
    let y = x + "\n"@;
    let p = char_pred('\n');
    lemma_first_where(x, p);
    let i = first_index(x, '\n');
    assert forall|j: int| 0 <= j < i implies !p(#[trigger] y[j]) by {
        assert(y[j] == x[j]);
    }
    if i == x.len() {
        assert(y[i] == '\n');
        lemma_first_where_is(y, p, i);
        assert(y.take(i) =~= x);
        assert(y.skip(i + 1) =~= Seq::<char>::empty());
        if x.len() > 0 {
            assert(x.last() != '\r');
        }
        assert(strip_cr(x) == x);
        assert(lines(Seq::<char>::empty()) == Seq::<Seq<char>>::empty());
        assert(lines(y) =~= seq![x]);
    } else {
        assert(y[i] == x[i]);
        lemma_first_where_is(y, p, i);
        let r = x.skip(i + 1);
        assert forall|k: int| 0 <= k < r.len() implies #[trigger] r[k] != '\r' by {
            assert(r[k] == x[i + 1 + k]);
        }
        lemma_join_lines(r);
        let a = x.take(i);
        assert(y.take(i) =~= a);
        assert(y.skip(i + 1) =~= r + "\n"@);
        if a.len() > 0 {
            assert(a.last() == x[i - 1]);
        }
        assert(strip_cr(a) == a);
        assert(lines(y) == seq![a] + lines(r + "\n"@));
        lemma_join_first(a, lines(r + "\n"@), "\n"@);
        assert(a + "\n"@ + r =~= x);
    }
}

/// A trailing line break does not change what trimming leaves.
pub proof fn lemma_trim_newline(x: Seq<char>)
    ensures
        trim(x + "\n"@) == trim(x),
{
    reveal_strlit("\n");
    let y = x + "\n"@;
    lemma_first_where(x, not_ws_pred());
    let a = first_where(x, not_ws_pred());
    assert(is_ws(y[x.len() as int]));
    assert forall|j: int| 0 <= j < a implies !not_ws_pred()(#[trigger] y[j]) by {
        assert(y[j] == x[j]);
    }
    if a < x.len() {
        assert(y[a] == x[a]);
        lemma_first_where_is(y, not_ws_pred(), a);
        let xs = x.skip(a);
        let ys = y.skip(a);
        assert(ys =~= xs + "\n"@);
        assert(ys.drop_last() =~= xs);
        assert(end_non_ws(ys) == end_non_ws(xs));
        lemma_end_non_ws(xs);
        assert(ys.take(end_non_ws(xs)) =~= xs.take(end_non_ws(xs)));
    } else {
        lemma_first_where_is(y, not_ws_pred(), y.len() as int);
        assert(y.skip(y.len() as int) =~= Seq::<char>::empty());
        assert(x.skip(a) =~= Seq::<char>::empty());
    }
}

/// A UUID in text form is a plain identifier.
pub proof fn lemma_hyphenated_clean(u: Seq<char>)
    requires
        crate::ids::hyphenated(u),
    ensures
        clean_id(u),
{
    assert forall|i: int| 0 <= i < u.len() implies !is_ws(#[trigger] u[i]) && u[i] != ',' by {
        if i == 8 || i == 13 || i == 18 || i == 23 {
            assert(u[i] == '-');
        } else {
            assert(crate::ids::is_lower_hex(u[i]));
        }
    }
}

/// `a,b` for plain identifiers: trimmed it is itself, and it splits at the
/// comma into `a` and `b`.
pub proof fn lemma_edge_line(a: Seq<char>, b: Seq<char>)
    requires
        clean_id(a),
        clean_id(b),
    ensures
        trim(a + ","@ + b) == a + ","@ + b,
        split_once(a + ","@ + b, ',') == (a, b),
        plain_line(a + ","@ + b),
{
    reveal_strlit(",");
    let l = a + ","@ + b;
    assert(l.len() == a.len() + 1 + b.len());
    assert(l[0] == a[0]);
    lemma_first_where_is(l, not_ws_pred(), 0);
    assert(trim_start(l) =~= l);
    assert(l.last() == b.last());
    assert(!is_ws(b[b.len() - 1]));
    assert forall|j: int| l.len() <= j < l.len() implies is_ws(#[trigger] l[j]) by {}
    lemma_end_non_ws_is(l, l.len() as int);
    assert(trim_end(l) =~= l);
    let p = char_pred(',');
    assert forall|j: int| 0 <= j < a.len() implies !p(#[trigger] l[j]) by {
        assert(l[j] == a[j]);
    }
    assert(l[a.len() as int] == ',');
    lemma_first_where_is(l, p, a.len() as int);
    assert(l.take(a.len() as int) =~= a);
    assert(l.skip(a.len() + 1int) =~= b);
    assert forall|i: int| 0 <= i < l.len() implies #[trigger] l[i] != '\n' by {
        if i < a.len() {
            assert(l[i] == a[i]);
            assert(!is_ws(a[i]));
        } else if i > a.len() {
            assert(l[i] == b[i - a.len() - 1]);
            assert(!is_ws(b[i - a.len() - 1]));
        }
    }
    assert(l.last() != '\r');
}


/// The lines of a text hold no line break.
pub proof fn lemma_lines_no_newline(s: Seq<char>)
    ensures
        forall|k: int, i: int|
            0 <= k < lines(s).len() && 0 <= i < lines(s)[k].len() ==> #[trigger] lines(s)[k][i] != '\n',
    decreases s.len(),
{
    if s.len() > 0 {
        let p = char_pred('\n');
        lemma_first_where(s, p);
        let i = first_index(s, '\n');
        if i < s.len() {
            lemma_lines_no_newline(s.skip(i + 1));
            let first = strip_cr(s.take(i));
            let ls = lines(s);
            assert(ls == seq![first] + lines(s.skip(i + 1)));
            assert forall|k: int, j: int| 0 <= k < ls.len() && 0 <= j < ls[k].len() implies #[trigger] ls[k][j]
                != '\n' by {
                if k == 0 {
                    assert(ls[k] == first);
                    assert(first[j] == s[j]);
                } else {
                    assert(ls[k] == lines(s.skip(i + 1))[k - 1]);
                }
            }
        } else {
            assert(lines(s) == seq![s]);
        }
    }
}

/// Trimming a text without line breaks gives a plain line.
pub proof fn lemma_trim_plain(l: Seq<char>)
    requires
        forall|i: int| 0 <= i < l.len() ==> #[trigger] l[i] != '\n',
    ensures
        plain_line(trim(l)),
{
    lemma_first_where(l, not_ws_pred());
    let a = first_where(l, not_ws_pred());
    let t = l.skip(a);
    lemma_end_non_ws(t);
    let e = end_non_ws(t);
    let r = trim(l);
    assert(r == t.take(e));
    assert forall|i: int| 0 <= i < r.len() implies #[trigger] r[i] != '\n' by {
        assert(r[i] == l[a + i]);
    }
    if r.len() > 0 {
        assert(r.last() == t[e - 1]);
        assert(!is_ws(t[e - 1]));
    }
}

} // verus!
