//! The CSVS store: two-column tablets of UUID edges, prose blobs, and walks
//! over the trees that the edges describe.
//!
//! A tablet line holds `left,right` (everything after the first comma is the
//! right side); blank lines and lines with an empty side are skipped. Maps
//! keep their keys in the order in which they first appear.
use vstd::prelude::*;

use crate::text::{
    clean_id, ends_line, lemma_edge_line, lemma_lines_append, lemma_lines_line,
    chars_eq, chars_of, has_char, has_char_exec,
    lines, lines_exec, short_of, short_of_exec, split_char, split_char_exec,
    split_once, split_once_exec, starts_with, starts_with_exec, string_of, strs, trim, trim_exec,
    utf8_len, utf8_len_le, char_vecs, ends_with, ends_with_exec,
};

verus! {

// ---------------------------------------------------------------------------
// Association lists
// ---------------------------------------------------------------------------

/// Index of the first entry with key `k`, or the length.
pub open spec fn key_index<V>(es: Seq<(Seq<char>, V)>, k: Seq<char>) -> int
    decreases es.len(),
{
    if es.len() == 0 {
        0
    } else if es[0].0 == k {
        0
    } else {
        1 + key_index(es.drop_first(), k)
    }
}

pub proof fn lemma_key_index<V>(es: Seq<(Seq<char>, V)>, k: Seq<char>)
    ensures
        0 <= key_index(es, k) <= es.len(),
        forall|j: int| 0 <= j < key_index(es, k) ==> (#[trigger] es[j]).0 != k,
        key_index(es, k) < es.len() ==> es[key_index(es, k)].0 == k,
    decreases es.len(),
{
    if es.len() > 0 && es[0].0 != k {
        lemma_key_index(es.drop_first(), k);
        assert forall|j: int| 0 <= j < key_index(es, k) implies (#[trigger] es[j]).0 != k by {
            if j > 0 {
                assert(es[j] == es.drop_first()[j - 1]);
            }
        }
    }
}

pub proof fn lemma_key_index_is<V>(es: Seq<(Seq<char>, V)>, k: Seq<char>, i: int)
    requires
        0 <= i <= es.len(),
        forall|j: int| 0 <= j < i ==> (#[trigger] es[j]).0 != k,
        i < es.len() ==> es[i].0 == k,
    ensures
        key_index(es, k) == i,
{
    lemma_key_index(es, k);
    let f = key_index(es, k);
    if f < i {
        assert(es[f].0 != k);
    }
    if i < f {
        assert(es[i].0 != k);
    }
}

/// The value under key `k`.
pub open spec fn lookup<V>(es: Seq<(Seq<char>, V)>, k: Seq<char>) -> Option<V> {
    let i = key_index(es, k);
    if 0 <= i < es.len() {
        Some(es[i].1)
    } else {
        None
    }
}

/// The keys, in order.
pub open spec fn keys_of<V>(es: Seq<(Seq<char>, V)>) -> Seq<Seq<char>> {
    es.map_values(|e: (Seq<char>, V)| e.0)
}

/// Whether `k` is a key.
pub open spec fn has_key<V>(es: Seq<(Seq<char>, V)>, k: Seq<char>) -> bool {
    lookup(es, k) is Some
}

/// `v` appended to the list under `k` (a new last key when `k` is absent).
pub open spec fn add_child(
    es: Seq<(Seq<char>, Seq<Seq<char>>)>,
    k: Seq<char>,
    v: Seq<char>,
) -> Seq<(Seq<char>, Seq<Seq<char>>)> {
    let i = key_index(es, k);
    if 0 <= i < es.len() {
        es.update(i, (k, es[i].1.push(v)))
    } else {
        es.push((k, seq![v]))
    }
}

/// `v` stored under `k`, replacing what was there (a new last key when `k` is absent).
pub open spec fn set_value(es: Seq<(Seq<char>, Seq<char>)>, k: Seq<char>, v: Seq<char>) -> Seq<
    (Seq<char>, Seq<char>),
> {
    let i = key_index(es, k);
    if 0 <= i < es.len() {
        es.update(i, (k, v))
    } else {
        es.push((k, v))
    }
}

/// Whether no key occurs twice.
pub open spec fn distinct_keys<V>(es: Seq<(Seq<char>, V)>) -> bool {
    keys_of(es).no_duplicates()
}

/// A key is among the keys exactly when it has a value.
pub proof fn lemma_has_key<V>(es: Seq<(Seq<char>, V)>, k: Seq<char>)
    ensures
        has_key(es, k) <==> keys_of(es).contains(k),
{
    lemma_key_index(es, k);
    if keys_of(es).contains(k) {
        let j = choose|j: int| 0 <= j < keys_of(es).len() && keys_of(es)[j] == k;
        assert(es[j].0 == k);
    }
    if has_key(es, k) {
        assert(keys_of(es)[key_index(es, k)] == k);
    }
}

/// Adding under a key keeps the keys distinct.
pub proof fn lemma_add_child_distinct(es: Seq<(Seq<char>, Seq<Seq<char>>)>, k: Seq<char>, v: Seq<char>)
    requires
        distinct_keys(es),
    ensures
        distinct_keys(add_child(es, k, v)),
{
    lemma_key_index(es, k);
    lemma_has_key(es, k);
    let i = key_index(es, k);
    if i < es.len() {
        assert(keys_of(add_child(es, k, v)) =~= keys_of(es));
    } else {
        assert(keys_of(add_child(es, k, v)) =~= keys_of(es).push(k));
    }
}

/// Storing under a key keeps the keys distinct.
pub proof fn lemma_set_value_distinct(es: Seq<(Seq<char>, Seq<char>)>, k: Seq<char>, v: Seq<char>)
    requires
        distinct_keys(es),
    ensures
        distinct_keys(set_value(es, k, v)),
{
    lemma_key_index(es, k);
    lemma_has_key(es, k);
    let i = key_index(es, k);
    if i < es.len() {
        assert(keys_of(set_value(es, k, v)) =~= keys_of(es));
    } else {
        assert(keys_of(set_value(es, k, v)) =~= keys_of(es).push(k));
    }
}

/// A map from a UUID to a list of UUIDs, keys in order of first appearance.
pub struct ChildMap {
    pub(crate) entries: Vec<(String, Vec<String>)>,
}

/// A map from a UUID to one UUID, keys in order of first appearance.
pub struct ParentMap {
    pub(crate) entries: Vec<(String, String)>,
}

impl View for ChildMap {
    type V = Seq<(Seq<char>, Seq<Seq<char>>)>;

    closed spec fn view(&self) -> Seq<(Seq<char>, Seq<Seq<char>>)> {
        self.entries@.map_values(|e: (String, Vec<String>)| (e.0@, strs(e.1@)))
    }
}

impl View for ParentMap {
    type V = Seq<(Seq<char>, Seq<char>)>;

    closed spec fn view(&self) -> Seq<(Seq<char>, Seq<char>)> {
        self.entries@.map_values(|e: (String, String)| (e.0@, e.1@))
    }
}

/// Index of the entry whose key is `k`, or the number of entries.
fn child_index(m: &ChildMap, k: &[char]) -> (r: usize)
    ensures
        r as int == key_index(m@, k@),
        r <= m@.len(),
{
    let mut i: usize = 0;
    while i < m.entries.len()
        invariant
            i <= m@.len(),
            m@.len() == m.entries@.len(),
            forall|j: int| 0 <= j < i ==> (#[trigger] m@[j]).0 != k@,
        decreases m@.len() - i,
    {
        let key = chars_of(m.entries[i].0.as_str());
        assert(m@[i as int].0 == m.entries@[i as int].0@);
        if chars_eq(&key, k) {
            proof {
                lemma_key_index_is(m@, k@, i as int);
            }
            return i;
        }
        i = i + 1;
    }
    proof {
        lemma_key_index_is(m@, k@, i as int);
    }
    i
}

fn parent_index(m: &ParentMap, k: &[char]) -> (r: usize)
    ensures
        r as int == key_index(m@, k@),
        r <= m@.len(),
{
    let mut i: usize = 0;
    while i < m.entries.len()
        invariant
            i <= m@.len(),
            m@.len() == m.entries@.len(),
            forall|j: int| 0 <= j < i ==> (#[trigger] m@[j]).0 != k@,
        decreases m@.len() - i,
    {
        let key = chars_of(m.entries[i].0.as_str());
        assert(m@[i as int].0 == m.entries@[i as int].0@);
        if chars_eq(&key, k) {
            proof {
                lemma_key_index_is(m@, k@, i as int);
            }
            return i;
        }
        i = i + 1;
    }
    proof {
        lemma_key_index_is(m@, k@, i as int);
    }
    i
}

impl ChildMap {
    pub fn new() -> (r: Self)
        ensures
            r@ == Seq::<(Seq<char>, Seq<Seq<char>>)>::empty(),
            distinct_keys(r@),
    {
        ChildMap { entries: Vec::new() }
    }

    /// The number of keys.
    pub fn len(&self) -> (r: usize)
        ensures
            r == self@.len(),
    {
        self.entries.len()
    }

    /// The list under `k`.
    pub fn get(&self, k: &str) -> (r: Option<&Vec<String>>)
        ensures
            match r {
                Some(v) => lookup(self@, k@) == Some(strs(v@)),
                None => lookup(self@, k@) is None,
            },
    {
        let kc = chars_of(k);
        let i = child_index(self, &kc);
        if i < self.entries.len() {
            assert(self@[i as int].1 == strs(self.entries@[i as int].1@));
            Some(&self.entries[i].1)
        } else {
            None
        }
    }

    /// Whether `k` is a key.
    pub fn contains_key(&self, k: &str) -> (r: bool)
        ensures
            r == has_key(self@, k@),
    {
        let kc = chars_of(k);
        let i = child_index(self, &kc);
        i < self.entries.len()
    }

    /// The keys, in order.
    pub fn keys(&self) -> (r: Vec<String>)
        ensures
            strs(r@) == keys_of(self@),
    {
        let mut r: Vec<String> = Vec::new();
        let mut i: usize = 0;
        while i < self.entries.len()
            invariant
                i <= self@.len(),
                self@.len() == self.entries@.len(),
                strs(r@) == keys_of(self@).take(i as int),
            decreases self@.len() - i,
        {
            let k = chars_of(self.entries[i].0.as_str());
            let ghost old_r = r@;
            r.push(string_of(&k));
            assert(strs(r@) == strs(old_r).push(k@));
            assert(keys_of(self@).take(i + 1) == keys_of(self@).take(i as int).push(
                keys_of(self@)[i as int],
            ));
            i = i + 1;
        }
        assert(keys_of(self@).take(self@.len() as int) == keys_of(self@));
        r
    }

    /// Appends `v` to the list under `k`.
    pub fn add(&mut self, k: &[char], v: &[char])
        ensures
            final(self)@ == add_child(old(self)@, k@, v@),
            distinct_keys(old(self)@) ==> distinct_keys(final(self)@),
    {
        proof {
            if distinct_keys(old(self)@) {
                lemma_add_child_distinct(old(self)@, k@, v@);
            }
        }
        let i = child_index(self, k);
        if i < self.entries.len() {
            let ghost before = self.entries@;
            let (key, mut kids) = self.entries.remove(i);
            let ghost old_kids = kids@;
            kids.push(string_of(v));
            assert(strs(kids@) == strs(old_kids).push(v@));
            self.entries.insert(i, (key, kids));
            assert(self.entries@ =~= before.update(i as int, (key, kids)));
            proof {
                lemma_key_index(old(self)@, k@);
                assert(key@ == old(self)@[i as int].0);
            }
            assert(self@ =~= add_child(old(self)@, k@, v@));
        } else {
            let mut kids: Vec<String> = Vec::new();
            kids.push(string_of(v));
            assert(strs(kids@) == seq![v@]);
            self.entries.push((string_of(k), kids));
            assert(self@ =~= add_child(old(self)@, k@, v@));
        }
    }
}

impl ParentMap {
    pub fn new() -> (r: Self)
        ensures
            r@ == Seq::<(Seq<char>, Seq<char>)>::empty(),
            distinct_keys(r@),
    {
        ParentMap { entries: Vec::new() }
    }

    /// The number of keys.
    pub fn len(&self) -> (r: usize)
        ensures
            r == self@.len(),
    {
        self.entries.len()
    }

    /// The value under `k`.
    pub fn get(&self, k: &str) -> (r: Option<&String>)
        ensures
            match r {
                Some(v) => lookup(self@, k@) == Some(v@),
                None => lookup(self@, k@) is None,
            },
    {
        let kc = chars_of(k);
        let i = parent_index(self, &kc);
        if i < self.entries.len() {
            Some(&self.entries[i].1)
        } else {
            None
        }
    }

    /// Whether `k` is a key.
    pub fn contains_key(&self, k: &str) -> (r: bool)
        ensures
            r == has_key(self@, k@),
    {
        let kc = chars_of(k);
        let i = parent_index(self, &kc);
        i < self.entries.len()
    }

    /// The keys, in order.
    pub fn keys(&self) -> (r: Vec<String>)
        ensures
            strs(r@) == keys_of(self@),
    {
        let mut r: Vec<String> = Vec::new();
        let mut i: usize = 0;
        while i < self.entries.len()
            invariant
                i <= self@.len(),
                self@.len() == self.entries@.len(),
                strs(r@) == keys_of(self@).take(i as int),
            decreases self@.len() - i,
        {
            let k = chars_of(self.entries[i].0.as_str());
            let ghost old_r = r@;
            r.push(string_of(&k));
            assert(strs(r@) == strs(old_r).push(k@));
            assert(keys_of(self@).take(i + 1) == keys_of(self@).take(i as int).push(
                keys_of(self@)[i as int],
            ));
            i = i + 1;
        }
        assert(keys_of(self@).take(self@.len() as int) == keys_of(self@));
        r
    }

    /// Stores `v` under `k`, replacing what was there.
    pub fn insert(&mut self, k: &[char], v: &[char])
        ensures
            final(self)@ == set_value(old(self)@, k@, v@),
            distinct_keys(old(self)@) ==> distinct_keys(final(self)@),
    {
        proof {
            if distinct_keys(old(self)@) {
                lemma_set_value_distinct(old(self)@, k@, v@);
            }
        }
        let i = parent_index(self, k);
        if i < self.entries.len() {
            let ghost before = self.entries@;
            let (key, _old) = self.entries.remove(i);
            let sv = string_of(v);
            self.entries.insert(i, (key, sv));
            assert(self.entries@ =~= before.update(i as int, (key, sv)));
            proof {
                lemma_key_index(old(self)@, k@);
                assert(key@ == old(self)@[i as int].0);
            }
            assert(self@ =~= set_value(old(self)@, k@, v@));
        } else {
            self.entries.push((string_of(k), string_of(v)));
            assert(self@ =~= set_value(old(self)@, k@, v@));
        }
    }
}


// ---------------------------------------------------------------------------
// Tablets
// ---------------------------------------------------------------------------

/// The edge a tablet line holds: its trimmed text split at the first comma,
/// when neither side is empty.
pub open spec fn record_of(line: Seq<char>) -> Option<(Seq<char>, Seq<char>)> {
    let t = trim(line);
    let lr = split_once(t, ',');
    if t.len() == 0 || lr.0.len() == 0 || lr.1.len() == 0 {
        None
    } else {
        Some(lr)
    }
}

/// The edges of some tablet lines, in order.
pub open spec fn records(ls: Seq<Seq<char>>) -> Seq<(Seq<char>, Seq<char>)>
    decreases ls.len(),
{
    if ls.len() == 0 {
        Seq::empty()
    } else {
        match record_of(ls.last()) {
            Some(r) => records(ls.drop_last()).push(r),
            None => records(ls.drop_last()),
        }
    }
}

/// The edges of a tablet, in file order.
pub open spec fn tablet_records(content: Seq<char>) -> Seq<(Seq<char>, Seq<char>)> {
    records(lines(content))
}

/// Each left side with its right sides in order.
pub open spec fn forward_of(rs: Seq<(Seq<char>, Seq<char>)>) -> Seq<(Seq<char>, Seq<Seq<char>>)>
    decreases rs.len(),
{
    if rs.len() == 0 {
        Seq::empty()
    } else {
        add_child(forward_of(rs.drop_last()), rs.last().0, rs.last().1)
    }
}

/// Each right side with the left side of its last edge.
pub open spec fn reverse_of(rs: Seq<(Seq<char>, Seq<char>)>) -> Seq<(Seq<char>, Seq<char>)>
    decreases rs.len(),
{
    if rs.len() == 0 {
        Seq::empty()
    } else {
        set_value(reverse_of(rs.drop_last()), rs.last().1, rs.last().0)
    }
}

/// Each right side with its left sides in order.
pub open spec fn backward_of(rs: Seq<(Seq<char>, Seq<char>)>) -> Seq<(Seq<char>, Seq<Seq<char>>)>
    decreases rs.len(),
{
    if rs.len() == 0 {
        Seq::empty()
    } else {
        add_child(backward_of(rs.drop_last()), rs.last().1, rs.last().0)
    }
}

fn record_of_exec(line: &[char]) -> (r: Option<(Vec<char>, Vec<char>)>)
    ensures
        match r {
            Some(lr) => record_of(line@) == Some((lr.0@, lr.1@)),
            None => record_of(line@) is None,
        },
{
    let t = trim_exec(line);
    if t.len() == 0 {
        return None;
    }
    let (l, r) = split_once_exec(&t, ',');
    if l.len() == 0 || r.len() == 0 {
        None
    } else {
        Some((l, r))
    }
}

/// Parses a containment tablet into a parent → children map (children in
/// file order) and a child → parent map (the last edge wins).
pub fn load_edges(content: &str) -> (r: (ChildMap, ParentMap))
    ensures
        r.0@ == forward_of(tablet_records(content@)),
        r.1@ == reverse_of(tablet_records(content@)),
        distinct_keys(r.0@),
        distinct_keys(r.1@),
{
    proof {
        law_loaded_maps_have_distinct_keys(tablet_records(content@));
    }
    let cs = chars_of(content);
    let ls = lines_exec(&cs);
    let ghost lv = char_vecs(ls@);
    let mut fwd = ChildMap::new();
    let mut rev = ParentMap::new();
    let mut i: usize = 0;
    while i < ls.len()
        invariant
            i <= ls@.len(),
            lv == char_vecs(ls@),
            lv == lines(content@),
            fwd@ == forward_of(records(lv.take(i as int))),
            rev@ == reverse_of(records(lv.take(i as int))),
        decreases ls@.len() - i,
    {
        assert(lv.take(i + 1).drop_last() == lv.take(i as int));
        assert(lv.take(i + 1).last() == ls@[i as int]@);
        match record_of_exec(&ls[i]) {
            Some((l, r)) => {
                let ghost rs = records(lv.take(i as int));
                assert(rs.push((l@, r@)).drop_last() == rs);
                fwd.add(&l, &r);
                rev.insert(&r, &l);
            },
            None => {},
        }
        i = i + 1;
    }
    assert(lv.take(ls@.len() as int) == lv);
    (fwd, rev)
}

/// Parses a bridge tablet into a from → [to] map and a to → [from] map.
pub fn load_bridge(content: &str) -> (r: (ChildMap, ChildMap))
    ensures
        r.0@ == forward_of(tablet_records(content@)),
        r.1@ == backward_of(tablet_records(content@)),
        distinct_keys(r.0@),
        distinct_keys(r.1@),
{
    proof {
        law_loaded_maps_have_distinct_keys(tablet_records(content@));
    }
    let cs = chars_of(content);
    let ls = lines_exec(&cs);
    let ghost lv = char_vecs(ls@);
    let mut fwd = ChildMap::new();
    let mut back = ChildMap::new();
    let mut i: usize = 0;
    while i < ls.len()
        invariant
            i <= ls@.len(),
            lv == char_vecs(ls@),
            lv == lines(content@),
            fwd@ == forward_of(records(lv.take(i as int))),
            back@ == backward_of(records(lv.take(i as int))),
        decreases ls@.len() - i,
    {
        assert(lv.take(i + 1).drop_last() == lv.take(i as int));
        assert(lv.take(i + 1).last() == ls@[i as int]@);
        match record_of_exec(&ls[i]) {
            Some((l, r)) => {
                let ghost rs = records(lv.take(i as int));
                assert(rs.push((l@, r@)).drop_last() == rs);
                fwd.add(&l, &r);
                back.add(&r, &l);
            },
            None => {},
        }
        i = i + 1;
    }
    assert(lv.take(ls@.len() as int) == lv);
    (fwd, back)
}

/// Short hex id: the part of a UUID before its first `-`.
pub fn short_id(uuid: &str) -> (r: String)
    ensures
        r@ == short_of(uuid@),
{
    let cs = chars_of(uuid);
    let s = short_of_exec(&cs);
    string_of(&s)
}

// ---------------------------------------------------------------------------
// Roots
// ---------------------------------------------------------------------------

/// The first left side (in order) that is never a right side.
pub open spec fn root_index(
    fwd: Seq<(Seq<char>, Seq<Seq<char>>)>,
    rev: Seq<(Seq<char>, Seq<char>)>,
    from: int,
) -> int
    decreases fwd.len() - from,
{
    if from < 0 || from >= fwd.len() {
        fwd.len() as int
    } else if !has_key(rev, fwd[from].0) {
        from
    } else {
        root_index(fwd, rev, from + 1)
    }
}

/// The root of a tree: the first parent (in order) that is nobody's child.
pub open spec fn root_of(fwd: Seq<(Seq<char>, Seq<Seq<char>>)>, rev: Seq<(Seq<char>, Seq<char>)>) -> Option<Seq<char>> {
    let i = root_index(fwd, rev, 0);
    if 0 <= i < fwd.len() {
        Some(fwd[i].0)
    } else {
        None
    }
}

pub proof fn lemma_root_index(
    fwd: Seq<(Seq<char>, Seq<Seq<char>>)>,
    rev: Seq<(Seq<char>, Seq<char>)>,
    from: int,
    i: int,
)
    requires
        0 <= from <= i <= fwd.len(),
        forall|j: int| from <= j < i ==> has_key(rev, (#[trigger] fwd[j]).0),
        i < fwd.len() ==> !has_key(rev, fwd[i].0),
    ensures
        root_index(fwd, rev, from) == i,
    decreases i - from,
{
    if from < i {
        lemma_root_index(fwd, rev, from + 1, i);
    }
}

/// The root of a tree: the first parent (in key order) that never appears as
/// a child.
pub fn find_root(children_forward: &ChildMap, children_reverse: &ParentMap) -> (r: Option<String>)
    ensures
        match r {
            Some(k) => root_of(children_forward@, children_reverse@) == Some(k@),
            None => root_of(children_forward@, children_reverse@) is None,
        },
{
    let keys = children_forward.keys();
    assert(strs(keys@).len() == keys@.len());
    assert(keys_of(children_forward@).len() == children_forward@.len());
    let mut i: usize = 0;
    while i < keys.len()
        invariant
            i <= keys@.len(),
            keys@.len() == children_forward@.len(),
            strs(keys@) == keys_of(children_forward@),
            forall|j: int|
                0 <= j < i ==> has_key(children_reverse@, (#[trigger] children_forward@[j]).0),
        decreases keys@.len() - i,
    {
        assert(strs(keys@)[i as int] == keys@[i as int]@);
        assert(keys_of(children_forward@)[i as int] == children_forward@[i as int].0);
        if !children_reverse.contains_key(keys[i].as_str()) {
            proof {
                lemma_root_index(children_forward@, children_reverse@, 0, i as int);
            }
            let k = chars_of(keys[i].as_str());
            return Some(string_of(&k));
        }
        i = i + 1;
    }
    proof {
        lemma_root_index(children_forward@, children_reverse@, 0, i as int);
    }
    None
}

/// Every UUID of a tree: the parents in order, then the children that are
/// not parents, in order.
pub open spec fn all_uuids_of(fwd: Seq<(Seq<char>, Seq<Seq<char>>)>, rev: Seq<(Seq<char>, Seq<char>)>) -> Seq<Seq<char>> {
    keys_of(fwd) + keys_of(rev).filter(|k: Seq<char>| !has_key(fwd, k))
}

/// Filtering keeps a sequence free of duplicates.
pub proof fn lemma_filter_no_duplicates(s: Seq<Seq<char>>, p: spec_fn(Seq<char>) -> bool)
    requires
        s.no_duplicates(),
    ensures
        s.filter(p).no_duplicates(),
    decreases s.len(),
{
    reveal(Seq::filter);
    if s.len() > 0 {
        let d = s.drop_last();
        assert forall|i: int, j: int| 0 <= i < d.len() && 0 <= j < d.len() && i != j implies d[i] != d[j] by {
            assert(d[i] == s[i] && d[j] == s[j]);
        }
        lemma_filter_no_duplicates(d, p);
        if p(s.last()) {
            let f = d.filter(p);
            if f.contains(s.last()) {
                d.lemma_filter_contains_rev(p, s.last());
                let k = choose|k: int| 0 <= k < d.len() && d[k] == s.last();
                assert(s[k] == s[s.len() - 1]);
            }
            assert forall|i: int, j: int| 0 <= i < f.push(s.last()).len() && 0 <= j < f.push(s.last()).len() && i != j
                implies f.push(s.last())[i] != f.push(s.last())[j] by {
                if i == f.len() {
                    assert(f[j] != s.last()) by {
                        if f[j] == s.last() {
                            assert(f.contains(s.last()));
                        }
                    }
                } else if j == f.len() {
                    assert(f[i] != s.last()) by {
                        if f[i] == s.last() {
                            assert(f.contains(s.last()));
                        }
                    }
                }
            }
        }
    }
}

/// The UUIDs of a tree whose maps have distinct keys: each once, and
/// exactly the keys of the two maps.
pub proof fn lemma_all_uuids_distinct(fwd: Seq<(Seq<char>, Seq<Seq<char>>)>, rev: Seq<(Seq<char>, Seq<char>)>)
    requires
        distinct_keys(fwd),
        distinct_keys(rev),
    ensures
        all_uuids_of(fwd, rev).no_duplicates(),
        forall|u: Seq<char>| #[trigger] all_uuids_of(fwd, rev).contains(u) <==> (has_key(fwd, u) || has_key(rev, u)),
{
    broadcast use vstd::seq_lib::group_seq_properties;
    let pred = |k: Seq<char>| !has_key(fwd, k);
    let a = keys_of(fwd);
    let b = keys_of(rev).filter(pred);
    lemma_filter_no_duplicates(keys_of(rev), pred);
    assert forall|x: Seq<char>| b.contains(x) implies !a.contains(x) by {
        let k = choose|k: int| 0 <= k < b.len() && b[k] == x;
        keys_of(rev).lemma_filter_pred(pred, k);
        lemma_has_key(fwd, x);
    }
    let all = a + b;
    assert(all == all_uuids_of(fwd, rev));
    assert forall|i: int, j: int| 0 <= i < all.len() && 0 <= j < all.len() && i != j implies all[i] != all[j] by {
        if i < a.len() && j >= a.len() {
            assert(b.contains(all[j]));
            assert(a.contains(all[i]));
        } else if j < a.len() && i >= a.len() {
            assert(b.contains(all[i]));
            assert(a.contains(all[j]));
        } else if i >= a.len() {
            assert(all[i] == b[i - a.len()] && all[j] == b[j - a.len()]);
        }
    }
    assert forall|u: Seq<char>| #[trigger] all.contains(u) <==> (has_key(fwd, u) || has_key(rev, u)) by {
        lemma_has_key(fwd, u);
        lemma_has_key(rev, u);
        if all.contains(u) {
            let k = choose|k: int| 0 <= k < all.len() && all[k] == u;
            if k >= a.len() {
                assert(b.contains(u));
                keys_of(rev).lemma_filter_contains_rev(pred, u);
            } else {
                assert(a.contains(u));
            }
        }
        if has_key(fwd, u) {
            let k = choose|k: int| 0 <= k < a.len() && a[k] == u;
            assert(all[k] == u);
        } else if has_key(rev, u) {
            let k = choose|k: int| 0 <= k < keys_of(rev).len() && keys_of(rev)[k] == u;
            keys_of(rev).lemma_filter_contains(pred, k);
            let m = choose|m: int| 0 <= m < b.len() && b[m] == u;
            assert(all[a.len() + m] == u);
        }
    }
}

/// Maps read from a tablet have distinct keys.
pub proof fn law_loaded_maps_have_distinct_keys(rs: Seq<(Seq<char>, Seq<char>)>)
    ensures
        distinct_keys(forward_of(rs)),
        distinct_keys(reverse_of(rs)),
        distinct_keys(backward_of(rs)),
    decreases rs.len(),
{
    if rs.len() == 0 {
        assert(keys_of(Seq::<(Seq<char>, Seq<Seq<char>>)>::empty()) =~= Seq::<Seq<char>>::empty());
        assert(keys_of(Seq::<(Seq<char>, Seq<char>)>::empty()) =~= Seq::<Seq<char>>::empty());
    } else {
        law_loaded_maps_have_distinct_keys(rs.drop_last());
        lemma_add_child_distinct(forward_of(rs.drop_last()), rs.last().0, rs.last().1);
        lemma_set_value_distinct(reverse_of(rs.drop_last()), rs.last().1, rs.last().0);
        lemma_add_child_distinct(backward_of(rs.drop_last()), rs.last().1, rs.last().0);
    }
}

/// Collects all UUIDs in a tree from its containment edges: the parents,
/// then the children that are no parents; each once when the maps have
/// distinct keys (as maps read from a tablet do).
pub fn all_uuids(children_forward: &ChildMap, children_reverse: &ParentMap) -> (r: Vec<String>)
    ensures
        strs(r@) == all_uuids_of(children_forward@, children_reverse@),
        distinct_keys(children_forward@) && distinct_keys(children_reverse@) ==> strs(r@).no_duplicates(),
{
    proof {
        if distinct_keys(children_forward@) && distinct_keys(children_reverse@) {
            lemma_all_uuids_distinct(children_forward@, children_reverse@);
        }
    }
    let mut uuids = children_forward.keys();
    let kids = children_reverse.keys();
    let ghost pred = |k: Seq<char>| !has_key(children_forward@, k);
    let ghost base = strs(uuids@);
    let mut i: usize = 0;
    while i < kids.len()
        invariant
            i <= kids@.len(),
            strs(kids@) == keys_of(children_reverse@),
            base == keys_of(children_forward@),
            pred == (|k: Seq<char>| !has_key(children_forward@, k)),
            strs(uuids@) == base + strs(kids@).take(i as int).filter(pred),
        decreases kids@.len() - i,
    {
        let ghost t = strs(kids@).take(i as int);
        assert(strs(kids@).take(i + 1) == t.push(kids@[i as int]@));
        proof {
            reveal_with_fuel(Seq::filter, 1);
            assert(t.push(kids@[i as int]@).drop_last() == t);
        }
        if !children_forward.contains_key(kids[i].as_str()) {
            let k = chars_of(kids[i].as_str());
            let ghost old_u = uuids@;
            uuids.push(string_of(&k));
            assert(strs(uuids@) == strs(old_u).push(k@));
        }
        i = i + 1;
    }
    assert(strs(kids@).take(kids@.len() as int) == strs(kids@));
    uuids
}


// ---------------------------------------------------------------------------
// Walks
// ---------------------------------------------------------------------------

/// The children listed under `u` (none when `u` is not a key).
pub open spec fn kids(fwd: Seq<(Seq<char>, Seq<Seq<char>>)>, u: Seq<char>) -> Seq<Seq<char>> {
    match lookup(fwd, u) {
        Some(v) => v,
        None => Seq::empty(),
    }
}

/// Whether every path down from `u` has fewer than `n` nodes: the part of
/// the tree below `u` is finite and holds no cycle.
pub open spec fn reach_depth(fwd: Seq<(Seq<char>, Seq<Seq<char>>)>, u: Seq<char>, n: nat) -> bool
    decreases n,
{
    n > 0 && forall|i: int|
        0 <= i < kids(fwd, u).len() ==> reach_depth(fwd, #[trigger] kids(fwd, u)[i], (n - 1) as nat)
}

/// Whether the walk from `u` ends: some bound holds for every path from it.
pub open spec fn finite_below(fwd: Seq<(Seq<char>, Seq<Seq<char>>)>, u: Seq<char>) -> bool {
    exists|n: nat| reach_depth(fwd, u, n)
}

/// A bound on the paths from `u`.
pub open spec fn depth_bound(fwd: Seq<(Seq<char>, Seq<Seq<char>>)>, u: Seq<char>) -> nat {
    choose|n: nat| reach_depth(fwd, u, n)
}

/// `u` and then, child by child, the depth-first walks of its children.
pub open spec fn dfs(fwd: Seq<(Seq<char>, Seq<Seq<char>>)>, u: Seq<char>, n: nat) -> Seq<Seq<char>>
    decreases n, 0nat,
{
    if n == 0 {
        seq![u]
    } else {
        seq![u] + dfs_list(fwd, kids(fwd, u), (n - 1) as nat)
    }
}

/// The depth-first walks of some nodes, one after another.
pub open spec fn dfs_list(fwd: Seq<(Seq<char>, Seq<Seq<char>>)>, ks: Seq<Seq<char>>, n: nat) -> Seq<Seq<char>>
    decreases n, ks.len(),
{
    if ks.len() == 0 {
        Seq::empty()
    } else {
        dfs_list(fwd, ks.drop_last(), n) + dfs(fwd, ks.last(), n)
    }
}

/// The depth-first (document) order of the tree below `root`.
pub open spec fn depth_first(fwd: Seq<(Seq<char>, Seq<Seq<char>>)>, root: Seq<char>) -> Seq<Seq<char>> {
    dfs(fwd, root, depth_bound(fwd, root))
}

/// Whether every path down from `u` has fewer than `n` nodes, decided.
pub fn reaches_within(fwd: &ChildMap, u: &str, n: usize) -> (r: bool)
    ensures
        r == reach_depth(fwd@, u@, n as nat),
    decreases n,
{
    if n == 0 {
        return false;
    }
    match fwd.get(u) {
        None => {
            assert(kids(fwd@, u@).len() == 0);
            true
        },
        Some(ks) => {
            let mut i: usize = 0;
            while i < ks.len()
                invariant
                    n > 0,
                    i <= ks@.len(),
                    kids(fwd@, u@) == strs(ks@),
                    forall|j: int|
                        0 <= j < i ==> reach_depth(fwd@, #[trigger] kids(fwd@, u@)[j], (n - 1) as nat),
                decreases ks@.len() - i,
            {
                assert(kids(fwd@, u@)[i as int] == ks@[i as int]@);
                if !reaches_within(fwd, ks[i].as_str(), n - 1) {
                    return false;
                }
                i = i + 1;
            }
            true
        },
    }
}

fn walk_df_inner(uuid: &str, children_forward: &ChildMap, result: &mut Vec<String>, Ghost(n): Ghost<nat>)
    requires
        reach_depth(children_forward@, uuid@, n),
    ensures
        strs(final(result)@) == strs(old(result)@) + dfs(children_forward@, uuid@, n),
    decreases n,
{
    let u = chars_of(uuid);
    let ghost before = strs(result@);
    result.push(string_of(&u));
    assert(strs(result@) == before.push(uuid@));
    let ghost fwd = children_forward@;
    match children_forward.get(uuid) {
        None => {
            assert(kids(fwd, uuid@).len() == 0);
            assert(dfs_list(fwd, kids(fwd, uuid@), (n - 1) as nat).len() == 0);
            assert(strs(result@) == before + dfs(fwd, uuid@, n));
        },
        Some(ks) => {
            let mut i: usize = 0;
            assert(kids(fwd, uuid@).take(0) == Seq::<Seq<char>>::empty());
            while i < ks.len()
                invariant
                    n > 0,
                    fwd == children_forward@,
                    reach_depth(fwd, uuid@, n),
                    i <= ks@.len(),
                    kids(fwd, uuid@) == strs(ks@),
                    strs(result@) == before + seq![uuid@] + dfs_list(
                        fwd,
                        kids(fwd, uuid@).take(i as int),
                        (n - 1) as nat,
                    ),
                decreases ks@.len() - i,
            {
                let ghost ki = kids(fwd, uuid@);
                assert(ki[i as int] == ks@[i as int]@);
                assert(ki.take(i + 1).drop_last() == ki.take(i as int));
                assert(ki.take(i + 1).last() == ki[i as int]);
                assert(reach_depth(fwd, ki[i as int], (n - 1) as nat));
                walk_df_inner(ks[i].as_str(), children_forward, result, Ghost((n - 1) as nat));
                i = i + 1;
            }
            assert(kids(fwd, uuid@).take(ks@.len() as int) == kids(fwd, uuid@));
        },
    }
}

/// Walks a tree depth-first, returning UUIDs in document order.
pub fn walk_depth_first(root: &str, children_forward: &ChildMap) -> (r: Vec<String>)
    requires
        finite_below(children_forward@, root@),
    ensures
        strs(r@) == depth_first(children_forward@, root@),
{
    let mut result: Vec<String> = Vec::new();
    let ghost n = depth_bound(children_forward@, root@);
    walk_df_inner(root, children_forward, &mut result, Ghost(n));
    assert(strs(result@) == Seq::<Seq<char>>::empty() + dfs(children_forward@, root@, n));
    result
}

/// The children of some nodes, node by node, each node's children in order.
pub open spec fn kids_of_all(fwd: Seq<(Seq<char>, Seq<Seq<char>>)>, ks: Seq<Seq<char>>) -> Seq<Seq<char>>
    decreases ks.len(),
{
    if ks.len() == 0 {
        Seq::empty()
    } else {
        kids_of_all(fwd, ks.drop_last()) + kids(fwd, ks.last())
    }
}

/// The nodes `k` steps below `root`, left to right.
pub open spec fn level(fwd: Seq<(Seq<char>, Seq<Seq<char>>)>, root: Seq<char>, k: nat) -> Seq<Seq<char>>
    decreases k,
{
    if k == 0 {
        seq![root]
    } else {
        kids_of_all(fwd, level(fwd, root, (k - 1) as nat))
    }
}

/// The first `k` levels, one after another.
pub open spec fn levels_upto(fwd: Seq<(Seq<char>, Seq<Seq<char>>)>, root: Seq<char>, k: nat) -> Seq<Seq<char>>
    decreases k,
{
    if k == 0 {
        Seq::empty()
    } else {
        levels_upto(fwd, root, (k - 1) as nat) + level(fwd, root, (k - 1) as nat)
    }
}

/// The breadth-first order of the tree below `root`: level by level.
pub open spec fn breadth_first(fwd: Seq<(Seq<char>, Seq<Seq<char>>)>, root: Seq<char>) -> Seq<Seq<char>> {
    levels_upto(fwd, root, depth_bound(fwd, root))
}

/// Every node among the children of some nodes is a child of one of them,
/// and so is one step shallower in depth.
pub proof fn lemma_kids_of_all_depth(fwd: Seq<(Seq<char>, Seq<Seq<char>>)>, ks: Seq<Seq<char>>, m: nat)
    requires
        forall|i: int| 0 <= i < ks.len() ==> reach_depth(fwd, #[trigger] ks[i], m + 1),
    ensures
        forall|j: int|
            0 <= j < kids_of_all(fwd, ks).len() ==> reach_depth(fwd, #[trigger] kids_of_all(fwd, ks)[j], m),
    decreases ks.len(),
{
    if ks.len() > 0 {
        let a = ks.drop_last();
        assert forall|i: int| 0 <= i < a.len() implies reach_depth(fwd, #[trigger] a[i], m + 1) by {
            assert(a[i] == ks[i]);
        }
        lemma_kids_of_all_depth(fwd, a, m);
        let l = ks.last();
        assert(reach_depth(fwd, ks[ks.len() - 1], m + 1));
        let all = kids_of_all(fwd, ks);
        let front = kids_of_all(fwd, a);
        assert forall|j: int| 0 <= j < all.len() implies reach_depth(fwd, #[trigger] all[j], m) by {
            if j < front.len() {
                assert(all[j] == front[j]);
            } else {
                assert(all[j] == kids(fwd, l)[j - front.len()]);
            }
        }
    }
}

/// The nodes `k` steps below the nodes `ks`, left to right.
pub open spec fn level_list(fwd: Seq<(Seq<char>, Seq<Seq<char>>)>, ks: Seq<Seq<char>>, k: nat) -> Seq<Seq<char>>
    decreases k,
{
    if k == 0 {
        ks
    } else {
        kids_of_all(fwd, level_list(fwd, ks, (k - 1) as nat))
    }
}

/// The first `k` levels below the nodes `ks`, one after another.
pub open spec fn levels_list_upto(fwd: Seq<(Seq<char>, Seq<Seq<char>>)>, ks: Seq<Seq<char>>, k: nat) -> Seq<Seq<char>>
    decreases k,
{
    if k == 0 {
        Seq::empty()
    } else {
        levels_list_upto(fwd, ks, (k - 1) as nat) + level_list(fwd, ks, (k - 1) as nat)
    }
}

pub proof fn lemma_kids_of_all_append(fwd: Seq<(Seq<char>, Seq<Seq<char>>)>, a: Seq<Seq<char>>, b: Seq<Seq<char>>)
    ensures
        kids_of_all(fwd, a + b) == kids_of_all(fwd, a) + kids_of_all(fwd, b),
    decreases b.len(),
{
    if b.len() == 0 {
        assert(a + b =~= a);
        assert(kids_of_all(fwd, b) == Seq::<Seq<char>>::empty());
        assert(kids_of_all(fwd, a) + kids_of_all(fwd, b) =~= kids_of_all(fwd, a));
    } else {
        lemma_kids_of_all_append(fwd, a, b.drop_last());
        assert((a + b).drop_last() =~= a + b.drop_last());
        assert((a + b).last() == b.last());
        assert(kids_of_all(fwd, a + b) =~= kids_of_all(fwd, a) + kids_of_all(fwd, b));
    }
}

pub proof fn lemma_level_list_append(fwd: Seq<(Seq<char>, Seq<Seq<char>>)>, a: Seq<Seq<char>>, b: Seq<Seq<char>>, k: nat)
    ensures
        level_list(fwd, a + b, k) == level_list(fwd, a, k) + level_list(fwd, b, k),
    decreases k,
{
    if k > 0 {
        lemma_level_list_append(fwd, a, b, (k - 1) as nat);
        lemma_kids_of_all_append(fwd, level_list(fwd, a, (k - 1) as nat), level_list(fwd, b, (k - 1) as nat));
    }
}

/// The level `k + 1` below a node is the level `k` below its children.
pub proof fn lemma_level_child(fwd: Seq<(Seq<char>, Seq<Seq<char>>)>, u: Seq<char>, k: nat)
    ensures
        level(fwd, u, k + 1) == level_list(fwd, kids(fwd, u), k),
    decreases k,
{
    if k == 0 {
        assert(level(fwd, u, 0) == seq![u]);
        assert(level(fwd, u, 1) == kids_of_all(fwd, level(fwd, u, 0)));
        assert(seq![u].drop_last() =~= Seq::<Seq<char>>::empty());
        assert(seq![u].last() == u);
        assert(kids_of_all(fwd, Seq::<Seq<char>>::empty()) == Seq::<Seq<char>>::empty());
        assert(kids_of_all(fwd, seq![u]) == kids_of_all(fwd, Seq::<Seq<char>>::empty()) + kids(fwd, u));
        assert(kids_of_all(fwd, seq![u]) =~= kids(fwd, u));
    } else {
        lemma_level_child(fwd, u, (k - 1) as nat);
        assert(level(fwd, u, k + 1) == kids_of_all(fwd, level(fwd, u, k)));
        assert(level_list(fwd, kids(fwd, u), k) == kids_of_all(fwd, level_list(fwd, kids(fwd, u), (k - 1) as nat)));
    }
}

/// The levels below one node are its levels.
pub proof fn lemma_level_list_single(fwd: Seq<(Seq<char>, Seq<Seq<char>>)>, c: Seq<char>, k: nat)
    ensures
        level_list(fwd, seq![c], k) == level(fwd, c, k),
        levels_list_upto(fwd, seq![c], k) == levels_upto(fwd, c, k),
    decreases k,
{
    if k > 0 {
        lemma_level_list_single(fwd, c, (k - 1) as nat);
    }
}

/// The levels below no node are empty.
pub proof fn lemma_level_list_empty(fwd: Seq<(Seq<char>, Seq<Seq<char>>)>, k: nat)
    ensures
        level_list(fwd, Seq::empty(), k) == Seq::<Seq<char>>::empty(),
        levels_list_upto(fwd, Seq::empty(), k) == Seq::<Seq<char>>::empty(),
    decreases k,
{
    if k > 0 {
        lemma_level_list_empty(fwd, (k - 1) as nat);
        assert(kids_of_all(fwd, Seq::<Seq<char>>::empty()) == Seq::<Seq<char>>::empty());
        assert(Seq::<Seq<char>>::empty() + Seq::<Seq<char>>::empty() =~= Seq::<Seq<char>>::empty());
    }
}

/// The levels of a node: the node, then the levels below its children.
pub proof fn lemma_levels_upto_child(fwd: Seq<(Seq<char>, Seq<Seq<char>>)>, u: Seq<char>, m: nat)
    ensures
        levels_upto(fwd, u, m + 1) == seq![u] + levels_list_upto(fwd, kids(fwd, u), m),
    decreases m,
{
    if m == 0 {
        assert(levels_upto(fwd, u, 0) == Seq::<Seq<char>>::empty());
        assert(levels_upto(fwd, u, 1) =~= seq![u]);
        assert(seq![u] + Seq::<Seq<char>>::empty() =~= seq![u]);
    } else {
        lemma_levels_upto_child(fwd, u, (m - 1) as nat);
        lemma_level_child(fwd, u, (m - 1) as nat);
        assert(levels_upto(fwd, u, m + 1) =~= seq![u] + levels_list_upto(fwd, kids(fwd, u), m));
    }
}

/// The levels below some nodes hold, counted with repeats, those below
/// each part of them.
pub proof fn lemma_levels_list_split(fwd: Seq<(Seq<char>, Seq<Seq<char>>)>, a: Seq<Seq<char>>, b: Seq<Seq<char>>, k: nat)
    ensures
        levels_list_upto(fwd, a + b, k).to_multiset() == levels_list_upto(fwd, a, k).to_multiset().add(
            levels_list_upto(fwd, b, k).to_multiset(),
        ),
    decreases k,
{
    broadcast use vstd::seq_lib::lemma_multiset_commutative;
    broadcast use vstd::multiset::group_multiset_axioms;
    broadcast use vstd::seq_lib::group_to_multiset_ensures;
    if k == 0 {
        assert(Seq::<Seq<char>>::empty().to_multiset() =~= vstd::multiset::Multiset::empty());
    } else {
        let j = (k - 1) as nat;
        lemma_levels_list_split(fwd, a, b, j);
        lemma_level_list_append(fwd, a, b, j);
        let la = levels_list_upto(fwd, a, j);
        let lb = levels_list_upto(fwd, b, j);
        let xa = level_list(fwd, a, j);
        let xb = level_list(fwd, b, j);
        assert(levels_list_upto(fwd, a + b, k).to_multiset() =~= la.to_multiset().add(lb.to_multiset()).add(
            xa.to_multiset().add(xb.to_multiset()),
        ));
        assert(levels_list_upto(fwd, a, k).to_multiset() =~= la.to_multiset().add(xa.to_multiset()));
        assert(levels_list_upto(fwd, b, k).to_multiset() =~= lb.to_multiset().add(xb.to_multiset()));
    }
}

/// The depth-first walk with fuel `n` visits, counted with repeats, the
/// nodes of the first `n + 1` levels.
pub proof fn lemma_dfs_levels(fwd: Seq<(Seq<char>, Seq<Seq<char>>)>, u: Seq<char>, n: nat)
    ensures
        dfs(fwd, u, n).to_multiset() == levels_upto(fwd, u, n + 1).to_multiset(),
    decreases n, 0nat,
{
    broadcast use vstd::seq_lib::lemma_multiset_commutative;
    lemma_levels_upto_child(fwd, u, n);
    if n == 0 {
        lemma_level_list_empty(fwd, 0);
        assert(levels_list_upto(fwd, kids(fwd, u), 0) == Seq::<Seq<char>>::empty());
        assert(levels_upto(fwd, u, 1) =~= seq![u]);
    } else {
        lemma_dfs_list_levels(fwd, kids(fwd, u), (n - 1) as nat);
    }
}

pub proof fn lemma_dfs_list_levels(fwd: Seq<(Seq<char>, Seq<Seq<char>>)>, ks: Seq<Seq<char>>, n: nat)
    ensures
        dfs_list(fwd, ks, n).to_multiset() == levels_list_upto(fwd, ks, n + 1).to_multiset(),
    decreases n, ks.len(),
{
    broadcast use vstd::seq_lib::lemma_multiset_commutative;
    if ks.len() == 0 {
        lemma_level_list_empty(fwd, n + 1);
        assert(ks =~= Seq::<Seq<char>>::empty());
    } else {
        let front = ks.drop_last();
        let l = ks.last();
        lemma_dfs_list_levels(fwd, front, n);
        lemma_dfs_levels(fwd, l, n);
        lemma_level_list_single(fwd, l, n + 1);
        assert(front + seq![l] =~= ks);
        lemma_levels_list_split(fwd, front, seq![l], n + 1);
    }
}

/// Under a bound on its paths, a node has no nodes that many steps below it.
pub proof fn lemma_level_past_bound(fwd: Seq<(Seq<char>, Seq<Seq<char>>)>, root: Seq<char>, b: nat, k: nat)
    requires
        reach_depth(fwd, root, b),
        k <= b,
    ensures
        forall|j: int| 0 <= j < level(fwd, root, k).len() ==> reach_depth(fwd, #[trigger] level(fwd, root, k)[j], (b - k) as nat),
    decreases k,
{
    if k > 0 {
        lemma_level_past_bound(fwd, root, b, (k - 1) as nat);
        let prev = level(fwd, root, (k - 1) as nat);
        assert forall|i: int| 0 <= i < prev.len() implies reach_depth(fwd, #[trigger] prev[i], ((b - k) as nat + 1) as nat) by {
            assert((b - (k - 1)) as nat == ((b - k) as nat + 1) as nat);
        }
        lemma_kids_of_all_depth(fwd, prev, (b - k) as nat);
    }
}

/// The two walks visit the same nodes: for a tree whose paths are bounded,
/// the breadth-first order is a reordering of the depth-first order (each
/// node as often in one as in the other).
pub proof fn law_walks_visit_the_same_nodes(fwd: Seq<(Seq<char>, Seq<Seq<char>>)>, root: Seq<char>)
    requires
        finite_below(fwd, root),
    ensures
        depth_first(fwd, root).to_multiset() == breadth_first(fwd, root).to_multiset(),
{
    broadcast use vstd::seq_lib::lemma_multiset_commutative;
    let b = depth_bound(fwd, root);
    assert(reach_depth(fwd, root, b));
    lemma_dfs_levels(fwd, root, b);
    lemma_level_past_bound(fwd, root, b, b);
    let last = level(fwd, root, b);
    if last.len() > 0 {
        assert(reach_depth(fwd, last[0], 0));
    }
    assert(last =~= Seq::<Seq<char>>::empty());
    assert(levels_upto(fwd, root, b + 1) =~= levels_upto(fwd, root, b));
}

/// Once a level is empty, all later ones are, and the levels stop growing.
pub proof fn lemma_levels_stop(fwd: Seq<(Seq<char>, Seq<Seq<char>>)>, root: Seq<char>, k: nat, m: nat)
    requires
        level(fwd, root, k).len() == 0,
        k <= m,
    ensures
        levels_upto(fwd, root, m) == levels_upto(fwd, root, k),
        level(fwd, root, m).len() == 0,
    decreases m - k,
{
    if k < m {
        lemma_levels_stop(fwd, root, k, (m - 1) as nat);
        assert(levels_upto(fwd, root, m) == levels_upto(fwd, root, (m - 1) as nat) + level(fwd, root, (m - 1) as nat));
    }
}

/// The children of each node of `ks`, node by node.
fn kids_of_all_exec(children_forward: &ChildMap, ks: &Vec<String>) -> (r: Vec<String>)
    ensures
        strs(r@) == kids_of_all(children_forward@, strs(ks@)),
{
    let ghost fwd = children_forward@;
    let mut r: Vec<String> = Vec::new();
    let mut i: usize = 0;
    assert(strs(ks@).take(0) == Seq::<Seq<char>>::empty());
    while i < ks.len()
        invariant
            fwd == children_forward@,
            i <= ks@.len(),
            strs(r@) == kids_of_all(fwd, strs(ks@).take(i as int)),
        decreases ks@.len() - i,
    {
        let ghost t = strs(ks@).take(i + 1);
        assert(t.drop_last() == strs(ks@).take(i as int));
        assert(t.last() == ks@[i as int]@);
        match children_forward.get(ks[i].as_str()) {
            None => {
                assert(kids(fwd, ks@[i as int]@).len() == 0);
                assert(strs(r@) + kids(fwd, ks@[i as int]@) == strs(r@));
            },
            Some(c) => {
                let mut j: usize = 0;
                let ghost base = strs(r@);
                while j < c.len()
                    invariant
                        j <= c@.len(),
                        strs(r@) == base + strs(c@).take(j as int),
                    decreases c@.len() - j,
                {
                    let w = chars_of(c[j].as_str());
                    let ghost old_r = r@;
                    r.push(string_of(&w));
                    assert(strs(r@) == strs(old_r).push(w@));
                    assert(strs(c@).take(j + 1) == strs(c@).take(j as int).push(c@[j as int]@));
                    j = j + 1;
                }
                assert(strs(c@).take(c@.len() as int) == strs(c@));
            },
        }
        i = i + 1;
    }
    assert(strs(ks@).take(ks@.len() as int) == strs(ks@));
    r
}

/// Walks a tree breadth-first, returning UUIDs level by level.
pub fn walk_breadth_first(root: &str, children_forward: &ChildMap) -> (r: Vec<String>)
    requires
        finite_below(children_forward@, root@),
    ensures
        strs(r@) == breadth_first(children_forward@, root@),
{
    let ghost fwd = children_forward@;
    let ghost n = depth_bound(fwd, root@);
    let mut result: Vec<String> = Vec::new();
    let mut cur: Vec<String> = Vec::new();
    let rc = chars_of(root);
    cur.push(string_of(&rc));
    assert(strs(cur@) == seq![root@]);
    let ghost mut k: nat = 0;
    assert(reach_depth(fwd, root@, n));
    while cur.len() > 0
        invariant
            fwd == children_forward@,
            reach_depth(fwd, root@, n),
            k <= n,
            strs(cur@) == level(fwd, root@, k),
            strs(result@) == levels_upto(fwd, root@, k),
            forall|j: int|
                0 <= j < strs(cur@).len() ==> reach_depth(fwd, #[trigger] strs(cur@)[j], (n - k) as nat),
        decreases n - k,
    {
        assert(reach_depth(fwd, strs(cur@)[0], (n - k) as nat));
        let mut i: usize = 0;
        let ghost base = strs(result@);
        while i < cur.len()
            invariant
                i <= cur@.len(),
                strs(result@) == base + strs(cur@).take(i as int),
            decreases cur@.len() - i,
        {
            let w = chars_of(cur[i].as_str());
            let ghost old_r = result@;
            result.push(string_of(&w));
            assert(strs(result@) == strs(old_r).push(w@));
            assert(strs(cur@).take(i + 1) == strs(cur@).take(i as int).push(cur@[i as int]@));
            i = i + 1;
        }
        assert(strs(cur@).take(cur@.len() as int) == strs(cur@));
        let next = kids_of_all_exec(children_forward, &cur);
        proof {
            lemma_kids_of_all_depth(fwd, strs(cur@), (n - k - 1) as nat);
            k = k + 1;
        }
        cur = next;
    }
    proof {
        lemma_levels_stop(fwd, root@, k, n);
    }
    result
}


// ---------------------------------------------------------------------------
// The store as read from disk
// ---------------------------------------------------------------------------

/// What a CSVS directory holds: its path (as messages show it), its files
/// (name and text, in directory order) and its prose blobs (UUID and text).
pub struct Csvs {
    pub dir: String,
    pub tablets: Vec<(String, String)>,
    pub prose: Vec<(String, String)>,
}

/// The path of the file `name` in the directory `dir`, as
/// `Path::join` writes it: a `/` between them unless `dir` is empty or
/// already ends with one.
pub open spec fn file_path(dir: Seq<char>, name: Seq<char>) -> Seq<char> {
    if dir.len() == 0 || dir.last() == '/' {
        dir + name
    } else {
        dir + "/"@ + name
    }
}

/// The path of a file of the store.
pub fn file_path_exec(dir: &str, name: &str) -> (r: String)
    ensures
        r@ == file_path(dir@, name@),
{
    let mut out = chars_of(dir);
    let n = out.len();
    if n > 0 && out[n - 1] != '/' {
        crate::text::append_str(&mut out, "/");
    }
    crate::text::append_str(&mut out, name);
    string_of(&out)
}

pub open spec fn pairs(v: Seq<(String, String)>) -> Seq<(Seq<char>, Seq<char>)> {
    v.map_values(|e: (String, String)| (e.0@, e.1@))
}

/// The text of the file `name`.
pub open spec fn tablet_text(c: Csvs, name: Seq<char>) -> Option<Seq<char>> {
    lookup(pairs(c.tablets@), name)
}

/// The prose of a UUID; empty when there is no blob.
pub open spec fn prose_of(c: Csvs, uuid: Seq<char>) -> Seq<char> {
    match lookup(pairs(c.prose@), uuid) {
        Some(p) => p,
        None => Seq::empty(),
    }
}

fn pair_index(v: &Vec<(String, String)>, k: &str) -> (r: usize)
    ensures
        r as int == key_index(pairs(v@), k@),
        r <= v@.len(),
{
    let kc = chars_of(k);
    let ghost ps = pairs(v@);
    let mut i: usize = 0;
    while i < v.len()
        invariant
            ps == pairs(v@),
            kc@ == k@,
            i <= v@.len(),
            forall|j: int| 0 <= j < i ==> (#[trigger] ps[j]).0 != k@,
        decreases v@.len() - i,
    {
        let key = chars_of(v[i].0.as_str());
        assert(ps[i as int].0 == v@[i as int].0@);
        if chars_eq(&key, &kc) {
            proof {
                lemma_key_index_is(ps, k@, i as int);
            }
            return i;
        }
        i = i + 1;
    }
    proof {
        lemma_key_index_is(ps, k@, i as int);
    }
    i
}

impl Csvs {
    /// The text of the file `name`, if there is one.
    pub fn tablet(&self, name: &str) -> (r: Option<&String>)
        ensures
            match r {
                Some(t) => tablet_text(*self, name@) == Some(t@),
                None => tablet_text(*self, name@) is None,
            },
    {
        let i = pair_index(&self.tablets, name);
        if i < self.tablets.len() {
            assert(pairs(self.tablets@)[i as int].1 == self.tablets@[i as int].1@);
            Some(&self.tablets[i].1)
        } else {
            None
        }
    }

    /// Reads the prose for a UUID; empty when no blob exists.
    pub fn read_prose(&self, uuid: &str) -> (r: String)
        ensures
            r@ == prose_of(*self, uuid@),
    {
        let i = pair_index(&self.prose, uuid);
        if i < self.prose.len() {
            assert(pairs(self.prose@)[i as int].1 == self.prose@[i as int].1@);
            let t = chars_of(self.prose[i].1.as_str());
            string_of(&t)
        } else {
            String::new()
        }
    }
}

/// Whether a file of the store is searched for UUIDs: a `.csv` file that is
/// not hidden and not the schema `_-_.csv`.
pub open spec fn searched_name(name: Seq<char>) -> bool {
    &&& ends_with(name, seq!['.', 'c', 's', 'v'])
    &&& !(name.len() > 0 && name[0] == '.')
    &&& name != seq!['_', '-', '_', '.', 'c', 's', 'v']
}

/// The trimmed comma-separated fields of some lines, line by line.
pub open spec fn line_fields(ls: Seq<Seq<char>>) -> Seq<Seq<char>>
    decreases ls.len(),
{
    if ls.len() == 0 {
        Seq::empty()
    } else {
        line_fields(ls.drop_last()) + split_char(ls.last(), ',').map_values(|f: Seq<char>| trim(f))
    }
}

/// The fields of the searched files, file by file.
pub open spec fn store_fields(ts: Seq<(Seq<char>, Seq<char>)>) -> Seq<Seq<char>>
    decreases ts.len(),
{
    if ts.len() == 0 {
        Seq::empty()
    } else if searched_name(ts.last().0) {
        store_fields(ts.drop_last()) + line_fields(lines(ts.last().1))
    } else {
        store_fields(ts.drop_last())
    }
}

/// Whether a field is a full UUID starting with `addr`.
pub open spec fn field_matches(f: Seq<char>, addr: Seq<char>) -> bool {
    starts_with(f, addr) && has_char(f, '-')
}

/// Index of the first field that matches `addr`, or the length.
pub open spec fn first_field_index(fs: Seq<Seq<char>>, addr: Seq<char>) -> int
    decreases fs.len(),
{
    if fs.len() == 0 {
        0
    } else if field_matches(fs[0], addr) {
        0
    } else {
        1 + first_field_index(fs.drop_first(), addr)
    }
}

pub proof fn lemma_first_field_index(fs: Seq<Seq<char>>, addr: Seq<char>, i: int)
    requires
        0 <= i <= fs.len(),
        forall|j: int| 0 <= j < i ==> !field_matches(#[trigger] fs[j], addr),
        i < fs.len() ==> field_matches(fs[i], addr),
    ensures
        first_field_index(fs, addr) == i,
    decreases fs.len(),
{
    if fs.len() > 0 && i > 0 {
        assert forall|j: int| 0 <= j < i - 1 implies !field_matches(#[trigger] fs.drop_first()[j], addr) by {
            assert(fs.drop_first()[j] == fs[j + 1]);
        }
        if i < fs.len() {
            assert(fs.drop_first()[i - 1] == fs[i]);
        }
        lemma_first_field_index(fs.drop_first(), addr, i - 1);
    }
}

/// The full UUID that an address names: the address itself when it looks
/// like a full UUID (a `-` and more than 16 bytes), else the first field of
/// the searched files that starts with it and holds a `-`.
pub open spec fn resolved(ts: Seq<(Seq<char>, Seq<char>)>, addr: Seq<char>) -> Option<Seq<char>> {
    if has_char(addr, '-') && utf8_len(addr) > 16 {
        if store_fields(ts).contains(addr) {
            Some(addr)
        } else {
            None
        }
    } else {
        let fs = store_fields(ts);
        let i = first_field_index(fs, addr);
        if 0 <= i < fs.len() {
            Some(fs[i])
        } else {
            None
        }
    }
}

fn searched_name_exec(name: &[char]) -> (r: bool)
    ensures
        r == searched_name(name@),
{
    let ext: Vec<char> = vec!['.', 'c', 's', 'v'];
    let schema: Vec<char> = vec!['_', '-', '_', '.', 'c', 's', 'v'];
    assert(ext@ == seq!['.', 'c', 's', 'v']);
    assert(schema@ == seq!['_', '-', '_', '.', 'c', 's', 'v']);
    ends_with_exec(name, &ext) && !(name.len() > 0 && name[0] == '.') && !chars_eq(name, &schema)
}

fn line_fields_exec(ls: &Vec<Vec<char>>, out: &mut Vec<Vec<char>>)
    ensures
        char_vecs(final(out)@) == char_vecs(old(out)@) + line_fields(char_vecs(ls@)),
{
    let ghost lv = char_vecs(ls@);
    let mut i: usize = 0;
    assert(char_vecs(out@) == char_vecs(old(out)@) + line_fields(lv.take(0)));
    while i < ls.len()
        invariant
            lv == char_vecs(ls@),
            i <= ls@.len(),
            char_vecs(out@) == char_vecs(old(out)@) + line_fields(lv.take(i as int)),
        decreases ls@.len() - i,
    {
        assert(lv.take(i + 1).drop_last() == lv.take(i as int));
        assert(lv.take(i + 1).last() == ls@[i as int]@);
        let fs = split_char_exec(&ls[i], ',');
        let ghost sf = split_char(ls@[i as int]@, ',');
        let ghost base = char_vecs(out@);
        let mut j: usize = 0;
        while j < fs.len()
            invariant
                j <= fs@.len(),
                char_vecs(fs@) == sf,
                char_vecs(out@) == base + sf.map_values(|f: Seq<char>| trim(f)).take(j as int),
            decreases fs@.len() - j,
        {
            assert(sf[j as int] == fs@[j as int]@);
            let t = trim_exec(&fs[j]);
            let ghost old_out = char_vecs(out@);
            out.push(t);
            assert(char_vecs(out@) == old_out.push(t@));
            assert(sf.map_values(|f: Seq<char>| trim(f)).take(j + 1) == sf.map_values(
                |f: Seq<char>| trim(f),
            ).take(j as int).push(trim(sf[j as int])));
            j = j + 1;
        }
        assert(sf.map_values(|f: Seq<char>| trim(f)).take(fs@.len() as int) == sf.map_values(
            |f: Seq<char>| trim(f),
        ));
        i = i + 1;
    }
    assert(lv.take(ls@.len() as int) == lv);
}

/// Resolves an address (short hex prefix or full UUID) to a full UUID by
/// scanning the values of the store's tablets.
pub fn resolve_uuid(csvs: &Csvs, addr: &str) -> (r: Option<String>)
    ensures
        match r {
            Some(u) => resolved(pairs(csvs.tablets@), addr@) == Some(u@),
            None => resolved(pairs(csvs.tablets@), addr@) is None,
        },
{
    let a = chars_of(addr);
    let full = has_char_exec(&a, '-') && !utf8_len_le(&a, 16);
    let ghost ts = pairs(csvs.tablets@);
    let mut fields: Vec<Vec<char>> = Vec::new();
    let mut t: usize = 0;
    assert(ts.take(0) == Seq::<(Seq<char>, Seq<char>)>::empty());
    while t < csvs.tablets.len()
        invariant
            ts == pairs(csvs.tablets@),
            t <= csvs.tablets@.len(),
            char_vecs(fields@) == store_fields(ts.take(t as int)),
        decreases csvs.tablets@.len() - t,
    {
        assert(ts.take(t + 1).drop_last() == ts.take(t as int));
        assert(ts.take(t + 1).last() == ts[t as int]);
        let name = chars_of(csvs.tablets[t].0.as_str());
        if searched_name_exec(&name) {
            let content = chars_of(csvs.tablets[t].1.as_str());
            let ls = lines_exec(&content);
            line_fields_exec(&ls, &mut fields);
        }
        t = t + 1;
    }
    assert(ts.take(csvs.tablets@.len() as int) == ts);
    let ghost fs = char_vecs(fields@);
    if full {
        // a full UUID resolves to itself when some tablet holds it
        let mut k: usize = 0;
        while k < fields.len()
            invariant
                fs == char_vecs(fields@),
                fs == store_fields(pairs(csvs.tablets@)),
                has_char(addr@, '-') && utf8_len(addr@) > 16,
                a@ == addr@,
                k <= fields@.len(),
                forall|j: int| 0 <= j < k ==> #[trigger] fs[j] != addr@,
            decreases fields@.len() - k,
        {
            assert(fs[k as int] == fields@[k as int]@);
            if chars_eq(&fields[k], &a) {
                assert(fs.contains(addr@));
                return Some(string_of(&a));
            }
            k = k + 1;
        }
        assert(!fs.contains(addr@));
        return None;
    }
    let mut i: usize = 0;
    while i < fields.len()
        invariant
            fs == char_vecs(fields@),
            fs == store_fields(pairs(csvs.tablets@)),
            !(has_char(addr@, '-') && utf8_len(addr@) > 16),
            a@ == addr@,
            i <= fields@.len(),
            forall|j: int| 0 <= j < i ==> !field_matches(#[trigger] fs[j], addr@),
        decreases fields@.len() - i,
    {
        assert(fs[i as int] == fields@[i as int]@);
        if starts_with_exec(&fields[i], &a) && has_char_exec(&fields[i], '-') {
            proof {
                lemma_first_field_index(fs, addr@, i as int);
            }
            return Some(string_of(&fields[i]));
        }
        i = i + 1;
    }
    proof {
        lemma_first_field_index(fs, addr@, i as int);
    }
    None
}


// ---------------------------------------------------------------------------
// First matches
// ---------------------------------------------------------------------------

/// Index of the first element satisfying `p`, or the length.
pub open spec fn first_in<A>(s: Seq<A>, p: spec_fn(A) -> bool) -> int
    decreases s.len(),
{
    if s.len() == 0 {
        0
    } else if p(s[0]) {
        0
    } else {
        1 + first_in(s.drop_first(), p)
    }
}

/// `first_in` is `i` when nothing before `i` satisfies `p` and `i` is the
/// length or satisfies `p`.
pub proof fn lemma_first_in<A>(s: Seq<A>, p: spec_fn(A) -> bool, i: int)
    requires
        0 <= i <= s.len(),
        forall|j: int| 0 <= j < i ==> !p(#[trigger] s[j]),
        i < s.len() ==> p(s[i]),
    ensures
        first_in(s, p) == i,
    decreases s.len(),
{
    if s.len() > 0 && i > 0 {
        assert forall|j: int| 0 <= j < i - 1 implies !p(#[trigger] s.drop_first()[j]) by {
            assert(s.drop_first()[j] == s[j + 1]);
        }
        if i < s.len() {
            assert(s.drop_first()[i - 1] == s[i]);
        }
        lemma_first_in(s.drop_first(), p, i - 1);
    }
}

/// The first element satisfying `p`.
pub open spec fn find_first<A>(s: Seq<A>, p: spec_fn(A) -> bool) -> Option<A> {
    let i = first_in(s, p);
    if 0 <= i < s.len() {
        Some(s[i])
    } else {
        None
    }
}

/// The map a tablet's edges give, or nothing when the tablet is missing.
pub open spec fn forward_or_empty(c: Csvs, name: Seq<char>) -> Seq<(Seq<char>, Seq<Seq<char>>)> {
    match tablet_text(c, name) {
        Some(t) => forward_of(tablet_records(t)),
        None => Seq::empty(),
    }
}

/// The to → [from] map of a bridge tablet, or nothing when it is missing.
pub open spec fn backward_or_empty(c: Csvs, name: Seq<char>) -> Seq<(Seq<char>, Seq<Seq<char>>)> {
    match tablet_text(c, name) {
        Some(t) => backward_of(tablet_records(t)),
        None => Seq::empty(),
    }
}

/// Parses a tablet's edges into a parent → children map, or an empty map
/// when the tablet is missing.
pub fn load_forward(c: &Csvs, name: &str) -> (r: ChildMap)
    ensures
        r@ == forward_or_empty(*c, name@),
        distinct_keys(r@),
{
    match c.tablet(name) {
        Some(t) => load_edges(t.as_str()).0,
        None => ChildMap::new(),
    }
}

/// Parses a bridge tablet into its to → [from] map, or an empty map when
/// the tablet is missing.
pub fn load_backward(c: &Csvs, name: &str) -> (r: ChildMap)
    ensures
        r@ == backward_or_empty(*c, name@),
        distinct_keys(r@),
{
    match c.tablet(name) {
        Some(t) => load_bridge(t.as_str()).1,
        None => ChildMap::new(),
    }
}


// ---------------------------------------------------------------------------
// Changing the store
// ---------------------------------------------------------------------------

/// `v` stored under `k` in a list of (name, text) pairs.
pub(crate) fn set_pair(v: &mut Vec<(String, String)>, k: &str, text: &str)
    ensures
        pairs(final(v)@) == set_value(pairs(old(v)@), k@, text@),
{
    let i = pair_index(v, k);
    let kc = chars_of(k);
    let tc = chars_of(text);
    if i < v.len() {
        let ghost before = v@;
        let (key, _old) = v.remove(i);
        let sv = string_of(&tc);
        v.insert(i, (key, sv));
        assert(v@ =~= before.update(i as int, (key, sv)));
        proof {
            lemma_key_index(pairs(before), k@);
            assert(key@ == pairs(before)[i as int].0);
        }
        assert(pairs(v@) =~= set_value(pairs(old(v)@), k@, text@));
    } else {
        v.push((string_of(&kc), string_of(&tc)));
        assert(pairs(v@) =~= set_value(pairs(old(v)@), k@, text@));
    }
}

/// The text of a file after appending a line: the line and a newline after
/// whatever it held (a new file when it did not exist).
pub open spec fn appended(old: Option<Seq<char>>, line: Seq<char>) -> Seq<char> {
    match old {
        Some(t) => t + line + "\n"@,
        None => line + "\n"@,
    }
}

impl Csvs {
    /// Replaces (or creates) the file `name` with `text`.
    pub fn write_tablet(&mut self, name: &str, text: &str)
        ensures
            pairs(final(self).tablets@) == set_value(pairs(old(self).tablets@), name@, text@),
            final(self).prose == old(self).prose,
            final(self).dir == old(self).dir,
    {
        set_pair(&mut self.tablets, name, text);
    }

    /// Appends a line to the file `name`, creating it when it is missing.
    pub fn append_line(&mut self, name: &str, line: &str)
        ensures
            pairs(final(self).tablets@) == set_value(
                pairs(old(self).tablets@),
                name@,
                appended(tablet_text(*old(self), name@), line@),
            ),
            final(self).prose == old(self).prose,
            final(self).dir == old(self).dir,
    {
        let mut text: Vec<char> = match self.tablet(name) {
            Some(t) => chars_of(t.as_str()),
            None => Vec::new(),
        };
        crate::text::append_str(&mut text, line);
        crate::text::append_str(&mut text, "\n");
        let s = string_of(&text);
        set_pair(&mut self.tablets, name, s.as_str());
    }

    /// Replaces (or creates) the prose blob of `uuid`.
    pub fn write_prose(&mut self, uuid: &str, text: &str)
        ensures
            pairs(final(self).prose@) == set_value(pairs(old(self).prose@), uuid@, text@),
            final(self).tablets == old(self).tablets,
            final(self).dir == old(self).dir,
    {
        set_pair(&mut self.prose, uuid, text);
    }
}

/// Storing under a key and then looking it up gives back what was stored;
/// other keys keep their values.
pub proof fn lemma_lookup_set_value(es: Seq<(Seq<char>, Seq<char>)>, k: Seq<char>, v: Seq<char>, q: Seq<char>)
    ensures
        lookup(set_value(es, k, v), q) == if q == k {
            Some(v)
        } else {
            lookup(es, q)
        },
{
    lemma_key_index(es, k);
    lemma_key_index(es, q);
    let s = set_value(es, k, v);
    let i = key_index(es, k);
    let j = key_index(es, q);
    if q == k {
        assert forall|m: int| 0 <= m < i implies (#[trigger] s[m]).0 != q by {
            assert(s[m] == es[m]);
        }
        lemma_key_index_is(s, q, i);
    } else {
        if i < es.len() {
            assert forall|m: int| 0 <= m < j implies (#[trigger] s[m]).0 != q by {
                if m != i {
                    assert(s[m] == es[m]);
                }
            }
            if j < es.len() {
                assert(s[j] == es[j]);
            }
            lemma_key_index_is(s, q, j);
        } else {
            assert forall|m: int| 0 <= m < j implies (#[trigger] s[m]).0 != q by {
                assert(s[m] == es[m]);
            }
            if j < es.len() {
                assert(s[j] == es[j]);
                lemma_key_index_is(s, q, j);
            } else {
                lemma_key_index_is(s, q, s.len() as int);
            }
        }
    }
}


/// Adding under a key and then looking it up gives the list with the value
/// appended; other keys keep their lists.
pub proof fn lemma_lookup_add_child(es: Seq<(Seq<char>, Seq<Seq<char>>)>, k: Seq<char>, v: Seq<char>, q: Seq<char>)
    ensures
        lookup(add_child(es, k, v), q) == if q == k {
            Some(kids(es, k).push(v))
        } else {
            lookup(es, q)
        },
{
    lemma_key_index(es, k);
    lemma_key_index(es, q);
    let s = add_child(es, k, v);
    let i = key_index(es, k);
    let j = key_index(es, q);
    if q == k {
        assert forall|m: int| 0 <= m < i implies (#[trigger] s[m]).0 != q by {
            assert(s[m] == es[m]);
        }
        lemma_key_index_is(s, q, i);
        if i >= es.len() {
            assert(kids(es, k) == Seq::<Seq<char>>::empty());
            assert(seq![v] =~= Seq::<Seq<char>>::empty().push(v));
        }
    } else {
        if i < es.len() {
            assert forall|m: int| 0 <= m < j implies (#[trigger] s[m]).0 != q by {
                if m != i {
                    assert(s[m] == es[m]);
                }
            }
            if j < es.len() {
                assert(s[j] == es[j]);
            }
            lemma_key_index_is(s, q, j);
        } else {
            assert forall|m: int| 0 <= m < j implies (#[trigger] s[m]).0 != q by {
                assert(s[m] == es[m]);
            }
            if j < es.len() {
                assert(s[j] == es[j]);
                lemma_key_index_is(s, q, j);
            } else {
                lemma_key_index_is(s, q, s.len() as int);
            }
        }
    }
}

/// The right sides of the edges whose left side is `p`, in order.
pub open spec fn rights_of(rs: Seq<(Seq<char>, Seq<char>)>, p: Seq<char>) -> Seq<Seq<char>>
    decreases rs.len(),
{
    if rs.len() == 0 {
        Seq::empty()
    } else if rs.last().0 == p {
        rights_of(rs.drop_last(), p).push(rs.last().1)
    } else {
        rights_of(rs.drop_last(), p)
    }
}

/// The left side of the last edge whose right side is `c`.
pub open spec fn last_left(rs: Seq<(Seq<char>, Seq<char>)>, c: Seq<char>) -> Option<Seq<char>>
    decreases rs.len(),
{
    if rs.len() == 0 {
        None
    } else if rs.last().1 == c {
        Some(rs.last().0)
    } else {
        last_left(rs.drop_last(), c)
    }
}

/// A parent's children are listed in file order: they are the right sides
/// of the parent's edges, in the order of the tablet.
pub proof fn law_children_in_file_order(rs: Seq<(Seq<char>, Seq<char>)>, p: Seq<char>)
    ensures
        kids(forward_of(rs), p) == rights_of(rs, p),
    decreases rs.len(),
{
    if rs.len() > 0 {
        law_children_in_file_order(rs.drop_last(), p);
        lemma_lookup_add_child(forward_of(rs.drop_last()), rs.last().0, rs.last().1, p);
    }
}

/// A parent is a key of the forward map exactly when it has an edge.
pub proof fn lemma_forward_keys(rs: Seq<(Seq<char>, Seq<char>)>, p: Seq<char>)
    ensures
        has_key(forward_of(rs), p) <==> rights_of(rs, p).len() > 0,
    decreases rs.len(),
{
    if rs.len() > 0 {
        lemma_forward_keys(rs.drop_last(), p);
        lemma_lookup_add_child(forward_of(rs.drop_last()), rs.last().0, rs.last().1, p);
    }
}

/// A child's parent is the left side of the last edge into it: a later
/// edge wins over an earlier one.
pub proof fn law_last_parent_wins(rs: Seq<(Seq<char>, Seq<char>)>, c: Seq<char>)
    ensures
        lookup(reverse_of(rs), c) == last_left(rs, c),
    decreases rs.len(),
{
    if rs.len() > 0 {
        law_last_parent_wins(rs.drop_last(), c);
        lemma_lookup_set_value(reverse_of(rs.drop_last()), rs.last().1, rs.last().0, c);
    }
}

/// Every entry's key is a key: the first entry with that key is no later.
pub proof fn lemma_key_of_entry<V>(es: Seq<(Seq<char>, V)>, i: int)
    requires
        0 <= i < es.len(),
    ensures
        has_key(es, es[i].0),
{
    lemma_key_index(es, es[i].0);
}

pub proof fn lemma_root_index_finds(
    fwd: Seq<(Seq<char>, Seq<Seq<char>>)>,
    rev: Seq<(Seq<char>, Seq<char>)>,
    from: int,
)
    requires
        0 <= from,
    ensures
        root_index(fwd, rev, from) < fwd.len() ==> !has_key(rev, fwd[root_index(fwd, rev, from)].0),
        root_index(fwd, rev, from) < fwd.len() ==> root_index(fwd, rev, from) >= 0,
    decreases fwd.len() - from,
{
    if from < fwd.len() && has_key(rev, fwd[from].0) {
        lemma_root_index_finds(fwd, rev, from + 1);
    }
}

/// The root of a tree is a parent that is nobody's child.
pub proof fn law_root_is_parent_not_child(
    fwd: Seq<(Seq<char>, Seq<Seq<char>>)>,
    rev: Seq<(Seq<char>, Seq<char>)>,
    r: Seq<char>,
)
    requires
        root_of(fwd, rev) == Some(r),
    ensures
        has_key(fwd, r),
        !has_key(rev, r),
{
    lemma_root_index_finds(fwd, rev, 0);
    lemma_key_of_entry(fwd, root_index(fwd, rev, 0));
}


/// The edge `a,b` of plain identifiers is read back as `(a, b)`.
pub proof fn lemma_record_of_edge(a: Seq<char>, b: Seq<char>)
    requires
        clean_id(a),
        clean_id(b),
    ensures
        record_of(a + ","@ + b) == Some((a, b)),
{
    lemma_edge_line(a, b);
}

/// The edges of some lines with one more line after them.
pub proof fn lemma_records_push(ls: Seq<Seq<char>>, l: Seq<char>)
    ensures
        records(ls.push(l)) == match record_of(l) {
            Some(r) => records(ls).push(r),
            None => records(ls),
        },
{
    assert(ls.push(l).drop_last() =~= ls);
}

/// Appending the edge `a,b` (plain identifiers) to a tablet that ends a
/// line, or that does not exist, adds exactly that edge after its own.
pub proof fn lemma_records_appended(t: Option<Seq<char>>, a: Seq<char>, b: Seq<char>)
    requires
        clean_id(a),
        clean_id(b),
        match t {
            Some(x) => ends_line(x),
            None => true,
        },
    ensures
        tablet_records(appended(t, a + ","@ + b)) == match t {
            Some(x) => tablet_records(x),
            None => Seq::<(Seq<char>, Seq<char>)>::empty(),
        }.push((a, b)),
{
    let l = a + ","@ + b;
    lemma_edge_line(a, b);
    lemma_record_of_edge(a, b);
    lemma_lines_line(l);
    match t {
        Some(x) => {
            assert(x + l + "\n"@ =~= x + (l + "\n"@));
            lemma_lines_append(x, l + "\n"@);
            assert(lines(x) + seq![l] =~= lines(x).push(l));
            lemma_records_push(lines(x), l);
            assert(appended(t, l) == x + l + "\n"@);
        },
        None => {
            lemma_records_push(Seq::empty(), l);
            assert(Seq::<Seq<char>>::empty().push(l) =~= seq![l]);
            assert(appended(t, l) == l + "\n"@);
            assert(records(Seq::<Seq<char>>::empty()) == Seq::<(Seq<char>, Seq<char>)>::empty());
        },
    }
}

/// A tablet after appending a line ends a line.
pub proof fn lemma_appended_ends_line(t: Option<Seq<char>>, l: Seq<char>)
    ensures
        ends_line(appended(t, l)),
{
    reveal_strlit("\n");
    match t {
        Some(x) => {
            assert((x + l + "\n"@).last() == '\n');
        },
        None => {
            assert((l + "\n"@).last() == '\n');
        },
    }
}


/// Where `first_in` lands: nothing before it satisfies the test, and it is
/// the length or satisfies the test.
pub proof fn lemma_first_in_props<A>(s: Seq<A>, p: spec_fn(A) -> bool)
    ensures
        0 <= first_in(s, p) <= s.len(),
        forall|j: int| 0 <= j < first_in(s, p) ==> !p(#[trigger] s[j]),
        first_in(s, p) < s.len() ==> p(s[first_in(s, p)]),
    decreases s.len(),
{
    if s.len() > 0 && !p(s[0]) {
        lemma_first_in_props(s.drop_first(), p);
        assert forall|j: int| 0 <= j < first_in(s, p) implies !p(#[trigger] s[j]) by {
            if j > 0 {
                assert(s[j] == s.drop_first()[j - 1]);
            }
        }
    }
}

/// What `find_first` finds satisfies the test and is in the sequence; when
/// it finds nothing, nothing in the sequence satisfies the test.
pub proof fn lemma_find_first<A>(s: Seq<A>, p: spec_fn(A) -> bool)
    ensures
        find_first(s, p) matches Some(u) ==> p(u) && s.contains(u),
        find_first(s, p) is None ==> forall|i: int| 0 <= i < s.len() ==> !p(#[trigger] s[i]),
    decreases s.len(),
{
    lemma_first_in_props(s, p);
    if s.len() > 0 && !p(s[0]) {
        lemma_first_in_props(s.drop_first(), p);
        lemma_find_first(s.drop_first(), p);
        if find_first(s.drop_first(), p) is Some {
            let i = first_in(s.drop_first(), p);
            assert(0 <= i < s.drop_first().len());
            assert(first_in(s, p) == 1 + i);
            assert(s[1 + i] == s.drop_first()[i]);
            assert(find_first(s, p) == Some(s[1 + i]));
            assert(p(s[1 + i]));
            assert(s.contains(s[1 + i]));
        } else {
            assert forall|i: int| 0 <= i < s.len() implies !p(#[trigger] s[i]) by {
                if i > 0 {
                    assert(s[i] == s.drop_first()[i - 1]);
                }
            }
        }
    } else if s.len() > 0 {
        assert(s.contains(s[0]));
    }
}

} // verus!
