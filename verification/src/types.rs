//! Node identifiers, command-line addresses, tree kinds and scanned nodes.
use vstd::prelude::*;

use crate::text::{chars_of, parse_usize, parse_usize_exec, short_of, short_of_exec, str_eq, string_of};

verus! {

/// A node identifier: the first 8 hex characters of a v4 UUID in Fountain
/// files, the full UUID in CSVS tablets.
#[derive(Debug, Clone, PartialEq, Eq, Hash)]
pub struct NodeId {
    /// The full UUID, e.g. "cd18caf7-c9c0-4d14-9896-4b31cb7fe2ae".
    pub full: String,
    /// The first 8 hex characters, e.g. "cd18caf7".
    pub short: String,
}

impl NodeId {
    /// The id of a full UUID; its short form is the part before the first `-`.
    pub fn from_full(uuid: &str) -> (r: Self)
        ensures
            r.full@ == uuid@,
            r.short@ == short_of(uuid@),
    {
        let cs = chars_of(uuid);
        let short = short_of_exec(&cs);
        NodeId { full: string_of(&cs), short: string_of(&short) }
    }

    /// The id of a short hex string, which stands for both forms.
    pub fn from_short(hex: &str) -> (r: Self)
        ensures
            r.full@ == hex@,
            r.short@ == hex@,
    {
        let cs = chars_of(hex);
        NodeId { full: string_of(&cs), short: string_of(&cs) }
    }

    /// Whether `query` is this id's short or full form.
    pub fn matches(&self, query: &str) -> (r: bool)
        ensures
            r == (self.short@ == query@ || self.full@ == query@),
    {
        str_eq(self.short.as_str(), query) || str_eq(self.full.as_str(), query)
    }
}

/// How the user refers to a node on the command line.
#[derive(Debug, Clone)]
pub enum Addr {
    Line(usize),
    Hex(String),
}

impl Addr {
    /// A line number when `s` parses as `usize`, else a hex id.
    pub fn parse(s: &str) -> (r: Self)
        ensures
            match parse_usize(s@) {
                Some(n) => r == Addr::Line(n),
                None => r matches Addr::Hex(h) && h@ == s@,
            },
    {
        let cs = chars_of(s);
        match parse_usize_exec(&cs) {
            Some(n) => Addr::Line(n),
            None => Addr::Hex(string_of(&cs)),
        }
    }
}

/// Which tree a Fountain file belongs to.
#[derive(Debug, Clone, Copy, PartialEq, Eq)]
pub enum TreeKind {
    Source,
    Structure,
    Target,
}

impl TreeKind {
    /// The Fountain file of this tree.
    pub fn fountain_filename(&self) -> (r: &'static str)
        ensures
            *self == TreeKind::Source ==> r@ == "source.fountain"@,
            *self == TreeKind::Structure ==> r@ == "structure.fountain"@,
            *self == TreeKind::Target ==> r@ == "target.fountain"@,
    {
        match self {
            TreeKind::Source => "source.fountain",
            TreeKind::Structure => "structure.fountain",
            TreeKind::Target => "target.fountain",
        }
    }
}

/// A node as scanned from a Fountain file: what was found at one position.
#[derive(Debug, Clone)]
pub struct ScannedNode {
    /// The 1-based line of the node.
    pub line_number: usize,
    pub id: NodeId,
    /// `None` for action blocks, `Some(n)` for headings.
    pub depth: Option<u8>,
    /// Heading title or action block text, without the `[[id]]`.
    pub text: String,
    /// The `[[note]]` lines that follow.
    pub notes: Vec<String>,
}

} // verus!
