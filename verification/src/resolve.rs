//! Resolving a command-line address to a scanned node.
use vstd::prelude::*;

use crate::scan::{find_by_hex, find_by_line, hex_pred, is_first, line_pred, none_is};
use crate::types::{Addr, ScannedNode};

verus! {

/// The node that an address names: by line number or by hex id.
pub fn resolve<'a>(nodes: &'a [ScannedNode], addr: &Addr) -> (r: Option<&'a ScannedNode>)
    ensures
        match addr {
            Addr::Line(n) => match r {
                Some(x) => is_first(nodes@, line_pred(*n), *x),
                None => none_is(nodes@, line_pred(*n)),
            },
            Addr::Hex(h) => match r {
                Some(x) => is_first(nodes@, hex_pred(h@), *x),
                None => none_is(nodes@, hex_pred(h@)),
            },
        },
{
    match addr {
        Addr::Line(n) => find_by_line(nodes, *n),
        Addr::Hex(h) => find_by_hex(nodes, h.as_str()),
    }
}

} // verus!
