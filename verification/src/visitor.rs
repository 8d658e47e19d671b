//! Callbacks for walking a parsed metadata header.

use vstd::prelude::*;

verus! {

/// Implemented by consumers that want the header fields of a metadata
/// source announced one by one.
pub trait Visitor {
    fn visit_version(&mut self, version: u32);

    fn visit_extends(&mut self, extended_by: Option<&str>);

    fn visit_abstract(&mut self, is_abstract: bool);
}

} // verus!
