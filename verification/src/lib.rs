//! Reading and writing a content-addressed game asset archive: seekable
//! Oodle-compressed bundles, the index that maps logical file paths to
//! `(bundle, offset, length)` triples, the prefix-compressed path
//! dictionary, and the planning of filtered extractions.
//!
//! The wire formats are modelled as specification functions and every
//! parser and serializer is proved against them; re-serializing anything
//! parsed reproduces its bytes exactly. The compressor itself, the path
//! hash and the glob engine are outside libraries, reached through a small
//! set of trusted declarations.

pub mod cli;
pub mod codec;
pub mod extract;
pub mod filter;
pub mod hash;
pub mod index;
pub mod paths;
pub mod text;
pub mod util;
pub mod visitor;

use vstd::prelude::*;

verus! {

/// Errors reported by the bundle library.
#[derive(Debug)]
pub enum Error {
    /// A read ran past the end of the input.
    UnexpectedEof,
    /// A structural violation was found while parsing.
    InvalidFormat { reason: &'static str },
    /// Decompression went wrong at the given seek chunk: its output does
    /// not have the length the seek table assigns it (or the chunk streams
    /// diverge at that position).
    OodleError { chunk_index: usize },
    /// A path fragment was not valid UTF-8 or lacked its terminator.
    BadPathEncoding,
    /// The named user-supplied glob pattern failed to compile.
    InvalidPattern { token: String },
    /// A freshly built bundle failed its round-trip arithmetic check.
    CompressionInconsistency,
}

} // verus!
