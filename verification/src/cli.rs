//! The extraction tool's options, as plain values.
//!
//! Argument parsing itself is the front end's business; the library only
//! fixes what an invocation carries.

use vstd::prelude::*;

verus! {

/// One extraction run: where to read, where to write, whether to keep
/// shader caches, how many worker threads to use, an optional
/// comma-separated glob filter, and the logging level's name.
#[derive(Debug, Clone)]
pub struct Commands {
    pub input: String,
    pub output: String,
    pub shaders: Option<bool>,
    pub threads: Option<u8>,
    pub filter: Option<String>,
    pub debug: String,
}

} // verus!
