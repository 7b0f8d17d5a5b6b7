//! The pairing record between one source file and its specification
//! document. Walking directories to derive such pairs is I/O and stays
//! with the surrounding program; the engine only carries the result.

use vstd::prelude::*;

verus! {

/// One source file and its paired specification document, when one was
/// found beside it.
pub struct FileMapping {
    pub rust_file: String,
    pub spec_file: Option<String>,
}

} // verus!
