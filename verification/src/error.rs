//! The errors the builder and the path checks report.  Each carries the
//! offending path or name, so the front end can emit one diagnostic line
//! naming it.

use vstd::prelude::*;

verus! {

/// Why an operation was refused.
#[derive(Clone, Debug, PartialEq)]
pub enum ArxError {
    /// An input path does not exist or cannot be accessed.
    InputNotFound { path: String },
    /// The directory that should hold the output file does not exist.
    OutputParentMissing { path: String },
    /// The output file exists and overwriting was not requested.
    OutputExists { path: String },
    /// An input path was absolute where a relative one is required.
    AbsoluteInputPath { path: String },
    /// Schema violation: a second, non-directory entry was added under a
    /// name already taken inside the same directory.
    DuplicateName { name: Vec<u8> },
    /// Schema violation: the entry layout failed its validation at
    /// finalize time, so the store's invariants cannot be guaranteed.
    BrokenLayout,
}

} // verus!
