//! Failures that a descriptor file can run into.

use vstd::prelude::*;

verus! {

/// What went wrong while parsing or expanding one descriptor table.
#[derive(Debug, Clone, Copy, PartialEq, Eq, Structural)]
pub enum TableError {
    /// The table has no readable directive row.
    MissingDirectiveRow,
    /// No `@header` directive was found, so the table cannot be segmented.
    MissingHeader,
    /// A sample-path cell does not compile as a glob pattern.
    MalformedGlob,
}

impl TableError {
    /// Short description, for callers that report the failure.
    pub fn message(&self) -> (r: &'static str)
        ensures
            (*self is MissingDirectiveRow) ==> r@ == "missing directive row"@,
            (*self is MissingHeader) ==> r@ == "missing @header directive"@,
            (*self is MalformedGlob) ==> r@ == "malformed glob pattern"@,
    {
        match self {
            TableError::MissingDirectiveRow => "missing directive row",
            TableError::MissingHeader => "missing @header directive",
            TableError::MalformedGlob => "malformed glob pattern",
        }
    }
}

} // verus!
