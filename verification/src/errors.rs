//! The error taxonomy surfaced by the database.

use vstd::prelude::*;

verus! {

/// Every failure a database operation can report.
#[derive(Clone, Copy, PartialEq, Eq, Structural, Debug)]
pub enum DbError {
    /// An operation referenced an unknown table and no create-if-missing flag
    /// was set.
    TableNotFound,
    /// A create found a structural or identity duplicate in the table.
    RecordAlreadyExists,
    /// An update found no eligible record carrying the supplied `id`.
    RecordNotFound,
    /// A dotted-path segment was absent from the object it was applied to.
    PathNotFound,
    /// A dotted-path segment was applied to a value that is not an object.
    NotAnObject,
    /// File content did not parse as the mapping-of-tables shape.
    CorruptData,
    /// An underlying read or write failed; raised only by callers that
    /// perform file access around this library.
    IoFailure,
}

} // verus!
