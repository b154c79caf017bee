//! The error taxonomy.
//!
//! Every fallible operation returns one of these typed failures; no
//! sentinel values are used anywhere in the crate.

use vstd::prelude::*;

verus! {

/// A typed failure returned by a database, parser or executor operation.
#[derive(Debug)]
pub enum Error {
    /// A bad argument: an unusable flag combination, operator or slot.
    InvalidArgument,
    /// The operation is not valid in the handle's current state, for
    /// example writing through a closed handle or reading through an
    /// iterator whose database has been closed or mutated.
    InvalidOperation,
    /// A stored segment failed its structure check.
    DatabaseCorrupt,
    /// A second writer contended for an exclusively locked database.
    DatabaseLock,
    /// No database exists where one was expected.
    DatabaseNotFound,
    /// The database at the path could not be opened under the given mode.
    DatabaseOpening,
    /// The query string is malformed; `position` is the byte offset of the
    /// offending fragment and `reason` says what was wrong with it.
    QueryParserError { position: usize, reason: String },
    /// A lookup by document id found nothing.
    DocNotFound,
    /// A stored value could not be decoded as the requested type.
    Serialisation,
    /// The requested flag or feature is not supported by this engine.
    Unimplemented,
}

impl Error {
    /// True for the parser error variant, whatever its position.
    pub fn is_parse_error(&self) -> (r: bool)
        ensures
            r == (self is QueryParserError),
    {
        match self {
            Error::QueryParserError { .. } => true,
            _ => false,
        }
    }
}

} // verus!
