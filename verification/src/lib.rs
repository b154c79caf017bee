//! A minimal, embeddable full-text search engine core.
//!
//! The crate keeps an inverted index and a document store entirely in
//! memory.  An indexer ([`TermGenerator`](text::TermGenerator)) turns free
//! text into normalized terms with positions, a writer
//! ([`WritableDatabase`](db::WritableDatabase)) stores documents under a
//! write transaction, and an executor ([`Enquire`](search::Enquire))
//! evaluates a boolean/term/range query tree against a committed snapshot
//! ([`Database`](db::Database)), returning a ranked page of results
//! ([`MSet`](search::MSet)) and optional per-slot value statistics
//! ([`ValueCountMatchSpy`](search::ValueCountMatchSpy)).
//!
//! Every operation is specified against a mathematical model: documents
//! are sequences of term postings and slot values, the index is a sequence
//! of `(document id, document)` pairs sorted by id, and query evaluation
//! is a pure function from that model to a ranked sequence.

use vstd::prelude::*;

pub mod bytes;
pub mod constants;
pub mod db;
pub mod doc;
pub mod errors;
pub mod laws;
pub mod codec;
pub mod parser;
pub mod query;
pub mod rank;
pub mod search;
pub mod serial;
pub mod text;

verus! {

/// Version of the engine core, as a displayable string.
pub fn version_string() -> (r: &'static str)
    ensures
        r@ == "1.0.0"@,
{
    "1.0.0"
}

} // verus!
