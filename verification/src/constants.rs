//! Shared enumerations: query operators and behaviour flags.
//!
//! Each concept has exactly one authoritative enumeration.  Flag sets are
//! passed around as `u32` bit masks; the `mask` methods give the numeric
//! value of one flag, so that callers can OR several together.

use vstd::prelude::*;

verus! {

/// Open an existing database at the path, or create one if none is there.
pub const DB_CREATE_OR_OPEN: i32 = 0x00;

/// Create a database, overwriting whatever is at the path.
pub const DB_CREATE_OR_OVERWRITE: i32 = 0x01;

/// Create a new database; fail if one already exists at the path.
pub const DB_CREATE: i32 = 0x02;

/// Open an existing database; fail if none exists at the path.
pub const DB_OPEN: i32 = 0x03;

/// Combining operators for query tree nodes.
///
/// The binary combinators (`OpAnd`, `OpOr`, `OpAndNot`, `OpXor`,
/// `OpAndMaybe`, `OpFilter`, `OpEliteSet`, `OpSynonym`) join two
/// subqueries.  The value tests (`OpValueRange`, `OpValueGe`, `OpValueLe`)
/// and the weight scaler (`OpScaleWeight`) carry parameters of their own
/// and are built through the dedicated `Query` constructors instead.
#[derive(Clone, Copy, Debug, PartialEq, Eq, Structural)]
pub enum XapianOp {
    /// Match iff both subqueries are satisfied; weight from both.
    OpAnd,
    /// Match if either subquery is satisfied; weight from the matching sides.
    OpOr,
    /// Match if the left but not the right subquery is satisfied.
    OpAndNot,
    /// Match if exactly one subquery is satisfied.
    OpXor,
    /// Match iff the left subquery is satisfied, but weight from both.
    OpAndMaybe,
    /// As AND, but the right side contributes no weight.
    OpFilter,
    /// Terms near each other; built through the phrase constructor.
    OpNear,
    /// Terms in order at adjacent positions; built through the phrase constructor.
    OpPhrase,
    /// Filter by a range test on a document value slot.
    OpValueRange,
    /// Scale the weight of a subquery by a factor.
    OpScaleWeight,
    /// Pick the best subqueries and combine with OR; here identical to OR.
    OpEliteSet,
    /// Filter by a greater-than-or-equal test on a document value slot.
    OpValueGe,
    /// Filter by a less-than-or-equal test on a document value slot.
    OpValueLe,
    /// Treat subqueries as synonyms; matches as OR.
    OpSynonym,
}

/// Flags for `TermGenerator::set_flags`, OR-ed together as a mask.
#[allow(non_camel_case_types)]
#[derive(Clone, Copy, Debug, PartialEq, Eq, Structural)]
pub enum TermGeneratorFlag {
    /// No special behaviour.
    FLAG_DEFAULT,
    /// Index data required for spelling correction (not supported here).
    FLAG_SPELLING,
    /// Generate n-grams from CJK text (not supported here).
    FLAG_CJK_NGRAM,
}

impl TermGeneratorFlag {
    /// Bit-mask value of this flag.
    pub fn mask(self) -> (r: u32)
        ensures
            r == term_generator_flag_mask(self),
    {
        match self {
            TermGeneratorFlag::FLAG_DEFAULT => 0,
            TermGeneratorFlag::FLAG_SPELLING => 128,
            TermGeneratorFlag::FLAG_CJK_NGRAM => 2048,
        }
    }
}

/// Bit-mask value of a term generator flag.
pub open spec fn term_generator_flag_mask(f: TermGeneratorFlag) -> u32 {
    match f {
        TermGeneratorFlag::FLAG_DEFAULT => 0,
        TermGeneratorFlag::FLAG_SPELLING => 128,
        TermGeneratorFlag::FLAG_CJK_NGRAM => 2048,
    }
}

/// Feature flags for `QueryParser::parse_query`, OR-ed together as a mask.
#[allow(non_camel_case_types)]
#[derive(Clone, Copy, Debug, PartialEq, Eq, Structural)]
pub enum QueryParserFeatureFlag {
    /// Support AND, OR, NOT and XOR connectors.
    FLAG_BOOLEAN,
    /// Support quoted phrases.
    FLAG_PHRASE,
    /// Support + and - markers on terms.
    FLAG_LOVEHATE,
    /// Recognize AND, OR, NOT and XOR in any letter case.
    FLAG_BOOLEAN_ANY_CASE,
    /// Support trailing wildcards (not supported here).
    FLAG_WILDCARD,
    /// Allow a query that is nothing but NOT-ed terms.
    FLAG_PURE_NOT,
    /// Partial-input matching (not supported here).
    FLAG_PARTIAL,
    /// Spelling correction (not supported here).
    FLAG_SPELLING_CORRECTION,
    /// Synonym operator (not supported here).
    FLAG_SYNONYM,
    /// Automatic synonyms (not supported here).
    FLAG_AUTO_SYNONYMS,
    /// Automatic multi-word synonyms (not supported here).
    FLAG_AUTO_MULTIWORD_SYNONYMS,
    /// CJK n-grams (not supported here).
    FLAG_CJK_NGRAM,
    /// Accumulate unstem and stoplist results (not supported here).
    FLAG_ACCUMULATE,
    /// Produce a query that uses no positional information.
    FLAG_NO_POSITIONS,
    /// The default flag set: phrases, booleans, and +/- markers.
    FLAG_DEFAULT,
}

impl QueryParserFeatureFlag {
    /// Bit-mask value of this flag.
    pub fn mask(self) -> (r: u32)
        ensures
            r == query_parser_flag_mask(self),
    {
        match self {
            QueryParserFeatureFlag::FLAG_BOOLEAN => 1,
            QueryParserFeatureFlag::FLAG_PHRASE => 2,
            QueryParserFeatureFlag::FLAG_LOVEHATE => 4,
            QueryParserFeatureFlag::FLAG_BOOLEAN_ANY_CASE => 8,
            QueryParserFeatureFlag::FLAG_WILDCARD => 16,
            QueryParserFeatureFlag::FLAG_PURE_NOT => 32,
            QueryParserFeatureFlag::FLAG_PARTIAL => 64,
            QueryParserFeatureFlag::FLAG_SPELLING_CORRECTION => 128,
            QueryParserFeatureFlag::FLAG_SYNONYM => 256,
            QueryParserFeatureFlag::FLAG_AUTO_SYNONYMS => 512,
            QueryParserFeatureFlag::FLAG_AUTO_MULTIWORD_SYNONYMS => 1024,
            QueryParserFeatureFlag::FLAG_CJK_NGRAM => 2048,
            QueryParserFeatureFlag::FLAG_ACCUMULATE => 65536,
            QueryParserFeatureFlag::FLAG_NO_POSITIONS => 0x20000,
            QueryParserFeatureFlag::FLAG_DEFAULT => 7,
        }
    }
}

/// Bit-mask value of a query parser feature flag.
pub open spec fn query_parser_flag_mask(f: QueryParserFeatureFlag) -> u32 {
    match f {
        QueryParserFeatureFlag::FLAG_BOOLEAN => 1,
        QueryParserFeatureFlag::FLAG_PHRASE => 2,
        QueryParserFeatureFlag::FLAG_LOVEHATE => 4,
        QueryParserFeatureFlag::FLAG_BOOLEAN_ANY_CASE => 8,
        QueryParserFeatureFlag::FLAG_WILDCARD => 16,
        QueryParserFeatureFlag::FLAG_PURE_NOT => 32,
        QueryParserFeatureFlag::FLAG_PARTIAL => 64,
        QueryParserFeatureFlag::FLAG_SPELLING_CORRECTION => 128,
        QueryParserFeatureFlag::FLAG_SYNONYM => 256,
        QueryParserFeatureFlag::FLAG_AUTO_SYNONYMS => 512,
        QueryParserFeatureFlag::FLAG_AUTO_MULTIWORD_SYNONYMS => 1024,
        QueryParserFeatureFlag::FLAG_CJK_NGRAM => 2048,
        QueryParserFeatureFlag::FLAG_ACCUMULATE => 65536,
        QueryParserFeatureFlag::FLAG_NO_POSITIONS => 0x20000,
        QueryParserFeatureFlag::FLAG_DEFAULT => 7,
    }
}

/// Flags configuring a range processor.
#[allow(non_camel_case_types)]
#[derive(Clone, Copy, Debug, PartialEq, Eq, Structural)]
pub enum RangeProcessorFlags {
    /// The marker string is a prefix of each bound (the default).
    RP_PREFIX,
    /// The marker string is a suffix of each bound.
    RP_SUFFIX,
    /// The marker may appear on both bounds of the range.
    RP_REPEATED,
    /// Prefer month-day-year when parsing ambiguous dates (not supported here).
    RP_DATE_PREFER_MDY,
}

impl RangeProcessorFlags {
    /// Bit-mask value of this flag.
    pub fn mask(self) -> (r: u32)
        ensures
            r == range_processor_flag_mask(self),
    {
        match self {
            RangeProcessorFlags::RP_PREFIX => 0,
            RangeProcessorFlags::RP_SUFFIX => 1,
            RangeProcessorFlags::RP_REPEATED => 2,
            RangeProcessorFlags::RP_DATE_PREFER_MDY => 4,
        }
    }
}

/// Bit-mask value of a range processor flag.
pub open spec fn range_processor_flag_mask(f: RangeProcessorFlags) -> u32 {
    match f {
        RangeProcessorFlags::RP_PREFIX => 0,
        RangeProcessorFlags::RP_SUFFIX => 1,
        RangeProcessorFlags::RP_REPEATED => 2,
        RangeProcessorFlags::RP_DATE_PREFER_MDY => 4,
    }
}

/// Flags for snippet generation.
#[allow(non_camel_case_types)]
#[derive(Clone, Copy, Debug, PartialEq, Eq, Structural)]
pub enum SnippetFlags {
    /// Model the relevancy of non-query terms (not supported here).
    SNIPPET_BACKGROUND_MODEL,
    /// Evaluate candidate snippets exhaustively (not supported here).
    SNIPPET_EXHAUSTIVE,
    /// Return the empty string when no term matched.
    SNIPPET_EMPTY_WITHOUT_MATCH,
    /// Highlight CJK n-gram matches (not supported here).
    SNIPPET_CJK_NGRAM,
}

impl SnippetFlags {
    /// Bit-mask value of this flag.
    pub fn mask(self) -> (r: u32)
        ensures
            r == snippet_flag_mask(self),
    {
        match self {
            SnippetFlags::SNIPPET_BACKGROUND_MODEL => 1,
            SnippetFlags::SNIPPET_EXHAUSTIVE => 2,
            SnippetFlags::SNIPPET_EMPTY_WITHOUT_MATCH => 4,
            SnippetFlags::SNIPPET_CJK_NGRAM => 2048,
        }
    }
}

/// Bit-mask value of a snippet flag.
pub open spec fn snippet_flag_mask(f: SnippetFlags) -> u32 {
    match f {
        SnippetFlags::SNIPPET_BACKGROUND_MODEL => 1,
        SnippetFlags::SNIPPET_EXHAUSTIVE => 2,
        SnippetFlags::SNIPPET_EMPTY_WITHOUT_MATCH => 4,
        SnippetFlags::SNIPPET_CJK_NGRAM => 2048,
    }
}

/// Order of equal-weight documents in a ranked result page.
#[allow(non_camel_case_types)]
#[derive(Clone, Copy, Debug, PartialEq, Eq, Structural)]
pub enum EnquireDocidOrder {
    /// Document ids sort in ascending order (the default, and the only
    /// order this engine produces).
    ASCENDING,
    /// Document ids sort in descending order.
    DESCENDING,
    /// Whatever order is most efficient for the backend.
    DONT_CARE,
}

} // verus!
