//! The query parser: from a query string to a query tree.
//!
//! The language, stated precisely by [`lex`] and [`parse_toks`]:
//! whitespace separates tokens; `"..."` is a phrase; `+word` requires and
//! `-word` excludes (with `FLAG_LOVEHATE`); `AND`, `OR`, `NOT` and `XOR`
//! connect (with `FLAG_BOOLEAN`; any letter case with
//! `FLAG_BOOLEAN_ANY_CASE`); consecutive words combine with OR.  A word
//! is split, case-normalized and stemmed exactly as the indexer splits
//! text: a single token becomes a term, several become a phrase.
//! `field:rest` consults the registered field prefixes: a probabilistic
//! prefix (`add_prefix`) yields a weighted term; a boolean prefix
//! (`add_boolean_prefix`) yields an exact, unstemmed filter term —
//! filter terms of one field OR together, the fields AND together, and
//! the whole filter attaches to the probabilistic part with FILTER
//! semantics (weight from the probabilistic part alone; a filter-only
//! query matches weightlessly).  A connector or `+`/`-` directly before
//! a filter term is malformed.  `marker:a..b` consults the registered
//! range processors (`a..`/`..b` for half-open ranges; a number range
//! takes non-negative decimal bounds).  Malformed input fails with
//! `QueryParserError` carrying the byte position of the offending
//! fragment; a trailing `*` under `FLAG_WILDCARD` is not supported and
//! fails with `Unimplemented`.

use vstd::prelude::*;
use vstd::string::StringSliceAdditionalSpecFns;

use crate::bytes::norm_bytes;
use crate::constants::RangeProcessorFlags;
use crate::db::Database;
use crate::errors::Error;
use crate::query::{Query, QueryV};
use crate::text::{tokens_of, view_tokens, Stem};

verus! {

/// One registered field prefix.
pub struct PrefixEntry {
    pub field: Vec<u8>,
    pub prefix: Vec<u8>,
    pub boolean: bool,
}

/// The model of a registered field prefix.
pub struct PrefixV {
    pub field: Seq<u8>,
    pub prefix: Seq<u8>,
    pub boolean: bool,
}

impl View for PrefixEntry {
    type V = PrefixV;

    open spec fn view(&self) -> PrefixV {
        PrefixV { field: self.field@, prefix: self.prefix@, boolean: self.boolean }
    }
}

/// One registered range processor.
pub struct RangeSpec {
    pub slot: u32,
    pub marker: Vec<u8>,
    pub number: bool,
}

/// The model of a registered range processor.
pub struct RangeSpecV {
    pub slot: u32,
    pub marker: Seq<u8>,
    pub number: bool,
}

impl View for RangeSpec {
    type V = RangeSpecV;

    open spec fn view(&self) -> RangeSpecV {
        RangeSpecV { slot: self.slot, marker: self.marker@, number: self.number }
    }
}

/// The models of the registered prefixes.
pub open spec fn view_prefixes(ps: Seq<PrefixEntry>) -> Seq<PrefixV> {
    Seq::new(ps.len(), |i: int| ps[i]@)
}

/// The models of the registered range processors.
pub open spec fn view_ranges(rs: Seq<RangeSpec>) -> Seq<RangeSpecV> {
    Seq::new(rs.len(), |i: int| rs[i]@)
}

/// A range filter on a value slot, matching range literals led by a
/// marker field (`marker:a..b`).
pub struct RangeProcessor {
    pub slot: u32,
    pub marker: Vec<u8>,
}

impl RangeProcessor {
    /// A string range processor over `slot`, with `marker` as the field
    /// name; the flags are accepted for interface compatibility and do
    /// not change behaviour here.
    pub fn new(slot: u32, marker: &str, _flags: RangeProcessorFlags) -> (r: RangeProcessor)
        ensures
            r.slot == slot,
            r.marker@ == marker.spec_bytes(),
    {
        RangeProcessor { slot, marker: marker.as_bytes_vec() }
    }
}

/// A numeric range filter on a value slot: bounds are parsed as
/// non-negative decimals and serialized to the sortable form that
/// `Document::add_int` and `Document::add_long` store.
pub struct NumberRangeProcessor {
    pub slot: u32,
    pub marker: Vec<u8>,
}

impl NumberRangeProcessor {
    /// A number range processor over `slot`, with `marker` as the field
    /// name.
    pub fn new(slot: u32, marker: &str, _flags: RangeProcessorFlags) -> (r: NumberRangeProcessor)
        ensures
            r.slot == slot,
            r.marker@ == marker.spec_bytes(),
    {
        NumberRangeProcessor { slot, marker: marker.as_bytes_vec() }
    }
}

/// Where parsing failed.
pub enum ParseErrV {
    /// Malformed input at this byte position.
    At(int),
    /// A requested feature this engine does not support.
    Unsupported,
}

/// A lexical token: a word or a quoted phrase with its byte position, or
/// a `+`/`-` marker.
#[derive(Clone, Copy, PartialEq, Eq, Structural)]
pub enum TokKind {
    Word,
    Quoted,
    Love,
    Hate,
}

/// The model of a lexical token.
pub struct TokV {
    pub kind: TokKind,
    pub bytes: Seq<u8>,
    pub pos: int,
}

/// A lexical token as produced by the lexer.
pub struct Tok {
    pub kind: TokKind,
    pub bytes: Vec<u8>,
    pub pos: usize,
}

impl View for Tok {
    type V = TokV;

    open spec fn view(&self) -> TokV {
        TokV { kind: self.kind, bytes: self.bytes@, pos: self.pos as int }
    }
}

/// The models of a token sequence.
pub open spec fn view_toks(ts: Seq<Tok>) -> Seq<TokV> {
    Seq::new(ts.len(), |i: int| ts[i]@)
}

/// Whether the byte separates tokens.
pub open spec fn is_space(b: u8) -> bool {
    b == 32 || b == 9 || b == 10 || b == 13
}

/// Length of the run of non-space, non-quote bytes at position `i`.
pub open spec fn qword_len(s: Seq<u8>, i: int) -> int
    decreases s.len() - i,
{
    if i < 0 || i >= s.len() || is_space(s[i]) || s[i] == 34 {
        0
    } else {
        1 + qword_len(s, i + 1)
    }
}

/// The run never goes past the end of the text.
pub proof fn lemma_qword_len_bounds(s: Seq<u8>, i: int)
    requires
        0 <= i <= s.len(),
    ensures
        0 <= qword_len(s, i),
        i + qword_len(s, i) <= s.len(),
    decreases s.len() - i,
{
    if i < s.len() && !is_space(s[i]) && s[i] != 34 {
        lemma_qword_len_bounds(s, i + 1);
    }
}

/// The index of the first `"` at or after `i`, if any.
pub open spec fn find_quote(s: Seq<u8>, i: int) -> Option<int>
    decreases s.len() - i,
{
    if i < 0 || i >= s.len() {
        None
    } else if s[i] == 34 {
        Some(i)
    } else {
        find_quote(s, i + 1)
    }
}

/// A found quote lies in range and is the first one.
pub proof fn lemma_find_quote(s: Seq<u8>, i: int)
    requires
        0 <= i <= s.len(),
    ensures
        match find_quote(s, i) {
            Some(j) => i <= j < s.len() && s[j] == 34 && (forall|m: int|
                i <= m < j ==> s[m] != 34),
            None => forall|m: int| i <= m < s.len() ==> s[m] != 34,
        },
    decreases s.len() - i,
{
    if i < s.len() && s[i] != 34 {
        lemma_find_quote(s, i + 1);
    }
}

/// The tokens of the query string from position `i` on, or the position
/// of an unterminated quote.
pub open spec fn lex(s: Seq<u8>, i: int) -> Result<Seq<TokV>, ParseErrV>
    decreases s.len() - i,
    via lex_decreases
{
    if i < 0 || i >= s.len() {
        Ok(Seq::empty())
    } else if is_space(s[i]) {
        lex(s, i + 1)
    } else if s[i] == 34 {
        match find_quote(s, i + 1) {
            None => Err(ParseErrV::At(i)),
            Some(j) => match lex(s, j + 1) {
                Ok(rest) => Ok(
                    seq![TokV { kind: TokKind::Quoted, bytes: s.subrange(i + 1, j), pos: i }]
                        + rest,
                ),
                Err(e) => Err(e),
            },
        }
    } else if s[i] == 43 {
        match lex(s, i + 1) {
            Ok(rest) => Ok(seq![TokV { kind: TokKind::Love, bytes: Seq::empty(), pos: i }] + rest),
            Err(e) => Err(e),
        }
    } else if s[i] == 45 {
        match lex(s, i + 1) {
            Ok(rest) => Ok(seq![TokV { kind: TokKind::Hate, bytes: Seq::empty(), pos: i }] + rest),
            Err(e) => Err(e),
        }
    } else {
        let k = qword_len(s, i);
        match lex(s, i + k) {
            Ok(rest) => Ok(
                seq![TokV { kind: TokKind::Word, bytes: s.subrange(i, i + k), pos: i }] + rest,
            ),
            Err(e) => Err(e),
        }
    }
}

#[via_fn]
proof fn lex_decreases(s: Seq<u8>, i: int) {
    if 0 <= i < s.len() {
        if s[i] == 34 {
            lemma_find_quote(s, i + 1);
        } else if !is_space(s[i]) && s[i] != 43 && s[i] != 45 {
            lemma_qword_len_bounds(s, i);
            lemma_qword_len_bounds(s, i + 1);
        }
    }
}

/// Split the query string into tokens.
fn lex_exec(s: &Vec<u8>) -> (r: Result<Vec<Tok>, Error>)
    ensures
        match lex(s@, 0) {
            Ok(tv) => (r matches Ok(ts) && view_toks(ts@) == tv),
            Err(pe) => (r matches Err(e) && pe matches ParseErrV::At(p) && (e matches
                Error::QueryParserError { position, .. } && position == p)),
        },
{
    let n = s.len();
    let mut out: Vec<Tok> = Vec::new();
    let mut i: usize = 0;
    proof {
        assert(view_toks(out@) =~= Seq::<TokV>::empty());
    }
    while i < n
        invariant
            i <= n,
            n == s@.len(),
            lex(s@, 0) == prepend_toks(view_toks(out@), lex(s@, i as int)),
        decreases n - i,
    {
        let b = s[i];
        if b == 32 || b == 9 || b == 10 || b == 13 {
            i = i + 1;
        } else if b == 34 {
            // find the closing quote
            let mut j = i + 1;
            while j < n && s[j] != 34
                invariant
                    i + 1 <= j <= n,
                    n == s@.len(),
                    forall|m: int| i + 1 <= m < j ==> s@[m] != 34,
                decreases n - j,
            {
                j = j + 1;
            }
            if j == n {
                proof {
                    lemma_find_quote(s@, i as int + 1);
                    match find_quote(s@, i as int + 1) {
                        Some(q) => {
                            assert(s@[q] == 34);
                            assert(false);
                        },
                        None => {},
                    }
                    assert(lex(s@, i as int) == Err::<Seq<TokV>, ParseErrV>(
                        ParseErrV::At(i as int),
                    ));
                }
                return Err(
                    Error::QueryParserError {
                        position: i,
                        reason: String::from_str("unterminated quote"),
                    },
                );
            }
            proof {
                lemma_find_quote(s@, i as int + 1);
                assert(s@[j as int] == 34);
                match find_quote(s@, i as int + 1) {
                    Some(q) => {
                        if q < j {
                            assert(s@[q] != 34);
                        }
                        if j < q {
                            assert(s@[j as int] != 34);
                        }
                        assert(q == j as int);
                    },
                    None => {
                        assert(s@[j as int] != 34);
                    },
                }
                assert(find_quote(s@, i as int + 1) == Some(j as int));
            }
            let mut content: Vec<u8> = Vec::new();
            let mut m = i + 1;
            while m < j
                invariant
                    i + 1 <= m <= j,
                    j < n,
                    n == s@.len(),
                    content@ =~= s@.subrange(i as int + 1, m as int),
                decreases j - m,
            {
                content.push(s[m]);
                proof {
                    assert(content@ =~= s@.subrange(i as int + 1, m as int + 1));
                }
                m = m + 1;
            }
            let ghost out0 = view_toks(out@);
            out.push(Tok { kind: TokKind::Quoted, bytes: content, pos: i });
            proof {
                lemma_prepend_shift(
                    out0,
                    TokV { kind: TokKind::Quoted, bytes: s@.subrange(i as int + 1, j as int), pos: i as int },
                    lex(s@, j as int + 1),
                );
                assert(view_toks(out@) =~= out0.push(
                    TokV {
                        kind: TokKind::Quoted,
                        bytes: s@.subrange(i as int + 1, j as int),
                        pos: i as int,
                    },
                ));
            }
            i = j + 1;
        } else if b == 43 || b == 45 {
            let kind = if b == 43 {
                TokKind::Love
            } else {
                TokKind::Hate
            };
            let ghost out0 = view_toks(out@);
            out.push(Tok { kind, bytes: Vec::new(), pos: i });
            proof {
                lemma_prepend_shift(
                    out0,
                    TokV { kind, bytes: Seq::empty(), pos: i as int },
                    lex(s@, i as int + 1),
                );
                assert(view_toks(out@) =~= out0.push(
                    TokV { kind, bytes: Seq::<u8>::empty(), pos: i as int },
                ));
            }
            i = i + 1;
        } else {
            let mut j = i;
            while j < n && !(s[j] == 32 || s[j] == 9 || s[j] == 10 || s[j] == 13 || s[j] == 34)
                invariant
                    i <= j <= n,
                    n == s@.len(),
                    forall|m: int| i <= m < j ==> !is_space(s@[m]) && s@[m] != 34,
                decreases n - j,
            {
                j = j + 1;
            }
            proof {
                lemma_qword_exact(s@, i as int, j as int);
            }
            let mut word: Vec<u8> = Vec::new();
            let mut m = i;
            while m < j
                invariant
                    i <= m <= j,
                    j <= n,
                    n == s@.len(),
                    word@ =~= s@.subrange(i as int, m as int),
                decreases j - m,
            {
                word.push(s[m]);
                proof {
                    assert(word@ =~= s@.subrange(i as int, m as int + 1));
                }
                m = m + 1;
            }
            let ghost out0 = view_toks(out@);
            out.push(Tok { kind: TokKind::Word, bytes: word, pos: i });
            proof {
                lemma_prepend_shift(
                    out0,
                    TokV { kind: TokKind::Word, bytes: s@.subrange(i as int, j as int), pos: i as int },
                    lex(s@, j as int),
                );
                assert(view_toks(out@) =~= out0.push(
                    TokV { kind: TokKind::Word, bytes: s@.subrange(i as int, j as int), pos: i as int },
                ));
            }
            i = j;
        }
    }
    proof {
        assert(lex(s@, n as int) == Ok::<Seq<TokV>, ParseErrV>(Seq::empty()));
        assert(prepend_toks(view_toks(out@), lex(s@, n as int)) == Ok::<Seq<TokV>, ParseErrV>(
            view_toks(out@) + Seq::<TokV>::empty(),
        ));
        assert(view_toks(out@) + Seq::<TokV>::empty() =~= view_toks(out@));
    }
    Ok(out)
}

/// `pre` prepended to the tokens of a lexer result.
pub open spec fn prepend_toks(pre: Seq<TokV>, r: Result<Seq<TokV>, ParseErrV>) -> Result<
    Seq<TokV>,
    ParseErrV,
> {
    match r {
        Ok(ts) => Ok(pre + ts),
        Err(e) => Err(e),
    }
}

/// Prepending associates with the head token a lexer step produces.
proof fn lemma_prepend_shift(pre: Seq<TokV>, t: TokV, r: Result<Seq<TokV>, ParseErrV>)
    ensures
        prepend_toks(pre.push(t), r) == prepend_toks(pre, prepend_toks(seq![t], r)),
{
    match r {
        Ok(ts) => {
            assert(pre.push(t) + ts =~= pre + (seq![t] + ts));
        },
        Err(_) => {
        },
    }
}

/// The word run found by a scan is the word run of the definition.
proof fn lemma_qword_exact(s: Seq<u8>, i: int, j: int)
    requires
        0 <= i <= j <= s.len(),
        forall|m: int| i <= m < j ==> !is_space(s[m]) && s[m] != 34,
        j == s.len() || is_space(s[j]) || s[j] == 34,
    ensures
        qword_len(s, i) == j - i,
    decreases j - i,
{
    if i < j {
        lemma_qword_exact(s, i + 1, j);
    }
}


/// First index of a `:` in the word, if any.
pub open spec fn find_colon(s: Seq<u8>, i: int) -> Option<int>
    decreases s.len() - i,
{
    if i < 0 || i >= s.len() {
        None
    } else if s[i] == 58 {
        Some(i)
    } else {
        find_colon(s, i + 1)
    }
}

/// A found colon lies in range and is the first one.
pub proof fn lemma_find_colon(s: Seq<u8>, i: int)
    requires
        0 <= i <= s.len(),
    ensures
        match find_colon(s, i) {
            Some(j) => i <= j < s.len() && s[j] == 58 && (forall|m: int|
                i <= m < j ==> s[m] != 58),
            None => forall|m: int| i <= m < s.len() ==> s[m] != 58,
        },
    decreases s.len() - i,
{
    if i < s.len() && s[i] != 58 {
        lemma_find_colon(s, i + 1);
    }
}

/// First index of a `..` in the word, if any.
pub open spec fn find_dotdot(s: Seq<u8>, i: int) -> Option<int>
    decreases s.len() - i,
{
    if i < 0 || i + 1 >= s.len() {
        None
    } else if s[i] == 46 && s[i + 1] == 46 {
        Some(i)
    } else {
        find_dotdot(s, i + 1)
    }
}

/// A found `..` lies in range and is the first one.
pub proof fn lemma_find_dotdot(s: Seq<u8>, i: int)
    requires
        0 <= i <= s.len(),
    ensures
        match find_dotdot(s, i) {
            Some(j) => i <= j && j + 1 < s.len() && s[j] == 46 && s[j + 1] == 46 && (forall|m: int|
                i <= m < j ==> !(#[trigger] s[m] == 46 && s[m + 1] == 46)),
            None => forall|m: int| i <= m < s.len() - 1 ==> !(#[trigger] s[m] == 46 && s[m + 1] == 46),
        },
    decreases s.len() - i,
{
    if i + 1 < s.len() && !(s[i] == 46 && s[i + 1] == 46) {
        lemma_find_dotdot(s, i + 1);
    }
}

/// Whether every byte is an ASCII digit (and there is at least one).
pub open spec fn all_digits(s: Seq<u8>) -> bool {
    s.len() > 0 && (forall|i: int| 0 <= i < s.len() ==> 48 <= #[trigger] s[i] <= 57)
}

/// The number the digits spell, most significant first, on top of `acc`.
pub open spec fn dec_acc(s: Seq<u8>, i: int, acc: int) -> int
    decreases s.len() - i,
{
    if i < 0 || i >= s.len() {
        acc
    } else {
        dec_acc(s, i + 1, acc * 10 + (s[i] - 48))
    }
}

/// The value of a decimal word, if it is one.
pub open spec fn parse_dec(s: Seq<u8>) -> Option<int> {
    if all_digits(s) {
        Some(dec_acc(s, 0, 0))
    } else {
        None
    }
}

/// The spelled number only grows as digits are taken in.
proof fn lemma_dec_acc_grows(s: Seq<u8>, i: int, acc: int)
    requires
        0 <= acc,
        forall|m: int| 0 <= m < s.len() ==> 48 <= #[trigger] s[m] <= 57,
    ensures
        dec_acc(s, i, acc) >= acc,
    decreases s.len() - i,
{
    if 0 <= i < s.len() {
        lemma_dec_acc_grows(s, i + 1, acc * 10 + (s[i] - 48));
    }
}

/// Read a non-negative decimal; `None` when the word is not all digits
/// or the value does not fit.
fn parse_dec_exec(b: &Vec<u8>) -> (r: Option<i64>)
    ensures
        match r {
            Some(y) => parse_dec(b@) == Some(y as int) && y >= 0,
            None => match parse_dec(b@) {
                Some(x) => x > i64::MAX,
                None => true,
            },
        },
{
    if b.len() == 0 {
        return None;
    }
    let mut acc: i64 = 0;
    let mut i: usize = 0;
    while i < b.len()
        invariant
            i <= b@.len(),
            0 <= acc,
            forall|m: int| 0 <= m < i ==> 48 <= #[trigger] b@[m] <= 57,
            dec_acc(b@, 0, 0) == dec_acc(b@, i as int, acc as int),
        decreases b@.len() - i,
    {
        let d = b[i];
        if !(48 <= d && d <= 57) {
            proof {
                assert(!all_digits(b@));
            }
            return None;
        }
        let dv = (d - 48) as i64;
        if acc > (i64::MAX - dv) / 10 {
            proof {
                if all_digits(b@) {
                    assert((acc as int) * 10 + dv as int > i64::MAX) by (nonlinear_arith)
                        requires
                            acc as int > (i64::MAX - dv as int) / 10,
                            0 <= dv as int <= 9,
                            0 <= acc,
                    ;
                    lemma_dec_acc_grows(b@, i as int + 1, acc as int * 10 + (b@[i as int] - 48));
                    assert(dec_acc(b@, 0, 0) > i64::MAX);
                }
            }
            return None;
        }
        proof {
            assert((acc as int) * 10 + dv as int <= i64::MAX) by (nonlinear_arith)
                requires
                    acc as int <= (i64::MAX - dv as int) / 10,
                    0 <= dv as int <= 9,
                    0 <= acc,
            ;
        }
        acc = acc * 10 + dv;
        i = i + 1;
    }
    proof {
        assert(all_digits(b@));
        assert(dec_acc(b@, b@.len() as int, acc as int) == acc as int);
    }
    Some(acc)
}

/// The bytes of the word from `lo` (inclusive) to `hi` (exclusive).
fn sub_bytes(v: &Vec<u8>, lo: usize, hi: usize) -> (r: Vec<u8>)
    requires
        lo <= hi <= v@.len(),
    ensures
        r@ == v@.subrange(lo as int, hi as int),
{
    let mut out: Vec<u8> = Vec::new();
    let mut m = lo;
    while m < hi
        invariant
            lo <= m <= hi,
            hi <= v@.len(),
            out@ =~= v@.subrange(lo as int, m as int),
        decreases hi - m,
    {
        out.push(v[m]);
        proof {
            assert(out@ =~= v@.subrange(lo as int, m as int + 1));
        }
        m = m + 1;
    }
    out
}

/// The bytes of `a` followed by the bytes of `b`.
fn concat_bytes(a: &Vec<u8>, b: &Vec<u8>) -> (r: Vec<u8>)
    ensures
        r@ == a@ + b@,
{
    let mut out = crate::doc::clone_bytes(a);
    let mut m: usize = 0;
    while m < b.len()
        invariant
            m <= b@.len(),
            out@ == a@ + b@.take(m as int),
        decreases b@.len() - m,
    {
        out.push(b[m]);
        proof {
            assert(a@ + b@.take(m as int + 1) =~= (a@ + b@.take(m as int)).push(b@[m as int]));
        }
        m = m + 1;
    }
    proof {
        assert(b@.take(b@.len() as int) =~= b@);
    }
    out
}

/// The first registered prefix for the field, if any.
pub open spec fn find_prefix(ps: Seq<PrefixV>, f: Seq<u8>) -> Option<PrefixV>
    decreases ps.len(),
{
    if ps.len() == 0 {
        None
    } else if ps[0].field == f {
        Some(ps[0])
    } else {
        find_prefix(ps.drop_first(), f)
    }
}

/// The first registered range processor for the marker field, if any.
pub open spec fn find_range(rs: Seq<RangeSpecV>, f: Seq<u8>) -> Option<RangeSpecV>
    decreases rs.len(),
{
    if rs.len() == 0 {
        None
    } else if rs[0].marker == f {
        Some(rs[0])
    } else {
        find_range(rs.drop_first(), f)
    }
}

/// Prefix lookup is unaffected by entries before the first match.
proof fn lemma_find_prefix_prefix(ps: Seq<PrefixV>, f: Seq<u8>, i: int)
    requires
        0 <= i <= ps.len(),
        forall|j: int| 0 <= j < i ==> ps[j].field != f,
    ensures
        find_prefix(ps, f) == find_prefix(ps.skip(i), f),
    decreases i,
{
    if i > 0 {
        let p1 = ps.drop_first();
        assert(forall|j: int| 0 <= j < i - 1 ==> p1[j].field != f);
        lemma_find_prefix_prefix(p1, f, i - 1);
        assert(p1.skip(i - 1) =~= ps.skip(i));
    } else {
        assert(ps.skip(0) =~= ps);
    }
}

/// Range lookup is unaffected by entries before the first match.
proof fn lemma_find_range_prefix(rs: Seq<RangeSpecV>, f: Seq<u8>, i: int)
    requires
        0 <= i <= rs.len(),
        forall|j: int| 0 <= j < i ==> rs[j].marker != f,
    ensures
        find_range(rs, f) == find_range(rs.skip(i), f),
    decreases i,
{
    if i > 0 {
        let r1 = rs.drop_first();
        assert(forall|j: int| 0 <= j < i - 1 ==> r1[j].marker != f);
        lemma_find_range_prefix(r1, f, i - 1);
        assert(r1.skip(i - 1) =~= rs.skip(i));
    } else {
        assert(rs.skip(0) =~= rs);
    }
}

/// An AND chain over the prefixed tokens, left to right, on top of `acc`.
pub open spec fn and_terms_acc(acc: QueryV, toks: Seq<Seq<u8>>, i: int, pre: Seq<u8>) -> QueryV
    decreases toks.len() - i,
{
    if i < 0 || i >= toks.len() {
        acc
    } else {
        and_terms_acc(
            QueryV::Pair(
                crate::constants::XapianOp::OpAnd,
                Box::new(acc),
                Box::new(QueryV::Term(pre + toks[i])),
            ),
            toks,
            i + 1,
            pre,
        )
    }
}

/// The query of one group of adjacent tokens: nothing for no tokens, a
/// term for one, and a phrase — or an AND chain when positional
/// information is off — for several.
pub open spec fn group_query(toks: Seq<Seq<u8>>, pre: Seq<u8>, positional: bool) -> Option<QueryV> {
    if toks.len() == 0 {
        None
    } else if toks.len() == 1 {
        Some(QueryV::Term(pre + toks[0]))
    } else if positional {
        Some(QueryV::Phrase(crate::text::prefixed_tokens(toks, pre)))
    } else {
        Some(and_terms_acc(QueryV::Term(pre + toks[0]), toks, 1, pre))
    }
}

/// The group query only depends on the values of its arguments.
proof fn lemma_group_query_congruent(
    a: Seq<Seq<u8>>,
    b: Seq<Seq<u8>>,
    p1: Seq<u8>,
    p2: Seq<u8>,
    pos1: bool,
    pos2: bool,
)
    requires
        a == b,
        p1 == p2,
        pos1 == pos2,
    ensures
        group_query(a, p1, pos1) == group_query(b, p2, pos2),
{
    assert(crate::text::prefixed_tokens(a, p1) =~= crate::text::prefixed_tokens(b, p2));
}

/// Build the query of one token group.
fn group_query_exec(toks: &Vec<Vec<u8>>, pre: &Vec<u8>, positional: bool) -> (r: Option<Query>)
    ensures
        match r {
            Some(q) => group_query(view_tokens(toks@), pre@, positional) == Some(q@),
            None => group_query(view_tokens(toks@), pre@, positional) is None,
        },
{
    let ghost tv = view_tokens(toks@);
    if toks.len() == 0 {
        None
    } else if toks.len() == 1 {
        Some(Query::Term(concat_bytes(pre, &toks[0])))
    } else if positional {
        let mut ts: Vec<Vec<u8>> = Vec::new();
        let mut i: usize = 0;
        while i < toks.len()
            invariant
                i <= toks@.len(),
                tv == view_tokens(toks@),
                ts@.len() == i,
                view_tokens(ts@) =~= crate::text::prefixed_tokens(tv, pre@).take(i as int),
            decreases toks@.len() - i,
        {
            ts.push(concat_bytes(pre, &toks[i]));
            proof {
                assert(view_tokens(ts@) =~= crate::text::prefixed_tokens(tv, pre@).take(
                    i as int + 1,
                ));
            }
            i = i + 1;
        }
        proof {
            assert(crate::text::prefixed_tokens(tv, pre@).take(tv.len() as int)
                =~= crate::text::prefixed_tokens(tv, pre@));
        }
        Some(Query::Phrase(ts))
    } else {
        let mut acc = Query::Term(concat_bytes(pre, &toks[0]));
        let mut i: usize = 1;
        while i < toks.len()
            invariant
                1 <= i <= toks@.len(),
                tv == view_tokens(toks@),
                and_terms_acc(QueryV::Term(pre@ + tv[0]), tv, 1, pre@) == and_terms_acc(
                    acc@,
                    tv,
                    i as int,
                    pre@,
                ),
            decreases toks@.len() - i,
        {
            let ghost a0 = acc@;
            let t = Query::Term(concat_bytes(pre, &toks[i]));
            proof {
                assert(t@ == QueryV::Term(pre@ + tv[i as int]));
            }
            acc = Query::Pair(crate::constants::XapianOp::OpAnd, Box::new(acc), Box::new(t));
            proof {
                assert(acc@ == QueryV::Pair(
                    crate::constants::XapianOp::OpAnd,
                    Box::new(a0),
                    Box::new(QueryV::Term(pre@ + tv[i as int])),
                ));
                assert(and_terms_acc(a0, tv, i as int, pre@) == and_terms_acc(
                    acc@,
                    tv,
                    i as int + 1,
                    pre@,
                ));
            }
            i = i + 1;
        }
        Some(acc)
    }
}


/// Whether the flag bit is set.
pub open spec fn has_flag(flags: u32, m: u32) -> bool {
    flags & m != 0
}

/// Whether multi-token groups may use positions (phrases).
pub open spec fn positional(flags: u32) -> bool {
    !has_flag(flags, crate::constants::query_parser_flag_mask(
        crate::constants::QueryParserFeatureFlag::FLAG_NO_POSITIONS,
    ))
}

/// Whether the word is the AND connector.
pub open spec fn is_and_kw(bytes: Seq<u8>, flags: u32) -> bool {
    has_flag(flags, 1) && (bytes == seq![65u8, 78u8, 68u8] || (has_flag(flags, 8) && norm_bytes(
        bytes,
    ) == seq![97u8, 110u8, 100u8]))
}

/// Whether the word is the OR connector.
pub open spec fn is_or_kw(bytes: Seq<u8>, flags: u32) -> bool {
    has_flag(flags, 1) && (bytes == seq![79u8, 82u8] || (has_flag(flags, 8) && norm_bytes(bytes)
        == seq![111u8, 114u8]))
}

/// Whether the word is the NOT connector.
pub open spec fn is_not_kw(bytes: Seq<u8>, flags: u32) -> bool {
    has_flag(flags, 1) && (bytes == seq![78u8, 79u8, 84u8] || (has_flag(flags, 8) && norm_bytes(
        bytes,
    ) == seq![110u8, 111u8, 116u8]))
}

/// Whether the word is the XOR connector.
pub open spec fn is_xor_kw(bytes: Seq<u8>, flags: u32) -> bool {
    has_flag(flags, 1) && (bytes == seq![88u8, 79u8, 82u8] || (has_flag(flags, 8) && norm_bytes(
        bytes,
    ) == seq![120u8, 111u8, 114u8]))
}

/// The connector or marker waiting to combine the next leaf.
#[derive(Clone, Copy, PartialEq, Eq, Structural)]
pub enum PendKind {
    /// No connector: the next leaf combines with OR.
    Fresh,
    /// An explicit AND.
    And,
    /// An explicit OR.
    Or,
    /// An explicit XOR.
    Xor,
    /// A NOT: the next leaf is excluded.
    AndNot,
    /// A `+`: the next leaf is required.
    Love,
    /// A `-`: the next leaf is excluded.
    Hate,
}

/// Combine the accumulated query with the next leaf under the pending
/// connector.  A leading excluded leaf needs `FLAG_PURE_NOT`.
pub open spec fn combine(
    acc: Option<QueryV>,
    pend: PendKind,
    leaf: QueryV,
    flags: u32,
    pos: int,
) -> Result<QueryV, ParseErrV> {
    match acc {
        None => match pend {
            PendKind::Fresh => Ok(leaf),
            PendKind::Love => Ok(leaf),
            PendKind::AndNot => if has_flag(flags, 32) {
                Ok(
                    QueryV::Pair(
                        crate::constants::XapianOp::OpAndNot,
                        Box::new(QueryV::All),
                        Box::new(leaf),
                    ),
                )
            } else {
                Err(ParseErrV::At(pos))
            },
            PendKind::Hate => if has_flag(flags, 32) {
                Ok(
                    QueryV::Pair(
                        crate::constants::XapianOp::OpAndNot,
                        Box::new(QueryV::All),
                        Box::new(leaf),
                    ),
                )
            } else {
                Err(ParseErrV::At(pos))
            },
            _ => Err(ParseErrV::At(pos)),
        },
        Some(a) => {
            let op = match pend {
                PendKind::Fresh => crate::constants::XapianOp::OpOr,
                PendKind::Or => crate::constants::XapianOp::OpOr,
                PendKind::And => crate::constants::XapianOp::OpAnd,
                PendKind::Xor => crate::constants::XapianOp::OpXor,
                PendKind::AndNot => crate::constants::XapianOp::OpAndNot,
                PendKind::Love => crate::constants::XapianOp::OpAnd,
                PendKind::Hate => crate::constants::XapianOp::OpAndNot,
            };
            Ok(QueryV::Pair(op, Box::new(a), Box::new(leaf)))
        },
    }
}

/// The query of one range literal `lo..hi` under a range processor.
pub open spec fn range_leaf(rspec: RangeSpecV, rest: Seq<u8>, d: int, pos: int) -> Result<
    Option<QueryV>,
    ParseErrV,
>
    recommends
        0 <= d,
        d + 2 <= rest.len(),
{
    let lo = rest.subrange(0, d);
    let hi = rest.subrange(d + 2, rest.len() as int);
    if lo.len() == 0 && hi.len() == 0 {
        Err(ParseErrV::At(pos))
    } else if rspec.number {
        if lo.len() == 0 {
            match parse_dec(hi) {
                Some(x) => if x <= i64::MAX {
                    Ok(
                        Some(
                            QueryV::Le(
                                rspec.slot,
                                crate::serial::be_bytes_of(
                                    crate::serial::offset_of_i64(x as i64),
                                ),
                            ),
                        ),
                    )
                } else {
                    Err(ParseErrV::At(pos))
                },
                None => Err(ParseErrV::At(pos)),
            }
        } else if hi.len() == 0 {
            match parse_dec(lo) {
                Some(x) => if x <= i64::MAX {
                    Ok(
                        Some(
                            QueryV::Ge(
                                rspec.slot,
                                crate::serial::be_bytes_of(
                                    crate::serial::offset_of_i64(x as i64),
                                ),
                            ),
                        ),
                    )
                } else {
                    Err(ParseErrV::At(pos))
                },
                None => Err(ParseErrV::At(pos)),
            }
        } else {
            match (parse_dec(lo), parse_dec(hi)) {
                (Some(a), Some(b)) => if a <= i64::MAX && b <= i64::MAX {
                    Ok(
                        Some(
                            QueryV::Range(
                                rspec.slot,
                                crate::serial::be_bytes_of(
                                    crate::serial::offset_of_i64(a as i64),
                                ),
                                crate::serial::be_bytes_of(
                                    crate::serial::offset_of_i64(b as i64),
                                ),
                            ),
                        ),
                    )
                } else {
                    Err(ParseErrV::At(pos))
                },
                _ => Err(ParseErrV::At(pos)),
            }
        }
    } else {
        if lo.len() == 0 {
            Ok(Some(QueryV::Le(rspec.slot, hi)))
        } else if hi.len() == 0 {
            Ok(Some(QueryV::Ge(rspec.slot, lo)))
        } else {
            Ok(Some(QueryV::Range(rspec.slot, lo, hi)))
        }
    }
}

/// The model of one boolean filter group: the OR of the boolean-prefix
/// leaves seen for one field.
pub struct FilterV {
    pub field: Seq<u8>,
    pub q: QueryV,
}

/// One boolean filter group as collected during a parse.
pub struct FilterGroup {
    pub field: Vec<u8>,
    pub q: Query,
}

impl View for FilterGroup {
    type V = FilterV;

    open spec fn view(&self) -> FilterV {
        FilterV { field: self.field@, q: self.q@ }
    }
}

/// The models of the collected filter groups.
pub open spec fn view_filters(fs: Seq<FilterGroup>) -> Seq<FilterV> {
    Seq::new(fs.len(), |i: int| fs[i]@)
}

/// The model of what one word contributes: nothing, a weighted
/// (probabilistic) leaf, or a boolean filter leaf for a field.
pub enum WordLeafV {
    Nothing,
    Prob(QueryV),
    Filter(Seq<u8>, QueryV),
}

/// What one word contributes, executably.
pub enum WordLeaf {
    Nothing,
    Prob(Query),
    Filter(Vec<u8>, Query),
}

/// The filter groups after one more boolean leaf: the field's group gains
/// the leaf under OR, or a fresh group is appended.
pub open spec fn add_filter(fs: Seq<FilterV>, field: Seq<u8>, leaf: QueryV) -> Seq<FilterV>
    decreases fs.len(),
{
    if fs.len() == 0 {
        seq![FilterV { field, q: leaf }]
    } else if fs[0].field == field {
        seq![
            FilterV {
                field,
                q: QueryV::Pair(
                    crate::constants::XapianOp::OpOr,
                    Box::new(fs[0].q),
                    Box::new(leaf),
                ),
            },
        ] + fs.drop_first()
    } else {
        seq![fs[0]] + add_filter(fs.drop_first(), field, leaf)
    }
}

/// The AND of the filter groups from index `i` on, on top of `acc`.
pub open spec fn and_filters(fs: Seq<FilterV>, i: int, acc: QueryV) -> QueryV
    decreases fs.len() - i,
{
    if i < 0 || i >= fs.len() {
        acc
    } else {
        and_filters(
            fs,
            i + 1,
            QueryV::Pair(crate::constants::XapianOp::OpAnd, Box::new(acc), Box::new(fs[i].q)),
        )
    }
}

/// The finished query: the probabilistic part filtered by the AND of the
/// boolean filter groups.  With no filters the probabilistic part stands
/// alone; with no probabilistic part the filters match weightlessly.
pub open spec fn finish_parse(acc: Option<QueryV>, fs: Seq<FilterV>) -> QueryV {
    if fs.len() == 0 {
        match acc {
            Some(a) => a,
            None => QueryV::Empty,
        }
    } else {
        let f = and_filters(fs, 1, fs[0].q);
        match acc {
            Some(a) => QueryV::Pair(
                crate::constants::XapianOp::OpFilter,
                Box::new(a),
                Box::new(f),
            ),
            None => QueryV::Scaled(0, Box::new(f)),
        }
    }
}

/// Adding a boolean leaf whose field has a group at index `i` updates
/// exactly that group.
proof fn lemma_add_filter_found(fs: Seq<FilterV>, field: Seq<u8>, leaf: QueryV, i: int)
    requires
        0 <= i < fs.len(),
        fs[i].field == field,
        forall|j: int| 0 <= j < i ==> fs[j].field != field,
    ensures
        add_filter(fs, field, leaf) =~= fs.update(
            i,
            FilterV {
                field,
                q: QueryV::Pair(
                    crate::constants::XapianOp::OpOr,
                    Box::new(fs[i].q),
                    Box::new(leaf),
                ),
            },
        ),
    decreases i,
{
    if i == 0 {
        assert(add_filter(fs, field, leaf) =~= fs.update(
            0,
            FilterV {
                field,
                q: QueryV::Pair(
                    crate::constants::XapianOp::OpOr,
                    Box::new(fs[0].q),
                    Box::new(leaf),
                ),
            },
        ));
    } else {
        let f1 = fs.drop_first();
        assert(forall|j: int| 0 <= j < i - 1 ==> f1[j].field != field);
        lemma_add_filter_found(f1, field, leaf, i - 1);
        assert(seq![fs[0]] + f1.update(
            i - 1,
            FilterV {
                field,
                q: QueryV::Pair(
                    crate::constants::XapianOp::OpOr,
                    Box::new(f1[i - 1].q),
                    Box::new(leaf),
                ),
            },
        ) =~= fs.update(
            i,
            FilterV {
                field,
                q: QueryV::Pair(
                    crate::constants::XapianOp::OpOr,
                    Box::new(fs[i].q),
                    Box::new(leaf),
                ),
            },
        ));
    }
}

/// Adding a boolean leaf of an unseen field appends a fresh group.
proof fn lemma_add_filter_absent(fs: Seq<FilterV>, field: Seq<u8>, leaf: QueryV)
    requires
        forall|j: int| 0 <= j < fs.len() ==> fs[j].field != field,
    ensures
        add_filter(fs, field, leaf) =~= fs.push(FilterV { field, q: leaf }),
    decreases fs.len(),
{
    if fs.len() > 0 {
        let f1 = fs.drop_first();
        assert(forall|j: int| 0 <= j < f1.len() ==> f1[j].field != field);
        lemma_add_filter_absent(f1, field, leaf);
        assert(seq![fs[0]] + f1.push(FilterV { field, q: leaf }) =~= fs.push(
            FilterV { field, q: leaf },
        ));
    }
}

/// The query of a `field:rest` word that is no range literal.
pub open spec fn prefix_or_plain(
    bytes: Seq<u8>,
    field: Seq<u8>,
    rest: Seq<u8>,
    flags: u32,
    ps: Seq<PrefixV>,
    dpre: Seq<u8>,
) -> WordLeafV {
    match find_prefix(ps, field) {
        Some(pe) => if pe.boolean {
            WordLeafV::Filter(field, QueryV::Term(pe.prefix + rest))
        } else {
            opt_leaf(group_query(tokens_of(rest), pe.prefix, positional(flags)))
        },
        None => opt_leaf(group_query(tokens_of(bytes), dpre, positional(flags))),
    }
}

/// A probabilistic leaf, or nothing.
pub open spec fn opt_leaf(o: Option<QueryV>) -> WordLeafV {
    match o {
        Some(q) => WordLeafV::Prob(q),
        None => WordLeafV::Nothing,
    }
}

/// The query one word contributes: a wildcard is unsupported; a range
/// literal or a prefixed field is looked up; a plain word is split and
/// normalized exactly as the indexer splits text.
pub open spec fn word_leaf(
    bytes: Seq<u8>,
    pos: int,
    flags: u32,
    ps: Seq<PrefixV>,
    rs: Seq<RangeSpecV>,
    dpre: Seq<u8>,
) -> Result<WordLeafV, ParseErrV> {
    if has_flag(flags, 16) && bytes.len() > 0 && bytes[bytes.len() - 1] == 42 {
        Err(ParseErrV::Unsupported)
    } else {
        match find_colon(bytes, 0) {
            Some(c) => {
                let field = bytes.subrange(0, c);
                let rest = bytes.subrange(c + 1, bytes.len() as int);
                match find_range(rs, field) {
                    Some(rspec) => match find_dotdot(rest, 0) {
                        Some(d) => match range_leaf(rspec, rest, d, pos) {
                            Ok(Some(q)) => Ok(WordLeafV::Prob(q)),
                            Ok(None) => Ok(WordLeafV::Nothing),
                            Err(e) => Err(e),
                        },
                        None => Ok(prefix_or_plain(bytes, field, rest, flags, ps, dpre)),
                    },
                    None => Ok(prefix_or_plain(bytes, field, rest, flags, ps, dpre)),
                }
            },
            None => Ok(opt_leaf(group_query(tokens_of(bytes), dpre, positional(flags)))),
        }
    }
}

/// The query of a quoted phrase: its words in order, at adjacent
/// positions when `FLAG_PHRASE` is on and positions are in use.
pub open spec fn quoted_leaf(bytes: Seq<u8>, flags: u32, dpre: Seq<u8>) -> Option<QueryV> {
    group_query(tokens_of(bytes), dpre, has_flag(flags, 2) && positional(flags))
}

/// The parse of the tokens from `i` on, given the query built so far,
/// the pending connector, and the boolean filter groups collected so
/// far.  `qlen` is the query length, the position a dangling trailing
/// connector is reported at.
pub open spec fn parse_toks(
    toks: Seq<TokV>,
    i: int,
    acc: Option<QueryV>,
    pend: PendKind,
    fs: Seq<FilterV>,
    flags: u32,
    ps: Seq<PrefixV>,
    rs: Seq<RangeSpecV>,
    dpre: Seq<u8>,
    qlen: int,
) -> Result<QueryV, ParseErrV>
    decreases toks.len() - i,
{
    if i < 0 || i >= toks.len() {
        if pend is Fresh {
            Ok(finish_parse(acc, fs))
        } else {
            Err(ParseErrV::At(qlen))
        }
    } else {
        let t = toks[i];
        match t.kind {
            TokKind::Love => if has_flag(flags, 4) {
                if pend is Fresh {
                    parse_toks(toks, i + 1, acc, PendKind::Love, fs, flags, ps, rs, dpre, qlen)
                } else {
                    Err(ParseErrV::At(t.pos))
                }
            } else {
                parse_toks(toks, i + 1, acc, pend, fs, flags, ps, rs, dpre, qlen)
            },
            TokKind::Hate => if has_flag(flags, 4) {
                if pend is Fresh {
                    parse_toks(toks, i + 1, acc, PendKind::Hate, fs, flags, ps, rs, dpre, qlen)
                } else {
                    Err(ParseErrV::At(t.pos))
                }
            } else {
                parse_toks(toks, i + 1, acc, pend, fs, flags, ps, rs, dpre, qlen)
            },
            TokKind::Quoted => match quoted_leaf(t.bytes, flags, dpre) {
                None => parse_toks(toks, i + 1, acc, pend, fs, flags, ps, rs, dpre, qlen),
                Some(leaf) => match combine(acc, pend, leaf, flags, t.pos) {
                    Ok(a2) => parse_toks(
                        toks,
                        i + 1,
                        Some(a2),
                        PendKind::Fresh,
                        fs,
                        flags,
                        ps,
                        rs,
                        dpre,
                        qlen,
                    ),
                    Err(e) => Err(e),
                },
            },
            TokKind::Word => if is_and_kw(t.bytes, flags) {
                if acc is Some && pend is Fresh {
                    parse_toks(toks, i + 1, acc, PendKind::And, fs, flags, ps, rs, dpre, qlen)
                } else {
                    Err(ParseErrV::At(t.pos))
                }
            } else if is_or_kw(t.bytes, flags) {
                if acc is Some && pend is Fresh {
                    parse_toks(toks, i + 1, acc, PendKind::Or, fs, flags, ps, rs, dpre, qlen)
                } else {
                    Err(ParseErrV::At(t.pos))
                }
            } else if is_xor_kw(t.bytes, flags) {
                if acc is Some && pend is Fresh {
                    parse_toks(toks, i + 1, acc, PendKind::Xor, fs, flags, ps, rs, dpre, qlen)
                } else {
                    Err(ParseErrV::At(t.pos))
                }
            } else if is_not_kw(t.bytes, flags) {
                if pend is Fresh || pend is And {
                    parse_toks(toks, i + 1, acc, PendKind::AndNot, fs, flags, ps, rs, dpre, qlen)
                } else {
                    Err(ParseErrV::At(t.pos))
                }
            } else {
                match word_leaf(t.bytes, t.pos, flags, ps, rs, dpre) {
                    Err(e) => Err(e),
                    Ok(WordLeafV::Nothing) => parse_toks(
                        toks,
                        i + 1,
                        acc,
                        pend,
                        fs,
                        flags,
                        ps,
                        rs,
                        dpre,
                        qlen,
                    ),
                    Ok(WordLeafV::Prob(leaf)) => match combine(acc, pend, leaf, flags, t.pos) {
                        Ok(a2) => parse_toks(
                            toks,
                            i + 1,
                            Some(a2),
                            PendKind::Fresh,
                            fs,
                            flags,
                            ps,
                            rs,
                            dpre,
                            qlen,
                        ),
                        Err(e) => Err(e),
                    },
                    Ok(WordLeafV::Filter(field, leaf)) => if pend is Fresh {
                        parse_toks(
                            toks,
                            i + 1,
                            acc,
                            pend,
                            add_filter(fs, field, leaf),
                            flags,
                            ps,
                            rs,
                            dpre,
                            qlen,
                        )
                    } else {
                        Err(ParseErrV::At(t.pos))
                    },
                }
            },
        }
    }
}

/// The parse of a whole query string.
pub open spec fn parse_spec(
    s: Seq<u8>,
    flags: u32,
    ps: Seq<PrefixV>,
    rs: Seq<RangeSpecV>,
    dpre: Seq<u8>,
) -> Result<QueryV, ParseErrV> {
    match lex(s, 0) {
        Err(e) => Err(e),
        Ok(toks) => parse_toks(
            toks,
            0,
            None,
            PendKind::Fresh,
            Seq::empty(),
            flags,
            ps,
            rs,
            dpre,
            s.len() as int,
        ),
    }
}

/// The model of an executable word leaf.
pub open spec fn leaf_view(w: WordLeaf) -> WordLeafV {
    match w {
        WordLeaf::Nothing => WordLeafV::Nothing,
        WordLeaf::Prob(q) => WordLeafV::Prob(q@),
        WordLeaf::Filter(f, q) => WordLeafV::Filter(f@, q@),
    }
}

/// The model of the query built so far.
pub open spec fn opt_qview(q: Option<Query>) -> Option<QueryV> {
    match q {
        Some(q) => Some(q@),
        None => None,
    }
}


/// A three-byte word.
fn mk3(a: u8, b: u8, c: u8) -> (r: Vec<u8>)
    ensures
        r@ =~= seq![a, b, c],
{
    let mut v: Vec<u8> = Vec::new();
    v.push(a);
    v.push(b);
    v.push(c);
    v
}

/// A two-byte word.
fn mk2(a: u8, b: u8) -> (r: Vec<u8>)
    ensures
        r@ =~= seq![a, b],
{
    let mut v: Vec<u8> = Vec::new();
    v.push(a);
    v.push(b);
    v
}

/// Whether the word equals the keyword, exactly or case-folded.
fn word_is(bytes: &Vec<u8>, up: &Vec<u8>, lo: &Vec<u8>, flags: u32) -> (r: bool)
    ensures
        r == (bytes@ == up@ || (has_flag(flags, 8) && norm_bytes(bytes@) == lo@)),
{
    if *bytes == *up {
        proof {
            assert(bytes@ =~= up@);
        }
        return true;
    }
    proof {
        assert(bytes@ != up@) by {
            if bytes@ == up@ {
                assert(bytes@ =~= up@);
            }
        }
    }
    if flags & 8u32 != 0 {
        let nb = crate::bytes::normalize(bytes);
        if nb == *lo {
            proof {
                assert(nb@ =~= lo@);
            }
            true
        } else {
            proof {
                assert(norm_bytes(bytes@) != lo@) by {
                    if norm_bytes(bytes@) == lo@ {
                        assert(nb@ =~= lo@);
                    }
                }
            }
            false
        }
    } else {
        false
    }
}

/// A parse failure at a byte position.
fn parse_error_at(position: usize) -> (r: Error)
    ensures
        r matches Error::QueryParserError { position: p, .. } && p == position,
{
    Error::QueryParserError { position, reason: String::from_str("malformed query fragment") }
}

/// Fold one boolean leaf into the filter groups, executably.
fn add_filter_exec(filters: &mut Vec<FilterGroup>, field: Vec<u8>, leaf: Query)
    ensures
        view_filters(final(filters)@) == add_filter(view_filters(old(filters)@), field@, leaf@),
{
    let ghost fs0 = view_filters(filters@);
    let ghost fieldv = field@;
    let ghost leafv = leaf@;
    let mut i: usize = 0;
    while i < filters.len()
        invariant
            i <= filters@.len(),
            fs0 == view_filters(filters@),
            fs0 == view_filters(old(filters)@),
            fieldv == field@,
            leafv == leaf@,
            forall|j: int| 0 <= j < i ==> fs0[j].field != fieldv,
        decreases filters@.len() - i,
    {
        if filters[i].field == field {
            proof {
                assert(fs0[i as int].field =~= fieldv);
            }
            let g2 = {
                let g = &filters[i];
                let combined = Query::Pair(
                    crate::constants::XapianOp::OpOr,
                    Box::new(g.q.duplicate()),
                    Box::new(leaf),
                );
                proof {
                    assert(combined@ == QueryV::Pair(
                        crate::constants::XapianOp::OpOr,
                        Box::new(fs0[i as int].q),
                        Box::new(leafv),
                    ));
                }
                FilterGroup { field: crate::doc::clone_bytes(&g.field), q: combined }
            };
            proof {
                assert(g2@ == FilterV {
                    field: fieldv,
                    q: QueryV::Pair(
                        crate::constants::XapianOp::OpOr,
                        Box::new(fs0[i as int].q),
                        Box::new(leafv),
                    ),
                });
            }
            filters[i] = g2;
            proof {
                lemma_add_filter_found(fs0, fieldv, leafv, i as int);
                assert(view_filters(filters@) =~= fs0.update(
                    i as int,
                    FilterV {
                        field: fieldv,
                        q: QueryV::Pair(
                            crate::constants::XapianOp::OpOr,
                            Box::new(fs0[i as int].q),
                            Box::new(leafv),
                        ),
                    },
                ));
            }
            return;
        }
        i = i + 1;
    }
    proof {
        lemma_add_filter_absent(fs0, fieldv, leafv);
    }
    filters.push(FilterGroup { field, q: leaf });
    proof {
        assert(view_filters(filters@) =~= fs0.push(FilterV { field: fieldv, q: leafv }));
    }
}

/// Combine the accumulated query with the next leaf, executably.
fn combine_exec(acc: Option<Query>, pend: PendKind, leaf: Query, flags: u32, pos: usize) -> (r:
    Result<Query, Error>)
    ensures
        match combine(opt_qview(acc), pend, leaf@, flags, pos as int) {
            Ok(qv) => (r matches Ok(q) && q@ == qv),
            Err(pe) => (r matches Err(e) && pe matches ParseErrV::At(p) && (e matches
                Error::QueryParserError { position, .. } && position == p)),
        },
{
    let ghost acc0 = opt_qview(acc);
    let ghost leaf0 = leaf@;
    match acc {
        None => match pend {
            PendKind::Fresh => {
                proof {
                    assert(combine(acc0, pend, leaf0, flags, pos as int) == Ok::<QueryV, ParseErrV>(leaf0));
                }
                Ok(leaf)
            },
            PendKind::Love => Ok(leaf),
            PendKind::AndNot | PendKind::Hate => {
                if flags & 32u32 != 0 {
                    let q = Query::Pair(
                        crate::constants::XapianOp::OpAndNot,
                        Box::new(Query::All),
                        Box::new(leaf),
                    );
                    proof {
                        assert(Query::All@ == QueryV::All);
                        assert(q@ == QueryV::Pair(
                            crate::constants::XapianOp::OpAndNot,
                            Box::new(QueryV::All),
                            Box::new(leaf0),
                        ));
                    }
                    Ok(q)
                } else {
                    Err(parse_error_at(pos))
                }
            },
            _ => Err(parse_error_at(pos)),
        },
        Some(a) => {
            let ghost av = a@;
            proof {
                assert(acc0 == Some(av));
            }
            let op = match pend {
                PendKind::Fresh => crate::constants::XapianOp::OpOr,
                PendKind::Or => crate::constants::XapianOp::OpOr,
                PendKind::And => crate::constants::XapianOp::OpAnd,
                PendKind::Xor => crate::constants::XapianOp::OpXor,
                PendKind::AndNot => crate::constants::XapianOp::OpAndNot,
                PendKind::Love => crate::constants::XapianOp::OpAnd,
                PendKind::Hate => crate::constants::XapianOp::OpAndNot,
            };
            let q = Query::Pair(op, Box::new(a), Box::new(leaf));
            proof {
                assert(q@ == QueryV::Pair(op, Box::new(av), Box::new(leaf0)));
            }
            Ok(q)
        },
    }
}

/// The query of a `field:rest` word that is no range literal, executably.
fn prefix_or_plain_exec(
    bytes: &Vec<u8>,
    field: &Vec<u8>,
    rest: &Vec<u8>,
    flags: u32,
    prefixes: &Vec<PrefixEntry>,
    dpre: &Vec<u8>,
) -> (r: WordLeaf)
    ensures
        leaf_view(r) == prefix_or_plain(bytes@, field@, rest@, flags, view_prefixes(prefixes@), dpre@),
{
    let ghost ps = view_prefixes(prefixes@);
    let positional_here = flags & crate::constants::QueryParserFeatureFlag::FLAG_NO_POSITIONS.mask()
        == 0;
    let mut i: usize = 0;
    while i < prefixes.len()
        invariant
            i <= prefixes@.len(),
            ps == view_prefixes(prefixes@),
            positional_here == positional(flags),
            forall|j: int| 0 <= j < i ==> ps[j].field != field@,
        decreases prefixes@.len() - i,
    {
        if prefixes[i].field == *field {
            proof {
                assert(ps[i as int].field =~= field@);
                lemma_find_prefix_prefix(ps, field@, i as int);
                assert(ps.skip(i as int)[0] == ps[i as int]);
                assert(find_prefix(ps, field@) == Some(ps[i as int]));
            }
            let pe = &prefixes[i];
            proof {
                assert(ps[i as int] == prefixes@[i as int]@);
                assert(ps[i as int].prefix == pe.prefix@ && ps[i as int].boolean == pe.boolean);
            }
            if pe.boolean {
                let q = Query::Term(concat_bytes(&pe.prefix, rest));
                proof {
                    assert(q@ == QueryV::Term(ps[i as int].prefix + rest@));
                }
                return WordLeaf::Filter(crate::doc::clone_bytes(field), q);
            } else {
                let toks = crate::text::tokenize(rest);
                proof {
                    assert(view_tokens(toks@) == tokens_of(rest@));
                }
                let r = group_query_exec(&toks, &pe.prefix, positional_here);
                proof {
                    assert(positional_here == positional(flags));
                    lemma_group_query_congruent(
                        tokens_of(rest@),
                        view_tokens(toks@),
                        ps[i as int].prefix,
                        pe.prefix@,
                        positional(flags),
                        positional_here,
                    );
                    match &r {
                        Some(q) => {
                            assert(group_query(tokens_of(rest@), ps[i as int].prefix, positional(
                                flags,
                            )) == Some(q@));
                        },
                        None => {
                            assert(group_query(tokens_of(rest@), ps[i as int].prefix, positional(
                                flags,
                            )) is None);
                        },
                    }
                }
                return match r {
                    Some(q) => WordLeaf::Prob(q),
                    None => WordLeaf::Nothing,
                };
            }
        }
        i = i + 1;
    }
    proof {
        lemma_find_prefix_prefix(ps, field@, ps.len() as int);
        assert(ps.skip(ps.len() as int).len() == 0);
        assert(find_prefix(ps, field@) is None);
    }
    let toks = crate::text::tokenize(bytes);
    proof {
        assert(view_tokens(toks@) == tokens_of(bytes@));
    }
    let r = group_query_exec(&toks, dpre, positional_here);
    proof {
        assert(positional_here == positional(flags));
        lemma_group_query_congruent(
            tokens_of(bytes@),
            view_tokens(toks@),
            dpre@,
            dpre@,
            positional(flags),
            positional_here,
        );
    }
    match r {
        Some(q) => WordLeaf::Prob(q),
        None => WordLeaf::Nothing,
    }
}

/// The query one word contributes, executably.
fn word_leaf_exec(
    bytes: &Vec<u8>,
    pos: usize,
    flags: u32,
    prefixes: &Vec<PrefixEntry>,
    rps: &Vec<RangeSpec>,
    dpre: &Vec<u8>,
) -> (r: Result<WordLeaf, Error>)
    ensures
        match word_leaf(bytes@, pos as int, flags, view_prefixes(prefixes@), view_ranges(rps@), dpre@) {
            Ok(wl) => (r matches Ok(w) && leaf_view(w) == wl),
            Err(pe) => (r matches Err(e) && match pe {
                ParseErrV::At(p) => e matches Error::QueryParserError { position, .. } && position
                    == p,
                ParseErrV::Unsupported => e is Unimplemented,
            }),
        },
{
    let n = bytes.len();
    if flags & crate::constants::QueryParserFeatureFlag::FLAG_WILDCARD.mask() != 0 && n > 0
        && bytes[n - 1] == 42 {
        return Err(Error::Unimplemented);
    }
    // first colon, if any
    let mut c: usize = 0;
    while c < n && bytes[c] != 58
        invariant
            c <= n,
            n == bytes@.len(),
            forall|m: int| 0 <= m < c ==> bytes@[m] != 58,
        decreases n - c,
    {
        c = c + 1;
    }
    proof {
        lemma_find_colon(bytes@, 0);
        if c < n {
            match find_colon(bytes@, 0) {
                Some(q) => {
                    if q < c {
                        assert(bytes@[q] != 58);
                    }
                    if c < q {
                        assert(bytes@[c as int] != 58);
                    }
                },
                None => {
                    assert(bytes@[c as int] != 58);
                },
            }
            assert(find_colon(bytes@, 0) == Some(c as int));
        } else {
            match find_colon(bytes@, 0) {
                Some(q) => {
                    assert(bytes@[q] == 58);
                    assert(false);
                },
                None => {},
            }
        }
    }
    if c == n {
        let toks = crate::text::tokenize(bytes);
        let positional_here = flags
            & crate::constants::QueryParserFeatureFlag::FLAG_NO_POSITIONS.mask() == 0;
        let r = group_query_exec(&toks, dpre, positional_here);
        proof {
            lemma_group_query_congruent(
                tokens_of(bytes@),
                view_tokens(toks@),
                dpre@,
                dpre@,
                positional(flags),
                positional_here,
            );
        }
        return Ok(
            match r {
                Some(q) => WordLeaf::Prob(q),
                None => WordLeaf::Nothing,
            },
        );
    }
    let field = sub_bytes(bytes, 0, c);
    let rest = sub_bytes(bytes, c + 1, n);
    // a registered range processor for the field?
    let ghost rsv = view_ranges(rps@);
    let mut ri: usize = 0;
    while ri < rps.len()
        invariant
            ri <= rps@.len(),
            rsv == view_ranges(rps@),
            n == bytes@.len(),
            c < n,
            !(has_flag(flags, 16) && bytes@.len() > 0 && bytes@[bytes@.len() - 1] == 42),
            find_colon(bytes@, 0) == Some(c as int),
            field@ == bytes@.subrange(0, c as int),
            rest@ == bytes@.subrange(c as int + 1, n as int),
            forall|j: int| 0 <= j < ri ==> rsv[j].marker != field@,
        decreases rps@.len() - ri,
    {
        if rps[ri].marker == *(&field) {
            proof {
                assert(rsv[ri as int].marker =~= field@);
                lemma_find_range_prefix(rsv, field@, ri as int);
                assert(rsv.skip(ri as int)[0] == rsv[ri as int]);
                assert(find_range(rsv, field@) == Some(rsv[ri as int]));
            }
            let rspec = &rps[ri];
            proof {
                assert(rsv[ri as int] == rps@[ri as int]@);
                assert(rsv[ri as int].slot == rspec.slot && rsv[ri as int].number == rspec.number);
            }
            // a range literal?
            let rn = rest.len();
            let mut d: usize = 0;
            while d + 1 < rn && !(rest[d] == 46 && rest[d + 1] == 46)
                invariant
                    d <= rn,
                    d == 0 || d < rn,
                    rn == rest@.len(),
                    forall|m: int| 0 <= m < d ==> !(#[trigger] rest@[m] == 46 && rest@[m + 1] == 46),
                decreases rn - d,
            {
                d = d + 1;
            }
            proof {
                lemma_find_dotdot(rest@, 0);
                if d + 1 < rn {
                    match find_dotdot(rest@, 0) {
                        Some(q) => {
                            if q < d {
                                assert(!(rest@[q] == 46 && rest@[q + 1] == 46));
                            }
                            if d < q {
                                assert(!(rest@[d as int] == 46 && rest@[d as int + 1] == 46));
                            }
                        },
                        None => {
                            assert(!(rest@[d as int] == 46 && rest@[d as int + 1] == 46));
                        },
                    }
                    assert(find_dotdot(rest@, 0) == Some(d as int));
                } else {
                    match find_dotdot(rest@, 0) {
                        Some(q) => {
                            assert(rest@[q] == 46 && rest@[q + 1] == 46);
                            assert(false);
                        },
                        None => {},
                    }
                }
            }
            if d + 1 < rn {
                // range literal lo..hi
                let lo = sub_bytes(&rest, 0, d);
                let hi = sub_bytes(&rest, d + 2, rn);
                if lo.len() == 0 && hi.len() == 0 {
                    return Err(parse_error_at(pos));
                }
                if rspec.number {
                    if lo.len() == 0 {
                        match parse_dec_exec(&hi) {
                            Some(x) => {
                                return Ok(
                                    WordLeaf::Prob(
                                        Query::Le(rspec.slot, crate::serial::serialise_i64(x)),
                                    ),
                                );
                            },
                            None => {
                                return Err(parse_error_at(pos));
                            },
                        }
                    } else if hi.len() == 0 {
                        match parse_dec_exec(&lo) {
                            Some(x) => {
                                return Ok(
                                    WordLeaf::Prob(
                                        Query::Ge(rspec.slot, crate::serial::serialise_i64(x)),
                                    ),
                                );
                            },
                            None => {
                                return Err(parse_error_at(pos));
                            },
                        }
                    } else {
                        match (parse_dec_exec(&lo), parse_dec_exec(&hi)) {
                            (Some(a), Some(b)) => {
                                return Ok(
                                    WordLeaf::Prob(
                                        Query::Range(
                                            rspec.slot,
                                            crate::serial::serialise_i64(a),
                                            crate::serial::serialise_i64(b),
                                        ),
                                    ),
                                );
                            },
                            _ => {
                                return Err(parse_error_at(pos));
                            },
                        }
                    }
                } else {
                    if lo.len() == 0 {
                        return Ok(WordLeaf::Prob(Query::Le(rspec.slot, hi)));
                    } else if hi.len() == 0 {
                        return Ok(WordLeaf::Prob(Query::Ge(rspec.slot, lo)));
                    } else {
                        return Ok(WordLeaf::Prob(Query::Range(rspec.slot, lo, hi)));
                    }
                }
            } else {
                let o = prefix_or_plain_exec(bytes, &field, &rest, flags, prefixes, dpre);
                return Ok(o);
            }
        }
        ri = ri + 1;
    }
    proof {
        lemma_find_range_prefix(rsv, field@, rsv.len() as int);
        assert(rsv.skip(rsv.len() as int).len() == 0);
        assert(find_range(rsv, field@) is None);
    }
    let o = prefix_or_plain_exec(bytes, &field, &rest, flags, prefixes, dpre);
    Ok(o)
}

/// The query parser: registered field prefixes, range processors, and a
/// recorded stemmer.
pub struct QueryParser {
    pub stem: Option<Stem>,
    pub prefixes: Vec<PrefixEntry>,
    pub rps: Vec<RangeSpec>,
    pub max_wildcard: u32,
    pub has_database: bool,
}

impl QueryParser {
    /// A parser with nothing registered.
    pub fn new() -> (r: QueryParser)
        ensures
            view_prefixes(r.prefixes@) =~= Seq::<PrefixV>::empty(),
            view_ranges(r.rps@) =~= Seq::<RangeSpecV>::empty(),
            r.stem is None,
            r.max_wildcard == 0,
            !r.has_database,
    {
        QueryParser {
            stem: None,
            prefixes: Vec::new(),
            rps: Vec::new(),
            max_wildcard: 0,
            has_database: false,
        }
    }

    /// Record the stemmer; normalization itself is case folding whatever
    /// the language.
    pub fn set_stemmer(&mut self, stem: Stem)
        ensures
            final(self).prefixes == old(self).prefixes,
            final(self).rps == old(self).rps,
            final(self).has_database == old(self).has_database,
    {
        self.stem = Some(stem);
    }

    /// Record that a database is available.  Only wildcard expansion
    /// would consult it, and wildcards are not supported here.
    pub fn set_database(&mut self, db: &Database)
        ensures
            final(self).has_database == db.open,
            final(self).prefixes == old(self).prefixes,
            final(self).rps == old(self).rps,
            final(self).stem == old(self).stem,
    {
        self.has_database = db.open;
    }

    /// Record the wildcard expansion bound.  Wildcards themselves are not
    /// supported: a query using one fails with `Unimplemented`.
    pub fn set_max_wildcard_expansion(&mut self, limit: u32)
        ensures
            final(self).max_wildcard == limit,
            final(self).prefixes == old(self).prefixes,
            final(self).rps == old(self).rps,
            final(self).stem == old(self).stem,
            final(self).has_database == old(self).has_database,
    {
        self.max_wildcard = limit;
    }

    /// Map `field:` words to terms carrying `prefix`, with the word's
    /// text split and normalized as free text.
    pub fn add_prefix(&mut self, field: &str, prefix: &str)
        ensures
            view_prefixes(final(self).prefixes@) == view_prefixes(old(self).prefixes@).push(
                PrefixV { field: field.spec_bytes(), prefix: prefix.spec_bytes(), boolean: false },
            ),
            final(self).rps == old(self).rps,
    {
        self.prefixes.push(
            PrefixEntry {
                field: field.as_bytes_vec(),
                prefix: prefix.as_bytes_vec(),
                boolean: false,
            },
        );
        proof {
            assert(view_prefixes(self.prefixes@) =~= view_prefixes(old(self).prefixes@).push(
                PrefixV { field: field.spec_bytes(), prefix: prefix.spec_bytes(), boolean: false },
            ));
        }
    }

    /// Map `field:` words to exact boolean terms carrying `prefix`, taken
    /// byte-for-byte.
    pub fn add_boolean_prefix(&mut self, field: &str, prefix: &str)
        ensures
            view_prefixes(final(self).prefixes@) == view_prefixes(old(self).prefixes@).push(
                PrefixV { field: field.spec_bytes(), prefix: prefix.spec_bytes(), boolean: true },
            ),
            final(self).rps == old(self).rps,
    {
        self.prefixes.push(
            PrefixEntry {
                field: field.as_bytes_vec(),
                prefix: prefix.as_bytes_vec(),
                boolean: true,
            },
        );
        proof {
            assert(view_prefixes(self.prefixes@) =~= view_prefixes(old(self).prefixes@).push(
                PrefixV { field: field.spec_bytes(), prefix: prefix.spec_bytes(), boolean: true },
            ));
        }
    }

    /// Route `marker:a..b` words to a string range filter on the
    /// processor's slot.
    pub fn add_rangeprocessor(&mut self, range_proc: &RangeProcessor)
        ensures
            view_ranges(final(self).rps@) == view_ranges(old(self).rps@).push(
                RangeSpecV { slot: range_proc.slot, marker: range_proc.marker@, number: false },
            ),
            final(self).prefixes == old(self).prefixes,
    {
        self.rps.push(
            RangeSpec {
                slot: range_proc.slot,
                marker: crate::doc::clone_bytes(&range_proc.marker),
                number: false,
            },
        );
        proof {
            assert(view_ranges(self.rps@) =~= view_ranges(old(self).rps@).push(
                RangeSpecV { slot: range_proc.slot, marker: range_proc.marker@, number: false },
            ));
        }
    }

    /// Route `marker:a..b` words to a numeric range filter on the
    /// processor's slot, bounds in the sortable number form.
    pub fn add_number_rangeprocessor(&mut self, range_proc: &NumberRangeProcessor)
        ensures
            view_ranges(final(self).rps@) == view_ranges(old(self).rps@).push(
                RangeSpecV { slot: range_proc.slot, marker: range_proc.marker@, number: true },
            ),
            final(self).prefixes == old(self).prefixes,
    {
        self.rps.push(
            RangeSpec {
                slot: range_proc.slot,
                marker: crate::doc::clone_bytes(&range_proc.marker),
                number: true,
            },
        );
        proof {
            assert(view_ranges(self.rps@) =~= view_ranges(old(self).rps@).push(
                RangeSpecV { slot: range_proc.slot, marker: range_proc.marker@, number: true },
            ));
        }
    }

    /// Parse a query string under the given feature flags, exactly as
    /// [`parse_spec`] describes.
    pub fn parse_query(&self, query: &str, flags: u32) -> (r: Result<Query, Error>)
        ensures
            match parse_spec(
                query.spec_bytes(),
                flags,
                view_prefixes(self.prefixes@),
                view_ranges(self.rps@),
                Seq::empty(),
            ) {
                Ok(qv) => (r matches Ok(q) && q@ == qv),
                Err(pe) => (r matches Err(e) && match pe {
                    ParseErrV::At(p) => e matches Error::QueryParserError { position, .. }
                        && position == p,
                    ParseErrV::Unsupported => e is Unimplemented,
                }),
            },
    {
        let empty_pre: Vec<u8> = Vec::new();
        proof {
            assert(empty_pre@ =~= Seq::<u8>::empty());
        }
        self.parse_with_default_prefix(query, flags, &empty_pre)
    }

    /// Parse a query string, prepending `prefix` to every plain term.
    pub fn parse_query_with_prefix(&self, query: &str, flags: u32, prefix: &str) -> (r: Result<
        Query,
        Error,
    >)
        ensures
            match parse_spec(
                query.spec_bytes(),
                flags,
                view_prefixes(self.prefixes@),
                view_ranges(self.rps@),
                prefix.spec_bytes(),
            ) {
                Ok(qv) => (r matches Ok(q) && q@ == qv),
                Err(pe) => (r matches Err(e) && match pe {
                    ParseErrV::At(p) => e matches Error::QueryParserError { position, .. }
                        && position == p,
                    ParseErrV::Unsupported => e is Unimplemented,
                }),
            },
    {
        let pre = prefix.as_bytes_vec();
        self.parse_with_default_prefix(query, flags, &pre)
    }

    /// The shared parse pipeline: lex, then fold the tokens.
    #[verifier::rlimit(100)]
    fn parse_with_default_prefix(&self, query: &str, flags: u32, dpre: &Vec<u8>) -> (r: Result<
        Query,
        Error,
    >)
        ensures
            match parse_spec(
                query.spec_bytes(),
                flags,
                view_prefixes(self.prefixes@),
                view_ranges(self.rps@),
                dpre@,
            ) {
                Ok(qv) => (r matches Ok(q) && q@ == qv),
                Err(pe) => (r matches Err(e) && match pe {
                    ParseErrV::At(p) => e matches Error::QueryParserError { position, .. }
                        && position == p,
                    ParseErrV::Unsupported => e is Unimplemented,
                }),
            },
    {
        let ghost ps = view_prefixes(self.prefixes@);
        let ghost rs = view_ranges(self.rps@);
        let bytes = query.as_bytes_vec();
        let toks = match lex_exec(&bytes) {
            Ok(t) => t,
            Err(e) => {
                return Err(e);
            },
        };
        let ghost tv = view_toks(toks@);
        let qlen = bytes.len();
        let kw_and_up = mk3(65, 78, 68);
        let kw_and_lo = mk3(97, 110, 100);
        let kw_or_up = mk2(79, 82);
        let kw_or_lo = mk2(111, 114);
        let kw_not_up = mk3(78, 79, 84);
        let kw_not_lo = mk3(110, 111, 116);
        let kw_xor_up = mk3(88, 79, 82);
        let kw_xor_lo = mk3(120, 111, 114);
        let mut acc: Option<Query> = None;
        let mut pend = PendKind::Fresh;
        let mut filters: Vec<FilterGroup> = Vec::new();
        proof {
            assert(view_filters(filters@) =~= Seq::<FilterV>::empty());
        }
        let n = toks.len();
        let mut i: usize = 0;
        while i < n
            invariant
                i <= n,
                n == toks@.len(),
                tv == view_toks(toks@),
                lex(query.spec_bytes(), 0) == Ok::<Seq<TokV>, ParseErrV>(tv),
                qlen == query.spec_bytes().len(),
                ps == view_prefixes(self.prefixes@),
                rs == view_ranges(self.rps@),
                kw_and_up@ =~= seq![65u8, 78u8, 68u8],
                kw_and_lo@ =~= seq![97u8, 110u8, 100u8],
                kw_or_up@ =~= seq![79u8, 82u8],
                kw_or_lo@ =~= seq![111u8, 114u8],
                kw_not_up@ =~= seq![78u8, 79u8, 84u8],
                kw_not_lo@ =~= seq![110u8, 111u8, 116u8],
                kw_xor_up@ =~= seq![88u8, 79u8, 82u8],
                kw_xor_lo@ =~= seq![120u8, 111u8, 114u8],
                parse_toks(
                    tv,
                    0,
                    None,
                    PendKind::Fresh,
                    Seq::empty(),
                    flags,
                    ps,
                    rs,
                    dpre@,
                    qlen as int,
                ) == parse_toks(
                    tv,
                    i as int,
                    opt_qview(acc),
                    pend,
                    view_filters(filters@),
                    flags,
                    ps,
                    rs,
                    dpre@,
                    qlen as int,
                ),
            decreases n - i,
        {
            proof {
                assert(tv[i as int] == toks@[i as int]@);
            }
            let kind = toks[i].kind;
            let tpos = toks[i].pos;
            match kind {
                TokKind::Love => {
                    if flags & 4u32 != 0 {
                        if pend == PendKind::Fresh {
                            pend = PendKind::Love;
                        } else {
                            return Err(parse_error_at(tpos));
                        }
                    }
                },
                TokKind::Hate => {
                    if flags & 4u32 != 0 {
                        if pend == PendKind::Fresh {
                            pend = PendKind::Hate;
                        } else {
                            return Err(parse_error_at(tpos));
                        }
                    }
                },
                TokKind::Quoted => {
                    let positional_here = (flags
                        & crate::constants::QueryParserFeatureFlag::FLAG_PHRASE.mask() != 0) && (
                    flags & crate::constants::QueryParserFeatureFlag::FLAG_NO_POSITIONS.mask()
                        == 0);
                    let wtoks = crate::text::tokenize(&toks[i].bytes);
                    match group_query_exec(&wtoks, dpre, positional_here) {
                        None => {
                        },
                        Some(leaf) => {
                            match combine_exec(acc, pend, leaf, flags, tpos) {
                                Ok(a2) => {
                                    acc = Some(a2);
                                    pend = PendKind::Fresh;
                                },
                                Err(e) => {
                                    return Err(e);
                                },
                            }
                        },
                    }
                },
                TokKind::Word => {
                    let is_conn_and = flags & 1u32 != 0 && word_is(
                        &toks[i].bytes,
                        &kw_and_up,
                        &kw_and_lo,
                        flags,
                    );
                    let is_conn_or = flags & 1u32 != 0 && word_is(
                        &toks[i].bytes,
                        &kw_or_up,
                        &kw_or_lo,
                        flags,
                    );
                    let is_conn_xor = flags & 1u32 != 0 && word_is(
                        &toks[i].bytes,
                        &kw_xor_up,
                        &kw_xor_lo,
                        flags,
                    );
                    let is_conn_not = flags & 1u32 != 0 && word_is(
                        &toks[i].bytes,
                        &kw_not_up,
                        &kw_not_lo,
                        flags,
                    );
                    if is_conn_and {
                        let acc_some = match &acc {
                            Some(_) => true,
                            None => false,
                        };
                        if acc_some && pend == PendKind::Fresh {
                            pend = PendKind::And;
                        } else {
                            return Err(parse_error_at(tpos));
                        }
                    } else if is_conn_or {
                        let acc_some = match &acc {
                            Some(_) => true,
                            None => false,
                        };
                        if acc_some && pend == PendKind::Fresh {
                            pend = PendKind::Or;
                        } else {
                            return Err(parse_error_at(tpos));
                        }
                    } else if is_conn_xor {
                        let acc_some = match &acc {
                            Some(_) => true,
                            None => false,
                        };
                        if acc_some && pend == PendKind::Fresh {
                            pend = PendKind::Xor;
                        } else {
                            return Err(parse_error_at(tpos));
                        }
                    } else if is_conn_not {
                        if pend == PendKind::Fresh || pend == PendKind::And {
                            pend = PendKind::AndNot;
                        } else {
                            return Err(parse_error_at(tpos));
                        }
                    } else {
                        match word_leaf_exec(&toks[i].bytes, tpos, flags, &self.prefixes, &self.rps, dpre) {
                            Err(e) => {
                                return Err(e);
                            },
                            Ok(WordLeaf::Nothing) => {
                            },
                            Ok(WordLeaf::Prob(leaf)) => {
                                match combine_exec(acc, pend, leaf, flags, tpos) {
                                    Ok(a2) => {
                                        acc = Some(a2);
                                        pend = PendKind::Fresh;
                                    },
                                    Err(e) => {
                                        return Err(e);
                                    },
                                }
                            },
                            Ok(WordLeaf::Filter(field, leaf)) => {
                                if pend == PendKind::Fresh {
                                    add_filter_exec(&mut filters, field, leaf);
                                } else {
                                    return Err(parse_error_at(tpos));
                                }
                            },
                        }
                    }
                },
            }
            i = i + 1;
        }
        if !(pend == PendKind::Fresh) {
            return Err(parse_error_at(qlen));
        }
        let ghost fs0 = view_filters(filters@);
        let ghost accv = opt_qview(acc);
        if filters.len() == 0 {
            proof {
                assert(finish_parse(accv, fs0) == match accv {
                    Some(a) => a,
                    None => QueryV::Empty,
                });
            }
            return match acc {
                Some(q) => Ok(q),
                None => Ok(Query::Empty),
            };
        }
        // fold the filter groups into one AND, then attach it
        let mut fq = filters[0].q.duplicate();
        let mut k: usize = 1;
        proof {
            assert(fq@ == fs0[0].q);
        }
        while k < filters.len()
            invariant
                1 <= k <= filters@.len(),
                fs0 == view_filters(filters@),
                accv == opt_qview(acc),
                and_filters(fs0, 1, fs0[0].q) == and_filters(fs0, k as int, fq@),
            decreases filters@.len() - k,
        {
            let gq = filters[k].q.duplicate();
            let ghost fqv = fq@;
            proof {
                assert(gq@ == fs0[k as int].q);
            }
            fq = Query::Pair(crate::constants::XapianOp::OpAnd, Box::new(fq), Box::new(gq));
            proof {
                assert(fq@ == QueryV::Pair(
                    crate::constants::XapianOp::OpAnd,
                    Box::new(fqv),
                    Box::new(fs0[k as int].q),
                ));
                assert(and_filters(fs0, k as int, fqv) == and_filters(fs0, k as int + 1, fq@));
            }
            k = k + 1;
        }
        proof {
            assert(and_filters(fs0, fs0.len() as int, fq@) == fq@);
            assert(fq@ == and_filters(fs0, 1, fs0[0].q));
        }
        match acc {
            Some(a) => {
                let ghost av = a@;
                let q = Query::Pair(
                    crate::constants::XapianOp::OpFilter,
                    Box::new(a),
                    Box::new(fq),
                );
                proof {
                    assert(accv == Some(av));
                    assert(q@ == QueryV::Pair(
                        crate::constants::XapianOp::OpFilter,
                        Box::new(av),
                        Box::new(and_filters(fs0, 1, fs0[0].q)),
                    ));
                    assert(q@ == finish_parse(accv, fs0));
                }
                Ok(q)
            },
            None => {
                let q = Query::Scaled(0, Box::new(fq));
                proof {
                    assert(q@ == QueryV::Scaled(0, Box::new(and_filters(fs0, 1, fs0[0].q))));
                    assert(q@ == finish_parse(accv, fs0));
                }
                Ok(q)
            },
        }
    }
}

} // verus!

