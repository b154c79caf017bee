//! The query tree and its evaluation on a single document.
//!
//! A query is an immutable, finite tree: leaves test a term, a phrase or a
//! value slot; inner nodes combine two subqueries with a boolean operator
//! or scale a subquery's weight.  [`matches`] says which documents a query
//! selects, and [`weight_of`] how much weight a selected document gets;
//! both are pure functions of the query and the document model, and
//! [`Query::eval`] computes exactly them.
//!
//! A term absent from every document is not an error: its node simply
//! contributes no matches.  Weights are sums of within-document
//! frequencies and saturate at the largest representable value.

use vstd::prelude::*;
use vstd::string::StringSliceAdditionalSpecFns;

use crate::bytes::lex_le;
use crate::constants::XapianOp;
use crate::doc::{doc_has_term, doc_positions, doc_value, doc_wdf, DocModel, Document};
use crate::errors::Error;
use crate::serial::{be_bytes_of, offset_of_i64};
use crate::text::view_tokens;

verus! {

/// The mathematical model of a query tree.
pub enum QueryV {
    /// Matches nothing.
    Empty,
    /// Matches every document, with no weight.
    All,
    /// Matches the documents carrying the term.
    Term(Seq<u8>),
    /// Matches the documents carrying all the terms at consecutive
    /// positions, in order.
    Phrase(Seq<Seq<u8>>),
    /// Matches the documents whose slot value lies in the inclusive range.
    Range(u32, Seq<u8>, Seq<u8>),
    /// Matches the documents whose slot value is at least the bound.
    Ge(u32, Seq<u8>),
    /// Matches the documents whose slot value is at most the bound.
    Le(u32, Seq<u8>),
    /// Two subqueries combined by a boolean operator.
    Pair(XapianOp, Box<QueryV>, Box<QueryV>),
    /// A subquery whose weight is scaled by a factor.
    Scaled(u64, Box<QueryV>),
}

/// A query tree.
#[derive(Debug)]
pub enum Query {
    /// Matches nothing.
    Empty,
    /// Matches every document, with no weight.
    All,
    /// Matches the documents carrying the term.
    Term(Vec<u8>),
    /// Matches the documents carrying all the terms at consecutive
    /// positions, in order.
    Phrase(Vec<Vec<u8>>),
    /// Matches the documents whose slot value lies in the inclusive range.
    Range(u32, Vec<u8>, Vec<u8>),
    /// Matches the documents whose slot value is at least the bound.
    Ge(u32, Vec<u8>),
    /// Matches the documents whose slot value is at most the bound.
    Le(u32, Vec<u8>),
    /// Two subqueries combined by a boolean operator.
    Pair(XapianOp, Box<Query>, Box<Query>),
    /// A subquery whose weight is scaled by a factor.
    Scaled(u64, Box<Query>),
}

/// The model of a query tree.
pub open spec fn qview(q: Query) -> QueryV
    decreases q,
{
    match q {
        Query::Empty => QueryV::Empty,
        Query::All => QueryV::All,
        Query::Term(t) => QueryV::Term(t@),
        Query::Phrase(ts) => QueryV::Phrase(view_tokens(ts@)),
        Query::Range(slot, lo, hi) => QueryV::Range(slot, lo@, hi@),
        Query::Ge(slot, lo) => QueryV::Ge(slot, lo@),
        Query::Le(slot, hi) => QueryV::Le(slot, hi@),
        Query::Pair(op, l, r) => QueryV::Pair(op, Box::new(qview(*l)), Box::new(qview(*r))),
        Query::Scaled(f, s) => QueryV::Scaled(f, Box::new(qview(*s))),
    }
}

impl View for Query {
    type V = QueryV;

    open spec fn view(&self) -> QueryV {
        qview(*self)
    }
}

/// Addition that stops at the largest representable value.
pub open spec fn sat_add(a: u64, b: u64) -> u64 {
    if a + b > u64::MAX {
        u64::MAX
    } else {
        (a + b) as u64
    }
}

/// Multiplication that stops at the largest representable value.
pub open spec fn sat_mul(a: u64, b: u64) -> u64 {
    if a * b > u64::MAX {
        u64::MAX
    } else {
        (a * b) as u64
    }
}

/// Whether term `t`, the `k`-th word of a phrase starting at `p`, has a
/// posting at position `p + k`.
pub open spec fn phrase_term_at(d: DocModel, t: Seq<u8>, p: u64, k: int) -> bool {
    p + k <= u64::MAX && doc_positions(d, t).contains((p + k) as u64)
}

/// Whether the phrase stands at position `p`: term `k` of the phrase has
/// a posting at position `p + k`, for every `k`.
pub open spec fn phrase_at(d: DocModel, ts: Seq<Seq<u8>>, p: u64) -> bool {
    forall|k: int| 0 <= k < ts.len() ==> #[trigger] phrase_term_at(d, ts[k], p, k)
}

/// Whether the document contains the phrase: all terms in order at
/// consecutive positions, starting anywhere.  An empty phrase matches
/// nothing.
pub open spec fn phrase_match(d: DocModel, ts: Seq<Seq<u8>>) -> bool {
    ts.len() > 0 && exists|p: u64| phrase_at(d, ts, p)
}

/// Whether the value of `slot` lies in the inclusive byte-order range.
pub open spec fn range_match(d: DocModel, slot: u32, lo: Seq<u8>, hi: Seq<u8>) -> bool {
    match doc_value(d, slot) {
        Some(v) => lex_le(lo, v) && lex_le(v, hi),
        None => false,
    }
}

/// Which documents the query selects.
pub open spec fn matches(q: QueryV, d: DocModel) -> bool
    decreases q,
{
    match q {
        QueryV::Empty => false,
        QueryV::All => true,
        QueryV::Term(t) => doc_has_term(d, t),
        QueryV::Phrase(ts) => phrase_match(d, ts),
        QueryV::Range(slot, lo, hi) => range_match(d, slot, lo, hi),
        QueryV::Ge(slot, lo) => match doc_value(d, slot) {
            Some(v) => lex_le(lo, v),
            None => false,
        },
        QueryV::Le(slot, hi) => match doc_value(d, slot) {
            Some(v) => lex_le(v, hi),
            None => false,
        },
        QueryV::Pair(op, l, r) => {
            let ml = matches(*l, d);
            let mr = matches(*r, d);
            match op {
                XapianOp::OpAnd => ml && mr,
                XapianOp::OpOr => ml || mr,
                XapianOp::OpAndNot => ml && !mr,
                XapianOp::OpXor => ml != mr,
                XapianOp::OpAndMaybe => ml,
                XapianOp::OpFilter => ml && mr,
                XapianOp::OpEliteSet => ml || mr,
                XapianOp::OpSynonym => ml || mr,
                _ => false,
            }
        },
        QueryV::Scaled(_, s) => matches(*s, d),
    }
}

/// How much weight the query gives the document: term leaves weigh their
/// within-document frequency, value tests weigh nothing, and combinators
/// add the weights of their matching sides (saturating).
pub open spec fn weight_of(q: QueryV, d: DocModel) -> u64
    decreases q,
{
    match q {
        QueryV::Empty => 0,
        QueryV::All => 0,
        QueryV::Term(t) => doc_wdf(d, t),
        QueryV::Phrase(ts) => phrase_weight(ts, d),
        QueryV::Range(_, _, _) => 0,
        QueryV::Ge(_, _) => 0,
        QueryV::Le(_, _) => 0,
        QueryV::Pair(op, l, r) => {
            let ml = if matches(*l, d) {
                weight_of(*l, d)
            } else {
                0
            };
            let mr = if matches(*r, d) {
                weight_of(*r, d)
            } else {
                0
            };
            match op {
                XapianOp::OpAnd => sat_add(ml, mr),
                XapianOp::OpOr => sat_add(ml, mr),
                XapianOp::OpAndNot => ml,
                XapianOp::OpXor => sat_add(ml, mr),
                XapianOp::OpAndMaybe => sat_add(ml, mr),
                XapianOp::OpFilter => ml,
                XapianOp::OpEliteSet => sat_add(ml, mr),
                XapianOp::OpSynonym => sat_add(ml, mr),
                _ => 0,
            }
        },
        QueryV::Scaled(f, s) => sat_mul(f, weight_of(*s, d)),
    }
}

/// The sum (saturating) of the terms' frequencies, on top of `w`.
pub open spec fn phrase_weight_acc(ts: Seq<Seq<u8>>, d: DocModel, w: u64) -> u64
    decreases ts.len(),
{
    if ts.len() == 0 {
        w
    } else {
        phrase_weight_acc(ts.drop_first(), d, sat_add(w, doc_wdf(d, ts[0])))
    }
}

/// The weight of a phrase: the sum of its terms' frequencies.
pub open spec fn phrase_weight(ts: Seq<Seq<u8>>, d: DocModel) -> u64 {
    phrase_weight_acc(ts, d, 0)
}

/// Whether a term position list contains `x`.
fn positions_contain(v: &Vec<u64>, x: u64) -> (r: bool)
    ensures
        r == v@.contains(x),
{
    let mut i: usize = 0;
    while i < v.len()
        invariant
            i <= v@.len(),
            forall|j: int| 0 <= j < i ==> v@[j] != x,
        decreases v@.len() - i,
    {
        if v[i] == x {
            return true;
        }
        i = i + 1;
    }
    false
}

/// Whether the document contains the phrase, by walking the candidate
/// start positions of its first term.
fn phrase_check(d: &Document, ts: &Vec<Vec<u8>>) -> (r: bool)
    ensures
        r == phrase_match(d@, view_tokens(ts@)),
{
    let ghost tv = view_tokens(ts@);
    if ts.len() == 0 {
        return false;
    }
    let first = d.positions_of(&ts[0]);
    let mut i: usize = 0;
    while i < first.len()
        invariant
            i <= first@.len(),
            first@ == doc_positions(d@, tv[0]),
            tv == view_tokens(ts@),
            tv.len() == ts@.len() > 0,
            forall|j: int| 0 <= j < i ==> !phrase_at(d@, tv, first@[j]),
        decreases first@.len() - i,
    {
        let p = first[i];
        let mut ok = true;
        let mut k: usize = 0;
        while k < ts.len() && ok
            invariant
                k <= ts@.len(),
                tv == view_tokens(ts@),
                tv.len() == ts@.len(),
                first@ == doc_positions(d@, tv[0]),
                ok ==> forall|m: int| 0 <= m < k ==> #[trigger] phrase_term_at(d@, tv[m], p, m),
                !ok ==> !phrase_at(d@, tv, p),
            decreases ts@.len() - k,
        {
            if k as u64 > u64::MAX - p {
                proof {
                    assert(!phrase_term_at(d@, tv[k as int], p, k as int));
                    if phrase_at(d@, tv, p) {
                        assert(phrase_term_at(d@, tv[k as int], p, k as int));
                    }
                    assert(!phrase_at(d@, tv, p));
                }
                ok = false;
            } else {
                let target = p + (k as u64);
                let pk = d.positions_of(&ts[k]);
                if positions_contain(&pk, target) {
                    proof {
                        assert(phrase_term_at(d@, tv[k as int], p, k as int));
                    }
                } else {
                    proof {
                        assert(!phrase_term_at(d@, tv[k as int], p, k as int));
                        if phrase_at(d@, tv, p) {
                            assert(phrase_term_at(d@, tv[k as int], p, k as int));
                        }
                        assert(!phrase_at(d@, tv, p));
                    }
                    ok = false;
                }
            }
            k = k + 1;
        }
        if ok {
            proof {
                assert(phrase_at(d@, tv, p)) by {
                    assert forall|m: int|
                        0 <= m < tv.len() implies #[trigger] phrase_term_at(d@, tv[m], p, m) by {
                        assert(m < k);
                    }
                }
            }
            return true;
        }
        i = i + 1;
    }
    proof {
        assert forall|p: u64| !phrase_at(d@, tv, p) by {
            if phrase_at(d@, tv, p) {
                assert(phrase_term_at(d@, tv[0], p, 0));
                assert((p + 0) as u64 == p);
                assert(first@.contains(p));
                let j = choose|j: int| 0 <= j < first@.len() && first@[j] == p;
                assert(!phrase_at(d@, tv, first@[j]));
            }
        }
    }
    false
}

impl Query {
    /// The empty query, which matches nothing.
    pub fn new() -> (q: Query)
        ensures
            q@ == QueryV::Empty,
    {
        Query::Empty
    }

    /// A query matching every document, with no weight.
    pub fn new_match_all() -> (q: Query)
        ensures
            q@ == QueryV::All,
    {
        Query::All
    }

    /// A query for one term, taken byte-for-byte (no normalization).
    pub fn new_term(term: &str) -> (q: Query)
        ensures
            q@ == QueryV::Term(term.spec_bytes()),
    {
        Query::Term(term.as_bytes_vec())
    }

    /// A value test on a slot holding numbers in their sortable form
    /// (as stored by `Document::add_int` and `Document::add_long`).
    ///
    /// `OpValueRange` tests `begin <= value <= end`, `OpValueGe` tests
    /// `begin <= value`, `OpValueLe` tests `value <= end`; every other
    /// operator is an invalid argument.
    pub fn new_range(op: XapianOp, slot: u32, begin: i64, end: i64) -> (r: Result<Query, Error>)
        ensures
            op is OpValueRange ==> (r matches Ok(q) && q@ == QueryV::Range(
                slot,
                be_bytes_of(offset_of_i64(begin)),
                be_bytes_of(offset_of_i64(end)),
            )),
            op is OpValueGe ==> (r matches Ok(q) && q@ == QueryV::Ge(
                slot,
                be_bytes_of(offset_of_i64(begin)),
            )),
            op is OpValueLe ==> (r matches Ok(q) && q@ == QueryV::Le(
                slot,
                be_bytes_of(offset_of_i64(end)),
            )),
            !(op is OpValueRange || op is OpValueGe || op is OpValueLe) ==> (r matches Err(e) && e
                is InvalidArgument),
    {
        match op {
            XapianOp::OpValueRange => Ok(
                Query::Range(slot, crate::serial::serialise_i64(begin), crate::serial::serialise_i64(end)),
            ),
            XapianOp::OpValueGe => Ok(Query::Ge(slot, crate::serial::serialise_i64(begin))),
            XapianOp::OpValueLe => Ok(Query::Le(slot, crate::serial::serialise_i64(end))),
            _ => Err(Error::InvalidArgument),
        }
    }

    /// A phrase query over terms taken byte-for-byte.
    pub fn new_phrase(terms: Vec<Vec<u8>>) -> (q: Query)
        ensures
            q@ == QueryV::Phrase(view_tokens(terms@)),
    {
        Query::Phrase(terms)
    }

    /// A subquery whose weight is scaled by `factor` (saturating).
    pub fn new_scaled(factor: u64, sub: Query) -> (q: Query)
        ensures
            q@ == QueryV::Scaled(factor, Box::new(sub@)),
    {
        Query::Scaled(factor, Box::new(sub))
    }

    /// An identical copy of the query.
    pub fn duplicate(&self) -> (q: Query)
        ensures
            q@ == self@,
        decreases *self,
    {
        match self {
            Query::Empty => Query::Empty,
            Query::All => Query::All,
            Query::Term(t) => Query::Term(crate::doc::clone_bytes(t)),
            Query::Phrase(ts) => {
                let mut out: Vec<Vec<u8>> = Vec::new();
                let mut i: usize = 0;
                while i < ts.len()
                    invariant
                        i <= ts@.len(),
                        out@.len() == i,
                        view_tokens(out@) =~= view_tokens(ts@).take(i as int),
                    decreases ts@.len() - i,
                {
                    out.push(crate::doc::clone_bytes(&ts[i]));
                    proof {
                        assert(view_tokens(out@) =~= view_tokens(ts@).take(i as int + 1));
                    }
                    i = i + 1;
                }
                proof {
                    assert(view_tokens(ts@).take(ts@.len() as int) =~= view_tokens(ts@));
                }
                Query::Phrase(out)
            },
            Query::Range(slot, lo, hi) => Query::Range(
                *slot,
                crate::doc::clone_bytes(lo),
                crate::doc::clone_bytes(hi),
            ),
            Query::Ge(slot, lo) => Query::Ge(*slot, crate::doc::clone_bytes(lo)),
            Query::Le(slot, hi) => Query::Le(*slot, crate::doc::clone_bytes(hi)),
            Query::Pair(op, l, r) => Query::Pair(
                *op,
                Box::new(l.duplicate()),
                Box::new(r.duplicate()),
            ),
            Query::Scaled(f, s) => Query::Scaled(*f, Box::new(s.duplicate())),
        }
    }

    /// Combine this query with `q` under a binary operator.
    ///
    /// The binary operators are AND, OR, AND_NOT, XOR, AND_MAYBE, FILTER,
    /// ELITE_SET and SYNONYM.  The value tests, the weight scaler and the
    /// positional operators have dedicated constructors and are an invalid
    /// argument here.
    pub fn add_right(&self, op: XapianOp, q: &Query) -> (r: Result<Query, Error>)
        ensures
            binary_op(op) ==> (r matches Ok(c) && c@ == QueryV::Pair(
                op,
                Box::new(self@),
                Box::new(q@),
            )),
            !binary_op(op) ==> (r matches Err(e) && e is InvalidArgument),
    {
        match op {
            XapianOp::OpAnd | XapianOp::OpOr | XapianOp::OpAndNot | XapianOp::OpXor
                | XapianOp::OpAndMaybe | XapianOp::OpFilter | XapianOp::OpEliteSet
                | XapianOp::OpSynonym => Ok(
                Query::Pair(op, Box::new(self.duplicate()), Box::new(q.duplicate())),
            ),
            _ => Err(Error::InvalidArgument),
        }
    }

    /// Whether this is the empty query.
    pub fn is_empty(&self) -> (r: bool)
        ensures
            r == (self@ is Empty),
    {
        match self {
            Query::Empty => true,
            _ => false,
        }
    }

    /// A structural description of the query tree, for diagnostics: the
    /// shape and the operators, without term or value bytes.
    pub fn get_description(&self) -> (r: String)
        ensures
            r@ == desc_chars(self@),
        decreases *self,
    {
        match self {
            Query::Empty => String::from_str("Query()"),
            Query::All => String::from_str("Query(<alldocuments>)"),
            Query::Term(_) => String::from_str("Query(term)"),
            Query::Phrase(_) => String::from_str("Query(phrase)"),
            Query::Range(_, _, _) => String::from_str("Query(value_range)"),
            Query::Ge(_, _) => String::from_str("Query(value_ge)"),
            Query::Le(_, _) => String::from_str("Query(value_le)"),
            Query::Scaled(_, s) => {
                let mut out = String::from_str("Query(scale ");
                let sub = s.get_description();
                out.append(sub.as_str());
                out.append(")");
                out
            },
            Query::Pair(op, l, r) => {
                let mut out = String::from_str("Query(");
                out.append(op_name_exec(*op));
                out.append(" ");
                let ld = l.get_description();
                out.append(ld.as_str());
                out.append(" ");
                let rd = r.get_description();
                out.append(rd.as_str());
                out.append(")");
                out
            },
        }
    }

    /// Whether the query has no content: it is empty, or only scales an
    /// empty query.
    pub fn is_empty_content_query(&self) -> (r: bool)
        ensures
            r == empty_content(self@),
        decreases *self,
    {
        match self {
            Query::Empty => true,
            Query::Scaled(_, s) => s.is_empty_content_query(),
            _ => false,
        }
    }

    /// Whether the query selects and weighs the document; computes
    /// exactly [`matches`] and [`weight_of`].
    pub fn eval(&self, d: &Document) -> (r: (bool, u64))
        ensures
            r.0 == matches(self@, d@),
            r.1 == weight_of(self@, d@),
        decreases *self,
    {
        match self {
            Query::Empty => (false, 0),
            Query::All => (true, 0),
            Query::Term(t) => (d.has_term(t), d.wdf_of(t)),
            Query::Phrase(ts) => {
                let m = phrase_check(d, ts);
                let mut w: u64 = 0;
                let mut i: usize = 0;
                proof {
                    assert(view_tokens(ts@).skip(0) =~= view_tokens(ts@));
                }
                while i < ts.len()
                    invariant
                        i <= ts@.len(),
                        phrase_weight(view_tokens(ts@), d@) == phrase_weight_acc(
                            view_tokens(ts@).skip(i as int),
                            d@,
                            w,
                        ),
                    decreases ts@.len() - i,
                {
                    let wk = d.wdf_of(&ts[i]);
                    proof {
                        assert(view_tokens(ts@).skip(i as int)[0] == view_tokens(ts@)[i as int]);
                        assert(view_tokens(ts@).skip(i as int).drop_first() =~= view_tokens(
                            ts@,
                        ).skip(i as int + 1));
                    }
                    w = w.saturating_add(wk);
                    i = i + 1;
                }
                proof {
                    assert(view_tokens(ts@).skip(ts@.len() as int).len() == 0);
                }
                (m, w)
            },
            Query::Range(slot, lo, hi) => {
                match d.get_value(*slot) {
                    Some(v) => (
                        crate::bytes::bytes_le(lo, &v) && crate::bytes::bytes_le(&v, hi),
                        0,
                    ),
                    None => (false, 0),
                }
            },
            Query::Ge(slot, lo) => {
                match d.get_value(*slot) {
                    Some(v) => (crate::bytes::bytes_le(lo, &v), 0),
                    None => (false, 0),
                }
            },
            Query::Le(slot, hi) => {
                match d.get_value(*slot) {
                    Some(v) => (crate::bytes::bytes_le(&v, hi), 0),
                    None => (false, 0),
                }
            },
            Query::Pair(op, l, r) => {
                let (ml, wl) = l.eval(d);
                let (mr, wr) = r.eval(d);
                let cl = if ml {
                    wl
                } else {
                    0
                };
                let cr = if mr {
                    wr
                } else {
                    0
                };
                match op {
                    XapianOp::OpAnd => (ml && mr, cl.saturating_add(cr)),
                    XapianOp::OpOr => (ml || mr, cl.saturating_add(cr)),
                    XapianOp::OpAndNot => (ml && !mr, cl),
                    XapianOp::OpXor => (ml != mr, cl.saturating_add(cr)),
                    XapianOp::OpAndMaybe => (ml, cl.saturating_add(cr)),
                    XapianOp::OpFilter => (ml && mr, cl),
                    XapianOp::OpEliteSet => (ml || mr, cl.saturating_add(cr)),
                    XapianOp::OpSynonym => (ml || mr, cl.saturating_add(cr)),
                    _ => (false, 0),
                }
            },
            Query::Scaled(f, s) => {
                let (m, w) = s.eval(d);
                let sw = match f.checked_mul(w) {
                    Some(p) => p,
                    None => u64::MAX,
                };
                (m, sw)
            },
        }
    }
}

/// The name of an operator in a query description.
pub open spec fn op_name(op: XapianOp) -> Seq<char> {
    match op {
        XapianOp::OpAnd => "and"@,
        XapianOp::OpOr => "or"@,
        XapianOp::OpAndNot => "and_not"@,
        XapianOp::OpXor => "xor"@,
        XapianOp::OpAndMaybe => "and_maybe"@,
        XapianOp::OpFilter => "filter"@,
        XapianOp::OpNear => "near"@,
        XapianOp::OpPhrase => "phrase"@,
        XapianOp::OpValueRange => "value_range"@,
        XapianOp::OpScaleWeight => "scale_weight"@,
        XapianOp::OpEliteSet => "elite_set"@,
        XapianOp::OpValueGe => "value_ge"@,
        XapianOp::OpValueLe => "value_le"@,
        XapianOp::OpSynonym => "synonym"@,
    }
}

/// The name of an operator, executably.
fn op_name_exec(op: XapianOp) -> (r: &'static str)
    ensures
        r@ == op_name(op),
{
    match op {
        XapianOp::OpAnd => "and",
        XapianOp::OpOr => "or",
        XapianOp::OpAndNot => "and_not",
        XapianOp::OpXor => "xor",
        XapianOp::OpAndMaybe => "and_maybe",
        XapianOp::OpFilter => "filter",
        XapianOp::OpNear => "near",
        XapianOp::OpPhrase => "phrase",
        XapianOp::OpValueRange => "value_range",
        XapianOp::OpScaleWeight => "scale_weight",
        XapianOp::OpEliteSet => "elite_set",
        XapianOp::OpValueGe => "value_ge",
        XapianOp::OpValueLe => "value_le",
        XapianOp::OpSynonym => "synonym",
    }
}

/// A structural description of a query tree.
pub open spec fn desc_chars(q: QueryV) -> Seq<char>
    decreases q,
{
    match q {
        QueryV::Empty => "Query()"@,
        QueryV::All => "Query(<alldocuments>)"@,
        QueryV::Term(_) => "Query(term)"@,
        QueryV::Phrase(_) => "Query(phrase)"@,
        QueryV::Range(_, _, _) => "Query(value_range)"@,
        QueryV::Ge(_, _) => "Query(value_ge)"@,
        QueryV::Le(_, _) => "Query(value_le)"@,
        QueryV::Scaled(_, s) => "Query(scale "@ + desc_chars(*s) + ")"@,
        QueryV::Pair(op, l, r) => "Query("@ + op_name(op) + " "@ + desc_chars(*l) + " "@
            + desc_chars(*r) + ")"@,
    }
}

/// Whether the operator is one of the plain binary combinators.
pub open spec fn binary_op(op: XapianOp) -> bool {
    op is OpAnd || op is OpOr || op is OpAndNot || op is OpXor || op is OpAndMaybe || op
        is OpFilter || op is OpEliteSet || op is OpSynonym
}

/// Whether the query has no content.
pub open spec fn empty_content(q: QueryV) -> bool
    decreases q,
{
    match q {
        QueryV::Empty => true,
        QueryV::Scaled(_, s) => empty_content(*s),
        _ => false,
    }
}

} // verus!

