//! The segment codec: the committed state as bytes, and back.
//!
//! Commit is the durability boundary, so the committed state must be able
//! to outlive the process.  This module fixes the segment layout: every
//! number is eight bytes, most significant first ([`crate::serial`]);
//! byte strings are length-prefixed; payload characters are stored as
//! their code points; documents carry their id, postings and values in
//! order, behind the revision, the next free id, and the document count.
//!
//! [`encode_state`] writes a writer's committed state in that layout,
//! [`decode_writable`] and [`decode_database`] read it back, rejecting
//! anything malformed with `DatabaseCorrupt`, and
//! [`lemma_codec_round_trip`] proves that decoding an encoded state gives
//! it back exactly.  Reading and writing the segment file is the caller's
//! (I/O) side.

use vstd::prelude::*;

use crate::db::{docs_sorted, view_docs, Database, StoredDoc, WritableDatabase};
use crate::doc::{
    distinct_slots, distinct_terms, doc_wf, DocModel, Document, SlotValue, TermEntry, TermPosting,
};
use crate::errors::Error;
use crate::serial::{be_bytes_of, be_value_of, lemma_u64_round_trip, serialise_u64};

verus! {

/// Relies on `char::from_u32`: `Some` exactly for the Unicode scalar
/// values (below the surrogate range, or between it and the maximum code
/// point), and the returned character is that code point.
pub assume_specification[ char::from_u32 ](x: u32) -> (r: Option<char>)
    ensures
        (r matches Some(c) && c as u32 == x) || r is None,
        (x < 0xD800 || (0xE000 <= x && x <= 0x10FFFF)) <==> r is Some,
;

/// Relies on `String::push`: appends the one character to the string.
pub assume_specification[ String::push ](s: &mut String, c: char)
    ensures
        final(s)@ == old(s)@.push(c),
;

/// An eight-byte number.
pub open spec fn enc_u64(x: u64) -> Seq<u8> {
    be_bytes_of(x)
}

/// A length-prefixed byte string.
pub open spec fn enc_bytes(b: Seq<u8>) -> Seq<u8> {
    enc_u64(b.len() as u64) + b
}

/// Positions, one number each.
pub open spec fn enc_positions(ps: Seq<u64>) -> Seq<u8>
    decreases ps.len(),
{
    if ps.len() == 0 {
        Seq::empty()
    } else {
        enc_u64(ps[0]) + enc_positions(ps.drop_first())
    }
}

/// One posting: the term, its frequency, and its positions with a count.
pub open spec fn enc_posting(e: TermPosting) -> Seq<u8> {
    enc_bytes(e.term) + enc_u64(e.wdf) + enc_u64(e.positions.len() as u64) + enc_positions(
        e.positions,
    )
}

/// Postings, in order.
pub open spec fn enc_postings(ts: Seq<TermPosting>) -> Seq<u8>
    decreases ts.len(),
{
    if ts.len() == 0 {
        Seq::empty()
    } else {
        enc_posting(ts[0]) + enc_postings(ts.drop_first())
    }
}

/// Payload characters, one code point each.
pub open spec fn enc_chars(cs: Seq<char>) -> Seq<u8>
    decreases cs.len(),
{
    if cs.len() == 0 {
        Seq::empty()
    } else {
        enc_u64(cs[0] as u64) + enc_chars(cs.drop_first())
    }
}

/// One value slot: the slot number and the value bytes.
pub open spec fn enc_value(v: (u32, Seq<u8>)) -> Seq<u8> {
    enc_u64(v.0 as u64) + enc_bytes(v.1)
}

/// Value slots, in order.
pub open spec fn enc_values(vs: Seq<(u32, Seq<u8>)>) -> Seq<u8>
    decreases vs.len(),
{
    if vs.len() == 0 {
        Seq::empty()
    } else {
        enc_value(vs[0]) + enc_values(vs.drop_first())
    }
}

/// One document: payload, postings and values, each with a count.
pub open spec fn enc_doc(d: DocModel) -> Seq<u8> {
    enc_u64(d.data.len() as u64) + enc_chars(d.data) + enc_u64(d.terms.len() as u64) + enc_postings(
        d.terms,
    ) + enc_u64(d.values.len() as u64) + enc_values(d.values)
}

/// Stored documents, in order, each behind its id.
pub open spec fn enc_docs(docs: Seq<(u64, DocModel)>) -> Seq<u8>
    decreases docs.len(),
{
    if docs.len() == 0 {
        Seq::empty()
    } else {
        enc_u64(docs[0].0) + enc_doc(docs[0].1) + enc_docs(docs.drop_first())
    }
}

/// A whole committed state: revision, next free id, and the documents
/// with a count.
pub open spec fn enc_image(docs: Seq<(u64, DocModel)>, next_id: u64, revision: u64) -> Seq<u8> {
    enc_u64(revision) + enc_u64(next_id) + enc_u64(docs.len() as u64) + enc_docs(docs)
}

/// Whether a Unicode code point is a scalar value (encodable character).
pub open spec fn valid_scalar(x: u64) -> bool {
    x < 0xD800 || (0xE000 <= x && x <= 0x10FFFF)
}

/// Read an eight-byte number.
pub open spec fn dec_u64(s: Seq<u8>, p: int) -> Option<(u64, int)> {
    if 0 <= p && p + 8 <= s.len() {
        Some((be_value_of(s.subrange(p, p + 8)), p + 8))
    } else {
        None
    }
}

/// Read a length-prefixed byte string.
pub open spec fn dec_bytes(s: Seq<u8>, p: int) -> Option<(Seq<u8>, int)> {
    match dec_u64(s, p) {
        Some((n, p1)) => if p1 + n <= s.len() {
            Some((s.subrange(p1, p1 + n), p1 + n))
        } else {
            None
        },
        None => None,
    }
}

/// Read `n` positions.
pub open spec fn dec_positions(s: Seq<u8>, p: int, n: int) -> Option<(Seq<u64>, int)>
    decreases n,
{
    if n <= 0 {
        Some((Seq::empty(), p))
    } else {
        match dec_u64(s, p) {
            Some((x, p1)) => match dec_positions(s, p1, n - 1) {
                Some((rest, p2)) => Some((seq![x] + rest, p2)),
                None => None,
            },
            None => None,
        }
    }
}

/// Read one posting.
pub open spec fn dec_posting(s: Seq<u8>, p: int) -> Option<(TermPosting, int)> {
    match dec_bytes(s, p) {
        Some((term, p1)) => match dec_u64(s, p1) {
            Some((wdf, p2)) => match dec_u64(s, p2) {
                Some((n, p3)) => match dec_positions(s, p3, n as int) {
                    Some((positions, p4)) => Some((TermPosting { term, wdf, positions }, p4)),
                    None => None,
                },
                None => None,
            },
            None => None,
        },
        None => None,
    }
}

/// Read `n` postings.
pub open spec fn dec_postings(s: Seq<u8>, p: int, n: int) -> Option<(Seq<TermPosting>, int)>
    decreases n,
{
    if n <= 0 {
        Some((Seq::empty(), p))
    } else {
        match dec_posting(s, p) {
            Some((e, p1)) => match dec_postings(s, p1, n - 1) {
                Some((rest, p2)) => Some((seq![e] + rest, p2)),
                None => None,
            },
            None => None,
        }
    }
}

/// Read `n` payload characters.
pub open spec fn dec_chars(s: Seq<u8>, p: int, n: int) -> Option<(Seq<char>, int)>
    decreases n,
{
    if n <= 0 {
        Some((Seq::empty(), p))
    } else {
        match dec_u64(s, p) {
            Some((x, p1)) => if valid_scalar(x) {
                match dec_chars(s, p1, n - 1) {
                    Some((rest, p2)) => Some((seq![x as char] + rest, p2)),
                    None => None,
                }
            } else {
                None
            },
            None => None,
        }
    }
}

/// Read one value slot.
pub open spec fn dec_value(s: Seq<u8>, p: int) -> Option<((u32, Seq<u8>), int)> {
    match dec_u64(s, p) {
        Some((slot, p1)) => if slot <= u32::MAX {
            match dec_bytes(s, p1) {
                Some((value, p2)) => Some(((slot as u32, value), p2)),
                None => None,
            }
        } else {
            None
        },
        None => None,
    }
}

/// Read `n` value slots.
pub open spec fn dec_values(s: Seq<u8>, p: int, n: int) -> Option<(Seq<(u32, Seq<u8>)>, int)>
    decreases n,
{
    if n <= 0 {
        Some((Seq::empty(), p))
    } else {
        match dec_value(s, p) {
            Some((v, p1)) => match dec_values(s, p1, n - 1) {
                Some((rest, p2)) => Some((seq![v] + rest, p2)),
                None => None,
            },
            None => None,
        }
    }
}

/// Read one document.
pub open spec fn dec_doc(s: Seq<u8>, p: int) -> Option<(DocModel, int)> {
    match dec_u64(s, p) {
        Some((nd, p1)) => match dec_chars(s, p1, nd as int) {
            Some((data, p2)) => match dec_u64(s, p2) {
                Some((nt, p3)) => match dec_postings(s, p3, nt as int) {
                    Some((terms, p4)) => match dec_u64(s, p4) {
                        Some((nv, p5)) => match dec_values(s, p5, nv as int) {
                            Some((values, p6)) => Some((DocModel { data, terms, values }, p6)),
                            None => None,
                        },
                        None => None,
                    },
                    None => None,
                },
                None => None,
            },
            None => None,
        },
        None => None,
    }
}

/// Read `n` stored documents.
pub open spec fn dec_docs(s: Seq<u8>, p: int, n: int) -> Option<(Seq<(u64, DocModel)>, int)>
    decreases n,
{
    if n <= 0 {
        Some((Seq::empty(), p))
    } else {
        match dec_u64(s, p) {
            Some((id, p1)) => match dec_doc(s, p1) {
                Some((d, p2)) => match dec_docs(s, p2, n - 1) {
                    Some((rest, p3)) => Some((seq![(id, d)] + rest, p3)),
                    None => None,
                },
                None => None,
            },
            None => None,
        }
    }
}

/// Read a whole committed state.
pub open spec fn dec_image(s: Seq<u8>, p: int) -> Option<((Seq<(u64, DocModel)>, u64, u64), int)> {
    match dec_u64(s, p) {
        Some((revision, p1)) => match dec_u64(s, p1) {
            Some((next_id, p2)) => match dec_u64(s, p2) {
                Some((n, p3)) => match dec_docs(s, p3, n as int) {
                    Some((docs, p4)) => Some(((docs, next_id, revision), p4)),
                    None => None,
                },
                None => None,
            },
            None => None,
        },
        None => None,
    }
}


/// Collection lengths small enough for their eight-byte counts.
pub open spec fn fits_posting(e: TermPosting) -> bool {
    e.term.len() <= u64::MAX && e.positions.len() <= u64::MAX
}

/// Collection lengths small enough for their eight-byte counts.
pub open spec fn fits_doc(d: DocModel) -> bool {
    &&& d.data.len() <= u64::MAX
    &&& d.terms.len() <= u64::MAX
    &&& d.values.len() <= u64::MAX
    &&& forall|i: int| 0 <= i < d.terms.len() ==> fits_posting(#[trigger] d.terms[i])
    &&& forall|i: int| 0 <= i < d.values.len() ==> (#[trigger] d.values[i]).1.len() <= u64::MAX
}

/// Collection lengths small enough for their eight-byte counts.
pub open spec fn fits_docs(docs: Seq<(u64, DocModel)>) -> bool {
    docs.len() <= u64::MAX && (forall|i: int|
        0 <= i < docs.len() ==> fits_doc(#[trigger] docs[i].1))
}

/// A window holding a concatenation splits into its two parts.
#[verifier::spinoff_prover]
#[verifier::rlimit(100)]
proof fn lemma_split_at(s: Seq<u8>, p: int, a: Seq<u8>, b: Seq<u8>)
    requires
        0 <= p,
        p + a.len() + b.len() <= s.len(),
        s.subrange(p, p + a.len() + b.len()) == a + b,
    ensures
        s.subrange(p, p + a.len()) == a,
        s.subrange(p + a.len(), p + a.len() + b.len()) == b,
{
    assert forall|j: int| 0 <= j < a.len() implies s.subrange(p, p + a.len())[j] == a[j] by {
        assert(s.subrange(p, p + a.len() + b.len())[j] == (a + b)[j]);
        assert((a + b)[j] == a[j]);
        assert(s.subrange(p, p + a.len() + b.len())[j] == s[p + j]);
        assert(s.subrange(p, p + a.len())[j] == s[p + j]);
    }
    assert(s.subrange(p, p + a.len()) =~= a);
    assert forall|j: int|
        0 <= j < b.len() implies s.subrange(p + a.len(), p + a.len() + b.len())[j] == b[j] by {
        assert(s.subrange(p, p + a.len() + b.len())[a.len() + j] == (a + b)[a.len() + j]);
        assert((a + b)[a.len() + j] == b[j]);
        assert(s.subrange(p, p + a.len() + b.len())[a.len() + j] == s[p + a.len() + j]);
        assert(s.subrange(p + a.len(), p + a.len() + b.len())[j] == s[p + a.len() + j]);
    }
    assert(s.subrange(p + a.len(), p + a.len() + b.len()) =~= b);
}

/// A window holding an encoded number decodes to it.
#[verifier::spinoff_prover]
#[verifier::rlimit(100)]
proof fn lemma_dec_u64_at(s: Seq<u8>, p: int, x: u64)
    requires
        0 <= p,
        p + 8 <= s.len(),
        s.subrange(p, p + 8) == enc_u64(x),
    ensures
        dec_u64(s, p) == Some((x, p + 8)),
{
    lemma_u64_round_trip(x);
}

/// A window holding an encoded byte string decodes to it.
#[verifier::spinoff_prover]
#[verifier::rlimit(100)]
proof fn lemma_dec_bytes_at(s: Seq<u8>, p: int, b: Seq<u8>)
    requires
        0 <= p,
        b.len() <= u64::MAX,
        p + enc_bytes(b).len() <= s.len(),
        s.subrange(p, p + enc_bytes(b).len()) == enc_bytes(b),
    ensures
        dec_bytes(s, p) == Some((b, p + enc_bytes(b).len())),
        enc_bytes(b).len() == 8 + b.len(),
{
    lemma_split_at(s, p, enc_u64(b.len() as u64), b);
    lemma_dec_u64_at(s, p, b.len() as u64);
    assert(s.subrange(p + 8, p + 8 + b.len()) == b);
}

/// A window holding encoded positions decodes to them.
#[verifier::spinoff_prover]
#[verifier::rlimit(100)]
proof fn lemma_dec_positions_at(s: Seq<u8>, p: int, ps: Seq<u64>)
    requires
        0 <= p,
        p + enc_positions(ps).len() <= s.len(),
        s.subrange(p, p + enc_positions(ps).len()) == enc_positions(ps),
    ensures
        dec_positions(s, p, ps.len() as int) == Some((ps, p + enc_positions(ps).len())),
    decreases ps.len(),
{
    if ps.len() == 0 {
        assert(dec_positions(s, p, 0) == Some((Seq::<u64>::empty(), p)));
        assert(ps =~= Seq::<u64>::empty());
    } else {
        let rest = enc_positions(ps.drop_first());
        lemma_split_at(s, p, enc_u64(ps[0]), rest);
        lemma_dec_u64_at(s, p, ps[0]);
        lemma_dec_positions_at(s, p + 8, ps.drop_first());
        assert(seq![ps[0]] + ps.drop_first() =~= ps);
    }
}

/// A window holding an encoded posting decodes to it.
#[verifier::spinoff_prover]
#[verifier::rlimit(100)]
proof fn lemma_dec_posting_at(s: Seq<u8>, p: int, e: TermPosting)
    requires
        0 <= p,
        fits_posting(e),
        p + enc_posting(e).len() <= s.len(),
        s.subrange(p, p + enc_posting(e).len()) == enc_posting(e),
    ensures
        dec_posting(s, p) == Some((e, p + enc_posting(e).len())),
{
    let a = enc_bytes(e.term);
    let b = enc_u64(e.wdf);
    let c = enc_u64(e.positions.len() as u64);
    let d = enc_positions(e.positions);
    assert(enc_posting(e) =~= a + (b + (c + d)));
    lemma_split_at(s, p, a, b + (c + d));
    lemma_dec_bytes_at(s, p, e.term);
    let p1 = p + a.len();
    lemma_split_at(s, p1, b, c + d);
    lemma_dec_u64_at(s, p1, e.wdf);
    let p2 = p1 + 8;
    lemma_split_at(s, p2, c, d);
    lemma_dec_u64_at(s, p2, e.positions.len() as u64);
    let p3 = p2 + 8;
    lemma_dec_positions_at(s, p3, e.positions);
    assert(TermPosting { term: e.term, wdf: e.wdf, positions: e.positions } == e);
}

/// A window holding encoded postings decodes to them.
#[verifier::spinoff_prover]
#[verifier::rlimit(100)]
proof fn lemma_dec_postings_at(s: Seq<u8>, p: int, ts: Seq<TermPosting>)
    requires
        0 <= p,
        forall|i: int| 0 <= i < ts.len() ==> fits_posting(#[trigger] ts[i]),
        p + enc_postings(ts).len() <= s.len(),
        s.subrange(p, p + enc_postings(ts).len()) == enc_postings(ts),
    ensures
        dec_postings(s, p, ts.len() as int) == Some((ts, p + enc_postings(ts).len())),
    decreases ts.len(),
{
    if ts.len() == 0 {
        assert(ts =~= Seq::<TermPosting>::empty());
    } else {
        let rest = enc_postings(ts.drop_first());
        lemma_split_at(s, p, enc_posting(ts[0]), rest);
        lemma_dec_posting_at(s, p, ts[0]);
        let p1 = p + enc_posting(ts[0]).len();
        assert(forall|i: int|
            0 <= i < ts.drop_first().len() ==> fits_posting(#[trigger] ts.drop_first()[i]));
        lemma_dec_postings_at(s, p1, ts.drop_first());
        assert(seq![ts[0]] + ts.drop_first() =~= ts);
    }
}

/// Every character is a Unicode scalar value, and converting it to its
/// code point and back gives it back.
proof fn lemma_char_scalar(c: char)
    ensures
        valid_scalar(c as u64),
        ((c as u64) as char) == c,
{
}

/// A window holding encoded characters decodes to them.
#[verifier::rlimit(100)]
proof fn lemma_dec_chars_at(s: Seq<u8>, p: int, cs: Seq<char>)
    requires
        0 <= p,
        p + enc_chars(cs).len() <= s.len(),
        s.subrange(p, p + enc_chars(cs).len()) == enc_chars(cs),
    ensures
        dec_chars(s, p, cs.len() as int) == Some((cs, p + enc_chars(cs).len())),
    decreases cs.len(),
{
    if cs.len() == 0 {
        assert(cs =~= Seq::<char>::empty());
    } else {
        let rest = enc_chars(cs.drop_first());
        lemma_char_scalar(cs[0]);
        lemma_split_at(s, p, enc_u64(cs[0] as u64), rest);
        lemma_dec_u64_at(s, p, cs[0] as u64);
        lemma_dec_chars_at(s, p + 8, cs.drop_first());
        assert(seq![cs[0]] + cs.drop_first() =~= cs);
    }
}

/// A window holding an encoded value slot decodes to it.
#[verifier::spinoff_prover]
#[verifier::rlimit(100)]
proof fn lemma_dec_value_at(s: Seq<u8>, p: int, v: (u32, Seq<u8>))
    requires
        0 <= p,
        v.1.len() <= u64::MAX,
        p + enc_value(v).len() <= s.len(),
        s.subrange(p, p + enc_value(v).len()) == enc_value(v),
    ensures
        dec_value(s, p) == Some((v, p + enc_value(v).len())),
{
    let a = enc_u64(v.0 as u64);
    let b = enc_bytes(v.1);
    assert(enc_value(v) =~= a + b);
    lemma_split_at(s, p, a, b);
    lemma_dec_u64_at(s, p, v.0 as u64);
    lemma_dec_bytes_at(s, p + 8, v.1);
    assert(((v.0 as u64) as u32, v.1) == v);
}

/// A window holding encoded value slots decodes to them.
#[verifier::spinoff_prover]
#[verifier::rlimit(100)]
proof fn lemma_dec_values_at(s: Seq<u8>, p: int, vs: Seq<(u32, Seq<u8>)>)
    requires
        0 <= p,
        forall|i: int| 0 <= i < vs.len() ==> (#[trigger] vs[i]).1.len() <= u64::MAX,
        p + enc_values(vs).len() <= s.len(),
        s.subrange(p, p + enc_values(vs).len()) == enc_values(vs),
    ensures
        dec_values(s, p, vs.len() as int) == Some((vs, p + enc_values(vs).len())),
    decreases vs.len(),
{
    if vs.len() == 0 {
        assert(vs =~= Seq::<(u32, Seq<u8>)>::empty());
    } else {
        let rest = enc_values(vs.drop_first());
        lemma_split_at(s, p, enc_value(vs[0]), rest);
        lemma_dec_value_at(s, p, vs[0]);
        assert(forall|i: int|
            0 <= i < vs.drop_first().len() ==> (#[trigger] vs.drop_first()[i]).1.len()
                <= u64::MAX);
        lemma_dec_values_at(s, p + enc_value(vs[0]).len(), vs.drop_first());
        assert(seq![vs[0]] + vs.drop_first() =~= vs);
    }
}

/// A window holding an encoded document decodes to it.
#[verifier::spinoff_prover]
#[verifier::rlimit(100)]
proof fn lemma_dec_doc_at(s: Seq<u8>, p: int, d: DocModel)
    requires
        0 <= p,
        fits_doc(d),
        p + enc_doc(d).len() <= s.len(),
        s.subrange(p, p + enc_doc(d).len()) == enc_doc(d),
    ensures
        dec_doc(s, p) == Some((d, p + enc_doc(d).len())),
{
    let a = enc_u64(d.data.len() as u64);
    let b = enc_chars(d.data);
    let c = enc_u64(d.terms.len() as u64);
    let e = enc_postings(d.terms);
    let f = enc_u64(d.values.len() as u64);
    let g = enc_values(d.values);
    assert(enc_doc(d) =~= a + (b + (c + (e + (f + g)))));
    lemma_split_at(s, p, a, b + (c + (e + (f + g))));
    lemma_dec_u64_at(s, p, d.data.len() as u64);
    let p1 = p + 8;
    lemma_split_at(s, p1, b, c + (e + (f + g)));
    lemma_dec_chars_at(s, p1, d.data);
    let p2 = p1 + b.len();
    lemma_split_at(s, p2, c, e + (f + g));
    lemma_dec_u64_at(s, p2, d.terms.len() as u64);
    let p3 = p2 + 8;
    lemma_split_at(s, p3, e, f + g);
    lemma_dec_postings_at(s, p3, d.terms);
    let p4 = p3 + e.len();
    lemma_split_at(s, p4, f, g);
    lemma_dec_u64_at(s, p4, d.values.len() as u64);
    let p5 = p4 + 8;
    lemma_dec_values_at(s, p5, d.values);
    assert(DocModel { data: d.data, terms: d.terms, values: d.values } == d);
}

/// A window holding encoded documents decodes to them.
#[verifier::spinoff_prover]
#[verifier::rlimit(100)]
proof fn lemma_dec_docs_at(s: Seq<u8>, p: int, docs: Seq<(u64, DocModel)>)
    requires
        0 <= p,
        forall|i: int| 0 <= i < docs.len() ==> fits_doc(#[trigger] docs[i].1),
        p + enc_docs(docs).len() <= s.len(),
        s.subrange(p, p + enc_docs(docs).len()) == enc_docs(docs),
    ensures
        dec_docs(s, p, docs.len() as int) == Some((docs, p + enc_docs(docs).len())),
    decreases docs.len(),
{
    if docs.len() == 0 {
        assert(docs =~= Seq::<(u64, DocModel)>::empty());
    } else {
        let a = enc_u64(docs[0].0);
        let b = enc_doc(docs[0].1);
        let rest = enc_docs(docs.drop_first());
        assert(enc_docs(docs) =~= a + (b + rest));
        lemma_split_at(s, p, a, b + rest);
        lemma_dec_u64_at(s, p, docs[0].0);
        let p1 = p + 8;
        lemma_split_at(s, p1, b, rest);
        lemma_dec_doc_at(s, p1, docs[0].1);
        let p2 = p1 + b.len();
        assert(forall|i: int|
            0 <= i < docs.drop_first().len() ==> fits_doc(#[trigger] docs.drop_first()[i].1));
        lemma_dec_docs_at(s, p2, docs.drop_first());
        assert(seq![docs[0]] + docs.drop_first() =~= docs);
    }
}

/// Decoding an encoded committed state gives it back exactly, with the
/// whole byte string consumed.
#[verifier::spinoff_prover]
#[verifier::rlimit(100)]
pub proof fn lemma_codec_round_trip(docs: Seq<(u64, DocModel)>, next_id: u64, revision: u64)
    requires
        fits_docs(docs),
    ensures
        dec_image(enc_image(docs, next_id, revision), 0) == Some(
            ((docs, next_id, revision), enc_image(docs, next_id, revision).len() as int),
        ),
{
    let s = enc_image(docs, next_id, revision);
    let a = enc_u64(revision);
    let b = enc_u64(next_id);
    let c = enc_u64(docs.len() as u64);
    let d = enc_docs(docs);
    assert(s.subrange(0, s.len() as int) =~= s);
    assert(s =~= a + (b + (c + d)));
    lemma_split_at(s, 0, a, b + (c + d));
    lemma_dec_u64_at(s, 0, revision);
    lemma_split_at(s, 8, b, c + d);
    lemma_dec_u64_at(s, 8, next_id);
    lemma_split_at(s, 16, c, d);
    lemma_dec_u64_at(s, 16, docs.len() as u64);
    lemma_dec_docs_at(s, 24, docs);
}


/// Append an eight-byte number.
fn push_u64(out: &mut Vec<u8>, x: u64)
    ensures
        final(out)@ == old(out)@ + enc_u64(x),
{
    let b = serialise_u64(x);
    let ghost out0 = out@;
    let mut k: usize = 0;
    while k < b.len()
        invariant
            k <= b@.len(),
            b@ == be_bytes_of(x),
            out@ == out0 + b@.take(k as int),
        decreases b@.len() - k,
    {
        out.push(b[k]);
        proof {
            assert(out0 + b@.take(k as int + 1) =~= (out0 + b@.take(k as int)).push(b@[k as int]));
        }
        k = k + 1;
    }
    proof {
        assert(b@.take(b@.len() as int) =~= b@);
    }
}

/// Append a length-prefixed byte string.
fn push_bytes(out: &mut Vec<u8>, b: &Vec<u8>)
    ensures
        final(out)@ == old(out)@ + enc_bytes(b@),
{
    let n = b.len();
    push_u64(out, n as u64);
    let ghost out1 = out@;
    let mut k: usize = 0;
    while k < b.len()
        invariant
            k <= b@.len(),
            out@ == out1 + b@.take(k as int),
        decreases b@.len() - k,
    {
        out.push(b[k]);
        proof {
            assert(out1 + b@.take(k as int + 1) =~= (out1 + b@.take(k as int)).push(b@[k as int]));
        }
        k = k + 1;
    }
    proof {
        assert(b@.take(b@.len() as int) =~= b@);
        assert(old(out)@ + enc_bytes(b@) =~= (old(out)@ + enc_u64(b@.len() as u64)) + b@);
    }
}

/// Append the positions.
fn push_positions(out: &mut Vec<u8>, ps: &Vec<u64>)
    ensures
        final(out)@ == old(out)@ + enc_positions(ps@),
{
    let ghost out0 = out@;
    let ghost all = ps@;
    let mut k: usize = 0;
    proof {
        assert(all.skip(0) =~= all);
    }
    while k < ps.len()
        invariant
            k <= ps@.len(),
            all == ps@,
            out0 + enc_positions(all) == out@ + enc_positions(all.skip(k as int)),
        decreases ps@.len() - k,
    {
        proof {
            assert(all.skip(k as int)[0] == all[k as int]);
            assert(all.skip(k as int).drop_first() =~= all.skip(k as int + 1));
        }
        let ghost before = out@;
        push_u64(out, ps[k]);
        proof {
            assert(before + (enc_u64(all[k as int]) + enc_positions(all.skip(k as int + 1)))
                =~= (before + enc_u64(all[k as int])) + enc_positions(all.skip(k as int + 1)));
        }
        k = k + 1;
    }
    proof {
        assert(enc_positions(all.skip(ps@.len() as int)) =~= Seq::<u8>::empty());
        assert(out@ + Seq::<u8>::empty() =~= out@);
    }
}

/// Append one posting.
fn push_posting(out: &mut Vec<u8>, e: &TermEntry)
    ensures
        final(out)@ == old(out)@ + enc_posting(e@),
{
    let ghost out0 = out@;
    push_bytes(out, &e.term);
    push_u64(out, e.wdf);
    push_u64(out, e.positions.len() as u64);
    push_positions(out, &e.positions);
    proof {
        assert(out@ =~= out0 + enc_posting(e@));
    }
}

/// Append the postings.
fn push_postings(out: &mut Vec<u8>, ts: &Vec<TermEntry>)
    ensures
        final(out)@ == old(out)@ + enc_postings(crate::doc::view_terms(ts@)),
{
    let ghost out0 = out@;
    let ghost all = crate::doc::view_terms(ts@);
    let mut k: usize = 0;
    proof {
        assert(all.skip(0) =~= all);
    }
    while k < ts.len()
        invariant
            k <= ts@.len(),
            all == crate::doc::view_terms(ts@),
            out0 + enc_postings(all) == out@ + enc_postings(all.skip(k as int)),
        decreases ts@.len() - k,
    {
        proof {
            assert(all.skip(k as int)[0] == all[k as int]);
            assert(all.skip(k as int).drop_first() =~= all.skip(k as int + 1));
        }
        let ghost before = out@;
        push_posting(out, &ts[k]);
        proof {
            assert(before + (enc_posting(all[k as int]) + enc_postings(all.skip(k as int + 1)))
                =~= (before + enc_posting(all[k as int])) + enc_postings(all.skip(k as int + 1)));
        }
        k = k + 1;
    }
    proof {
        assert(enc_postings(all.skip(ts@.len() as int)) =~= Seq::<u8>::empty());
        assert(out@ + Seq::<u8>::empty() =~= out@);
    }
}

/// Append the payload characters.
fn push_chars(out: &mut Vec<u8>, data: &str)
    ensures
        final(out)@ == old(out)@ + enc_chars(data@),
{
    let ghost out0 = out@;
    let ghost all = data@;
    let n = data.unicode_len();
    let mut k: usize = 0;
    proof {
        assert(all.skip(0) =~= all);
    }
    while k < n
        invariant
            k <= n,
            n == all.len(),
            all == data@,
            out0 + enc_chars(all) == out@ + enc_chars(all.skip(k as int)),
        decreases n - k,
    {
        proof {
            assert(all.skip(k as int)[0] == all[k as int]);
            assert(all.skip(k as int).drop_first() =~= all.skip(k as int + 1));
        }
        let c = data.get_char(k);
        let ghost before = out@;
        push_u64(out, c as u64);
        proof {
            assert(before + (enc_u64(all[k as int] as u64) + enc_chars(all.skip(k as int + 1)))
                =~= (before + enc_u64(all[k as int] as u64)) + enc_chars(all.skip(k as int + 1)));
        }
        k = k + 1;
    }
    proof {
        assert(enc_chars(all.skip(all.len() as int)) =~= Seq::<u8>::empty());
        assert(out@ + Seq::<u8>::empty() =~= out@);
    }
}

/// Append the value slots.
fn push_values(out: &mut Vec<u8>, vs: &Vec<SlotValue>)
    ensures
        final(out)@ == old(out)@ + enc_values(crate::doc::view_slots(vs@)),
{
    let ghost out0 = out@;
    let ghost all = crate::doc::view_slots(vs@);
    let mut k: usize = 0;
    proof {
        assert(all.skip(0) =~= all);
    }
    while k < vs.len()
        invariant
            k <= vs@.len(),
            all == crate::doc::view_slots(vs@),
            out0 + enc_values(all) == out@ + enc_values(all.skip(k as int)),
        decreases vs@.len() - k,
    {
        proof {
            assert(all.skip(k as int)[0] == all[k as int]);
            assert(all.skip(k as int).drop_first() =~= all.skip(k as int + 1));
        }
        let ghost before = out@;
        let sv = &vs[k];
        push_u64(out, sv.slot as u64);
        push_bytes(out, &sv.value);
        proof {
            assert(out@ =~= before + enc_value(all[k as int]));
            assert(before + (enc_value(all[k as int]) + enc_values(all.skip(k as int + 1)))
                =~= (before + enc_value(all[k as int])) + enc_values(all.skip(k as int + 1)));
        }
        k = k + 1;
    }
    proof {
        assert(enc_values(all.skip(vs@.len() as int)) =~= Seq::<u8>::empty());
        assert(out@ + Seq::<u8>::empty() =~= out@);
    }
}

/// Append one document.
fn push_doc(out: &mut Vec<u8>, d: &Document)
    ensures
        final(out)@ == old(out)@ + enc_doc(d@),
{
    let ghost out0 = out@;
    let n = d.data.as_str().unicode_len();
    push_u64(out, n as u64);
    push_chars(out, d.data.as_str());
    push_u64(out, d.terms.len() as u64);
    push_postings(out, &d.terms);
    push_u64(out, d.values.len() as u64);
    push_values(out, &d.values);
    proof {
        assert(out@ =~= out0 + enc_doc(d@));
    }
}

/// Append the stored documents.
fn push_docs(out: &mut Vec<u8>, docs: &Vec<StoredDoc>)
    ensures
        final(out)@ == old(out)@ + enc_docs(view_docs(docs@)),
{
    let ghost out0 = out@;
    let ghost all = view_docs(docs@);
    let mut k: usize = 0;
    proof {
        assert(all.skip(0) =~= all);
    }
    while k < docs.len()
        invariant
            k <= docs@.len(),
            all == view_docs(docs@),
            out0 + enc_docs(all) == out@ + enc_docs(all.skip(k as int)),
        decreases docs@.len() - k,
    {
        proof {
            assert(all.skip(k as int)[0] == all[k as int]);
            assert(all.skip(k as int).drop_first() =~= all.skip(k as int + 1));
        }
        let ghost before = out@;
        let sd = &docs[k];
        push_u64(out, sd.id);
        push_doc(out, &sd.doc);
        proof {
            assert(out@ =~= before + (enc_u64(all[k as int].0) + enc_doc(all[k as int].1)));
            assert(before + ((enc_u64(all[k as int].0) + enc_doc(all[k as int].1)) + enc_docs(
                all.skip(k as int + 1),
            )) =~= (before + (enc_u64(all[k as int].0) + enc_doc(all[k as int].1))) + enc_docs(
                all.skip(k as int + 1),
            ));
            assert(enc_docs(all.skip(k as int)) =~= (enc_u64(all[k as int].0) + enc_doc(
                all[k as int].1,
            )) + enc_docs(all.skip(k as int + 1)));
        }
        k = k + 1;
    }
    proof {
        assert(enc_docs(all.skip(docs@.len() as int)) =~= Seq::<u8>::empty());
        assert(out@ + Seq::<u8>::empty() =~= out@);
    }
}

/// Serialize a writer's committed state: what must survive the process
/// once commit has made it durable.
pub fn encode_state(db: &WritableDatabase) -> (r: Vec<u8>)
    ensures
        r@ == enc_image(view_docs(db.committed@), db.next_id, db.revision),
{
    let mut out: Vec<u8> = Vec::new();
    push_u64(&mut out, db.revision);
    push_u64(&mut out, db.next_id);
    push_u64(&mut out, db.committed.len() as u64);
    push_docs(&mut out, &db.committed);
    proof {
        assert(out@ =~= enc_image(view_docs(db.committed@), db.next_id, db.revision));
    }
    out
}


/// The bytes from `lo` (inclusive) to `hi` (exclusive).
fn copy_range(s: &Vec<u8>, lo: usize, hi: usize) -> (r: Vec<u8>)
    requires
        lo <= hi <= s@.len(),
    ensures
        r@ == s@.subrange(lo as int, hi as int),
{
    let mut out: Vec<u8> = Vec::new();
    let mut m = lo;
    while m < hi
        invariant
            lo <= m <= hi,
            hi <= s@.len(),
            out@ =~= s@.subrange(lo as int, m as int),
        decreases hi - m,
    {
        out.push(s[m]);
        proof {
            assert(out@ =~= s@.subrange(lo as int, m as int + 1));
        }
        m = m + 1;
    }
    out
}

/// Read an eight-byte number, or fail on truncation.
fn read_u64(s: &Vec<u8>, p: usize) -> (r: Result<(u64, usize), Error>)
    ensures
        match dec_u64(s@, p as int) {
            Some(pr) => (r matches Ok(t) && t.0 == pr.0 && t.1 == pr.1),
            None => (r matches Err(e) && e is DatabaseCorrupt),
        },
{
    if p > s.len() || s.len() - p < 8 {
        return Err(Error::DatabaseCorrupt);
    }
    let w = copy_range(s, p, p + 8);
    match crate::serial::decode_u64(&w) {
        Ok(x) => Ok((x, p + 8)),
        Err(_) => {
            proof {
                assert(w@.len() == 8);
                assert(false);
            }
            Err(Error::DatabaseCorrupt)
        },
    }
}

/// Read a length-prefixed byte string, or fail on truncation.
fn read_bytes(s: &Vec<u8>, p: usize) -> (r: Result<(Vec<u8>, usize), Error>)
    ensures
        match dec_bytes(s@, p as int) {
            Some(pr) => (r matches Ok(t) && t.0@ == pr.0 && t.1 == pr.1),
            None => (r matches Err(e) && e is DatabaseCorrupt),
        },
{
    let (n, p1) = match read_u64(s, p) {
        Ok(t) => t,
        Err(e) => {
            return Err(e);
        },
    };
    if n > (s.len() - p1) as u64 {
        return Err(Error::DatabaseCorrupt);
    }
    let nn = n as usize;
    let b = copy_range(s, p1, p1 + nn);
    Ok((b, p1 + nn))
}

/// Read `n` positions, or fail on truncation.
fn read_positions(s: &Vec<u8>, p: usize, n: u64) -> (r: Result<(Vec<u64>, usize), Error>)
    ensures
        match dec_positions(s@, p as int, n as int) {
            Some(pr) => (r matches Ok(t) && t.0@ == pr.0 && t.1 == pr.1),
            None => (r matches Err(e) && e is DatabaseCorrupt),
        },
{
    let mut built: Vec<u64> = Vec::new();
    let mut cur = p;
    let mut k: u64 = 0;
    proof {
        assert(built@ =~= Seq::<u64>::empty());
    }
    while k < n
        invariant
            k <= n,
            match dec_positions(s@, cur as int, (n - k) as int) {
                Some(pr) => dec_positions(s@, p as int, n as int) == Some(
                    (built@ + pr.0, pr.1),
                ),
                None => dec_positions(s@, p as int, n as int) is None,
            },
        decreases n - k,
    {
        let (x, p2) = match read_u64(s, cur) {
            Ok(t) => t,
            Err(e) => {
                return Err(e);
            },
        };
        let ghost b0 = built@;
        built.push(x);
        proof {
            match dec_positions(s@, p2 as int, (n - k - 1) as int) {
                Some(pr) => {
                    assert(b0 + (seq![x] + pr.0) =~= (b0 + seq![x]) + pr.0);
                    assert(b0.push(x) =~= b0 + seq![x]);
                },
                None => {},
            }
        }
        cur = p2;
        k = k + 1;
    }
    proof {
        assert(dec_positions(s@, cur as int, 0) == Some((Seq::<u64>::empty(), cur as int)));
        assert(built@ + Seq::<u64>::empty() =~= built@);
    }
    Ok((built, cur))
}


/// Read one posting, or fail on truncation.
fn read_posting(s: &Vec<u8>, p: usize) -> (r: Result<(TermEntry, usize), Error>)
    ensures
        match dec_posting(s@, p as int) {
            Some(pr) => (r matches Ok(t) && t.0@ == pr.0 && t.1 == pr.1),
            None => (r matches Err(e) && e is DatabaseCorrupt),
        },
{
    let (term, p1) = match read_bytes(s, p) {
        Ok(t) => t,
        Err(e) => {
            return Err(e);
        },
    };
    let (wdf, p2) = match read_u64(s, p1) {
        Ok(t) => t,
        Err(e) => {
            return Err(e);
        },
    };
    let (n, p3) = match read_u64(s, p2) {
        Ok(t) => t,
        Err(e) => {
            return Err(e);
        },
    };
    let (positions, p4) = match read_positions(s, p3, n) {
        Ok(t) => t,
        Err(e) => {
            return Err(e);
        },
    };
    Ok((TermEntry { term, wdf, positions }, p4))
}

/// Read `n` postings, or fail on truncation.
fn read_postings(s: &Vec<u8>, p: usize, n: u64) -> (r: Result<(Vec<TermEntry>, usize), Error>)
    ensures
        match dec_postings(s@, p as int, n as int) {
            Some(pr) => (r matches Ok(t) && crate::doc::view_terms(t.0@) == pr.0 && t.1 == pr.1),
            None => (r matches Err(e) && e is DatabaseCorrupt),
        },
{
    let mut built: Vec<TermEntry> = Vec::new();
    let mut cur = p;
    let mut k: u64 = 0;
    proof {
        assert(crate::doc::view_terms(built@) =~= Seq::<TermPosting>::empty());
    }
    while k < n
        invariant
            k <= n,
            match dec_postings(s@, cur as int, (n - k) as int) {
                Some(pr) => dec_postings(s@, p as int, n as int) == Some(
                    (crate::doc::view_terms(built@) + pr.0, pr.1),
                ),
                None => dec_postings(s@, p as int, n as int) is None,
            },
        decreases n - k,
    {
        let (e, p2) = match read_posting(s, cur) {
            Ok(t) => t,
            Err(err) => {
                return Err(err);
            },
        };
        let ghost b0 = crate::doc::view_terms(built@);
        let ghost ev = e@;
        built.push(e);
        proof {
            assert(crate::doc::view_terms(built@) =~= b0.push(ev));
            match dec_postings(s@, p2 as int, (n - k - 1) as int) {
                Some(pr) => {
                    assert(b0 + (seq![ev] + pr.0) =~= (b0 + seq![ev]) + pr.0);
                    assert(b0.push(ev) =~= b0 + seq![ev]);
                },
                None => {},
            }
        }
        cur = p2;
        k = k + 1;
    }
    proof {
        assert(dec_postings(s@, cur as int, 0) == Some((Seq::<TermPosting>::empty(), cur as int)));
        assert(crate::doc::view_terms(built@) + Seq::<TermPosting>::empty() =~= crate::doc::view_terms(
            built@,
        ));
    }
    Ok((built, cur))
}

/// Read `n` payload characters, or fail on truncation or an invalid code
/// point.
fn read_chars(s: &Vec<u8>, p: usize, n: u64) -> (r: Result<(String, usize), Error>)
    ensures
        match dec_chars(s@, p as int, n as int) {
            Some(pr) => (r matches Ok(t) && t.0@ == pr.0 && t.1 == pr.1),
            None => (r matches Err(e) && e is DatabaseCorrupt),
        },
{
    let mut built = String::new();
    let mut cur = p;
    let mut k: u64 = 0;
    proof {
        assert(built@ =~= Seq::<char>::empty());
    }
    while k < n
        invariant
            k <= n,
            match dec_chars(s@, cur as int, (n - k) as int) {
                Some(pr) => dec_chars(s@, p as int, n as int) == Some((built@ + pr.0, pr.1)),
                None => dec_chars(s@, p as int, n as int) is None,
            },
        decreases n - k,
    {
        let (x, p2) = match read_u64(s, cur) {
            Ok(t) => t,
            Err(e) => {
                return Err(e);
            },
        };
        if x > 0xFFFFFFFFu64 {
            proof {
                assert(!valid_scalar(x));
            }
            return Err(Error::DatabaseCorrupt);
        }
        let c = match char::from_u32(x as u32) {
            Some(c) => c,
            None => {
                proof {
                    assert(!valid_scalar(x));
                }
                return Err(Error::DatabaseCorrupt);
            },
        };
        proof {
            assert(valid_scalar(x));
            lemma_char_scalar(c);
            assert(c as u64 == x);
            assert((x as char) == c);
        }
        let ghost b0 = built@;
        built.push(c);
        proof {
            match dec_chars(s@, p2 as int, (n - k - 1) as int) {
                Some(pr) => {
                    assert(b0 + (seq![x as char] + pr.0) =~= (b0 + seq![x as char]) + pr.0);
                    assert(b0.push(x as char) =~= b0 + seq![x as char]);
                },
                None => {},
            }
        }
        cur = p2;
        k = k + 1;
    }
    proof {
        assert(dec_chars(s@, cur as int, 0) == Some((Seq::<char>::empty(), cur as int)));
        assert(built@ + Seq::<char>::empty() =~= built@);
    }
    Ok((built, cur))
}

/// Read one value slot, or fail on truncation or a slot out of range.
fn read_value(s: &Vec<u8>, p: usize) -> (r: Result<(SlotValue, usize), Error>)
    ensures
        match dec_value(s@, p as int) {
            Some(pr) => (r matches Ok(t) && t.0@ == pr.0 && t.1 == pr.1),
            None => (r matches Err(e) && e is DatabaseCorrupt),
        },
{
    let (slot, p1) = match read_u64(s, p) {
        Ok(t) => t,
        Err(e) => {
            return Err(e);
        },
    };
    if slot > u32::MAX as u64 {
        return Err(Error::DatabaseCorrupt);
    }
    let (value, p2) = match read_bytes(s, p1) {
        Ok(t) => t,
        Err(e) => {
            return Err(e);
        },
    };
    Ok((SlotValue { slot: slot as u32, value }, p2))
}

/// Read `n` value slots, or fail on truncation.
fn read_values(s: &Vec<u8>, p: usize, n: u64) -> (r: Result<(Vec<SlotValue>, usize), Error>)
    ensures
        match dec_values(s@, p as int, n as int) {
            Some(pr) => (r matches Ok(t) && crate::doc::view_slots(t.0@) == pr.0 && t.1 == pr.1),
            None => (r matches Err(e) && e is DatabaseCorrupt),
        },
{
    let mut built: Vec<SlotValue> = Vec::new();
    let mut cur = p;
    let mut k: u64 = 0;
    proof {
        assert(crate::doc::view_slots(built@) =~= Seq::<(u32, Seq<u8>)>::empty());
    }
    while k < n
        invariant
            k <= n,
            match dec_values(s@, cur as int, (n - k) as int) {
                Some(pr) => dec_values(s@, p as int, n as int) == Some(
                    (crate::doc::view_slots(built@) + pr.0, pr.1),
                ),
                None => dec_values(s@, p as int, n as int) is None,
            },
        decreases n - k,
    {
        let (v, p2) = match read_value(s, cur) {
            Ok(t) => t,
            Err(e) => {
                return Err(e);
            },
        };
        let ghost b0 = crate::doc::view_slots(built@);
        let ghost vv = v@;
        built.push(v);
        proof {
            assert(crate::doc::view_slots(built@) =~= b0.push(vv));
            match dec_values(s@, p2 as int, (n - k - 1) as int) {
                Some(pr) => {
                    assert(b0 + (seq![vv] + pr.0) =~= (b0 + seq![vv]) + pr.0);
                    assert(b0.push(vv) =~= b0 + seq![vv]);
                },
                None => {},
            }
        }
        cur = p2;
        k = k + 1;
    }
    proof {
        assert(dec_values(s@, cur as int, 0) == Some(
            (Seq::<(u32, Seq<u8>)>::empty(), cur as int),
        ));
        assert(crate::doc::view_slots(built@) + Seq::<(u32, Seq<u8>)>::empty()
            =~= crate::doc::view_slots(built@));
    }
    Ok((built, cur))
}

/// Read one document, or fail on anything malformed.
fn read_doc(s: &Vec<u8>, p: usize) -> (r: Result<(Document, usize), Error>)
    ensures
        match dec_doc(s@, p as int) {
            Some(pr) => (r matches Ok(t) && t.0@ == pr.0 && t.1 == pr.1),
            None => (r matches Err(e) && e is DatabaseCorrupt),
        },
{
    let (nd, p1) = match read_u64(s, p) {
        Ok(t) => t,
        Err(e) => {
            return Err(e);
        },
    };
    let (data, p2) = match read_chars(s, p1, nd) {
        Ok(t) => t,
        Err(e) => {
            return Err(e);
        },
    };
    let (nt, p3) = match read_u64(s, p2) {
        Ok(t) => t,
        Err(e) => {
            return Err(e);
        },
    };
    let (terms, p4) = match read_postings(s, p3, nt) {
        Ok(t) => t,
        Err(e) => {
            return Err(e);
        },
    };
    let (nv, p5) = match read_u64(s, p4) {
        Ok(t) => t,
        Err(e) => {
            return Err(e);
        },
    };
    let (values, p6) = match read_values(s, p5, nv) {
        Ok(t) => t,
        Err(e) => {
            return Err(e);
        },
    };
    Ok((Document { data, terms, values }, p6))
}

/// Read `n` stored documents, or fail on anything malformed.
fn read_docs(s: &Vec<u8>, p: usize, n: u64) -> (r: Result<(Vec<StoredDoc>, usize), Error>)
    ensures
        match dec_docs(s@, p as int, n as int) {
            Some(pr) => (r matches Ok(t) && view_docs(t.0@) == pr.0 && t.1 == pr.1),
            None => (r matches Err(e) && e is DatabaseCorrupt),
        },
{
    let mut built: Vec<StoredDoc> = Vec::new();
    let mut cur = p;
    let mut k: u64 = 0;
    proof {
        assert(view_docs(built@) =~= Seq::<(u64, DocModel)>::empty());
    }
    while k < n
        invariant
            k <= n,
            match dec_docs(s@, cur as int, (n - k) as int) {
                Some(pr) => dec_docs(s@, p as int, n as int) == Some(
                    (view_docs(built@) + pr.0, pr.1),
                ),
                None => dec_docs(s@, p as int, n as int) is None,
            },
        decreases n - k,
    {
        let (id, p2) = match read_u64(s, cur) {
            Ok(t) => t,
            Err(e) => {
                return Err(e);
            },
        };
        let (d, p3) = match read_doc(s, p2) {
            Ok(t) => t,
            Err(e) => {
                return Err(e);
            },
        };
        let ghost b0 = view_docs(built@);
        let ghost dv = d@;
        built.push(StoredDoc { id, doc: d });
        proof {
            assert(view_docs(built@) =~= b0.push((id, dv)));
            match dec_docs(s@, p3 as int, (n - k - 1) as int) {
                Some(pr) => {
                    assert(b0 + (seq![(id, dv)] + pr.0) =~= (b0 + seq![(id, dv)]) + pr.0);
                    assert(b0.push((id, dv)) =~= b0 + seq![(id, dv)]);
                },
                None => {},
            }
        }
        cur = p3;
        k = k + 1;
    }
    proof {
        assert(dec_docs(s@, cur as int, 0) == Some((Seq::<(u64, DocModel)>::empty(), cur as int)));
        assert(view_docs(built@) + Seq::<(u64, DocModel)>::empty() =~= view_docs(built@));
    }
    Ok((built, cur))
}


/// Well-formedness of a decoded state: documents sorted and well-formed,
/// every id below the next free one, which is at least 1.
pub open spec fn image_wf(docs: Seq<(u64, DocModel)>, next_id: u64) -> bool {
    &&& crate::db::docs_wf(docs)
    &&& forall|i: int| 0 <= i < docs.len() ==> (#[trigger] docs[i]).0 < next_id
    &&& next_id >= 1
}

/// Ids that increase from each entry to the next increase everywhere.
proof fn lemma_adjacent_sorted(docs: Seq<(u64, DocModel)>, i: int, j: int)
    requires
        forall|k: int| 0 <= k < docs.len() - 1 ==> (#[trigger] docs[k]).0 < docs[k + 1].0,
        0 <= i < j < docs.len(),
    ensures
        docs[i].0 < docs[j].0,
    decreases j - i,
{
    if i + 1 < j {
        lemma_adjacent_sorted(docs, i + 1, j);
    }
}

/// Whether the documents are strictly sorted by id, with every id below
/// `next_id`.
fn check_docs_order(docs: &Vec<StoredDoc>, next_id: u64) -> (r: bool)
    ensures
        r == (docs_sorted(view_docs(docs@)) && (forall|i: int|
            0 <= i < view_docs(docs@).len() ==> (#[trigger] view_docs(docs@)[i]).0 < next_id)),
{
    let ghost v = view_docs(docs@);
    let n = docs.len();
    let mut i: usize = 0;
    while i < n
        invariant
            i <= n,
            n == docs@.len(),
            v == view_docs(docs@),
            forall|j: int| 0 <= j < i ==> (#[trigger] v[j]).0 < next_id,
            forall|j: int| 0 <= j < i && j + 1 < n ==> (#[trigger] v[j]).0 < v[j + 1].0,
        decreases n - i,
    {
        if docs[i].id >= next_id {
            proof {
                assert(v[i as int].0 >= next_id);
            }
            return false;
        }
        if i + 1 < n && docs[i].id >= docs[i + 1].id {
            proof {
                assert(v[i as int].0 >= v[i as int + 1].0);
                assert(!docs_sorted(v));
            }
            return false;
        }
        i = i + 1;
    }
    proof {
        assert forall|a: int, b: int| 0 <= a < b < v.len() implies v[a].0 < v[b].0 by {
            lemma_adjacent_sorted(v, a, b);
        }
    }
    true
}

/// Whether no two postings of the document name the same term.
fn check_distinct_terms(d: &Document) -> (r: bool)
    ensures
        r == distinct_terms(d@.terms),
{
    let ghost ts = d@.terms;
    let n = d.terms.len();
    let mut i: usize = 0;
    while i < n
        invariant
            i <= n,
            n == d.terms@.len(),
            ts == d@.terms,
            forall|a: int, b: int| 0 <= a < b < i ==> ts[a].term != ts[b].term,
        decreases n - i,
    {
        let mut j: usize = 0;
        while j < i
            invariant
                j <= i < n,
                n == d.terms@.len(),
                ts == d@.terms,
                forall|a: int| 0 <= a < j ==> ts[a].term != ts[i as int].term,
            decreases i - j,
        {
            if d.terms[j].term == d.terms[i].term {
                proof {
                    assert(ts[j as int].term =~= ts[i as int].term);
                }
                return false;
            }
            j = j + 1;
        }
        i = i + 1;
    }
    true
}

/// Whether no two value entries of the document name the same slot.
fn check_distinct_slots(d: &Document) -> (r: bool)
    ensures
        r == distinct_slots(d@.values),
{
    let ghost vs = d@.values;
    let n = d.values.len();
    let mut i: usize = 0;
    while i < n
        invariant
            i <= n,
            n == d.values@.len(),
            vs == d@.values,
            forall|a: int, b: int| 0 <= a < b < i ==> vs[a].0 != vs[b].0,
        decreases n - i,
    {
        let mut j: usize = 0;
        while j < i
            invariant
                j <= i < n,
                n == d.values@.len(),
                vs == d@.values,
                forall|a: int| 0 <= a < j ==> vs[a].0 != vs[i as int].0,
            decreases i - j,
        {
            if d.values[j].slot == d.values[i].slot {
                proof {
                    assert(vs[j as int].0 == vs[i as int].0);
                }
                return false;
            }
            j = j + 1;
        }
        i = i + 1;
    }
    true
}

/// Whether every document of the sequence is well-formed.
fn check_docs_wf(docs: &Vec<StoredDoc>) -> (r: bool)
    ensures
        r == (forall|i: int|
            0 <= i < view_docs(docs@).len() ==> doc_wf(#[trigger] view_docs(docs@)[i].1)),
{
    let ghost v = view_docs(docs@);
    let n = docs.len();
    let mut i: usize = 0;
    while i < n
        invariant
            i <= n,
            n == docs@.len(),
            v == view_docs(docs@),
            forall|j: int| 0 <= j < i ==> doc_wf(#[trigger] v[j].1),
        decreases n - i,
    {
        let dt = check_distinct_terms(&docs[i].doc);
        let ds = check_distinct_slots(&docs[i].doc);
        if !(dt && ds) {
            proof {
                assert(!doc_wf(v[i as int].1));
            }
            return false;
        }
        i = i + 1;
    }
    true
}

/// Read a whole committed state and check it, rejecting truncation, junk
/// after the image, and ill-formed content, all as `DatabaseCorrupt`.
fn read_image_checked(bytes: &Vec<u8>) -> (r: Result<(Vec<StoredDoc>, u64, u64), Error>)
    ensures
        match dec_image(bytes@, 0) {
            Some(pr) => if pr.1 == bytes@.len() && image_wf(pr.0.0, pr.0.1) {
                r matches Ok(t) && view_docs(t.0@) == pr.0.0 && t.1 == pr.0.1 && t.2 == pr.0.2
            } else {
                r matches Err(e) && e is DatabaseCorrupt
            },
            None => (r matches Err(e) && e is DatabaseCorrupt),
        },
{
    let (revision, p1) = match read_u64(bytes, 0) {
        Ok(t) => t,
        Err(e) => {
            return Err(e);
        },
    };
    let (next_id, p2) = match read_u64(bytes, p1) {
        Ok(t) => t,
        Err(e) => {
            return Err(e);
        },
    };
    let (n, p3) = match read_u64(bytes, p2) {
        Ok(t) => t,
        Err(e) => {
            return Err(e);
        },
    };
    let (docs, p4) = match read_docs(bytes, p3, n) {
        Ok(t) => t,
        Err(e) => {
            return Err(e);
        },
    };
    if p4 != bytes.len() {
        return Err(Error::DatabaseCorrupt);
    }
    if next_id < 1 {
        return Err(Error::DatabaseCorrupt);
    }
    if !check_docs_order(&docs, next_id) {
        return Err(Error::DatabaseCorrupt);
    }
    if !check_docs_wf(&docs) {
        return Err(Error::DatabaseCorrupt);
    }
    Ok((docs, next_id, revision))
}

/// Rebuild a writer from an encoded committed state: the committed and
/// live states both start as the decoded documents.
///
/// Fails with `DatabaseCorrupt` exactly when the bytes are not one whole,
/// well-formed encoded state.
pub fn decode_writable(bytes: &Vec<u8>) -> (r: Result<WritableDatabase, Error>)
    ensures
        match dec_image(bytes@, 0) {
            Some(pr) => if pr.1 == bytes@.len() && image_wf(pr.0.0, pr.0.1) {
                r matches Ok(w) && view_docs(w.committed@) == pr.0.0 && view_docs(w.live@)
                    == pr.0.0 && w.next_id == pr.0.1 && w.revision == pr.0.2 && w.open
                    && crate::db::wdb_wf(w)
            } else {
                r matches Err(e) && e is DatabaseCorrupt
            },
            None => (r matches Err(e) && e is DatabaseCorrupt),
        },
{
    let (committed, next_id, revision) = match read_image_checked(bytes) {
        Ok(t) => t,
        Err(e) => {
            return Err(e);
        },
    };
    let live = crate::db::duplicate_docs(&committed);
    let w = WritableDatabase { live, committed, next_id, revision, open: true };
    proof {
        let cv = view_docs(w.committed@);
        let lv = view_docs(w.live@);
        assert(lv == cv);
        assert(crate::db::docs_wf(lv)) by {
            assert forall|i: int, j: int| 0 <= i < j < lv.len() implies lv[i].0 < lv[j].0 by {
                assert(lv[i] == cv[i] && lv[j] == cv[j]);
            }
            assert forall|i: int| 0 <= i < lv.len() implies doc_wf(#[trigger] lv[i].1) by {
                assert(lv[i] == cv[i]);
            }
        }
        assert forall|i: int| 0 <= i < w.live@.len() implies #[trigger] view_docs(w.live@)[i].0
            < w.next_id by {
            assert(lv[i] == cv[i]);
        }
    }
    Ok(w)
}

/// Rebuild a read-only snapshot from an encoded committed state.
///
/// Fails with `DatabaseCorrupt` exactly when the bytes are not one whole,
/// well-formed encoded state.
pub fn decode_database(bytes: &Vec<u8>) -> (r: Result<Database, Error>)
    ensures
        match dec_image(bytes@, 0) {
            Some(pr) => if pr.1 == bytes@.len() && image_wf(pr.0.0, pr.0.1) {
                r matches Ok(db) && view_docs(db.docs@) == pr.0.0 && db.revision == pr.0.2
                    && db.open && crate::db::db_wf(db)
            } else {
                r matches Err(e) && e is DatabaseCorrupt
            },
            None => (r matches Err(e) && e is DatabaseCorrupt),
        },
{
    let (docs, _next_id, revision) = match read_image_checked(bytes) {
        Ok(t) => t,
        Err(e) => {
            return Err(e);
        },
    };
    Ok(Database { docs, revision, open: true })
}

} // verus!
