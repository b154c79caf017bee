//! Laws of the engine, stated and proved over the models.
//!
//! Each public proof function here states one guarantee that spans
//! several operations: indexed documents are found by their terms, pages
//! of one ranked result neither skip nor repeat a document, value-range
//! filters agree with numeric order, and deleted documents are gone both
//! from term queries and from id lookup.

use vstd::prelude::*;

use crate::db::{docs_sorted, find_doc, lemma_remove_no_term, remove_term_docs};
use crate::doc::{doc_has_term, doc_value, find_term, DocModel, TermPosting};
use crate::query::QueryV;
use crate::rank::{
    distinct_ids, entry_of, id_in, insert_entry, matched_entries, mset_page, rank_sort,
    ranked_entries, sorted_ids, EntryV, KeyPart,
};
use crate::serial::{be_bytes_of, lemma_i64_order, offset_of_i64};
use crate::text::{index_tokens_terms, tokens_of};

verus! {

/// A document keeps every term it already has when more tokens are
/// indexed into it.
proof fn lemma_index_tokens_keeps(
    ts: Seq<TermPosting>,
    toks: Seq<Seq<u8>>,
    pos: u64,
    u: Seq<u8>,
)
    requires
        find_term(ts, u) is Some,
    ensures
        find_term(index_tokens_terms(ts, toks, pos), u) is Some,
    decreases toks.len(),
{
    if toks.len() > 0 {
        crate::doc::lemma_add_posting_find(ts, toks[0], pos, u);
        lemma_index_tokens_keeps(
            crate::doc::add_posting_terms(ts, toks[0], pos),
            toks.drop_first(),
            crate::doc::sat_inc(pos),
            u,
        );
    }
}

/// After indexing a token sequence, the document carries every one of its
/// tokens as a term.
pub proof fn lemma_index_tokens_has(ts: Seq<TermPosting>, toks: Seq<Seq<u8>>, pos: u64, k: int)
    requires
        0 <= k < toks.len(),
    ensures
        find_term(index_tokens_terms(ts, toks, pos), toks[k]) is Some,
    decreases toks.len(),
{
    let ts1 = crate::doc::add_posting_terms(ts, toks[0], pos);
    if k == 0 {
        crate::doc::lemma_add_posting_find(ts, toks[0], pos, toks[0]);
        lemma_index_tokens_keeps(ts1, toks.drop_first(), crate::doc::sat_inc(pos), toks[0]);
    } else {
        lemma_index_tokens_has(ts1, toks.drop_first(), crate::doc::sat_inc(pos), k - 1);
    }
}

/// In a sorted store, looking a document's own id up finds exactly it.
pub proof fn lemma_find_doc_at(docs: Seq<(u64, DocModel)>, j: int)
    requires
        docs_sorted(docs),
        0 <= j < docs.len(),
    ensures
        find_doc(docs, docs[j].0) == Some(docs[j].1),
    decreases j,
{
    if j > 0 {
        let d1 = docs.drop_first();
        assert(docs[0].0 < docs[j].0);
        assert(forall|a: int, b: int| 0 <= a < b < d1.len() ==> d1[a].0 < d1[b].0);
        lemma_find_doc_at(d1, j - 1);
    }
}

/// The entries collected from a sorted store have strictly increasing
/// ids, all at least the first store id.
proof fn lemma_matched_bounds(docs: Seq<(u64, DocModel)>, q: QueryV, parts: Option<Seq<KeyPart>>)
    requires
        docs_sorted(docs),
    ensures
        sorted_ids(matched_entries(docs, q, parts)),
        forall|k: int|
            0 <= k < matched_entries(docs, q, parts).len() ==> docs.len() > 0 && #[trigger] matched_entries(
                docs,
                q,
                parts,
            )[k].docid >= docs[0].0,
    decreases docs.len(),
{
    if docs.len() > 0 {
        let d1 = docs.drop_first();
        assert(forall|a: int, b: int| 0 <= a < b < d1.len() ==> d1[a].0 < d1[b].0);
        lemma_matched_bounds(d1, q, parts);
        let m1 = matched_entries(d1, q, parts);
        let m = matched_entries(docs, q, parts);
        if crate::query::matches(q, docs[0].1) {
            assert(m == seq![entry_of(docs[0], q, parts)] + m1);
            assert(m[0].docid == docs[0].0);
            assert(forall|k: int| 1 <= k < m.len() ==> m[k] == m1[k - 1]);
            assert forall|k: int| 0 <= k < m.len() implies m[k].docid >= docs[0].0 by {
                if k > 0 {
                    assert(m1[k - 1].docid >= d1[0].0);
                    assert(d1[0].0 == docs[1].0);
                    assert(docs[0].0 < docs[1].0);
                }
            }
            assert forall|a: int, b: int| 0 <= a < b < m.len() implies m[a].docid < m[b].docid by {
                if a == 0 {
                    assert(m[b] == m1[b - 1]);
                    assert(m1[b - 1].docid >= d1[0].0);
                } else {
                    assert(m[a] == m1[a - 1] && m[b] == m1[b - 1]);
                }
            }
        } else {
            assert(m == m1);
            assert forall|k: int| 0 <= k < m.len() implies m[k].docid >= docs[0].0 by {
                assert(m1[k].docid >= d1[0].0);
            }
        }
    }
}

/// A document's id stands in the collected entries exactly when the
/// document matches the query.
pub proof fn lemma_matched_id_iff(
    docs: Seq<(u64, DocModel)>,
    q: QueryV,
    parts: Option<Seq<KeyPart>>,
    j: int,
)
    requires
        docs_sorted(docs),
        0 <= j < docs.len(),
    ensures
        id_in(matched_entries(docs, q, parts), docs[j].0) == crate::query::matches(q, docs[j].1),
    decreases j,
{
    let d1 = docs.drop_first();
    assert(forall|a: int, b: int| 0 <= a < b < d1.len() ==> d1[a].0 < d1[b].0);
    let m = matched_entries(docs, q, parts);
    let m1 = matched_entries(d1, q, parts);
    if j == 0 {
        if crate::query::matches(q, docs[0].1) {
            assert(m == seq![entry_of(docs[0], q, parts)] + m1);
            assert(m[0].docid == docs[0].0);
            assert(id_in(m, docs[0].0));
        } else {
            assert(m == m1);
            lemma_matched_bounds(d1, q, parts);
            assert forall|i: int| 0 <= i < m.len() implies m[i].docid != docs[0].0 by {
                assert(m1[i].docid >= d1[0].0);
                assert(d1[0].0 == docs[1].0 && docs[0].0 < docs[1].0);
            }
            assert(!id_in(m, docs[0].0));
        }
    } else {
        lemma_matched_id_iff(d1, q, parts, j - 1);
        assert(d1[j - 1] == docs[j]);
        if crate::query::matches(q, docs[0].1) {
            assert(m == seq![entry_of(docs[0], q, parts)] + m1);
            assert(docs[0].0 != docs[j].0);
            assert(id_in(m, docs[j].0) == id_in(m1, docs[j].0)) by {
                if id_in(m1, docs[j].0) {
                    let w = choose|i: int| 0 <= i < m1.len() && #[trigger] m1[i].docid == docs[j].0;
                    assert(m[w + 1] == m1[w]);
                    assert(id_in(m, docs[j].0));
                }
                if id_in(m, docs[j].0) {
                    let w = choose|i: int| 0 <= i < m.len() && #[trigger] m[i].docid == docs[j].0;
                    assert(m[0].docid == docs[0].0);
                    assert(w > 0);
                    assert(m1[w - 1] == m[w]);
                    assert(id_in(m1, docs[j].0));
                }
            }
        } else {
            assert(m == m1);
        }
    }
}

/// Inserting an entry adds exactly its id to the ids present.
proof fn lemma_insert_id_in(s: Seq<EntryV>, e: EntryV, uk: bool, rev: bool, id: u64)
    ensures
        id_in(insert_entry(s, e, uk, rev), id) == (id_in(s, id) || id == e.docid),
    decreases s.len(),
{
    let r = insert_entry(s, e, uk, rev);
    if s.len() == 0 {
        assert(r == seq![e]);
        assert(r[0].docid == e.docid);
        if id == e.docid {
            assert(id_in(r, id));
        }
        if id_in(r, id) {
            let w = choose|i: int| 0 <= i < r.len() && #[trigger] r[i].docid == id;
            assert(w == 0);
        }
        if id_in(s, id) {
            let w = choose|i: int| 0 <= i < s.len() && #[trigger] s[i].docid == id;
            assert(false);
        }
    } else if crate::rank::entry_before(uk, rev, e, s[0]) {
        assert(r == seq![e] + s);
        if id_in(r, id) {
            let w = choose|i: int| 0 <= i < r.len() && #[trigger] r[i].docid == id;
            if w == 0 {
                assert(id == e.docid);
            } else {
                assert(r[w] == s[w - 1]);
                assert(id_in(s, id));
            }
        }
        if id == e.docid {
            assert(r[0].docid == id);
            assert(id_in(r, id));
        }
        if id_in(s, id) {
            let w = choose|i: int| 0 <= i < s.len() && #[trigger] s[i].docid == id;
            assert(r[w + 1] == s[w]);
            assert(id_in(r, id));
        }
    } else {
        let s1 = s.drop_first();
        lemma_insert_id_in(s1, e, uk, rev, id);
        let r1 = insert_entry(s1, e, uk, rev);
        assert(r == seq![s[0]] + r1);
        if id_in(r, id) {
            let w = choose|i: int| 0 <= i < r.len() && #[trigger] r[i].docid == id;
            if w == 0 {
                assert(s[0].docid == id);
                assert(id_in(s, id));
            } else {
                assert(r[w] == r1[w - 1]);
                assert(id_in(r1, id));
                if id != e.docid {
                    let w2 = choose|i: int| 0 <= i < s1.len() && #[trigger] s1[i].docid == id;
                    assert(s[w2 + 1] == s1[w2]);
                    assert(id_in(s, id));
                }
            }
        }
        if id == e.docid {
            assert(id_in(r1, id));
            let w = choose|i: int| 0 <= i < r1.len() && #[trigger] r1[i].docid == id;
            assert(r[w + 1] == r1[w]);
            assert(id_in(r, id));
        }
        if id_in(s, id) {
            let w = choose|i: int| 0 <= i < s.len() && #[trigger] s[i].docid == id;
            if w == 0 {
                assert(r[0].docid == id);
                assert(id_in(r, id));
            } else {
                assert(s1[w - 1] == s[w]);
                assert(id_in(s1, id));
                assert(id_in(r1, id));
                let w2 = choose|i: int| 0 <= i < r1.len() && #[trigger] r1[i].docid == id;
                assert(r[w2 + 1] == r1[w2]);
                assert(id_in(r, id));
            }
        }
    }
}

/// Inserting an entry with a fresh id keeps ids distinct.
proof fn lemma_insert_distinct(s: Seq<EntryV>, e: EntryV, uk: bool, rev: bool)
    requires
        distinct_ids(s),
        !id_in(s, e.docid),
    ensures
        distinct_ids(insert_entry(s, e, uk, rev)),
    decreases s.len(),
{
    let r = insert_entry(s, e, uk, rev);
    assert(forall|i: int| 0 <= i < s.len() ==> #[trigger] s[i].docid != e.docid);
    if s.len() == 0 {
    } else if crate::rank::entry_before(uk, rev, e, s[0]) {
        assert(r == seq![e] + s);
        assert(forall|i: int| 1 <= i < r.len() ==> r[i] == s[i - 1]);
        assert forall|i: int, j: int| 0 <= i < j < r.len() implies r[i].docid != r[j].docid by {
            if i == 0 {
                assert(r[j] == s[j - 1]);
            } else {
                assert(r[i] == s[i - 1] && r[j] == s[j - 1]);
            }
        }
    } else {
        let s1 = s.drop_first();
        assert(forall|a: int, b: int| 0 <= a < b < s1.len() ==> s1[a].docid != s1[b].docid);
        assert forall|i: int| 0 <= i < s1.len() implies #[trigger] s1[i].docid != e.docid by {
            assert(s1[i] == s[i + 1]);
        }
        assert(!id_in(s1, e.docid)) by {
            if id_in(s1, e.docid) {
                let w = choose|i: int| 0 <= i < s1.len() && #[trigger] s1[i].docid == e.docid;
            }
        }
        lemma_insert_distinct(s1, e, uk, rev);
        let r1 = insert_entry(s1, e, uk, rev);
        assert(r == seq![s[0]] + r1);
        assert forall|i: int, j: int| 0 <= i < j < r.len() implies r[i].docid != r[j].docid by {
            if i == 0 {
                assert(r[j] == r1[j - 1]);
                lemma_insert_id_in(s1, e, uk, rev, s[0].docid);
                assert(!id_in(s1, s[0].docid)) by {
                    if id_in(s1, s[0].docid) {
                        let w = choose|k: int|
                            0 <= k < s1.len() && #[trigger] s1[k].docid == s[0].docid;
                        assert(s1[w] == s[w + 1]);
                    }
                }
                assert(!id_in(r1, s[0].docid));
                if r[j].docid == s[0].docid {
                    assert(id_in(r1, s[0].docid));
                }
            } else {
                assert(r[i] == r1[i - 1] && r[j] == r1[j - 1]);
            }
        }
    }
}

/// Sorting neither loses, adds nor duplicates ids.
pub proof fn lemma_rank_sort_ids(s: Seq<EntryV>, uk: bool, rev: bool)
    requires
        distinct_ids(s),
    ensures
        distinct_ids(rank_sort(s, uk, rev)),
        forall|id: u64| #[trigger] id_in(rank_sort(s, uk, rev), id) == id_in(s, id),
    decreases s.len(),
{
    if s.len() == 0 {
        assert forall|id: u64| #[trigger] id_in(rank_sort(s, uk, rev), id) == id_in(s, id) by {
            if id_in(s, id) {
                let w = choose|i: int| 0 <= i < s.len() && #[trigger] s[i].docid == id;
            }
        }
    } else {
        let dl = s.drop_last();
        let e = s.last();
        assert(forall|a: int, b: int| 0 <= a < b < dl.len() ==> dl[a].docid != dl[b].docid);
        lemma_rank_sort_ids(dl, uk, rev);
        let r1 = rank_sort(dl, uk, rev);
        assert(!id_in(dl, e.docid)) by {
            if id_in(dl, e.docid) {
                let w = choose|i: int| 0 <= i < dl.len() && #[trigger] dl[i].docid == e.docid;
                assert(s[w].docid == s[s.len() - 1].docid);
            }
        }
        assert(!id_in(r1, e.docid));
        lemma_insert_distinct(r1, e, uk, rev);
        assert forall|id: u64| #[trigger] id_in(rank_sort(s, uk, rev), id) == id_in(s, id) by {
            lemma_insert_id_in(r1, e, uk, rev, id);
            assert(id_in(s, id) == (id_in(dl, id) || id == e.docid)) by {
                if id_in(s, id) {
                    let w = choose|i: int| 0 <= i < s.len() && #[trigger] s[i].docid == id;
                    if w < s.len() - 1 {
                        assert(dl[w] == s[w]);
                        assert(id_in(dl, id));
                    } else {
                        assert(id == e.docid);
                    }
                }
                if id_in(dl, id) {
                    let w = choose|i: int| 0 <= i < dl.len() && #[trigger] dl[i].docid == id;
                    assert(s[w] == dl[w]);
                    assert(id_in(s, id));
                }
                if id == e.docid {
                    assert(s[s.len() - 1].docid == id);
                    assert(id_in(s, id));
                }
            }
        }
    }
}

/// A document's id stands in the full ranked result exactly when the
/// document matches the query.
pub proof fn lemma_ranked_id_iff(
    docs: Seq<(u64, DocModel)>,
    q: QueryV,
    parts: Option<Seq<KeyPart>>,
    rev: bool,
    j: int,
)
    requires
        docs_sorted(docs),
        0 <= j < docs.len(),
    ensures
        id_in(ranked_entries(docs, q, parts, rev), docs[j].0) == crate::query::matches(
            q,
            docs[j].1,
        ),
        distinct_ids(ranked_entries(docs, q, parts, rev)),
{
    lemma_matched_bounds(docs, q, parts);
    lemma_matched_id_iff(docs, q, parts, j);
    lemma_rank_sort_ids(matched_entries(docs, q, parts), parts is Some, rev);
}

/// Every document indexed from free text is found by a query for any one
/// of the text's normalized tokens, and its id resolves to exactly the
/// stored document (so the payload round-trips byte-for-byte).
pub proof fn lemma_indexed_document_found(
    docs: Seq<(u64, DocModel)>,
    parts: Option<Seq<KeyPart>>,
    rev: bool,
    j: int,
    base: Seq<TermPosting>,
    text: Seq<u8>,
    pos: u64,
    k: int,
)
    requires
        docs_sorted(docs),
        0 <= j < docs.len(),
        docs[j].1.terms == index_tokens_terms(base, tokens_of(text), pos),
        0 <= k < tokens_of(text).len(),
    ensures
        id_in(ranked_entries(docs, QueryV::Term(tokens_of(text)[k]), parts, rev), docs[j].0),
        find_doc(docs, docs[j].0) == Some(docs[j].1),
{
    let tok = tokens_of(text)[k];
    lemma_index_tokens_has(base, tokens_of(text), pos, k);
    assert(doc_has_term(docs[j].1, tok));
    lemma_ranked_id_iff(docs, QueryV::Term(tok), parts, rev, j);
    lemma_find_doc_at(docs, j);
}

/// Two consecutive pages of one ranked result concatenate to the longer
/// front page, and the ranked result repeats no document id: pagination
/// neither skips nor duplicates a document.
pub proof fn lemma_pagination(
    docs: Seq<(u64, DocModel)>,
    q: QueryV,
    parts: Option<Seq<KeyPart>>,
    rev: bool,
    n: int,
    m: int,
)
    requires
        docs_sorted(docs),
        0 <= n,
        0 <= m,
    ensures
        mset_page(docs, q, parts, rev, 0, n) + mset_page(docs, q, parts, rev, n, m) =~= mset_page(
            docs,
            q,
            parts,
            rev,
            0,
            n + m,
        ),
        distinct_ids(ranked_entries(docs, q, parts, rev)),
{
    lemma_matched_bounds(docs, q, parts);
    lemma_rank_sort_ids(matched_entries(docs, q, parts), parts is Some, rev);
}

/// A value-range query returns exactly the documents whose slot value
/// lies in the numeric range: a document whose slot holds the sortable
/// form of `x` is in the result of `[a, b]` exactly when `a <= x <= b`.
pub proof fn lemma_value_range_exact(
    docs: Seq<(u64, DocModel)>,
    parts: Option<Seq<KeyPart>>,
    rev: bool,
    slot: u32,
    a: i64,
    b: i64,
    j: int,
    x: i64,
)
    requires
        docs_sorted(docs),
        0 <= j < docs.len(),
        doc_value(docs[j].1, slot) == Some(be_bytes_of(offset_of_i64(x))),
    ensures
        id_in(
            ranked_entries(
                docs,
                QueryV::Range(
                    slot,
                    be_bytes_of(offset_of_i64(a)),
                    be_bytes_of(offset_of_i64(b)),
                ),
                parts,
                rev,
            ),
            docs[j].0,
        ) == (a <= x <= b),
{
    lemma_i64_order(a, x);
    lemma_i64_order(x, b);
    let q = QueryV::Range(slot, be_bytes_of(offset_of_i64(a)), be_bytes_of(offset_of_i64(b)));
    assert(crate::query::matches(q, docs[j].1) == (a <= x <= b));
    lemma_ranked_id_iff(docs, q, parts, rev, j);
}

/// No document carries the term once its documents are deleted.
proof fn lemma_matched_none(docs: Seq<(u64, DocModel)>, q: QueryV, parts: Option<Seq<KeyPart>>)
    requires
        forall|j: int| 0 <= j < docs.len() ==> !crate::query::matches(q, #[trigger] docs[j].1),
    ensures
        matched_entries(docs, q, parts) =~= Seq::<EntryV>::empty(),
    decreases docs.len(),
{
    if docs.len() > 0 {
        let d1 = docs.drop_first();
        assert(forall|j: int| 0 <= j < d1.len() ==> d1[j] == docs[j + 1]);
        lemma_matched_none(d1, q, parts);
    }
}

/// Looking up an id that no document has finds nothing, even after a
/// delete.
proof fn lemma_remove_find_none(docs: Seq<(u64, DocModel)>, t: Seq<u8>, id: u64)
    requires
        forall|j: int| 0 <= j < docs.len() ==> #[trigger] docs[j].0 != id,
    ensures
        find_doc(remove_term_docs(docs, t), id) is None,
    decreases docs.len(),
{
    if docs.len() > 0 {
        let d1 = docs.drop_first();
        assert(forall|j: int| 0 <= j < d1.len() ==> d1[j] == docs[j + 1]);
        lemma_remove_find_none(d1, t, id);
        if !doc_has_term(docs[0].1, t) {
            let r = remove_term_docs(docs, t);
            assert(r == seq![docs[0]] + remove_term_docs(d1, t));
            assert(r[0].0 != id);
            assert(r.drop_first() =~= remove_term_docs(d1, t));
        }
    } else {
        assert(remove_term_docs(docs, t).len() == 0);
    }
}

/// After deleting by a term, a query for that term returns no matches,
/// and the id of any document that carried the term resolves to nothing.
pub proof fn lemma_delete_then_query(
    docs: Seq<(u64, DocModel)>,
    t: Seq<u8>,
    parts: Option<Seq<KeyPart>>,
    rev: bool,
    j: int,
)
    requires
        docs_sorted(docs),
        0 <= j < docs.len(),
        doc_has_term(docs[j].1, t),
    ensures
        ranked_entries(remove_term_docs(docs, t), QueryV::Term(t), parts, rev) =~= Seq::<
            EntryV,
        >::empty(),
        find_doc(remove_term_docs(docs, t), docs[j].0) is None,
        find_doc(docs, docs[j].0) == Some(docs[j].1),
{
    lemma_remove_no_term(docs, t);
    let left = remove_term_docs(docs, t);
    assert(forall|i: int|
        0 <= i < left.len() ==> !crate::query::matches(QueryV::Term(t), #[trigger] left[i].1));
    lemma_matched_none(left, QueryV::Term(t), parts);
    assert(matched_entries(left, QueryV::Term(t), parts).len() == 0);
    assert(rank_sort(matched_entries(left, QueryV::Term(t), parts), parts is Some, rev)
        =~= Seq::<EntryV>::empty());
    lemma_find_doc_at(docs, j);
    lemma_remove_kills_id(docs, t, j);
}

/// Deleting by a term removes the id of every document that carried it.
proof fn lemma_remove_kills_id(docs: Seq<(u64, DocModel)>, t: Seq<u8>, j: int)
    requires
        docs_sorted(docs),
        0 <= j < docs.len(),
        doc_has_term(docs[j].1, t),
    ensures
        find_doc(remove_term_docs(docs, t), docs[j].0) is None,
    decreases docs.len(),
{
    let d1 = docs.drop_first();
    assert(forall|a: int, b: int| 0 <= a < b < d1.len() ==> d1[a].0 < d1[b].0);
    if j == 0 {
        assert(doc_has_term(docs[0].1, t));
        assert(remove_term_docs(docs, t) == remove_term_docs(d1, t));
        assert(forall|i: int| 0 <= i < d1.len() ==> #[trigger] d1[i].0 > docs[0].0);
        lemma_remove_find_none(d1, t, docs[0].0);
    } else {
        lemma_remove_kills_id(d1, t, j - 1);
        assert(d1[j - 1] == docs[j]);
        if doc_has_term(docs[0].1, t) {
            assert(remove_term_docs(docs, t) == remove_term_docs(d1, t));
        } else {
            let r = remove_term_docs(docs, t);
            assert(r == seq![docs[0]] + remove_term_docs(d1, t));
            assert(r[0].0 == docs[0].0);
            assert(docs[0].0 < docs[j].0);
            assert(r.drop_first() =~= remove_term_docs(d1, t));
        }
    }
}

} // verus!
