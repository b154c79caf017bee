//! Ranking: match collection, sort keys, and the ranked order.
//!
//! Evaluation first collects, in document-id order, one entry per matching
//! document ([`matched_entries`]), then sorts the entries
//! ([`rank_sort`]): by sort key when one is set, then by weight
//! descending, then by document id ascending — so equal-weight ties are
//! deterministic.  A result page is a window of that ranked sequence.

use vstd::prelude::*;

use crate::bytes::lex_le;
use crate::doc::{doc_value, DocModel, Document};
use crate::query::{weight_of, QueryV};

verus! {

/// One slot of a sort key, optionally in descending order.
#[derive(Clone, Copy, PartialEq, Eq, Structural)]
pub struct KeyPart {
    pub slot: u32,
    pub reverse: bool,
}

/// Builds sort keys from document value slots, in the order the slots
/// were added; a `reverse` slot sorts descending.
pub struct MultiValueKeyMaker {
    pub parts: Vec<KeyPart>,
}

impl MultiValueKeyMaker {
    /// A key maker with no slots yet.
    pub fn new() -> (r: MultiValueKeyMaker)
        ensures
            r.parts@ =~= Seq::<KeyPart>::empty(),
    {
        MultiValueKeyMaker { parts: Vec::new() }
    }

    /// Add a slot as the next key component; `reverse` sorts it
    /// descending.
    pub fn add_value(&mut self, slot: u32, reverse: bool)
        ensures
            final(self).parts@ == old(self).parts@.push(KeyPart { slot, reverse }),
    {
        self.parts.push(KeyPart { slot, reverse });
    }
}

/// Each byte complemented, which reverses byte order.
pub open spec fn complement_bytes(v: Seq<u8>) -> Seq<u8> {
    Seq::new(v.len(), |i: int| (255 - v[i]) as u8)
}

/// The sort key of a document: for each part, the slot's value (empty
/// when unset), complemented for a descending part, with a terminating
/// zero byte after each component.
///
/// Values used as sort keys should not contain zero bytes themselves;
/// the key does not escape them.
pub open spec fn make_key(d: DocModel, parts: Seq<KeyPart>) -> Seq<u8>
    decreases parts.len(),
{
    if parts.len() == 0 {
        Seq::empty()
    } else {
        let v = match doc_value(d, parts[0].slot) {
            Some(v) => v,
            None => Seq::empty(),
        };
        let tv = if parts[0].reverse {
            complement_bytes(v)
        } else {
            v
        };
        tv + seq![0u8] + make_key(d, parts.drop_first())
    }
}

/// The model of one ranked entry.
pub struct EntryV {
    pub docid: u64,
    pub weight: u64,
    pub key: Seq<u8>,
}

/// One ranked entry: a matching document's id, its weight, and its sort
/// key (empty when ranking by relevance).
pub struct Entry {
    pub docid: u64,
    pub weight: u64,
    pub key: Vec<u8>,
}

impl View for Entry {
    type V = EntryV;

    open spec fn view(&self) -> EntryV {
        EntryV { docid: self.docid, weight: self.weight, key: self.key@ }
    }
}

impl Entry {
    /// An identical copy of the entry.
    pub fn duplicate(&self) -> (r: Entry)
        ensures
            r@ == self@,
    {
        Entry {
            docid: self.docid,
            weight: self.weight,
            key: crate::doc::clone_bytes(&self.key),
        }
    }
}

/// The models of a sequence of entries.
pub open spec fn view_entries(es: Seq<Entry>) -> Seq<EntryV> {
    Seq::new(es.len(), |i: int| es[i]@)
}

/// The ranked order: by key (byte order, reversed when `rev`) when keys
/// are in use and differ, then by weight descending, then by document id
/// ascending.
pub open spec fn entry_before(use_key: bool, rev: bool, a: EntryV, b: EntryV) -> bool {
    if use_key && a.key != b.key {
        if rev {
            !lex_le(a.key, b.key)
        } else {
            lex_le(a.key, b.key)
        }
    } else if a.weight != b.weight {
        a.weight > b.weight
    } else {
        a.docid < b.docid
    }
}

/// `e` inserted in front of the first entry it ranks before.
pub open spec fn insert_entry(s: Seq<EntryV>, e: EntryV, uk: bool, rev: bool) -> Seq<EntryV>
    decreases s.len(),
{
    if s.len() == 0 {
        seq![e]
    } else if entry_before(uk, rev, e, s[0]) {
        seq![e] + s
    } else {
        seq![s[0]] + insert_entry(s.drop_first(), e, uk, rev)
    }
}

/// The entries in ranked order: insertion sort, which is stable and
/// deterministic.
pub open spec fn rank_sort(s: Seq<EntryV>, uk: bool, rev: bool) -> Seq<EntryV>
    decreases s.len(),
{
    if s.len() == 0 {
        s
    } else {
        insert_entry(rank_sort(s.drop_last(), uk, rev), s.last(), uk, rev)
    }
}

/// The entry recording how `q` ranks the document stored as `p`.
pub open spec fn entry_of(p: (u64, DocModel), q: QueryV, parts: Option<Seq<KeyPart>>) -> EntryV {
    EntryV {
        docid: p.0,
        weight: weight_of(q, p.1),
        key: match parts {
            Some(ps) => make_key(p.1, ps),
            None => Seq::empty(),
        },
    }
}

/// One entry per matching document, in document order.
pub open spec fn matched_entries(
    docs: Seq<(u64, DocModel)>,
    q: QueryV,
    parts: Option<Seq<KeyPart>>,
) -> Seq<EntryV>
    decreases docs.len(),
{
    if docs.len() == 0 {
        Seq::empty()
    } else if crate::query::matches(q, docs[0].1) {
        seq![entry_of(docs[0], q, parts)] + matched_entries(docs.drop_first(), q, parts)
    } else {
        matched_entries(docs.drop_first(), q, parts)
    }
}

/// The whole ranked result of a query over a document sequence.
pub open spec fn ranked_entries(
    docs: Seq<(u64, DocModel)>,
    q: QueryV,
    parts: Option<Seq<KeyPart>>,
    rev: bool,
) -> Seq<EntryV> {
    rank_sort(matched_entries(docs, q, parts), parts is Some, rev)
}

/// The window `[from, from + size)` of the ranked result, clipped to its
/// length.
pub open spec fn mset_page(
    docs: Seq<(u64, DocModel)>,
    q: QueryV,
    parts: Option<Seq<KeyPart>>,
    rev: bool,
    from: int,
    size: int,
) -> Seq<EntryV> {
    let ranked = ranked_entries(docs, q, parts, rev);
    let lo = if from < ranked.len() {
        from
    } else {
        ranked.len() as int
    };
    let hi = if from + size < ranked.len() {
        from + size
    } else {
        ranked.len() as int
    };
    ranked.subrange(lo, hi)
}

/// Whether some entry carries the document id.
pub open spec fn id_in(s: Seq<EntryV>, id: u64) -> bool {
    exists|i: int| 0 <= i < s.len() && #[trigger] s[i].docid == id
}

/// No two entries carry the same document id.
pub open spec fn distinct_ids(s: Seq<EntryV>) -> bool {
    forall|i: int, j: int| 0 <= i < j < s.len() ==> s[i].docid != s[j].docid
}

/// Entry ids strictly increase along the sequence.
pub open spec fn sorted_ids(s: Seq<EntryV>) -> bool {
    forall|i: int, j: int| 0 <= i < j < s.len() ==> s[i].docid < s[j].docid
}

/// The executable ranked order.
pub fn entry_before_exec(uk: bool, rev: bool, a: &Entry, b: &Entry) -> (r: bool)
    ensures
        r == entry_before(uk, rev, a@, b@),
{
    if uk && !(a.key == b.key) {
        proof {
            assert(a.key@ != b.key@) by {
                if a.key@ == b.key@ {
                    assert(a.key@ =~= b.key@);
                }
            }
        }
        let le = crate::bytes::bytes_le(&a.key, &b.key);
        if rev {
            !le
        } else {
            le
        }
    } else {
        proof {
            if uk {
                assert(a.key@ =~= b.key@);
            }
        }
        if a.weight != b.weight {
            a.weight > b.weight
        } else {
            a.docid < b.docid
        }
    }
}

/// Inserting at the first position whose entry `e` ranks before realizes
/// [`insert_entry`].
proof fn lemma_insert_entry_at(s: Seq<EntryV>, e: EntryV, uk: bool, rev: bool, j: int)
    requires
        0 <= j <= s.len(),
        forall|m: int| 0 <= m < j ==> !entry_before(uk, rev, e, #[trigger] s[m]),
        j < s.len() ==> entry_before(uk, rev, e, s[j]),
    ensures
        insert_entry(s, e, uk, rev) =~= s.insert(j, e),
    decreases j,
{
    if s.len() == 0 {
        assert(insert_entry(s, e, uk, rev) == seq![e]);
        assert(s.insert(0, e) =~= seq![e]);
    } else if j == 0 {
        assert(entry_before(uk, rev, e, s[0]));
        assert(insert_entry(s, e, uk, rev) == seq![e] + s);
        assert(s.insert(0, e) =~= seq![e] + s);
    } else {
        assert(!entry_before(uk, rev, e, s[0]));
        let s1 = s.drop_first();
        assert(forall|m: int| 0 <= m < j - 1 ==> !entry_before(uk, rev, e, #[trigger] s1[m]));
        lemma_insert_entry_at(s1, e, uk, rev, j - 1);
        assert(insert_entry(s, e, uk, rev) == seq![s[0]] + insert_entry(s1, e, uk, rev));
        assert(seq![s[0]] + s1.insert(j - 1, e) =~= s.insert(j, e));
    }
}

/// Sort the entries into the ranked order, exactly as [`rank_sort`]
/// describes it.
pub fn sort_entries(es: &Vec<Entry>, uk: bool, rev: bool) -> (r: Vec<Entry>)
    ensures
        view_entries(r@) == rank_sort(view_entries(es@), uk, rev),
{
    let mut out: Vec<Entry> = Vec::new();
    let mut i: usize = 0;
    proof {
        assert(view_entries(out@) =~= Seq::<EntryV>::empty());
        assert(view_entries(es@).take(0) =~= Seq::<EntryV>::empty());
        assert(rank_sort(view_entries(es@).take(0), uk, rev) == Seq::<EntryV>::empty());
    }
    while i < es.len()
        invariant
            i <= es@.len(),
            view_entries(out@) == rank_sort(view_entries(es@).take(i as int), uk, rev),
        decreases es@.len() - i,
    {
        let e = es[i].duplicate();
        let ghost ev = e@;
        let ghost sorted0 = view_entries(out@);
        let mut j: usize = 0;
        while j < out.len() && !entry_before_exec(uk, rev, &e, &out[j])
            invariant
                j <= out@.len(),
                sorted0 == view_entries(out@),
                ev == e@,
                forall|m: int|
                    0 <= m < j ==> !entry_before(uk, rev, ev, #[trigger] view_entries(out@)[m]),
            decreases out@.len() - j,
        {
            j = j + 1;
        }
        proof {
            lemma_insert_entry_at(sorted0, ev, uk, rev, j as int);
        }
        out.insert(j, e);
        proof {
            assert(view_entries(out@) =~= sorted0.insert(j as int, ev));
            assert(view_entries(es@).take(i as int + 1).drop_last() =~= view_entries(es@).take(
                i as int,
            ));
            assert(view_entries(es@).take(i as int + 1).last() == ev);
            assert(view_entries(out@) == rank_sort(view_entries(es@).take(i as int + 1), uk, rev));
        }
        i = i + 1;
    }
    proof {
        assert(view_entries(es@).take(es@.len() as int) =~= view_entries(es@));
    }
    out
}

/// Build the sort key of a document.
pub fn make_key_exec(d: &Document, parts: &Vec<KeyPart>) -> (r: Vec<u8>)
    ensures
        r@ == make_key(d@, parts@),
{
    let mut out: Vec<u8> = Vec::new();
    let mut i: usize = 0;
    let ghost all = parts@;
    proof {
        assert(all.skip(0) =~= all);
        assert(out@ =~= Seq::<u8>::empty());
    }
    while i < parts.len()
        invariant
            i <= parts@.len(),
            all == parts@,
            make_key(d@, all) == out@ + make_key(d@, all.skip(i as int)),
        decreases parts@.len() - i,
    {
        let part = parts[i];
        let v: Vec<u8> = match d.get_value(part.slot) {
            Some(v) => v,
            None => Vec::new(),
        };
        let ghost vv = v@;
        let tv: Vec<u8> = if part.reverse {
            let mut c: Vec<u8> = Vec::new();
            let mut k: usize = 0;
            while k < v.len()
                invariant
                    k <= v@.len(),
                    vv == v@,
                    c@ =~= complement_bytes(v@).take(k as int),
                decreases v@.len() - k,
            {
                c.push(255 - v[k]);
                proof {
                    assert(c@ =~= complement_bytes(v@).take(k as int + 1));
                }
                k = k + 1;
            }
            proof {
                assert(complement_bytes(v@).take(v@.len() as int) =~= complement_bytes(v@));
            }
            c
        } else {
            v
        };
        let ghost out0 = out@;
        let mut m: usize = 0;
        while m < tv.len()
            invariant
                m <= tv@.len(),
                out@ == out0 + tv@.take(m as int),
            decreases tv@.len() - m,
        {
            out.push(tv[m]);
            proof {
                assert(out0 + tv@.take(m as int + 1) =~= (out0 + tv@.take(m as int)).push(
                    tv@[m as int],
                ));
            }
            m = m + 1;
        }
        out.push(0u8);
        proof {
            assert(tv@.take(tv@.len() as int) =~= tv@);
            assert(all.skip(i as int)[0] == all[i as int]);
            assert(all.skip(i as int).drop_first() =~= all.skip(i as int + 1));
            let spec_tv = if all[i as int].reverse {
                complement_bytes(
                    match doc_value(d@, all[i as int].slot) {
                        Some(v) => v,
                        None => Seq::<u8>::empty(),
                    },
                )
            } else {
                match doc_value(d@, all[i as int].slot) {
                    Some(v) => v,
                    None => Seq::<u8>::empty(),
                }
            };
            assert(tv@ == spec_tv);
            assert(out@ =~= (out0 + tv@).push(0u8));
            assert((out0 + tv@).push(0u8) =~= out0 + (tv@ + seq![0u8]));
            assert(make_key(d@, all.skip(i as int)) == spec_tv + seq![0u8] + make_key(
                d@,
                all.skip(i as int + 1),
            ));
            assert(out0 + (tv@ + seq![0u8] + make_key(d@, all.skip(i as int + 1))) =~= (out0 + (tv@
                + seq![0u8])) + make_key(d@, all.skip(i as int + 1)));
        }
        i = i + 1;
    }
    proof {
        assert(all.skip(all.len() as int).len() == 0);
        assert(make_key(d@, all.skip(all.len() as int)) == Seq::<u8>::empty());
        assert(out@ + Seq::<u8>::empty() =~= out@);
    }
    out
}

} // verus!
