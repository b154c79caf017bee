//! Query execution: the executor, ranked pages, and match spies.
//!
//! [`Enquire::get_mset`] evaluates the query against a snapshot and
//! returns an [`MSet`]: one window of the ranked result, with the total
//! number of matches.  Every matching document — not only the returned
//! page — is fed to the registered [`ValueCountMatchSpy`]s.
//!
//! An `MSet` and the iterators over it record the snapshot's revision;
//! after the snapshot is closed, or when it is not the one the result
//! came from, they fail with `InvalidOperation` instead of reading stale
//! state.

use vstd::prelude::*;

use crate::db::{find_doc, view_docs, Database};
use crate::doc::{doc_value, sat_inc, DocModel, Document};
use crate::errors::Error;
use crate::query::{Query, QueryV};
use crate::rank::{
    make_key_exec, matched_entries, mset_page, sort_entries, view_entries, Entry, EntryV, KeyPart,
    MultiValueKeyMaker,
};

verus! {

/// The model of one spy table row: a slot value and how often it was
/// seen.
pub struct SpyEntryV {
    pub value: Seq<u8>,
    pub count: u64,
}

/// One spy table row.
pub struct SpyEntry {
    pub value: Vec<u8>,
    pub count: u64,
}

impl View for SpyEntry {
    type V = SpyEntryV;

    open spec fn view(&self) -> SpyEntryV {
        SpyEntryV { value: self.value@, count: self.count }
    }
}

/// The models of a spy table.
pub open spec fn view_spy_entries(es: Seq<SpyEntry>) -> Seq<SpyEntryV> {
    Seq::new(es.len(), |i: int| es[i]@)
}

/// The model of a value-count spy.
pub struct SpyV {
    pub slot: u32,
    pub entries: Seq<SpyEntryV>,
    pub total: u64,
}

/// A frequency table over the values of one slot, filled by evaluation
/// with every matching document.
///
/// Row order is the order in which values were first seen; it does not
/// change once an evaluation has returned.
pub struct ValueCountMatchSpy {
    pub slot: u32,
    pub entries: Vec<SpyEntry>,
    pub total: u64,
}

impl View for ValueCountMatchSpy {
    type V = SpyV;

    open spec fn view(&self) -> SpyV {
        SpyV { slot: self.slot, entries: view_spy_entries(self.entries@), total: self.total }
    }
}

/// The table after one more sighting of value `v`: the value's row is
/// bumped (saturating), or a fresh row with count 1 is appended.
pub open spec fn bump_value(tab: Seq<SpyEntryV>, v: Seq<u8>) -> Seq<SpyEntryV>
    decreases tab.len(),
{
    if tab.len() == 0 {
        seq![SpyEntryV { value: v, count: 1 }]
    } else if tab[0].value == v {
        seq![SpyEntryV { value: v, count: sat_inc(tab[0].count) }] + tab.drop_first()
    } else {
        seq![tab[0]] + bump_value(tab.drop_first(), v)
    }
}

/// The table after observing one document: its slot value is counted;
/// a document without a value in the slot only counts toward the total.
pub open spec fn spy_step(tab: Seq<SpyEntryV>, d: DocModel, slot: u32) -> Seq<SpyEntryV> {
    match doc_value(d, slot) {
        Some(v) => bump_value(tab, v),
        None => tab,
    }
}

/// The table after observing, in order, every document of `docs` that
/// matches `q`.
pub open spec fn spy_fold(
    tab: Seq<SpyEntryV>,
    docs: Seq<(u64, DocModel)>,
    q: QueryV,
    slot: u32,
) -> Seq<SpyEntryV>
    decreases docs.len(),
{
    if docs.len() == 0 {
        tab
    } else {
        spy_fold(
            if crate::query::matches(q, docs[0].1) {
                spy_step(tab, docs[0].1, slot)
            } else {
                tab
            },
            docs.drop_first(),
            q,
            slot,
        )
    }
}

/// The spy's total after seeing every matching document of `docs`.
pub open spec fn spy_total(tot: u64, docs: Seq<(u64, DocModel)>, q: QueryV) -> u64
    decreases docs.len(),
{
    if docs.len() == 0 {
        tot
    } else {
        spy_total(
            if crate::query::matches(q, docs[0].1) {
                sat_inc(tot)
            } else {
                tot
            },
            docs.drop_first(),
            q,
        )
    }
}

/// The whole spy after an evaluation of `q` over `docs`.
pub open spec fn spy_after(sv: SpyV, docs: Seq<(u64, DocModel)>, q: QueryV) -> SpyV {
    SpyV {
        slot: sv.slot,
        entries: spy_fold(sv.entries, docs, q, sv.slot),
        total: spy_total(sv.total, docs, q),
    }
}

/// Bumping a value, found at row `i`, updates exactly that row.
proof fn lemma_bump_value_found(tab: Seq<SpyEntryV>, v: Seq<u8>, i: int)
    requires
        0 <= i < tab.len(),
        tab[i].value == v,
        forall|j: int| 0 <= j < i ==> tab[j].value != v,
    ensures
        bump_value(tab, v) =~= tab.update(
            i,
            SpyEntryV { value: v, count: sat_inc(tab[i].count) },
        ),
    decreases i,
{
    if i == 0 {
        assert(seq![SpyEntryV { value: v, count: sat_inc(tab[0].count) }] + tab.drop_first()
            =~= tab.update(0, SpyEntryV { value: v, count: sat_inc(tab[0].count) }));
    } else {
        let t1 = tab.drop_first();
        assert(forall|j: int| 0 <= j < i - 1 ==> t1[j].value != v);
        lemma_bump_value_found(t1, v, i - 1);
        assert(seq![tab[0]] + t1.update(i - 1, SpyEntryV { value: v, count: sat_inc(t1[i - 1].count) })
            =~= tab.update(i, SpyEntryV { value: v, count: sat_inc(tab[i].count) }));
    }
}

/// Bumping an unseen value appends a fresh row.
proof fn lemma_bump_value_absent(tab: Seq<SpyEntryV>, v: Seq<u8>)
    requires
        forall|j: int| 0 <= j < tab.len() ==> tab[j].value != v,
    ensures
        bump_value(tab, v) =~= tab.push(SpyEntryV { value: v, count: 1 }),
    decreases tab.len(),
{
    if tab.len() > 0 {
        let t1 = tab.drop_first();
        assert(forall|j: int| 0 <= j < t1.len() ==> t1[j].value != v);
        lemma_bump_value_absent(t1, v);
        assert(seq![tab[0]] + t1.push(SpyEntryV { value: v, count: 1 }) =~= tab.push(
            SpyEntryV { value: v, count: 1 },
        ));
    }
}

impl ValueCountMatchSpy {
    /// A fresh spy over `slot`, with an empty table.
    pub fn new(slot: u32) -> (r: ValueCountMatchSpy)
        ensures
            r@.slot == slot,
            r@.entries =~= Seq::<SpyEntryV>::empty(),
            r@.total == 0,
    {
        ValueCountMatchSpy { slot, entries: Vec::new(), total: 0 }
    }

    /// Index of the row holding value `v`, if the table has one.
    fn find_value_index(&self, v: &Vec<u8>) -> (r: Option<usize>)
        ensures
            match r {
                Some(i) => i < self.entries@.len() && view_spy_entries(self.entries@)[i as int].value
                    == v@ && (forall|j: int|
                    0 <= j < i ==> view_spy_entries(self.entries@)[j].value != v@),
                None => forall|j: int|
                    0 <= j < self.entries@.len() ==> view_spy_entries(self.entries@)[j].value != v@,
            },
    {
        let mut i: usize = 0;
        while i < self.entries.len()
            invariant
                i <= self.entries@.len(),
                forall|j: int| 0 <= j < i ==> view_spy_entries(self.entries@)[j].value != v@,
            decreases self.entries@.len() - i,
        {
            if self.entries[i].value == *v {
                proof {
                    assert(view_spy_entries(self.entries@)[i as int].value =~= v@);
                }
                return Some(i);
            }
            i = i + 1;
        }
        None
    }

    /// Observe one matching document: count its slot value (if it has
    /// one) and the document itself.
    pub fn observe(&mut self, d: &Document)
        ensures
            final(self)@.slot == old(self)@.slot,
            final(self)@.entries == spy_step(old(self)@.entries, d@, old(self).slot),
            final(self)@.total == sat_inc(old(self)@.total),
    {
        match d.get_value(self.slot) {
            Some(v) => {
                let ghost tab = self@.entries;
                match self.find_value_index(&v) {
                    Some(i) => {
                        let c = self.entries[i].count;
                        let nc = if c < u64::MAX {
                            c + 1
                        } else {
                            c
                        };
                        self.entries[i] = SpyEntry { value: v, count: nc };
                        proof {
                            lemma_bump_value_found(tab, v@, i as int);
                            assert(view_spy_entries(self.entries@) =~= tab.update(
                                i as int,
                                SpyEntryV { value: v@, count: sat_inc(tab[i as int].count) },
                            ));
                        }
                    },
                    None => {
                        self.entries.push(SpyEntry { value: v, count: 1 });
                        proof {
                            lemma_bump_value_absent(tab, v@);
                            assert(view_spy_entries(self.entries@) =~= tab.push(
                                SpyEntryV { value: v@, count: 1 },
                            ));
                        }
                    },
                }
            },
            None => {
            },
        }
        self.total = if self.total < u64::MAX {
            self.total + 1
        } else {
            self.total
        };
    }

    /// The number of documents the spy has observed.
    pub fn get_total(&self) -> (r: u64)
        ensures
            r == self@.total,
    {
        self.total
    }

    /// An iterator standing on the first row of the table.
    pub fn values_begin(&self) -> (r: TermIterator)
        ensures
            view_spy_entries(r.entries@) == self@.entries,
            r.pos == 0,
    {
        TermIterator { entries: duplicate_spy_entries(&self.entries), pos: 0 }
    }

    /// An iterator standing past the last row of the table.
    pub fn values_end(&self) -> (r: TermIterator)
        ensures
            view_spy_entries(r.entries@) == self@.entries,
            r.pos == self@.entries.len(),
    {
        let entries = duplicate_spy_entries(&self.entries);
        let pos = entries.len();
        TermIterator { entries, pos }
    }
}

/// An identical copy of a spy table.
fn duplicate_spy_entries(es: &Vec<SpyEntry>) -> (r: Vec<SpyEntry>)
    ensures
        view_spy_entries(r@) == view_spy_entries(es@),
        r@.len() == es@.len(),
{
    let mut out: Vec<SpyEntry> = Vec::new();
    let mut i: usize = 0;
    while i < es.len()
        invariant
            i <= es@.len(),
            out@.len() == i,
            view_spy_entries(out@) =~= view_spy_entries(es@).take(i as int),
        decreases es@.len() - i,
    {
        let e = &es[i];
        out.push(SpyEntry { value: crate::doc::clone_bytes(&e.value), count: e.count });
        proof {
            assert(view_spy_entries(out@) =~= view_spy_entries(es@).take(i as int + 1));
        }
        i = i + 1;
    }
    proof {
        assert(view_spy_entries(es@).take(es@.len() as int) =~= view_spy_entries(es@));
    }
    out
}

/// A cursor over a spy's frequency table.
pub struct TermIterator {
    pub entries: Vec<SpyEntry>,
    pub pos: usize,
}

impl TermIterator {
    /// The value of the row the iterator stands on.
    pub fn get_termfreq_value(&self) -> (r: Vec<u8>)
        requires
            self.pos < self.entries@.len(),
        ensures
            r@ == view_spy_entries(self.entries@)[self.pos as int].value,
    {
        crate::doc::clone_bytes(&self.entries[self.pos].value)
    }

    /// The count of the row the iterator stands on.
    pub fn get_termfreq_freq(&self) -> (r: u64)
        requires
            self.pos < self.entries@.len(),
        ensures
            r == view_spy_entries(self.entries@)[self.pos as int].count,
    {
        self.entries[self.pos].count
    }

    /// Whether two iterators over the same table stand on the same row.
    pub fn eq(&self, other: &TermIterator) -> (r: bool)
        ensures
            r == (self.pos == other.pos && self.entries@.len() == other.entries@.len()),
    {
        self.pos == other.pos && self.entries.len() == other.entries.len()
    }

    /// Step to the next row.
    pub fn next(&mut self)
        requires
            old(self).pos < old(self).entries@.len(),
        ensures
            final(self).pos == old(self).pos + 1,
            final(self).entries == old(self).entries,
    {
        let n = self.entries.len();
        proof {
            assert(self.pos < n);
        }
        self.pos = self.pos + 1;
    }
}

/// One ranked page of matching documents.
///
/// `entries` is the requested window of the ranked order; `total` is the
/// exact number of matching documents (this engine computes it exactly,
/// so the "estimate" is not an approximation); `revision` ties the page
/// to the snapshot it came from.
pub struct MSet {
    pub entries: Vec<Entry>,
    pub total: usize,
    pub revision: u64,
}

impl MSet {
    /// Number of entries in this page.
    pub fn size(&self) -> (r: usize)
        ensures
            r == self.entries@.len(),
    {
        self.entries.len()
    }

    /// The number of matching documents.  Documented as an estimate; this
    /// engine always computes the exact count.
    pub fn get_matches_estimated(&self) -> (r: usize)
        ensures
            r == self.total,
    {
        self.total
    }

    /// An iterator standing on the first entry of the page.
    pub fn begin(&self) -> (r: MSetIterator)
        ensures
            r.pos == 0,
    {
        MSetIterator { pos: 0 }
    }

    /// An iterator standing past the last entry of the page.
    pub fn end(&self) -> (r: MSetIterator)
        ensures
            r.pos == self.entries@.len(),
    {
        MSetIterator { pos: self.entries.len() }
    }

    /// An iterator standing on the last entry of the page.
    ///
    /// Fails with `InvalidArgument` exactly when the page is empty.
    pub fn back(&self) -> (r: Result<MSetIterator, Error>)
        ensures
            self.entries@.len() > 0 ==> (r matches Ok(it) && it.pos == self.entries@.len() - 1),
            self.entries@.len() == 0 ==> (r matches Err(e) && e is InvalidArgument),
    {
        if self.entries.len() == 0 {
            Err(Error::InvalidArgument)
        } else {
            Ok(MSetIterator { pos: self.entries.len() - 1 })
        }
    }
}

/// A cursor over a ranked page.
pub struct MSetIterator {
    pub pos: usize,
}

impl MSetIterator {
    /// Whether two iterators stand on the same position.
    pub fn eq(&self, other: &MSetIterator) -> (r: bool)
        ensures
            r == (self.pos == other.pos),
    {
        self.pos == other.pos
    }

    /// Step to the next entry of `mset`.
    ///
    /// Fails with `InvalidOperation` exactly when already past the end.
    pub fn next(&mut self, mset: &MSet) -> (r: Result<(), Error>)
        ensures
            old(self).pos < mset.entries@.len() ==> (r matches Ok(u) && u == () && final(self).pos
                == old(self).pos + 1),
            old(self).pos >= mset.entries@.len() ==> (r matches Err(e) && e is InvalidOperation
                && final(self).pos == old(self).pos),
    {
        if self.pos < mset.entries.len() {
            self.pos = self.pos + 1;
            Ok(())
        } else {
            Err(Error::InvalidOperation)
        }
    }

    /// The document id of the entry the iterator stands on.
    ///
    /// Fails with `InvalidArgument` exactly when past the end.
    pub fn get_docid(&self, mset: &MSet) -> (r: Result<u64, Error>)
        ensures
            self.pos < mset.entries@.len() ==> (r matches Ok(id) && id == view_entries(
                mset.entries@,
            )[self.pos as int].docid),
            self.pos >= mset.entries@.len() ==> (r matches Err(e) && e is InvalidArgument),
    {
        if self.pos < mset.entries.len() {
            Ok(mset.entries[self.pos].docid)
        } else {
            Err(Error::InvalidArgument)
        }
    }

    /// The weight of the entry the iterator stands on.
    ///
    /// Fails with `InvalidArgument` exactly when past the end.
    pub fn get_weight(&self, mset: &MSet) -> (r: Result<u64, Error>)
        ensures
            self.pos < mset.entries@.len() ==> (r matches Ok(w) && w == view_entries(
                mset.entries@,
            )[self.pos as int].weight),
            self.pos >= mset.entries@.len() ==> (r matches Err(e) && e is InvalidArgument),
    {
        if self.pos < mset.entries.len() {
            Ok(mset.entries[self.pos].weight)
        } else {
            Err(Error::InvalidArgument)
        }
    }

    /// The document the iterator stands on, resolved from the snapshot
    /// the page came from.
    ///
    /// Fails with `InvalidOperation` when the snapshot is closed or is
    /// not at the page's revision (so closing a database invalidates the
    /// iterators derived from it), with `InvalidArgument` past the end,
    /// and with `DocNotFound` when the id is not in the snapshot.
    pub fn get_document(&self, mset: &MSet, db: &Database) -> (r: Result<Document, Error>)
        ensures
            (!db.open || db.revision != mset.revision) ==> (r matches Err(e) && e
                is InvalidOperation),
            db.open && db.revision == mset.revision && self.pos >= mset.entries@.len() ==> (r
                matches Err(e) && e is InvalidArgument),
            db.open && db.revision == mset.revision && self.pos < mset.entries@.len() ==> ({
                let id = view_entries(mset.entries@)[self.pos as int].docid;
                match find_doc(view_docs(db.docs@), id) {
                    Some(d) => r matches Ok(doc) && doc@ == d,
                    None => r matches Err(e) && e is DocNotFound,
                }
            }),
    {
        if !db.open || db.revision != mset.revision {
            return Err(Error::InvalidOperation);
        }
        if self.pos >= mset.entries.len() {
            return Err(Error::InvalidArgument);
        }
        let id = mset.entries[self.pos].docid;
        db.get_document(id)
    }
}

/// The executor: holds a query, an optional sort key, and match spies,
/// and produces ranked pages from a snapshot.
pub struct Enquire {
    pub revision: u64,
    pub query: Option<Query>,
    pub sorter: Option<MultiValueKeyMaker>,
    pub sort_reverse: bool,
    pub spies: Vec<ValueCountMatchSpy>,
}

/// The model of the executor's query; the empty query when none is set.
pub open spec fn enquire_query(e: Enquire) -> QueryV {
    match e.query {
        Some(q) => q@,
        None => QueryV::Empty,
    }
}

/// The sort key parts the executor will use, if any.
pub open spec fn enquire_parts(e: Enquire) -> Option<Seq<KeyPart>> {
    match e.sorter {
        Some(mk) => Some(mk.parts@),
        None => None,
    }
}

impl Database {
    /// An executor over this snapshot.  Fails with `InvalidOperation`
    /// exactly when the snapshot is closed.
    pub fn new_enquire(&self) -> (r: Result<Enquire, Error>)
        ensures
            self.open ==> (r matches Ok(e) && e.revision == self.revision && e.query is None
                && e.sorter is None && !e.sort_reverse && e.spies@.len() == 0),
            !self.open ==> (r matches Err(e) && e is InvalidOperation),
    {
        if !self.open {
            return Err(Error::InvalidOperation);
        }
        Ok(
            Enquire {
                revision: self.revision,
                query: None,
                sorter: None,
                sort_reverse: false,
                spies: Vec::new(),
            },
        )
    }
}

impl Enquire {
    /// Set the query that `get_mset` evaluates.
    pub fn set_query(&mut self, query: &Query)
        ensures
            final(self).query matches Some(q) && q@ == query@,
            final(self).revision == old(self).revision,
            final(self).sorter == old(self).sorter,
            final(self).sort_reverse == old(self).sort_reverse,
            final(self).spies == old(self).spies,
    {
        self.query = Some(query.duplicate());
    }

    /// Rank by the keys the sorter builds instead of by weight alone;
    /// `reverse` flips the key order.
    pub fn set_sort_by_key(&mut self, sorter: MultiValueKeyMaker, reverse: bool)
        ensures
            final(self).sorter matches Some(mk) && mk.parts@ == sorter.parts@,
            final(self).sort_reverse == reverse,
            final(self).revision == old(self).revision,
            final(self).query == old(self).query,
            final(self).spies == old(self).spies,
    {
        self.sorter = Some(sorter);
        self.sort_reverse = reverse;
    }

    /// Register a value-count spy; `get_mset` feeds it every matching
    /// document.
    pub fn add_matchspy_value_count(&mut self, spy: ValueCountMatchSpy)
        ensures
            final(self).spies@ == old(self).spies@.push(spy),
            final(self).revision == old(self).revision,
            final(self).query == old(self).query,
            final(self).sorter == old(self).sorter,
            final(self).sort_reverse == old(self).sort_reverse,
    {
        self.spies.push(spy);
    }

    /// Take the registered spies out, typically after an evaluation.
    pub fn take_matchspies(&mut self) -> (r: Vec<ValueCountMatchSpy>)
        ensures
            r == old(self).spies,
            final(self).spies@.len() == 0,
            final(self).revision == old(self).revision,
            final(self).query == old(self).query,
            final(self).sorter == old(self).sorter,
            final(self).sort_reverse == old(self).sort_reverse,
    {
        let mut out: Vec<ValueCountMatchSpy> = Vec::new();
        core::mem::swap(&mut out, &mut self.spies);
        out
    }

    /// Evaluate the query over the snapshot and return the ranked window
    /// `[from, from + size)`, feeding every matching document to the
    /// registered spies.
    ///
    /// Fails with `InvalidOperation` when the snapshot is closed or not
    /// at this executor's revision, and with `InvalidArgument` when no
    /// query has been set.
    pub fn get_mset(&mut self, db: &Database, from: usize, size: usize) -> (r: Result<MSet, Error>)
        ensures
            (!db.open || db.revision != old(self).revision) ==> (r matches Err(e) && e
                is InvalidOperation && *final(self) == *old(self)),
            db.open && db.revision == old(self).revision && old(self).query is None ==> (r matches
                Err(e) && e is InvalidArgument && *final(self) == *old(self)),
            db.open && db.revision == old(self).revision && (old(self).query is Some) ==> ({
                let docs = view_docs(db.docs@);
                let qv = enquire_query(*old(self));
                let parts = enquire_parts(*old(self));
                let rev = old(self).sort_reverse;
                &&& r matches Ok(m)
                &&& view_entries(m.entries@) == mset_page(
                    docs,
                    qv,
                    parts,
                    rev,
                    from as int,
                    size as int,
                )
                &&& m.total == matched_entries(docs, qv, parts).len()
                &&& m.revision == db.revision
                &&& final(self).spies@.len() == old(self).spies@.len()
                &&& forall|k: int|
                    0 <= k < old(self).spies@.len() ==> #[trigger] final(self).spies@[k]@
                        == spy_after(old(self).spies@[k]@, docs, qv)
                &&& final(self).revision == old(self).revision
                &&& final(self).query == old(self).query
                &&& final(self).sorter == old(self).sorter
                &&& final(self).sort_reverse == old(self).sort_reverse
            }),
    {
        if !db.open || db.revision != self.revision {
            return Err(Error::InvalidOperation);
        }
        let query = match &self.query {
            Some(q) => q,
            None => {
                return Err(Error::InvalidArgument);
            },
        };
        let ghost docs = view_docs(db.docs@);
        let ghost qv = query@;
        let ghost parts = enquire_parts(*self);
        let uk = match &self.sorter {
            Some(_) => true,
            None => false,
        };
        let rev = self.sort_reverse;

        // Collect one entry per matching document, in document order.
        let n = db.docs.len();
        let mut collected: Vec<Entry> = Vec::new();
        let mut i: usize = 0;
        proof {
            assert(docs.skip(0) =~= docs);
            assert(view_entries(collected@) =~= Seq::<EntryV>::empty());
        }
        while i < n
            invariant
                i <= n,
                n == db.docs@.len(),
                docs == view_docs(db.docs@),
                qv == enquire_query(*self),
                self.query is Some,
                parts == enquire_parts(*self),
                uk == (parts is Some),
                rev == self.sort_reverse,
                matched_entries(docs, qv, parts) == view_entries(collected@) + matched_entries(
                    docs.skip(i as int),
                    qv,
                    parts,
                ),
            decreases n - i,
        {
            proof {
                assert(docs.skip(i as int)[0] == docs[i as int]);
                assert(docs.skip(i as int).drop_first() =~= docs.skip(i as int + 1));
            }
            let sd = &db.docs[i];
            let query_ref = match &self.query {
                Some(q) => q,
                None => {
                    proof {
                        assert(false);
                    }
                    return Err(Error::InvalidArgument);
                },
            };
            let (matched, weight) = query_ref.eval(&sd.doc);
            if matched {
                let key: Vec<u8> = match &self.sorter {
                    Some(mk) => make_key_exec(&sd.doc, &mk.parts),
                    None => Vec::new(),
                };
                let ghost col0 = collected@;
                collected.push(Entry { docid: sd.id, weight, key });
                proof {
                    assert(view_entries(collected@) =~= view_entries(col0).push(
                        entry_of_doc(docs[i as int], qv, parts),
                    ));
                    assert(view_entries(col0).push(entry_of_doc(docs[i as int], qv, parts))
                        =~= view_entries(col0) + seq![entry_of_doc(docs[i as int], qv, parts)]);
                    assert((view_entries(col0) + seq![entry_of_doc(docs[i as int], qv, parts)])
                        + matched_entries(docs.skip(i as int + 1), qv, parts) =~= view_entries(col0)
                        + (seq![entry_of_doc(docs[i as int], qv, parts)] + matched_entries(
                        docs.skip(i as int + 1),
                        qv,
                        parts,
                    )));
                }
            }
            i = i + 1;
        }
        proof {
            assert(docs.skip(n as int).len() == 0);
            assert(matched_entries(docs.skip(n as int), qv, parts) =~= Seq::<EntryV>::empty());
            assert(view_entries(collected@) + Seq::<EntryV>::empty() =~= view_entries(collected@));
        }
        let total = collected.len();

        // Rank and take the requested window.
        let ranked = sort_entries(&collected, uk, rev);
        let len = ranked.len();
        let lo = if from < len {
            from
        } else {
            len
        };
        let remaining = len - lo;
        let cnt = if size < remaining {
            size
        } else {
            remaining
        };
        let mut page: Vec<Entry> = Vec::new();
        let mut k: usize = 0;
        while k < cnt
            invariant
                k <= cnt,
                len == ranked@.len(),
                lo + cnt <= len,
                view_entries(page@) =~= view_entries(ranked@).subrange(
                    lo as int,
                    lo as int + k as int,
                ),
            decreases cnt - k,
        {
            let e = ranked[lo + k].duplicate();
            let ghost p0 = page@;
            page.push(e);
            proof {
                assert(view_entries(page@) =~= view_entries(p0).push(
                    ranked@[lo as int + k as int]@,
                ));
                assert(view_entries(ranked@)[lo as int + k as int] == ranked@[lo as int
                    + k as int]@);
                assert(view_entries(page@) =~= view_entries(ranked@).subrange(
                    lo as int,
                    lo as int + k as int + 1,
                ));
            }
            k = k + 1;
        }
        proof {
            assert(view_entries(page@) =~= mset_page(
                docs,
                qv,
                parts,
                rev,
                from as int,
                size as int,
            ));
        }

        // Feed every matching document to each spy.
        let mut done: Vec<ValueCountMatchSpy> = Vec::new();
        let ghost spies0 = self.spies@;
        proof {
            assert(view_docs(db.docs@) == docs);
        }
        while self.spies.len() > 0
            invariant
                docs == view_docs(db.docs@),
                qv == enquire_query(*self),
                self.query is Some,
                self.query == old(self).query,
                self.revision == old(self).revision,
                self.sorter == old(self).sorter,
                self.sort_reverse == old(self).sort_reverse,
                done@.len() + self.spies@.len() == spies0.len(),
                forall|k2: int|
                    0 <= k2 < done@.len() ==> #[trigger] done@[k2]@ == spy_after(
                        spies0[k2]@,
                        docs,
                        qv,
                    ),
                forall|k2: int|
                    0 <= k2 < self.spies@.len() ==> #[trigger] self.spies@[k2] == spies0[done@.len()
                        + k2],
            decreases self.spies@.len(),
        {
            let mut spy = self.spies.remove(0);
            let ghost spy0 = spy@;
            let ghost t0 = spy@.total;
            let mut di: usize = 0;
            proof {
                assert(docs.skip(0) =~= docs);
            }
            while di < db.docs.len()
                invariant
                    di <= db.docs@.len(),
                    docs == view_docs(db.docs@),
                    qv == match self.query {
                        Some(q) => q@,
                        None => QueryV::Empty,
                    },
                    self.query is Some,
                    spy@.slot == spy0.slot,
                    spy_fold(spy0.entries, docs, qv, spy0.slot) == spy_fold(
                        spy@.entries,
                        docs.skip(di as int),
                        qv,
                        spy0.slot,
                    ),
                    spy_total(spy0.total, docs, qv) == spy_total(
                        spy@.total,
                        docs.skip(di as int),
                        qv,
                    ),
                decreases db.docs@.len() - di,
            {
                proof {
                    assert(docs.skip(di as int)[0] == docs[di as int]);
                    assert(docs.skip(di as int).drop_first() =~= docs.skip(di as int + 1));
                }
                let sd = &db.docs[di];
                let query_ref = match &self.query {
                    Some(q) => q,
                    None => {
                        proof {
                            assert(false);
                        }
                        return Err(Error::InvalidArgument);
                    },
                };
                let (matched, _w) = query_ref.eval(&sd.doc);
                if matched {
                    spy.observe(&sd.doc);
                }
                di = di + 1;
            }
            proof {
                assert(docs.skip(db.docs@.len() as int).len() == 0);
                assert(spy@.entries == spy_fold(spy0.entries, docs, qv, spy0.slot));
                assert(spy@.total == spy_total(spy0.total, docs, qv));
                assert(spy@ == spy_after(spy0, docs, qv));
            }
            done.push(spy);
        }
        self.spies = done;

        Ok(MSet { entries: page, total, revision: db.revision })
    }
}

/// The entry a matching stored document contributes (same as
/// [`crate::rank::entry_of`]; restated here for loop proofs).
pub open spec fn entry_of_doc(p: (u64, DocModel), q: QueryV, parts: Option<Seq<KeyPart>>) -> EntryV {
    crate::rank::entry_of(p, q, parts)
}

} // verus!
