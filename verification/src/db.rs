//! The document store: a writer with transactions, and read-only
//! snapshots.
//!
//! A database is modelled as a sequence of `(document id, document)`
//! pairs, strictly sorted by id.  The writer keeps two such sequences:
//! `live`, which its own operations see, and `committed`, which snapshots
//! are taken from.  `commit` publishes `live` as the new `committed`
//! state, so writes are invisible to readers until then, and a snapshot
//! taken by a reader never changes under it.
//!
//! Document ids are assigned by the store, starting at 1; replacing by a
//! unique term reuses the replaced document's id, so ids are not
//! guaranteed monotone across a document's history.

use vstd::prelude::*;
use vstd::string::StringSliceAdditionalSpecFns;

use crate::doc::{doc_has_term, doc_wf, DocModel, Document};
use crate::errors::Error;

verus! {

/// One stored document with its id.
pub struct StoredDoc {
    pub id: u64,
    pub doc: Document,
}

impl View for StoredDoc {
    type V = (u64, DocModel);

    open spec fn view(&self) -> (u64, DocModel) {
        (self.id, self.doc@)
    }
}

/// The models of a sequence of stored documents.
pub open spec fn view_docs(ds: Seq<StoredDoc>) -> Seq<(u64, DocModel)> {
    Seq::new(ds.len(), |i: int| ds[i]@)
}

/// The document stored under `id`, if any.
pub open spec fn find_doc(docs: Seq<(u64, DocModel)>, id: u64) -> Option<DocModel>
    decreases docs.len(),
{
    if docs.len() == 0 {
        None
    } else if docs[0].0 == id {
        Some(docs[0].1)
    } else {
        find_doc(docs.drop_first(), id)
    }
}

/// Ids strictly increase along the sequence.
pub open spec fn docs_sorted(docs: Seq<(u64, DocModel)>) -> bool {
    forall|i: int, j: int| 0 <= i < j < docs.len() ==> docs[i].0 < docs[j].0
}

/// Sorted by id, and every document well-formed.
pub open spec fn docs_wf(docs: Seq<(u64, DocModel)>) -> bool {
    docs_sorted(docs) && (forall|i: int| 0 <= i < docs.len() ==> doc_wf(#[trigger] docs[i].1))
}

/// The id of the first document carrying term `t`, if any.
pub open spec fn first_id_with_term(docs: Seq<(u64, DocModel)>, t: Seq<u8>) -> Option<u64>
    decreases docs.len(),
{
    if docs.len() == 0 {
        None
    } else if doc_has_term(docs[0].1, t) {
        Some(docs[0].0)
    } else {
        first_id_with_term(docs.drop_first(), t)
    }
}

/// The documents left after deleting every document carrying term `t`.
pub open spec fn remove_term_docs(docs: Seq<(u64, DocModel)>, t: Seq<u8>) -> Seq<(u64, DocModel)>
    decreases docs.len(),
{
    if docs.len() == 0 {
        docs
    } else if doc_has_term(docs[0].1, t) {
        remove_term_docs(docs.drop_first(), t)
    } else {
        seq![docs[0]] + remove_term_docs(docs.drop_first(), t)
    }
}

/// The documents after replacing by term `t`: the first document carrying
/// `t` is replaced by `d` under its own id, every later one carrying `t`
/// is deleted; without a match the sequence is unchanged.
pub open spec fn replace_docs(docs: Seq<(u64, DocModel)>, t: Seq<u8>, d: DocModel) -> Seq<
    (u64, DocModel),
>
    decreases docs.len(),
{
    if docs.len() == 0 {
        docs
    } else if doc_has_term(docs[0].1, t) {
        seq![(docs[0].0, d)] + remove_term_docs(docs.drop_first(), t)
    } else {
        seq![docs[0]] + replace_docs(docs.drop_first(), t, d)
    }
}

/// The whole effect of replace-by-term on `(documents, next id)`: the new
/// documents, the assigned id, and the new next id.
pub open spec fn replace_result(
    docs: Seq<(u64, DocModel)>,
    t: Seq<u8>,
    d: DocModel,
    next: u64,
) -> (Seq<(u64, DocModel)>, u64, u64) {
    match first_id_with_term(docs, t) {
        Some(id) => (replace_docs(docs, t, d), id, next),
        None => (docs.push((next, d)), next, (next + 1) as u64),
    }
}

/// Document lookup is unaffected by entries before the first match.
pub proof fn lemma_find_doc_prefix(docs: Seq<(u64, DocModel)>, id: u64, i: int)
    requires
        0 <= i <= docs.len(),
        forall|j: int| 0 <= j < i ==> docs[j].0 != id,
    ensures
        find_doc(docs, id) == find_doc(docs.skip(i), id),
    decreases i,
{
    if i > 0 {
        let d1 = docs.drop_first();
        assert(forall|j: int| 0 <= j < i - 1 ==> d1[j].0 != id);
        lemma_find_doc_prefix(d1, id, i - 1);
        assert(d1.skip(i - 1) =~= docs.skip(i));
    } else {
        assert(docs.skip(0) =~= docs);
    }
}

/// No document left by a delete carries the deleted term.
pub proof fn lemma_remove_no_term(docs: Seq<(u64, DocModel)>, t: Seq<u8>)
    ensures
        forall|j: int|
            0 <= j < remove_term_docs(docs, t).len() ==> !doc_has_term(
                #[trigger] remove_term_docs(docs, t)[j].1,
                t,
            ),
    decreases docs.len(),
{
    if docs.len() > 0 {
        lemma_remove_no_term(docs.drop_first(), t);
        let r = remove_term_docs(docs, t);
        let r1 = remove_term_docs(docs.drop_first(), t);
        assert forall|j: int| 0 <= j < r.len() implies !doc_has_term(r[j].1, t) by {
            if doc_has_term(docs[0].1, t) {
                assert(r == r1);
            } else {
                assert(r == seq![docs[0]] + r1);
                if j > 0 {
                    assert(r[j] == r1[j - 1]);
                }
            }
        }
    }
}

/// Deleting a term's documents twice is the same as deleting them once.
pub proof fn lemma_remove_idempotent(docs: Seq<(u64, DocModel)>, t: Seq<u8>)
    ensures
        remove_term_docs(remove_term_docs(docs, t), t) =~= remove_term_docs(docs, t),
    decreases docs.len(),
{
    if docs.len() > 0 {
        lemma_remove_idempotent(docs.drop_first(), t);
        if !doc_has_term(docs[0].1, t) {
            let r = remove_term_docs(docs, t);
            assert(r == seq![docs[0]] + remove_term_docs(docs.drop_first(), t));
            assert(r.drop_first() =~= remove_term_docs(docs.drop_first(), t));
        }
    }
}

/// Replacing by a unique key is idempotent: replacing again with the same
/// content leaves the documents, the assigned id and the next id exactly
/// as they were after the first replacement.
pub proof fn lemma_replace_idempotent(
    docs: Seq<(u64, DocModel)>,
    t: Seq<u8>,
    d: DocModel,
    next: u64,
)
    requires
        doc_has_term(d, t),
        next < u64::MAX,
    ensures
        ({
            let once = replace_result(docs, t, d, next);
            replace_result(once.0, t, d, once.2) == once
        }),
{
    match first_id_with_term(docs, t) {
        Some(id) => {
            lemma_replace_docs_twice(docs, t, d);
            lemma_replace_first_id(docs, t, d);
        },
        None => {
            lemma_no_first_id(docs, t);
            let pushed = docs.push((next, d));
            assert(first_id_with_term(pushed, t) == Some(next)) by {
                lemma_first_id_pushed(docs, t, d, next);
            }
            lemma_replace_of_pushed(docs, t, d, next);
        },
    }
}

/// Replacing twice gives the same documents as replacing once, when the
/// new document carries the key.
proof fn lemma_replace_docs_twice(docs: Seq<(u64, DocModel)>, t: Seq<u8>, d: DocModel)
    requires
        doc_has_term(d, t),
    ensures
        replace_docs(replace_docs(docs, t, d), t, d) =~= replace_docs(docs, t, d),
    decreases docs.len(),
{
    if docs.len() > 0 {
        if doc_has_term(docs[0].1, t) {
            let r1 = replace_docs(docs, t, d);
            assert(r1 == seq![(docs[0].0, d)] + remove_term_docs(docs.drop_first(), t));
            assert(r1[0] == (docs[0].0, d));
            assert(doc_has_term(r1[0].1, t));
            assert(r1.drop_first() =~= remove_term_docs(docs.drop_first(), t));
            lemma_remove_idempotent(docs.drop_first(), t);
        } else {
            let r1 = replace_docs(docs, t, d);
            assert(r1 == seq![docs[0]] + replace_docs(docs.drop_first(), t, d));
            assert(r1[0] == docs[0]);
            assert(r1.drop_first() =~= replace_docs(docs.drop_first(), t, d));
            lemma_replace_docs_twice(docs.drop_first(), t, d);
        }
    }
}

/// After a replacement that found a match, the key's first document has
/// the same id as before.
proof fn lemma_replace_first_id(docs: Seq<(u64, DocModel)>, t: Seq<u8>, d: DocModel)
    requires
        doc_has_term(d, t),
        first_id_with_term(docs, t) is Some,
    ensures
        first_id_with_term(replace_docs(docs, t, d), t) == first_id_with_term(docs, t),
    decreases docs.len(),
{
    if docs.len() > 0 {
        if doc_has_term(docs[0].1, t) {
            let r1 = replace_docs(docs, t, d);
            assert(r1[0] == (docs[0].0, d));
            assert(doc_has_term(r1[0].1, t));
        } else {
            let r1 = replace_docs(docs, t, d);
            assert(r1[0] == docs[0]);
            assert(r1.drop_first() =~= replace_docs(docs.drop_first(), t, d));
            lemma_replace_first_id(docs.drop_first(), t, d);
        }
    }
}

/// Replacing by a key that no document carries changes nothing.
pub proof fn lemma_replace_unfound_identity(docs: Seq<(u64, DocModel)>, t: Seq<u8>, d: DocModel)
    requires
        first_id_with_term(docs, t) is None,
    ensures
        replace_docs(docs, t, d) =~= docs,
    decreases docs.len(),
{
    if docs.len() > 0 {
        assert(!doc_has_term(docs[0].1, t));
        lemma_replace_unfound_identity(docs.drop_first(), t, d);
        assert(replace_docs(docs, t, d) == seq![docs[0]] + replace_docs(docs.drop_first(), t, d));
    }
}

/// A key with no first document is carried by no document at all.
pub proof fn lemma_no_first_id(docs: Seq<(u64, DocModel)>, t: Seq<u8>)
    requires
        first_id_with_term(docs, t) is None,
    ensures
        forall|j: int| 0 <= j < docs.len() ==> !doc_has_term(#[trigger] docs[j].1, t),
    decreases docs.len(),
{
    if docs.len() > 0 {
        lemma_no_first_id(docs.drop_first(), t);
        assert(forall|j: int| 1 <= j < docs.len() ==> docs[j] == docs.drop_first()[j - 1]);
    }
}

/// Pushing a document with the key onto key-free documents makes it the
/// key's first document.
proof fn lemma_first_id_pushed(docs: Seq<(u64, DocModel)>, t: Seq<u8>, d: DocModel, next: u64)
    requires
        doc_has_term(d, t),
        first_id_with_term(docs, t) is None,
    ensures
        first_id_with_term(docs.push((next, d)), t) == Some(next),
    decreases docs.len(),
{
    if docs.len() == 0 {
        assert(docs.push((next, d))[0] == (next, d));
    } else {
        assert(docs.push((next, d))[0] == docs[0]);
        assert(docs.push((next, d)).drop_first() =~= docs.drop_first().push((next, d)));
        lemma_first_id_pushed(docs.drop_first(), t, d, next);
    }
}

/// Replacing within key-free documents plus one pushed document with the
/// key touches only that last document.
proof fn lemma_replace_of_pushed(docs: Seq<(u64, DocModel)>, t: Seq<u8>, d: DocModel, next: u64)
    requires
        doc_has_term(d, t),
        first_id_with_term(docs, t) is None,
    ensures
        replace_docs(docs.push((next, d)), t, d) =~= docs.push((next, d)),
    decreases docs.len(),
{
    if docs.len() == 0 {
        let p = docs.push((next, d));
        assert(p[0] == (next, d));
        assert(p.drop_first() =~= Seq::<(u64, DocModel)>::empty());
        assert(replace_docs(p, t, d) == seq![(next, d)] + remove_term_docs(p.drop_first(), t));
        assert(replace_docs(p, t, d) =~= p);
    } else {
        let p = docs.push((next, d));
        assert(p[0] == docs[0]);
        assert(!doc_has_term(p[0].1, t));
        assert(p.drop_first() =~= docs.drop_first().push((next, d)));
        lemma_replace_of_pushed(docs.drop_first(), t, d, next);
        assert(replace_docs(p, t, d) == seq![docs[0]] + replace_docs(p.drop_first(), t, d));
        assert(replace_docs(p, t, d) =~= p);
    }
}

impl StoredDoc {
    /// An identical copy of the stored document.
    pub fn duplicate(&self) -> (r: StoredDoc)
        ensures
            r@ == self@,
    {
        StoredDoc { id: self.id, doc: self.doc.duplicate() }
    }
}

/// A read-only snapshot of a committed database state.
///
/// Result sets and iterators derived from a snapshot record its revision;
/// once the snapshot is closed (or replaced by another revision), they
/// fail with `InvalidOperation` instead of reading stale state.
pub struct Database {
    pub docs: Vec<StoredDoc>,
    pub revision: u64,
    pub open: bool,
}

/// Well-formedness of a snapshot.
pub open spec fn db_wf(db: Database) -> bool {
    docs_wf(view_docs(db.docs@))
}

/// Whether `b`'s documents can be appended to `a`'s: every id of `b` is
/// greater than every id of `a`.
pub open spec fn can_append(a: Seq<(u64, DocModel)>, b: Seq<(u64, DocModel)>) -> bool {
    forall|i: int, j: int| 0 <= i < a.len() && 0 <= j < b.len() ==> a[i].0 < b[j].0
}

impl Database {
    /// An empty, open snapshot.
    pub fn new() -> (r: Database)
        ensures
            view_docs(r.docs@) =~= Seq::<(u64, DocModel)>::empty(),
            r.open,
            r.revision == 0,
            db_wf(r),
    {
        Database { docs: Vec::new(), revision: 0, open: true }
    }

    /// Close the snapshot; everything derived from it is invalidated.
    pub fn close(&mut self)
        ensures
            !final(self).open,
            final(self).docs == old(self).docs,
            final(self).revision == old(self).revision,
    {
        self.open = false;
    }

    /// Re-sync the snapshot to the writer's newest committed state: after
    /// a successful reopen this handle equals a snapshot taken now, so
    /// every commit completed before the call is visible and none after
    /// it.  Bumping to the new revision invalidates result sets taken at
    /// the old one.
    ///
    /// Fails with `InvalidOperation`, changing nothing, exactly when this
    /// handle or the writer is closed.
    pub fn reopen(&mut self, from: &WritableDatabase) -> (r: Result<(), Error>)
        requires
            wdb_wf(*from),
        ensures
            (!old(self).open || !from.open) ==> (r matches Err(e) && e is InvalidOperation
                && *final(self) == *old(self)),
            old(self).open && from.open ==> (r matches Ok(u) && u == () && view_docs(
                final(self).docs@,
            ) == view_docs(from.committed@) && final(self).revision == from.revision
                && final(self).open && db_wf(*final(self))),
    {
        if !self.open || !from.open {
            return Err(Error::InvalidOperation);
        }
        let docs = duplicate_docs(&from.committed);
        proof {
            let cv = view_docs(docs@);
            let fv = view_docs(from.committed@);
            assert(cv == fv);
            assert(docs_wf(cv)) by {
                assert forall|i: int, j: int| 0 <= i < j < cv.len() implies cv[i].0 < cv[j].0 by {
                    assert(cv[i] == fv[i] && cv[j] == fv[j]);
                }
                assert forall|i: int| 0 <= i < cv.len() implies crate::doc::doc_wf(
                    #[trigger] cv[i].1,
                ) by {
                    assert(cv[i] == fv[i]);
                }
            }
        }
        self.docs = docs;
        self.revision = from.revision;
        Ok(())
    }

    /// Append another snapshot's documents to this one, and bump the
    /// revision (which invalidates result sets derived from either).
    ///
    /// The ids must not interleave: every id of `other` must be greater
    /// than every id here, else the merge fails with `InvalidArgument`
    /// and changes nothing.  A closed handle on either side fails with
    /// `InvalidOperation`.
    pub fn add_database(&mut self, other: &Database) -> (r: Result<(), Error>)
        requires
            db_wf(*old(self)),
            db_wf(*other),
        ensures
            db_wf(*final(self)),
            (!old(self).open || !other.open) ==> (r matches Err(e) && e is InvalidOperation
                && *final(self) == *old(self)),
            old(self).open && other.open && can_append(
                view_docs(old(self).docs@),
                view_docs(other.docs@),
            ) ==> (r matches Ok(u) && u == () && view_docs(final(self).docs@) == view_docs(
                old(self).docs@,
            ) + view_docs(other.docs@) && final(self).revision == crate::doc::sat_inc(
                old(self).revision,
            ) && final(self).open),
            old(self).open && other.open && !can_append(
                view_docs(old(self).docs@),
                view_docs(other.docs@),
            ) ==> (r matches Err(e) && e is InvalidArgument && *final(self) == *old(self)),
    {
        if !self.open || !other.open {
            return Err(Error::InvalidOperation);
        }
        let ghost a = view_docs(self.docs@);
        let ghost b = view_docs(other.docs@);
        if self.docs.len() > 0 && other.docs.len() > 0 {
            let last_own = self.docs[self.docs.len() - 1].id;
            let first_other = other.docs[0].id;
            if last_own >= first_other {
                proof {
                    assert(a[a.len() - 1].0 == last_own && b[0].0 == first_other);
                    if can_append(a, b) {
                        assert(a[a.len() - 1].0 < b[0].0);
                    }
                    assert(!can_append(a, b));
                }
                return Err(Error::InvalidArgument);
            }
        }
        proof {
            assert forall|i: int, j: int|
                0 <= i < a.len() && 0 <= j < b.len() implies a[i].0 < b[j].0 by {
                assert(a[a.len() - 1].0 < b[0].0);
                if i < a.len() - 1 {
                    assert(a[i].0 < a[a.len() - 1].0);
                }
                if j > 0 {
                    assert(b[0].0 < b[j].0);
                }
            }
            assert(can_append(a, b));
        }
        let mut i: usize = 0;
        while i < other.docs.len()
            invariant
                i <= other.docs@.len(),
                b == view_docs(other.docs@),
                self.open,
                self.revision == old(self).revision,
                view_docs(self.docs@) =~= a + b.take(i as int),
            decreases other.docs@.len() - i,
        {
            let ghost s0 = view_docs(self.docs@);
            let copied = other.docs[i].duplicate();
            self.docs.push(copied);
            proof {
                assert(view_docs(self.docs@) =~= s0.push(b[i as int]));
                assert(s0.push(b[i as int]) =~= a + b.take(i as int + 1));
            }
            i = i + 1;
        }
        proof {
            assert(b.take(b.len() as int) =~= b);
            assert(view_docs(self.docs@) == a + b);
            assert(docs_wf(a + b)) by {
                assert(forall|k: int| 0 <= k < a.len() ==> (a + b)[k] == a[k]);
                assert(forall|k: int|
                    a.len() <= k < a.len() + b.len() ==> (a + b)[k] == b[k - a.len()]);
            }
        }
        self.revision = if self.revision < u64::MAX {
            self.revision + 1
        } else {
            self.revision
        };
        Ok(())
    }

    /// Number of documents in the snapshot.
    pub fn doccount(&self) -> (r: usize)
        ensures
            r == view_docs(self.docs@).len(),
    {
        self.docs.len()
    }

    /// The document stored under `id`.
    ///
    /// Fails with `InvalidOperation` when the snapshot is closed, and with
    /// `DocNotFound` exactly when no document has that id.
    pub fn get_document(&self, id: u64) -> (r: Result<Document, Error>)
        ensures
            !self.open ==> (r matches Err(e) && e is InvalidOperation),
            self.open && find_doc(view_docs(self.docs@), id) is Some ==> (r matches Ok(d) && Some(
                d@,
            ) == find_doc(view_docs(self.docs@), id)),
            self.open && find_doc(view_docs(self.docs@), id) is None ==> (r matches Err(e) && e
                is DocNotFound),
    {
        if !self.open {
            return Err(Error::InvalidOperation);
        }
        let ghost docs = view_docs(self.docs@);
        let mut i: usize = 0;
        while i < self.docs.len()
            invariant
                self.open,
                i <= self.docs@.len(),
                docs == view_docs(self.docs@),
                forall|j: int| 0 <= j < i ==> docs[j].0 != id,
            decreases self.docs@.len() - i,
        {
            if self.docs[i].id == id {
                proof {
                    lemma_find_doc_prefix(docs, id, i as int);
                    assert(docs.skip(i as int)[0] == docs[i as int]);
                }
                return Ok(self.docs[i].doc.duplicate());
            }
            i = i + 1;
        }
        proof {
            lemma_find_doc_prefix(docs, id, docs.len() as int);
            assert(docs.skip(docs.len() as int).len() == 0);
        }
        Err(Error::DocNotFound)
    }
}

/// A writable database: a transaction buffer over a committed state.
///
/// Writes are visible to this writer at once, to snapshots only after
/// `commit`.  Abandoning the writer without committing loses the
/// uncommitted writes, never the committed state.
pub struct WritableDatabase {
    pub live: Vec<StoredDoc>,
    pub committed: Vec<StoredDoc>,
    pub next_id: u64,
    pub revision: u64,
    pub open: bool,
}

/// Well-formedness of a writer: both states sorted and well-formed, and
/// every id below the next free one.
pub open spec fn wdb_wf(w: WritableDatabase) -> bool {
    &&& docs_wf(view_docs(w.live@))
    &&& docs_wf(view_docs(w.committed@))
    &&& forall|i: int| 0 <= i < w.live@.len() ==> #[trigger] view_docs(w.live@)[i].0 < w.next_id
    &&& forall|i: int|
        0 <= i < w.committed@.len() ==> #[trigger] view_docs(w.committed@)[i].0 < w.next_id
    &&& w.next_id >= 1
}

impl Default for WritableDatabase {
    /// A fresh, empty, open writer, the same as `new`.
    fn default() -> (r: WritableDatabase)
        ensures
            view_docs(r.live@) =~= Seq::<(u64, DocModel)>::empty(),
            view_docs(r.committed@) =~= Seq::<(u64, DocModel)>::empty(),
            r.next_id == 1,
            r.revision == 0,
            r.open,
            wdb_wf(r),
    {
        WritableDatabase::new()
    }
}

impl WritableDatabase {
    /// A fresh, empty, open writer.  Ids start at 1.
    pub fn new() -> (r: WritableDatabase)
        ensures
            view_docs(r.live@) =~= Seq::<(u64, DocModel)>::empty(),
            view_docs(r.committed@) =~= Seq::<(u64, DocModel)>::empty(),
            r.next_id == 1,
            r.revision == 0,
            r.open,
            wdb_wf(r),
    {
        WritableDatabase {
            live: Vec::new(),
            committed: Vec::new(),
            next_id: 1,
            revision: 0,
            open: true,
        }
    }

    /// Number of documents this writer sees, its own uncommitted writes
    /// included.  Fails with `InvalidOperation` when the writer is closed.
    pub fn get_doccount(&self) -> (r: Result<usize, Error>)
        ensures
            self.open ==> (r matches Ok(n) && n == view_docs(self.live@).len()),
            !self.open ==> (r matches Err(e) && e is InvalidOperation),
    {
        if self.open {
            Ok(self.live.len())
        } else {
            Err(Error::InvalidOperation)
        }
    }

    /// Store `doc` under a fresh id and return that id.
    ///
    /// Fails with `InvalidOperation` exactly when the writer is closed.
    pub fn add_document(&mut self, doc: &Document) -> (r: Result<u64, Error>)
        requires
            wdb_wf(*old(self)),
            doc_wf(doc@),
            old(self).next_id < u64::MAX,
        ensures
            wdb_wf(*final(self)),
            old(self).open ==> (r matches Ok(id) && id == old(self).next_id && view_docs(
                final(self).live@,
            ) == view_docs(old(self).live@).push((old(self).next_id, doc@)) && final(self).next_id
                == old(self).next_id + 1),
            !old(self).open ==> (r matches Err(e) && e is InvalidOperation && *final(self) == *old(self)),
            final(self).committed == old(self).committed,
            final(self).revision == old(self).revision,
            final(self).open == old(self).open,
    {
        if !self.open {
            return Err(Error::InvalidOperation);
        }
        let id = self.next_id;
        self.live.push(StoredDoc { id, doc: doc.duplicate() });
        self.next_id = self.next_id + 1;
        proof {
            assert(view_docs(self.live@) =~= view_docs(old(self).live@).push((id, doc@)));
        }
        Ok(id)
    }

    /// Delete every document carrying `unique_term` from the live state.
    ///
    /// Fails with `InvalidOperation` exactly when the writer is closed; a
    /// term carried by no document deletes nothing and is no error.
    pub fn delete_document(&mut self, unique_term: &str) -> (r: Result<(), Error>)
        requires
            wdb_wf(*old(self)),
        ensures
            wdb_wf(*final(self)),
            old(self).open ==> (r matches Ok(u) && u == () && view_docs(final(self).live@)
                == remove_term_docs(view_docs(old(self).live@), unique_term.spec_bytes())),
            !old(self).open ==> (r matches Err(e) && e is InvalidOperation && *final(self) == *old(self)),
            final(self).committed == old(self).committed,
            final(self).revision == old(self).revision,
            final(self).next_id == old(self).next_id,
            final(self).open == old(self).open,
    {
        if !self.open {
            return Err(Error::InvalidOperation);
        }
        let t = unique_term.as_bytes_vec();
        let ghost all = view_docs(self.live@);
        let n = self.live.len();
        let mut out: Vec<StoredDoc> = Vec::new();
        let mut i: usize = 0;
        proof {
            assert(all.skip(0) =~= all);
            assert(view_docs(out@) =~= Seq::<(u64, DocModel)>::empty());
        }
        while i < n
            invariant
                i <= n,
                n == self.live@.len(),
                all == view_docs(self.live@),
                t@ == unique_term.spec_bytes(),
                docs_wf(all),
                forall|a: int| 0 <= a < all.len() ==> #[trigger] all[a].0 < self.next_id,
                remove_term_docs(all, t@) == view_docs(out@) + remove_term_docs(
                    all.skip(i as int),
                    t@,
                ),
                docs_wf(view_docs(out@)),
                forall|a: int, m: int|
                    0 <= a < out@.len() && i <= m < all.len() ==> #[trigger] view_docs(out@)[a].0
                        < #[trigger] all[m].0,
                forall|a: int| 0 <= a < out@.len() ==> #[trigger] view_docs(out@)[a].0 < self.next_id,
            decreases n - i,
        {
            proof {
                assert(all.skip(i as int)[0] == all[i as int]);
                assert(all.skip(i as int).drop_first() =~= all.skip(i as int + 1));
            }
            let keep = !self.live[i].doc.has_term(&t);
            if keep {
                let ghost out0 = out@;
                let copied = self.live[i].duplicate();
                out.push(copied);
                proof {
                    assert(view_docs(out@) =~= view_docs(out0).push(all[i as int]));
                    assert(view_docs(out0).push(all[i as int]) =~= view_docs(out0) + seq![
                        all[i as int],
                    ]);
                    assert((view_docs(out0) + seq![all[i as int]]) + remove_term_docs(
                        all.skip(i as int + 1),
                        t@,
                    ) =~= view_docs(out0) + (seq![all[i as int]] + remove_term_docs(
                        all.skip(i as int + 1),
                        t@,
                    )));
                }
            }
            i = i + 1;
        }
        proof {
            assert(all.skip(n as int).len() == 0);
            assert(remove_term_docs(all.skip(n as int), t@) =~= Seq::<(u64, DocModel)>::empty());
            assert(view_docs(out@) + Seq::<(u64, DocModel)>::empty() =~= view_docs(out@));
        }
        self.live = out;
        Ok(())
    }

    /// Replace by unique key: the first live document carrying
    /// `unique_term` is replaced by `doc` under its own id and every other
    /// carrier is deleted; if none carries it, `doc` is stored under a
    /// fresh id.  Returns the id the document was stored under.
    ///
    /// The whole change happens on the in-memory live state at once;
    /// failure (a closed writer) changes nothing.
    pub fn replace_document(&mut self, unique_term: &str, doc: &Document) -> (r: Result<u64, Error>)
        requires
            wdb_wf(*old(self)),
            doc_wf(doc@),
            old(self).next_id < u64::MAX,
        ensures
            wdb_wf(*final(self)),
            old(self).open ==> ({
                let once = replace_result(
                    view_docs(old(self).live@),
                    unique_term.spec_bytes(),
                    doc@,
                    old(self).next_id,
                );
                r matches Ok(id) && view_docs(final(self).live@) == once.0 && id == once.1
                    && final(self).next_id == once.2
            }),
            !old(self).open ==> (r matches Err(e) && e is InvalidOperation && *final(self) == *old(self)),
            final(self).committed == old(self).committed,
            final(self).revision == old(self).revision,
            final(self).open == old(self).open,
    {
        if !self.open {
            return Err(Error::InvalidOperation);
        }
        let t = unique_term.as_bytes_vec();
        let ghost all = view_docs(self.live@);
        let ghost tb = unique_term.spec_bytes();
        let n = self.live.len();
        let mut out: Vec<StoredDoc> = Vec::new();
        let mut found: Option<u64> = None;
        let mut i: usize = 0;
        proof {
            assert(all.skip(0) =~= all);
            assert(view_docs(out@) =~= Seq::<(u64, DocModel)>::empty());
        }
        while i < n
            invariant
                i <= n,
                n == self.live@.len(),
                all == view_docs(self.live@),
                t@ == tb,
                docs_wf(all),
                doc_wf(doc@),
                forall|a: int| 0 <= a < all.len() ==> #[trigger] all[a].0 < self.next_id,
                docs_wf(view_docs(out@)),
                forall|a: int, m: int|
                    0 <= a < out@.len() && i <= m < all.len() ==> #[trigger] view_docs(out@)[a].0
                        < #[trigger] all[m].0,
                forall|a: int| 0 <= a < out@.len() ==> #[trigger] view_docs(out@)[a].0 < self.next_id,
                match found {
                    None => first_id_with_term(all, tb) == first_id_with_term(
                        all.skip(i as int),
                        tb,
                    ) && replace_docs(all, tb, doc@) == view_docs(out@) + replace_docs(
                        all.skip(i as int),
                        tb,
                        doc@,
                    ),
                    Some(id) => first_id_with_term(all, tb) == Some(id) && replace_docs(
                        all,
                        tb,
                        doc@,
                    ) == view_docs(out@) + remove_term_docs(all.skip(i as int), tb),
                },
            decreases n - i,
        {
            proof {
                assert(all.skip(i as int)[0] == all[i as int]);
                assert(all.skip(i as int).drop_first() =~= all.skip(i as int + 1));
            }
            let carries = self.live[i].doc.has_term(&t);
            match found {
                None => {
                    if carries {
                        let ghost out0 = out@;
                        let id = self.live[i].id;
                        out.push(StoredDoc { id, doc: doc.duplicate() });
                        found = Some(id);
                        proof {
                            assert(view_docs(out@) =~= view_docs(out0).push((id, doc@)));
                            assert(view_docs(out0).push((id, doc@)) =~= view_docs(out0) + seq![
                                (id, doc@),
                            ]);
                            assert((view_docs(out0) + seq![(id, doc@)]) + remove_term_docs(
                                all.skip(i as int + 1),
                                tb,
                            ) =~= view_docs(out0) + (seq![(id, doc@)] + remove_term_docs(
                                all.skip(i as int + 1),
                                tb,
                            )));
                        }
                    } else {
                        let ghost out0 = out@;
                        let copied = self.live[i].duplicate();
                        out.push(copied);
                        proof {
                            assert(view_docs(out@) =~= view_docs(out0).push(all[i as int]));
                            assert(view_docs(out0).push(all[i as int]) =~= view_docs(out0) + seq![
                                all[i as int],
                            ]);
                            assert((view_docs(out0) + seq![all[i as int]]) + replace_docs(
                                all.skip(i as int + 1),
                                tb,
                                doc@,
                            ) =~= view_docs(out0) + (seq![all[i as int]] + replace_docs(
                                all.skip(i as int + 1),
                                tb,
                                doc@,
                            )));
                        }
                    }
                },
                Some(_) => {
                    if !carries {
                        let ghost out0 = out@;
                        let copied = self.live[i].duplicate();
                        out.push(copied);
                        proof {
                            assert(view_docs(out@) =~= view_docs(out0).push(all[i as int]));
                            assert(view_docs(out0).push(all[i as int]) =~= view_docs(out0) + seq![
                                all[i as int],
                            ]);
                            assert((view_docs(out0) + seq![all[i as int]]) + remove_term_docs(
                                all.skip(i as int + 1),
                                tb,
                            ) =~= view_docs(out0) + (seq![all[i as int]] + remove_term_docs(
                                all.skip(i as int + 1),
                                tb,
                            )));
                        }
                    }
                },
            }
            i = i + 1;
        }
        proof {
            assert(all.skip(n as int).len() == 0);
            assert(remove_term_docs(all.skip(n as int), tb) =~= Seq::<(u64, DocModel)>::empty());
            assert(replace_docs(all.skip(n as int), tb, doc@) =~= Seq::<(u64, DocModel)>::empty());
            assert(first_id_with_term(all.skip(n as int), tb) is None);
            assert(view_docs(out@) + Seq::<(u64, DocModel)>::empty() =~= view_docs(out@));
        }
        match found {
            Some(id) => {
                proof {
                    assert(all == view_docs(old(self).live@));
                    assert(first_id_with_term(all, tb) == Some(id));
                    assert(replace_docs(all, tb, doc@) == view_docs(out@));
                }
                let ghost outv = view_docs(out@);
                self.live = out;
                proof {
                    assert(view_docs(self.live@) == outv);
                    assert forall|a: int|
                        0 <= a < self.live@.len() implies #[trigger] view_docs(self.live@)[a].0
                        < self.next_id by {
                        assert(view_docs(self.live@)[a] == outv[a]);
                    }
                    assert(docs_wf(view_docs(self.live@))) by {
                        assert forall|a: int, b: int|
                            0 <= a < b < self.live@.len() implies view_docs(self.live@)[a].0
                            < view_docs(self.live@)[b].0 by {
                            assert(view_docs(self.live@)[a] == outv[a]);
                            assert(view_docs(self.live@)[b] == outv[b]);
                        }
                        assert forall|a: int|
                            0 <= a < self.live@.len() implies doc_wf(
                            #[trigger] view_docs(self.live@)[a].1,
                        ) by {
                            assert(view_docs(self.live@)[a] == outv[a]);
                        }
                    }
                }
                Ok(id)
            },
            None => {
                proof {
                    assert(all == view_docs(old(self).live@));
                    assert(first_id_with_term(all, tb) is None);
                    assert(replace_docs(all, tb, doc@) == view_docs(out@));
                }
                let id = self.next_id;
                let ghost out0 = out@;
                out.push(StoredDoc { id, doc: doc.duplicate() });
                proof {
                    assert(view_docs(out@) =~= view_docs(out0).push((id, doc@)));
                    assert(view_docs(out@) == all.push((id, doc@))) by {
                        lemma_replace_unfound_identity(all, tb, doc@);
                        assert(view_docs(out0) == all);
                        assert(view_docs(out0).push((id, doc@)) =~= all.push((id, doc@)));
                    }
                }
                let ghost outv = view_docs(out@);
                self.live = out;
                self.next_id = self.next_id + 1;
                proof {
                    assert(view_docs(self.live@) == outv);
                    assert forall|a: int|
                        0 <= a < self.live@.len() implies #[trigger] view_docs(self.live@)[a].0
                        < self.next_id by {
                        assert(view_docs(self.live@)[a] == outv[a]);
                        if a < outv.len() - 1 {
                            assert(outv[a] == view_docs(out0)[a]);
                        }
                    }
                    assert(docs_wf(view_docs(self.live@))) by {
                        assert forall|a: int, b: int|
                            0 <= a < b < self.live@.len() implies view_docs(self.live@)[a].0
                            < view_docs(self.live@)[b].0 by {
                            assert(view_docs(self.live@)[a] == outv[a]);
                            assert(view_docs(self.live@)[b] == outv[b]);
                            if b < outv.len() - 1 {
                                assert(outv[a] == view_docs(out0)[a]);
                                assert(outv[b] == view_docs(out0)[b]);
                            } else {
                                if a < outv.len() - 1 {
                                    assert(outv[a] == view_docs(out0)[a]);
                                }
                            }
                        }
                        assert forall|a: int|
                            0 <= a < self.live@.len() implies doc_wf(
                            #[trigger] view_docs(self.live@)[a].1,
                        ) by {
                            assert(view_docs(self.live@)[a] == outv[a]);
                            if a < outv.len() - 1 {
                                assert(outv[a] == view_docs(out0)[a]);
                            }
                        }
                    }
                    assert forall|a: int|
                        0 <= a < self.committed@.len() implies #[trigger] view_docs(
                        self.committed@,
                    )[a].0 < self.next_id by {
                        assert(view_docs(self.committed@)[a] == view_docs(old(self).committed@)[a]);
                    }
                }
                Ok(id)
            },
        }
    }

    /// Publish the live state: snapshots taken after this see it.  Bumps
    /// the revision, which invalidates result sets of older snapshots.
    pub fn commit(&mut self) -> (r: Result<(), Error>)
        requires
            wdb_wf(*old(self)),
        ensures
            wdb_wf(*final(self)),
            old(self).open ==> (r matches Ok(u) && u == () && view_docs(final(self).committed@)
                == view_docs(old(self).live@) && final(self).revision == crate::doc::sat_inc(
                old(self).revision,
            )),
            !old(self).open ==> (r matches Err(e) && e is InvalidOperation && *final(self) == *old(self)),
            final(self).live == old(self).live,
            final(self).next_id == old(self).next_id,
            final(self).open == old(self).open,
    {
        if !self.open {
            return Err(Error::InvalidOperation);
        }
        let copy = duplicate_docs(&self.live);
        self.committed = copy;
        self.revision = if self.revision < u64::MAX {
            self.revision + 1
        } else {
            self.revision
        };
        proof {
            let cv = view_docs(self.committed@);
            let lv = view_docs(self.live@);
            assert(cv == lv);
            assert(docs_wf(cv)) by {
                assert forall|i: int, j: int| 0 <= i < j < cv.len() implies cv[i].0 < cv[j].0 by {
                    assert(cv[i] == lv[i] && cv[j] == lv[j]);
                }
                assert forall|i: int| 0 <= i < cv.len() implies doc_wf(#[trigger] cv[i].1) by {
                    assert(cv[i] == lv[i]);
                }
            }
            assert forall|i: int|
                0 <= i < self.committed@.len() implies #[trigger] view_docs(self.committed@)[i].0
                < self.next_id by {
                assert(view_docs(self.committed@)[i] == lv[i]);
            }
        }
        Ok(())
    }

    /// Close the writer.  Uncommitted writes are dropped with it; the
    /// committed state remains what the last `commit` made it.
    pub fn close(&mut self)
        ensures
            !final(self).open,
            final(self).live == old(self).live,
            final(self).committed == old(self).committed,
            final(self).next_id == old(self).next_id,
            final(self).revision == old(self).revision,
    {
        self.open = false;
    }

    /// A read-only snapshot of the committed state, at this revision.
    ///
    /// Fails with `InvalidOperation` exactly when the writer is closed.
    pub fn snapshot(&self) -> (r: Result<Database, Error>)
        requires
            wdb_wf(*self),
        ensures
            self.open ==> (r matches Ok(db) && view_docs(db.docs@) == view_docs(self.committed@)
                && db.revision == self.revision && db.open && db_wf(db)),
            !self.open ==> (r matches Err(e) && e is InvalidOperation),
    {
        if !self.open {
            return Err(Error::InvalidOperation);
        }
        let docs = duplicate_docs(&self.committed);
        Ok(Database { docs, revision: self.revision, open: true })
    }
}

/// An identical copy of a stored document sequence.
pub(crate) fn duplicate_docs(ds: &Vec<StoredDoc>) -> (r: Vec<StoredDoc>)
    ensures
        view_docs(r@) == view_docs(ds@),
{
    let mut out: Vec<StoredDoc> = Vec::new();
    let mut i: usize = 0;
    while i < ds.len()
        invariant
            i <= ds@.len(),
            out@.len() == i,
            view_docs(out@) =~= view_docs(ds@).take(i as int),
        decreases ds@.len() - i,
    {
        let copied = ds[i].duplicate();
        out.push(copied);
        proof {
            assert(view_docs(out@) =~= view_docs(ds@).take(i as int + 1));
        }
        i = i + 1;
    }
    proof {
        assert(view_docs(ds@).take(ds@.len() as int) =~= view_docs(ds@));
    }
    out
}

} // verus!
