//! Documents: stored payload, term postings, and typed value slots.
//!
//! A document is modelled as a [`DocModel`]: the stored payload (returned
//! verbatim on retrieval), a sequence of term postings (term bytes,
//! within-document frequency, token positions), and a sequence of numbered
//! value slots holding sortable byte strings.  Term and slot sequences are
//! association lists, well-formed when their keys are distinct.

use vstd::prelude::*;
use vstd::string::StringSliceAdditionalSpecFns;

use crate::serial::{be_bytes_of, offset_of_i64, serialise_i64};

verus! {

/// One term posting of the model: the normalized term bytes, the
/// within-document frequency, and the token positions of the term.
pub struct TermPosting {
    pub term: Seq<u8>,
    pub wdf: u64,
    pub positions: Seq<u64>,
}

/// One term posting as stored.
pub struct TermEntry {
    pub term: Vec<u8>,
    pub wdf: u64,
    pub positions: Vec<u64>,
}

impl View for TermEntry {
    type V = TermPosting;

    open spec fn view(&self) -> TermPosting {
        TermPosting { term: self.term@, wdf: self.wdf, positions: self.positions@ }
    }
}

/// One value slot as stored.
pub struct SlotValue {
    pub slot: u32,
    pub value: Vec<u8>,
}

impl View for SlotValue {
    type V = (u32, Seq<u8>);

    open spec fn view(&self) -> (u32, Seq<u8>) {
        (self.slot, self.value@)
    }
}

/// The models of a sequence of stored postings.
pub open spec fn view_terms(ts: Seq<TermEntry>) -> Seq<TermPosting> {
    Seq::new(ts.len(), |i: int| ts[i]@)
}

/// The models of a sequence of stored slot entries.
pub open spec fn view_slots(vs: Seq<SlotValue>) -> Seq<(u32, Seq<u8>)> {
    Seq::new(vs.len(), |i: int| vs[i]@)
}

/// The mathematical model of a document.
pub struct DocModel {
    pub data: Seq<char>,
    pub terms: Seq<TermPosting>,
    pub values: Seq<(u32, Seq<u8>)>,
}

/// A document: an opaque stored payload, term postings, and value slots.
pub struct Document {
    pub data: String,
    pub terms: Vec<TermEntry>,
    pub values: Vec<SlotValue>,
}

impl View for Document {
    type V = DocModel;

    open spec fn view(&self) -> DocModel {
        DocModel { data: self.data@, terms: view_terms(self.terms@), values: view_slots(self.values@) }
    }
}

/// The model of a freshly constructed document.
pub open spec fn empty_doc() -> DocModel {
    DocModel { data: Seq::empty(), terms: Seq::empty(), values: Seq::empty() }
}

/// Increment that stops at the largest representable value.
pub open spec fn sat_inc(x: u64) -> u64 {
    if x == u64::MAX {
        x
    } else {
        (x + 1) as u64
    }
}

/// First posting whose term is `t`, if any.
pub open spec fn find_term(ts: Seq<TermPosting>, t: Seq<u8>) -> Option<TermPosting>
    decreases ts.len(),
{
    if ts.len() == 0 {
        None
    } else if ts[0].term == t {
        Some(ts[0])
    } else {
        find_term(ts.drop_first(), t)
    }
}

/// First value stored under `slot`, if any.
pub open spec fn find_value(vs: Seq<(u32, Seq<u8>)>, slot: u32) -> Option<Seq<u8>>
    decreases vs.len(),
{
    if vs.len() == 0 {
        None
    } else if vs[0].0 == slot {
        Some(vs[0].1)
    } else {
        find_value(vs.drop_first(), slot)
    }
}

/// Whether the document carries the term.
pub open spec fn doc_has_term(d: DocModel, t: Seq<u8>) -> bool {
    find_term(d.terms, t) is Some
}

/// Within-document frequency of the term; zero when absent.
pub open spec fn doc_wdf(d: DocModel, t: Seq<u8>) -> u64 {
    match find_term(d.terms, t) {
        Some(e) => e.wdf,
        None => 0,
    }
}

/// Token positions of the term; empty when absent.
pub open spec fn doc_positions(d: DocModel, t: Seq<u8>) -> Seq<u64> {
    match find_term(d.terms, t) {
        Some(e) => e.positions,
        None => Seq::empty(),
    }
}

/// Value stored in the slot, if any.
pub open spec fn doc_value(d: DocModel, slot: u32) -> Option<Seq<u8>> {
    find_value(d.values, slot)
}

/// No two postings name the same term.
pub open spec fn distinct_terms(ts: Seq<TermPosting>) -> bool {
    forall|i: int, j: int| 0 <= i < j < ts.len() ==> ts[i].term != ts[j].term
}

/// No two entries name the same slot.
pub open spec fn distinct_slots(vs: Seq<(u32, Seq<u8>)>) -> bool {
    forall|i: int, j: int| 0 <= i < j < vs.len() ==> vs[i].0 != vs[j].0
}

/// Well-formedness of a document model.
pub open spec fn doc_wf(d: DocModel) -> bool {
    distinct_terms(d.terms) && distinct_slots(d.values)
}

/// The posting after one more occurrence of its term at position `p`.
pub open spec fn bump_posting(e: TermPosting, p: u64) -> TermPosting {
    TermPosting { term: e.term, wdf: sat_inc(e.wdf), positions: e.positions.push(p) }
}

/// A fresh posting for term `t` first seen at position `p`.
pub open spec fn fresh_posting(t: Seq<u8>, p: u64) -> TermPosting {
    TermPosting { term: t, wdf: 1, positions: seq![p] }
}

/// The term postings after recording one occurrence of `t` at position
/// `p`: the first posting of `t` is bumped, or a fresh one is appended.
pub open spec fn add_posting_terms(ts: Seq<TermPosting>, t: Seq<u8>, p: u64) -> Seq<TermPosting>
    decreases ts.len(),
{
    if ts.len() == 0 {
        seq![fresh_posting(t, p)]
    } else if ts[0].term == t {
        seq![bump_posting(ts[0], p)] + ts.drop_first()
    } else {
        seq![ts[0]] + add_posting_terms(ts.drop_first(), t, p)
    }
}

/// The term postings after adding `t` as a boolean term: unchanged when
/// present, else a posting with no frequency and no positions is appended.
pub open spec fn add_bool_terms(ts: Seq<TermPosting>, t: Seq<u8>) -> Seq<TermPosting> {
    if find_term(ts, t) is Some {
        ts
    } else {
        ts.push(TermPosting { term: t, wdf: 0, positions: Seq::empty() })
    }
}

/// The slot entries after storing `v` under `slot`: the first entry of the
/// slot is replaced, or a fresh entry is appended.
pub open spec fn set_value_slots(vs: Seq<(u32, Seq<u8>)>, slot: u32, v: Seq<u8>) -> Seq<
    (u32, Seq<u8>),
>
    decreases vs.len(),
{
    if vs.len() == 0 {
        seq![(slot, v)]
    } else if vs[0].0 == slot {
        seq![(slot, v)] + vs.drop_first()
    } else {
        seq![vs[0]] + set_value_slots(vs.drop_first(), slot, v)
    }
}

/// Looking a term up is unaffected by postings before the first match.
pub proof fn lemma_find_term_prefix(ts: Seq<TermPosting>, t: Seq<u8>, i: int)
    requires
        0 <= i <= ts.len(),
        forall|j: int| 0 <= j < i ==> ts[j].term != t,
    ensures
        find_term(ts, t) == find_term(ts.skip(i), t),
    decreases i,
{
    if i > 0 {
        let ts1 = ts.drop_first();
        assert(forall|j: int| 0 <= j < i - 1 ==> ts1[j].term != t);
        lemma_find_term_prefix(ts1, t, i - 1);
        assert(ts1.skip(i - 1) =~= ts.skip(i));
    } else {
        assert(ts.skip(0) =~= ts);
    }
}

/// Looking a slot up is unaffected by entries before the first match.
pub proof fn lemma_find_value_prefix(vs: Seq<(u32, Seq<u8>)>, slot: u32, i: int)
    requires
        0 <= i <= vs.len(),
        forall|j: int| 0 <= j < i ==> vs[j].0 != slot,
    ensures
        find_value(vs, slot) == find_value(vs.skip(i), slot),
    decreases i,
{
    if i > 0 {
        let vs1 = vs.drop_first();
        assert(forall|j: int| 0 <= j < i - 1 ==> vs1[j].0 != slot);
        lemma_find_value_prefix(vs1, slot, i - 1);
        assert(vs1.skip(i - 1) =~= vs.skip(i));
    } else {
        assert(vs.skip(0) =~= vs);
    }
}

/// Recording an occurrence of `t` bumps the first posting of `t`, when one
/// exists at index `i`.
pub proof fn lemma_add_posting_found(ts: Seq<TermPosting>, t: Seq<u8>, p: u64, i: int)
    requires
        0 <= i < ts.len(),
        ts[i].term == t,
        forall|j: int| 0 <= j < i ==> ts[j].term != t,
    ensures
        add_posting_terms(ts, t, p) =~= ts.update(i, bump_posting(ts[i], p)),
    decreases i,
{
    if i == 0 {
        assert(seq![bump_posting(ts[0], p)] + ts.drop_first() =~= ts.update(
            0,
            bump_posting(ts[0], p),
        ));
    } else {
        let ts1 = ts.drop_first();
        assert(forall|j: int| 0 <= j < i - 1 ==> ts1[j].term != t);
        lemma_add_posting_found(ts1, t, p, i - 1);
        assert(seq![ts[0]] + ts1.update(i - 1, bump_posting(ts1[i - 1], p)) =~= ts.update(
            i,
            bump_posting(ts[i], p),
        ));
    }
}

/// Recording an occurrence of an absent term appends a fresh posting.
pub proof fn lemma_add_posting_absent(ts: Seq<TermPosting>, t: Seq<u8>, p: u64)
    requires
        forall|j: int| 0 <= j < ts.len() ==> ts[j].term != t,
    ensures
        add_posting_terms(ts, t, p) =~= ts.push(fresh_posting(t, p)),
    decreases ts.len(),
{
    if ts.len() > 0 {
        let ts1 = ts.drop_first();
        assert(forall|j: int| 0 <= j < ts1.len() ==> ts1[j].term != t);
        lemma_add_posting_absent(ts1, t, p);
        assert(seq![ts[0]] + ts1.push(fresh_posting(t, p)) =~= ts.push(fresh_posting(t, p)));
    }
}

/// How one recorded occurrence changes term lookups: the term itself gains
/// the occurrence, every other term reads as before.
pub proof fn lemma_add_posting_find(ts: Seq<TermPosting>, t: Seq<u8>, p: u64, u: Seq<u8>)
    ensures
        u == t ==> find_term(add_posting_terms(ts, t, p), u) == Some(
            match find_term(ts, t) {
                Some(e) => bump_posting(e, p),
                None => fresh_posting(t, p),
            },
        ),
        u != t ==> find_term(add_posting_terms(ts, t, p), u) == find_term(ts, u),
    decreases ts.len(),
{
    let r = add_posting_terms(ts, t, p);
    if ts.len() == 0 {
        assert(r == seq![fresh_posting(t, p)]);
        assert(r[0].term == t);
        if u != t {
            assert(find_term(r.drop_first(), u) == None::<TermPosting>);
        }
    } else if ts[0].term == t {
        assert(r == seq![bump_posting(ts[0], p)] + ts.drop_first());
        assert(r[0].term == t);
        assert(r.drop_first() =~= ts.drop_first());
    } else {
        let ts1 = ts.drop_first();
        assert(r == seq![ts[0]] + add_posting_terms(ts1, t, p));
        assert(r[0] == ts[0]);
        assert(r.drop_first() =~= add_posting_terms(ts1, t, p));
        lemma_add_posting_find(ts1, t, p, u);
    }
}

/// How storing a slot value changes slot lookups: the slot itself reads
/// the new value, every other slot reads as before.
pub proof fn lemma_set_value_find(vs: Seq<(u32, Seq<u8>)>, slot: u32, v: Seq<u8>, s2: u32)
    ensures
        s2 == slot ==> find_value(set_value_slots(vs, slot, v), s2) == Some(v),
        s2 != slot ==> find_value(set_value_slots(vs, slot, v), s2) == find_value(vs, s2),
    decreases vs.len(),
{
    let r = set_value_slots(vs, slot, v);
    if vs.len() == 0 {
        assert(r == seq![(slot, v)]);
        if s2 != slot {
            assert(find_value(r.drop_first(), s2) == None::<Seq<u8>>);
        }
    } else if vs[0].0 == slot {
        assert(r == seq![(slot, v)] + vs.drop_first());
        assert(r.drop_first() =~= vs.drop_first());
    } else {
        let vs1 = vs.drop_first();
        assert(r == seq![vs[0]] + set_value_slots(vs1, slot, v));
        assert(r[0] == vs[0]);
        assert(r.drop_first() =~= set_value_slots(vs1, slot, v));
        lemma_set_value_find(vs1, slot, v, s2);
    }
}

/// Storing a value under a slot, found at index `i`, replaces that entry.
pub proof fn lemma_set_value_found(vs: Seq<(u32, Seq<u8>)>, slot: u32, v: Seq<u8>, i: int)
    requires
        0 <= i < vs.len(),
        vs[i].0 == slot,
        forall|j: int| 0 <= j < i ==> vs[j].0 != slot,
    ensures
        set_value_slots(vs, slot, v) =~= vs.update(i, (slot, v)),
    decreases i,
{
    if i == 0 {
        assert(seq![(slot, v)] + vs.drop_first() =~= vs.update(0, (slot, v)));
    } else {
        let vs1 = vs.drop_first();
        assert(forall|j: int| 0 <= j < i - 1 ==> vs1[j].0 != slot);
        lemma_set_value_found(vs1, slot, v, i - 1);
        assert(seq![vs[0]] + vs1.update(i - 1, (slot, v)) =~= vs.update(i, (slot, v)));
    }
}

/// Storing a value under an absent slot appends a fresh entry.
pub proof fn lemma_set_value_absent(vs: Seq<(u32, Seq<u8>)>, slot: u32, v: Seq<u8>)
    requires
        forall|j: int| 0 <= j < vs.len() ==> vs[j].0 != slot,
    ensures
        set_value_slots(vs, slot, v) =~= vs.push((slot, v)),
    decreases vs.len(),
{
    if vs.len() > 0 {
        let vs1 = vs.drop_first();
        assert(forall|j: int| 0 <= j < vs1.len() ==> vs1[j].0 != slot);
        lemma_set_value_absent(vs1, slot, v);
        assert(seq![vs[0]] + vs1.push((slot, v)) =~= vs.push((slot, v)));
    }
}

/// Copy a byte vector.
pub fn clone_bytes(v: &Vec<u8>) -> (r: Vec<u8>)
    ensures
        r@ == v@,
{
    let r = v.clone();
    proof {
        assert(r@ =~= v@);
    }
    r
}

/// Copy a vector of positions.
pub fn clone_positions(v: &Vec<u64>) -> (r: Vec<u64>)
    ensures
        r@ == v@,
{
    let r = v.clone();
    proof {
        assert(r@ =~= v@);
    }
    r
}

impl Document {
    /// A fresh document with no payload, no terms and no values.
    pub fn new() -> (d: Document)
        ensures
            d@ == empty_doc(),
            doc_wf(d@),
    {
        let d = Document { data: String::new(), terms: Vec::new(), values: Vec::new() };
        proof {
            assert(d@.terms =~= empty_doc().terms);
            assert(d@.values =~= empty_doc().values);
            assert(d@.data =~= empty_doc().data);
            assert(d@ == empty_doc());
        }
        d
    }

    /// Index of the first posting of `t`, if the document carries it.
    fn find_term_index(&self, t: &Vec<u8>) -> (r: Option<usize>)
        ensures
            match r {
                Some(i) => i < self.terms@.len() && self.terms@[i as int]@.term == t@ && (forall|
                    j: int,
                |
                    0 <= j < i ==> self.terms@[j]@.term != t@),
                None => forall|j: int| 0 <= j < self.terms@.len() ==> self.terms@[j]@.term != t@,
            },
    {
        let mut i: usize = 0;
        while i < self.terms.len()
            invariant
                i <= self.terms@.len(),
                forall|j: int| 0 <= j < i ==> self.terms@[j]@.term != t@,
            decreases self.terms@.len() - i,
        {
            if self.terms[i].term == *t {
                proof {
                    assert(self.terms@[i as int]@.term =~= t@);
                }
                return Some(i);
            }
            i = i + 1;
        }
        None
    }

    /// Index of the entry of `slot`, if the document has one.
    fn find_slot_index(&self, slot: u32) -> (r: Option<usize>)
        ensures
            match r {
                Some(i) => i < self.values@.len() && self.values@[i as int]@.0 == slot && (forall|
                    j: int,
                |
                    0 <= j < i ==> self.values@[j]@.0 != slot),
                None => forall|j: int| 0 <= j < self.values@.len() ==> self.values@[j]@.0 != slot,
            },
    {
        let mut i: usize = 0;
        while i < self.values.len()
            invariant
                i <= self.values@.len(),
                forall|j: int| 0 <= j < i ==> self.values@[j]@.0 != slot,
            decreases self.values@.len() - i,
        {
            if self.values[i].slot == slot {
                return Some(i);
            }
            i = i + 1;
        }
        None
    }

    /// Replace the stored payload.
    pub fn set_data(&mut self, data: &str)
        ensures
            final(self)@ == (DocModel { data: data@, ..old(self)@ }),
    {
        self.data = data.to_owned();
    }

    /// The stored payload, byte-for-byte as it was set.
    pub fn get_data(&self) -> (r: String)
        ensures
            r@ == self@.data,
    {
        self.data.clone()
    }

    /// Record one occurrence of term `t` at token position `p`.
    ///
    /// The first posting of `t` gains the occurrence (its frequency
    /// saturates at the largest representable value); an absent term gets
    /// a fresh posting.  Payload and values are untouched.
    pub fn add_posting(&mut self, t: &Vec<u8>, p: u64)
        ensures
            final(self)@ == (DocModel {
                terms: add_posting_terms(old(self)@.terms, t@, p),
                ..old(self)@
            }),
            doc_wf(old(self)@) ==> doc_wf(final(self)@),
    {
        let ghost old_terms = self@.terms;
        match self.find_term_index(t) {
            Some(i) => {
                let new_entry = {
                    let e = &self.terms[i];
                    let wdf = if e.wdf < u64::MAX {
                        e.wdf + 1
                    } else {
                        e.wdf
                    };
                    let mut positions = clone_positions(&e.positions);
                    positions.push(p);
                    TermEntry { term: clone_bytes(&e.term), wdf, positions }
                };
                proof {
                    assert(new_entry@ == bump_posting(old_terms[i as int], p));
                }
                self.terms[i] = new_entry;
                proof {
                    lemma_add_posting_found(old_terms, t@, p, i as int);
                    assert(self@.terms =~= old_terms.update(
                        i as int,
                        bump_posting(old_terms[i as int], p),
                    ));
                    if doc_wf(old(self)@) {
                        assert(distinct_terms(self@.terms));
                    }
                }
            },
            None => {
                let positions_vec: Vec<u64> = {
                    let mut pv: Vec<u64> = Vec::new();
                    pv.push(p);
                    pv
                };
                self.terms.push(TermEntry { term: clone_bytes(t), wdf: 1, positions: positions_vec });
                proof {
                    lemma_add_posting_absent(old_terms, t@, p);
                    assert(self@.terms =~= old_terms.push(fresh_posting(t@, p)));
                    if doc_wf(old(self)@) {
                        assert(distinct_terms(self@.terms));
                    }
                }
            },
        }
        proof {
            assert(self@.values =~= old(self)@.values);
        }
    }

    /// Add `term` as a boolean (exact, unweighted) term, for use as a
    /// document key or filter; a term already present is left as it is.
    pub fn add_boolean_term(&mut self, term: &str)
        ensures
            final(self)@ == (DocModel {
                terms: add_bool_terms(old(self)@.terms, term.spec_bytes()),
                ..old(self)@
            }),
            doc_wf(old(self)@) ==> doc_wf(final(self)@),
    {
        let t = term.as_bytes_vec();
        let ghost old_terms = self@.terms;
        match self.find_term_index(&t) {
            Some(i) => {
                proof {
                    lemma_find_term_prefix(old_terms, t@, i as int);
                    assert(old_terms.skip(i as int)[0].term == t@);
                    assert(find_term(old_terms, t@) is Some);
                }
            },
            None => {
                proof {
                    lemma_find_term_prefix(old_terms, t@, old_terms.len() as int);
                    assert(old_terms.skip(old_terms.len() as int).len() == 0);
                    assert(find_term(old_terms, t@) is None);
                }
                self.terms.push(
                    TermEntry { term: t, wdf: 0, positions: Vec::new() },
                );
                proof {
                    assert(self@.terms =~= add_bool_terms(old_terms, term.spec_bytes()));
                    if doc_wf(old(self)@) {
                        assert(distinct_terms(self@.terms));
                    }
                }
            },
        }
        proof {
            assert(self@.values =~= old(self)@.values);
        }
    }

    /// Store byte string `v` in `slot`, replacing any previous value.
    fn set_value(&mut self, slot: u32, v: Vec<u8>)
        ensures
            final(self)@ == (DocModel {
                values: set_value_slots(old(self)@.values, slot, v@),
                ..old(self)@
            }),
            doc_wf(old(self)@) ==> doc_wf(final(self)@),
    {
        let ghost old_values = self@.values;
        match self.find_slot_index(slot) {
            Some(i) => {
                proof {
                    lemma_set_value_found(old_values, slot, v@, i as int);
                }
                self.values[i] = SlotValue { slot, value: v };
                proof {
                    assert(self@.values =~= old_values.update(i as int, (slot, v@)));
                    if doc_wf(old(self)@) {
                        assert(old_values[i as int].0 == slot);
                        assert(forall|j: int|
                            0 <= j < self@.values.len() ==> self@.values[j].0 == old_values[j].0);
                        assert(distinct_slots(self@.values));
                    }
                }
            },
            None => {
                proof {
                    lemma_set_value_absent(old_values, slot, v@);
                }
                self.values.push(SlotValue { slot, value: v });
                proof {
                    assert(self@.values =~= old_values.push((slot, v@)));
                    if doc_wf(old(self)@) {
                        assert(distinct_slots(self@.values));
                    }
                }
            },
        }
        proof {
            assert(self@.terms =~= old(self)@.terms);
        }
    }

    /// Store the bytes of `data` in `slot`, replacing any previous value.
    pub fn add_string(&mut self, slot: u32, data: &str)
        ensures
            final(self)@ == (DocModel {
                values: set_value_slots(old(self)@.values, slot, data.spec_bytes()),
                ..old(self)@
            }),
            doc_wf(old(self)@) ==> doc_wf(final(self)@),
    {
        let v = data.as_bytes_vec();
        self.set_value(slot, v);
    }

    /// Store a number in `slot` in its sortable form, so that byte order
    /// over the slot agrees with numeric order.
    pub fn add_int(&mut self, slot: u32, data: i32)
        ensures
            final(self)@ == (DocModel {
                values: set_value_slots(
                    old(self)@.values,
                    slot,
                    be_bytes_of(offset_of_i64(data as i64)),
                ),
                ..old(self)@
            }),
            doc_wf(old(self)@) ==> doc_wf(final(self)@),
    {
        let v = serialise_i64(data as i64);
        self.set_value(slot, v);
    }

    /// Store a number in `slot` in its sortable form, so that byte order
    /// over the slot agrees with numeric order.
    pub fn add_long(&mut self, slot: u32, data: i64)
        ensures
            final(self)@ == (DocModel {
                values: set_value_slots(old(self)@.values, slot, be_bytes_of(offset_of_i64(data))),
                ..old(self)@
            }),
            doc_wf(old(self)@) ==> doc_wf(final(self)@),
    {
        let v = serialise_i64(data);
        self.set_value(slot, v);
    }

    /// The value stored in `slot`, if any.
    pub fn get_value(&self, slot: u32) -> (r: Option<Vec<u8>>)
        ensures
            match r {
                Some(v) => doc_value(self@, slot) == Some(v@),
                None => doc_value(self@, slot) is None,
            },
    {
        match self.find_slot_index(slot) {
            Some(i) => {
                proof {
                    lemma_find_value_prefix(self@.values, slot, i as int);
                    assert(self@.values.skip(i as int)[0] == self@.values[i as int]);
                }
                Some(clone_bytes(&self.values[i].value))
            },
            None => {
                proof {
                    lemma_find_value_prefix(self@.values, slot, self@.values.len() as int);
                    assert(self@.values.skip(self@.values.len() as int).len() == 0);
                }
                None
            },
        }
    }

    /// Whether the document carries term `t`.
    pub fn has_term(&self, t: &Vec<u8>) -> (r: bool)
        ensures
            r == doc_has_term(self@, t@),
    {
        match self.find_term_index(t) {
            Some(i) => {
                proof {
                    lemma_find_term_prefix(self@.terms, t@, i as int);
                    assert(self@.terms.skip(i as int)[0] == self@.terms[i as int]);
                }
                true
            },
            None => {
                proof {
                    lemma_find_term_prefix(self@.terms, t@, self@.terms.len() as int);
                    assert(self@.terms.skip(self@.terms.len() as int).len() == 0);
                }
                false
            },
        }
    }

    /// Within-document frequency of term `t`; zero when absent.
    pub fn wdf_of(&self, t: &Vec<u8>) -> (r: u64)
        ensures
            r == doc_wdf(self@, t@),
    {
        match self.find_term_index(t) {
            Some(i) => {
                proof {
                    lemma_find_term_prefix(self@.terms, t@, i as int);
                    assert(self@.terms.skip(i as int)[0] == self@.terms[i as int]);
                }
                self.terms[i].wdf
            },
            None => {
                proof {
                    lemma_find_term_prefix(self@.terms, t@, self@.terms.len() as int);
                    assert(self@.terms.skip(self@.terms.len() as int).len() == 0);
                }
                0
            },
        }
    }

    /// Token positions of term `t`; empty when absent.
    pub fn positions_of(&self, t: &Vec<u8>) -> (r: Vec<u64>)
        ensures
            r@ == doc_positions(self@, t@),
    {
        match self.find_term_index(t) {
            Some(i) => {
                proof {
                    lemma_find_term_prefix(self@.terms, t@, i as int);
                    assert(self@.terms.skip(i as int)[0] == self@.terms[i as int]);
                }
                clone_positions(&self.terms[i].positions)
            },
            None => {
                proof {
                    lemma_find_term_prefix(self@.terms, t@, self@.terms.len() as int);
                    assert(self@.terms.skip(self@.terms.len() as int).len() == 0);
                }
                Vec::new()
            },
        }
    }

    /// An identical copy of the document.
    pub fn duplicate(&self) -> (d: Document)
        ensures
            d@ == self@,
    {
        let mut terms: Vec<TermEntry> = Vec::new();
        let mut i: usize = 0;
        while i < self.terms.len()
            invariant
                i <= self.terms@.len(),
                terms@.len() == i,
                view_terms(terms@) =~= view_terms(self.terms@).take(i as int),
            decreases self.terms@.len() - i,
        {
            let e = &self.terms[i];
            terms.push(
                TermEntry {
                    term: clone_bytes(&e.term),
                    wdf: e.wdf,
                    positions: clone_positions(&e.positions),
                },
            );
            proof {
                assert(terms@.len() == i + 1);
                assert(terms@[i as int]@ == self.terms@[i as int]@);
                assert(view_terms(terms@) =~= view_terms(self.terms@).take(i as int + 1));
            }
            i = i + 1;
        }
        let mut values: Vec<SlotValue> = Vec::new();
        let mut k: usize = 0;
        while k < self.values.len()
            invariant
                k <= self.values@.len(),
                values@.len() == k,
                view_slots(values@) =~= view_slots(self.values@).take(k as int),
            decreases self.values@.len() - k,
        {
            let sv = &self.values[k];
            values.push(SlotValue { slot: sv.slot, value: clone_bytes(&sv.value) });
            proof {
                assert(view_slots(values@) =~= view_slots(self.values@).take(k as int + 1));
            }
            k = k + 1;
        }
        let d = Document { data: self.data.clone(), terms, values };
        proof {
            assert(d@.terms =~= self@.terms);
            assert(d@.values =~= self@.values);
            assert(d@ == self@);
        }
        d
    }
}

} // verus!
