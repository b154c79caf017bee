use fulltext::constants::{QueryParserFeatureFlag, RangeProcessorFlags, XapianOp};
use fulltext::db::{Database, WritableDatabase};
use fulltext::doc::Document;
use fulltext::errors::Error;
use fulltext::parser::{NumberRangeProcessor, QueryParser};
use fulltext::query::Query;
use fulltext::search::ValueCountMatchSpy;
use fulltext::text::TermGenerator;

fn default_flags() -> u32 {
    QueryParserFeatureFlag::FLAG_DEFAULT.mask()
}

/// Index one document with free text, a unique key term, a payload, and
/// optional (slot, year) and (slot, genre) values.
fn make_doc(text: &str, key: &str, payload: &str, year: Option<i64>, genre: Option<&str>) -> Document {
    let mut tg = TermGenerator::new();
    tg.set_stemmer(fulltext::text::Stem::new("en").unwrap());
    tg.set_document(Document::new());
    tg.index_text(text);
    let mut doc = tg.take_document();
    doc.add_boolean_term(key);
    doc.set_data(payload);
    if let Some(y) = year {
        doc.add_long(0, y);
    }
    if let Some(g) = genre {
        doc.add_string(2, g);
    }
    doc
}

/// The standard three-document corpus: "red car", "blue car", "red bicycle".
fn corpus() -> WritableDatabase {
    let mut db = WritableDatabase::new();
    db.replace_document("Q1", &make_doc("red car", "Q1", "one", Some(1972), Some("action")))
        .unwrap();
    db.replace_document("Q2", &make_doc("blue car", "Q2", "two", Some(1973), Some("action")))
        .unwrap();
    db.replace_document("Q3", &make_doc("red bicycle", "Q3", "three", Some(1980), Some("drama")))
        .unwrap();
    db.commit().unwrap();
    db
}

fn search_ids(snap: &Database, q: &Query, from: usize, size: usize) -> Vec<u64> {
    let mut enq = snap.new_enquire().unwrap();
    enq.set_query(q);
    let mset = enq.get_mset(snap, from, size).unwrap();
    let mut ids = Vec::new();
    let mut it = mset.begin();
    let end = mset.end();
    while !it.eq(&end) {
        ids.push(it.get_docid(&mset).unwrap());
        it.next(&mset).unwrap();
    }
    ids
}

#[test]
fn version_is_stable() {
    assert_eq!(fulltext::version_string(), "1.0.0");
}

#[test]
fn indexed_document_is_found_and_payload_round_trips() {
    let db = corpus();
    let snap = db.snapshot().unwrap();
    let parser = QueryParser::new();
    let q = parser.parse_query("bicycle", default_flags()).unwrap();
    let ids = search_ids(&snap, &q, 0, 10);
    assert_eq!(ids, vec![3]);
    let doc = snap.get_document(3).unwrap();
    assert_eq!(doc.get_data(), "three");
}

#[test]
fn tokens_are_case_and_punctuation_normalized() {
    let mut db = WritableDatabase::new();
    db.replace_document("Q9", &make_doc("Red, CAR!", "Q9", "shouty", None, None))
        .unwrap();
    db.commit().unwrap();
    let snap = db.snapshot().unwrap();
    let parser = QueryParser::new();
    let q = parser.parse_query("car", default_flags()).unwrap();
    assert_eq!(search_ids(&snap, &q, 0, 10), vec![1]);
    let q2 = parser.parse_query("RED", default_flags()).unwrap();
    assert_eq!(search_ids(&snap, &q2, 0, 10), vec![1]);
}

#[test]
fn or_and_and_queries_select_exactly() {
    // The scenario: query `car` returns exactly {Q1, Q2} ranked by
    // weight; `red AND car` returns exactly {Q1}.
    let db = corpus();
    let snap = db.snapshot().unwrap();
    let parser = QueryParser::new();
    let q_car = parser.parse_query("car", default_flags()).unwrap();
    assert_eq!(search_ids(&snap, &q_car, 0, 10), vec![1, 2]);
    let q_red_car = parser.parse_query("red AND car", default_flags()).unwrap();
    assert_eq!(search_ids(&snap, &q_red_car, 0, 10), vec![1]);
    let q_red = parser.parse_query("red", default_flags()).unwrap();
    assert_eq!(search_ids(&snap, &q_red, 0, 10), vec![1, 3]);
}

#[test]
fn weight_orders_by_frequency_then_docid() {
    let mut db = WritableDatabase::new();
    db.replace_document("QA", &make_doc("pear", "QA", "a", None, None)).unwrap();
    db.replace_document("QB", &make_doc("pear pear pear", "QB", "b", None, None))
        .unwrap();
    db.commit().unwrap();
    let snap = db.snapshot().unwrap();
    let parser = QueryParser::new();
    let q = parser.parse_query("pear", default_flags()).unwrap();
    let mut enq = snap.new_enquire().unwrap();
    enq.set_query(&q);
    let mset = enq.get_mset(&snap, 0, 10).unwrap();
    let it = mset.begin();
    assert_eq!(it.get_docid(&mset).unwrap(), 2);
    assert_eq!(it.get_weight(&mset).unwrap(), 3);
}

#[test]
fn replace_by_key_is_idempotent() {
    // Replacing twice with identical content leaves the database exactly
    // as after one replacement.
    let mut db = corpus();
    let doc = make_doc("green car", "Q2", "two-prime", None, None);
    let id_once = db.replace_document("Q2", &doc).unwrap();
    let count_once = db.get_doccount().unwrap();
    let id_twice = db.replace_document("Q2", &doc).unwrap();
    let count_twice = db.get_doccount().unwrap();
    assert_eq!(id_once, 2);
    assert_eq!(id_twice, 2);
    assert_eq!(count_once, 3);
    assert_eq!(count_twice, 3);
    db.commit().unwrap();
    let snap = db.snapshot().unwrap();
    assert_eq!(snap.get_document(2).unwrap().get_data(), "two-prime");
}

#[test]
fn replace_unknown_key_assigns_fresh_id() {
    let mut db = corpus();
    let id = db
        .replace_document("Q4", &make_doc("yellow car", "Q4", "four", None, None))
        .unwrap();
    assert_eq!(id, 4);
    assert_eq!(db.get_doccount().unwrap(), 4);
}

#[test]
fn uncommitted_writes_are_invisible_to_snapshots() {
    let mut db = WritableDatabase::new();
    db.replace_document("Q1", &make_doc("alpha", "Q1", "a", None, None)).unwrap();
    db.commit().unwrap();
    let before = db.snapshot().unwrap();
    db.replace_document("Q2", &make_doc("beta", "Q2", "b", None, None)).unwrap();
    // not committed: the old snapshot and a fresh one agree
    assert_eq!(before.doccount(), 1);
    let fresh = db.snapshot().unwrap();
    assert_eq!(fresh.doccount(), 1);
    db.commit().unwrap();
    let after = db.snapshot().unwrap();
    assert_eq!(after.doccount(), 2);
    // the pre-commit snapshot still sees the old state
    assert_eq!(before.doccount(), 1);
}

#[test]
fn pagination_neither_skips_nor_repeats() {
    // evaluate(Q, 0, 2) then evaluate(Q, 2, 3) concatenate with no
    // duplicate and no skipped document id.
    let mut db = WritableDatabase::new();
    for (key, text, data) in [
        ("Q1", "fish one", "1"),
        ("Q2", "fish two", "2"),
        ("Q3", "fish three", "3"),
        ("Q4", "fish four", "4"),
        ("Q5", "fish five", "5"),
    ] {
        db.replace_document(key, &make_doc(text, key, data, None, None)).unwrap();
    }
    db.commit().unwrap();
    let snap = db.snapshot().unwrap();
    let parser = QueryParser::new();
    let q = parser.parse_query("fish", default_flags()).unwrap();
    let first = search_ids(&snap, &q, 0, 2);
    let second = search_ids(&snap, &q, 2, 3);
    let whole = search_ids(&snap, &q, 0, 5);
    let mut joined = first.clone();
    joined.extend(second.iter().copied());
    assert_eq!(joined, whole);
    let mut sorted = joined.clone();
    sorted.sort();
    sorted.dedup();
    assert_eq!(sorted.len(), joined.len());
    assert_eq!(joined.len(), 5);
}

#[test]
fn value_range_query_is_exact() {
    // slot 0 = year; range 1972..1975 returns only years 1972..=1975.
    let mut db = WritableDatabase::new();
    for (key, year) in [("Q1", 1971), ("Q2", 1972), ("Q3", 1974), ("Q4", 1975), ("Q5", 1980)] {
        db.replace_document(key, &make_doc("film", key, key, Some(year), None)).unwrap();
    }
    db.commit().unwrap();
    let snap = db.snapshot().unwrap();
    let mut parser = QueryParser::new();
    let nrp = NumberRangeProcessor::new(0, "year", RangeProcessorFlags::RP_PREFIX);
    parser.add_number_rangeprocessor(&nrp);
    let q = parser.parse_query("year:1972..1975", default_flags()).unwrap();
    assert_eq!(search_ids(&snap, &q, 0, 10), vec![2, 3, 4]);
    let q_ge = parser.parse_query("year:1975..", default_flags()).unwrap();
    assert_eq!(search_ids(&snap, &q_ge, 0, 10), vec![4, 5]);
    let q_le = parser.parse_query("year:..1972", default_flags()).unwrap();
    assert_eq!(search_ids(&snap, &q_le, 0, 10), vec![1, 2]);
}

#[test]
fn value_range_constructor_matches_stored_numbers() {
    let db = corpus();
    let snap = db.snapshot().unwrap();
    let q = Query::new_range(XapianOp::OpValueRange, 0, 1972, 1973).unwrap();
    assert_eq!(search_ids(&snap, &q, 0, 10), vec![1, 2]);
    let bad = Query::new_range(XapianOp::OpAnd, 0, 1, 2);
    assert!(matches!(bad, Err(Error::InvalidArgument)));
}

#[test]
fn value_count_spy_builds_frequency_table() {
    // Genres {action, action, drama} yield {action: 2, drama: 1}.
    let db = corpus();
    let snap = db.snapshot().unwrap();
    let mut enq = snap.new_enquire().unwrap();
    enq.set_query(&Query::new_match_all());
    enq.add_matchspy_value_count(ValueCountMatchSpy::new(2));
    let _mset = enq.get_mset(&snap, 0, 10).unwrap();
    let spies = enq.take_matchspies();
    assert_eq!(spies.len(), 1);
    let spy = &spies[0];
    assert_eq!(spy.get_total(), 3);
    let mut rows = Vec::new();
    let mut it = spy.values_begin();
    let end = spy.values_end();
    while !it.eq(&end) {
        rows.push((it.get_termfreq_value(), it.get_termfreq_freq()));
        it.next();
    }
    assert_eq!(rows.len(), 2);
    assert_eq!(rows[0].0, b"action".to_vec());
    assert_eq!(rows[0].1, 2);
    assert_eq!(rows[1].0, b"drama".to_vec());
    assert_eq!(rows[1].1, 1);
}

#[test]
fn delete_then_query_finds_nothing() {
    // Deleting a document by its unique term: the term query is empty and
    // the old id resolves to DocNotFound.
    let mut db = corpus();
    db.delete_document("Q2").unwrap();
    db.commit().unwrap();
    let snap = db.snapshot().unwrap();
    let q = Query::new_term("Q2");
    assert_eq!(search_ids(&snap, &q, 0, 10), Vec::<u64>::new());
    assert!(matches!(snap.get_document(2), Err(Error::DocNotFound)));
    // the others are still there
    assert_eq!(snap.doccount(), 2);
    assert_eq!(snap.get_document(1).unwrap().get_data(), "one");
}

#[test]
fn closing_a_database_invalidates_derived_results() {
    // Closing the handle makes iterators over its results fail
    // deterministically instead of reading stale state.
    let db = corpus();
    let mut snap = db.snapshot().unwrap();
    let parser = QueryParser::new();
    let q = parser.parse_query("car", default_flags()).unwrap();
    let mut enq = snap.new_enquire().unwrap();
    enq.set_query(&q);
    let mset = enq.get_mset(&snap, 0, 10).unwrap();
    let it = mset.begin();
    assert!(it.get_document(&mset, &snap).is_ok());
    snap.close();
    assert!(matches!(it.get_document(&mset, &snap), Err(Error::InvalidOperation)));
    assert!(matches!(snap.get_document(1), Err(Error::InvalidOperation)));
    assert!(matches!(snap.new_enquire(), Err(Error::InvalidOperation)));
    assert!(matches!(snap.reopen(&db), Err(Error::InvalidOperation)));
}

#[test]
fn a_result_set_is_tied_to_its_revision() {
    let mut db = corpus();
    let snap = db.snapshot().unwrap();
    let parser = QueryParser::new();
    let q = parser.parse_query("car", default_flags()).unwrap();
    let mut enq = snap.new_enquire().unwrap();
    enq.set_query(&q);
    let mset = enq.get_mset(&snap, 0, 10).unwrap();
    // commit bumps the revision: a newer snapshot refuses the old page
    db.commit().unwrap();
    let newer = db.snapshot().unwrap();
    let it = mset.begin();
    assert!(matches!(it.get_document(&mset, &newer), Err(Error::InvalidOperation)));
    // and an executor bound to the old snapshot refuses the newer one
    assert!(matches!(enq.get_mset(&newer, 0, 10), Err(Error::InvalidOperation)));
}

#[test]
fn closed_writer_refuses_writes() {
    let mut db = corpus();
    db.close();
    let doc = make_doc("late", "Q7", "late", None, None);
    assert!(matches!(db.replace_document("Q7", &doc), Err(Error::InvalidOperation)));
    assert!(matches!(db.delete_document("Q1"), Err(Error::InvalidOperation)));
    assert!(matches!(db.commit(), Err(Error::InvalidOperation)));
    assert!(matches!(db.get_doccount(), Err(Error::InvalidOperation)));
    assert!(matches!(db.snapshot(), Err(Error::InvalidOperation)));
}

#[test]
fn mset_iterators_and_bounds() {
    let db = corpus();
    let snap = db.snapshot().unwrap();
    let parser = QueryParser::new();
    let q = parser.parse_query("car", default_flags()).unwrap();
    let mut enq = snap.new_enquire().unwrap();
    enq.set_query(&q);
    let mset = enq.get_mset(&snap, 0, 10).unwrap();
    assert_eq!(mset.size(), 2);
    assert_eq!(mset.get_matches_estimated(), 2);
    let back = mset.back().unwrap();
    assert_eq!(back.get_docid(&mset).unwrap(), 2);
    let mut it = mset.begin();
    it.next(&mset).unwrap();
    it.next(&mset).unwrap();
    assert!(it.eq(&mset.end()));
    assert!(matches!(it.next(&mset), Err(Error::InvalidOperation)));
    assert!(matches!(it.get_docid(&mset), Err(Error::InvalidArgument)));
    // an empty page has no last entry
    let q_none = parser.parse_query("zebra", default_flags()).unwrap();
    let mut enq2 = snap.new_enquire().unwrap();
    enq2.set_query(&q_none);
    let empty = enq2.get_mset(&snap, 0, 10).unwrap();
    assert_eq!(empty.size(), 0);
    assert!(matches!(empty.back(), Err(Error::InvalidArgument)));
}

#[test]
fn get_mset_without_query_is_an_invalid_argument() {
    let db = corpus();
    let snap = db.snapshot().unwrap();
    let mut enq = snap.new_enquire().unwrap();
    assert!(matches!(enq.get_mset(&snap, 0, 10), Err(Error::InvalidArgument)));
}

#[test]
fn sort_by_key_orders_by_slot_value() {
    let db = corpus();
    let snap = db.snapshot().unwrap();
    let parser = QueryParser::new();
    let q = parser.parse_query("red OR blue OR car OR bicycle", default_flags()).unwrap();
    let mut enq = snap.new_enquire().unwrap();
    enq.set_query(&q);
    let mut keymaker = fulltext::rank::MultiValueKeyMaker::new();
    keymaker.add_value(0, false);
    enq.set_sort_by_key(keymaker, false);
    let mset = enq.get_mset(&snap, 0, 10).unwrap();
    // ascending by year: 1972 (Q1), 1973 (Q2), 1980 (Q3)
    let mut ids = Vec::new();
    let mut it = mset.begin();
    while !it.eq(&mset.end()) {
        ids.push(it.get_docid(&mset).unwrap());
        it.next(&mset).unwrap();
    }
    assert_eq!(ids, vec![1, 2, 3]);
    // reversed: descending by year
    let mut enq2 = snap.new_enquire().unwrap();
    enq2.set_query(&q);
    let mut keymaker2 = fulltext::rank::MultiValueKeyMaker::new();
    keymaker2.add_value(0, false);
    enq2.set_sort_by_key(keymaker2, true);
    let mset2 = enq2.get_mset(&snap, 0, 10).unwrap();
    let mut ids2 = Vec::new();
    let mut it2 = mset2.begin();
    while !it2.eq(&mset2.end()) {
        ids2.push(it2.get_docid(&mset2).unwrap());
        it2.next(&mset2).unwrap();
    }
    assert_eq!(ids2, vec![3, 2, 1]);
}

#[test]
fn merging_databases_appends_disjoint_id_spaces() {
    let mut a = WritableDatabase::new();
    a.replace_document("Q1", &make_doc("ant", "Q1", "a", None, None)).unwrap();
    a.commit().unwrap();
    let mut left = a.snapshot().unwrap();
    let mut b = WritableDatabase::new();
    b.replace_document("Q2", &make_doc("bee", "Q2", "b", None, None)).unwrap();
    b.commit().unwrap();
    let right = b.snapshot().unwrap();
    // both hold id 1: the id spaces interleave, so the merge is refused
    assert!(matches!(left.add_database(&right), Err(Error::InvalidArgument)));
    // an empty database merges fine
    let empty = Database::new();
    left.add_database(&empty).unwrap();
    assert_eq!(left.doccount(), 1);
}

#[test]
fn reopen_syncs_to_the_latest_commit() {
    // after a successful reopen, every commit completed before the call
    // is visible; a handle or writer that is closed refuses.
    let mut db = corpus();
    let mut snap = db.snapshot().unwrap();
    assert_eq!(snap.doccount(), 3);
    db.replace_document("Q4", &make_doc("grey car", "Q4", "four", None, None))
        .unwrap();
    db.commit().unwrap();
    assert_eq!(snap.doccount(), 3);
    snap.reopen(&db).unwrap();
    assert_eq!(snap.doccount(), 4);
    assert_eq!(snap.get_document(4).unwrap().get_data(), "four");
    // a result set from before the reopen is invalidated by it
    let mut closed = db.snapshot().unwrap();
    closed.close();
    assert!(matches!(closed.reopen(&db), Err(Error::InvalidOperation)));
    db.close();
    assert!(matches!(snap.reopen(&db), Err(Error::InvalidOperation)));
}

#[test]
fn boolean_prefixes_filter_instead_of_weighing() {
    // a boolean-prefixed word restricts the probabilistic part via FILTER
    // semantics: the weight comes from the free-text part alone.
    let db = corpus();
    let snap = db.snapshot().unwrap();
    let mut parser = QueryParser::new();
    parser.add_boolean_prefix("id", "Q");
    // "car" matches Q1 and Q2; the filter narrows to Q1 without weighing
    let q = parser.parse_query("car id:1", default_flags()).unwrap();
    let mut enq = snap.new_enquire().unwrap();
    enq.set_query(&q);
    let mset = enq.get_mset(&snap, 0, 10).unwrap();
    assert_eq!(mset.size(), 1);
    let it = mset.begin();
    assert_eq!(it.get_docid(&mset).unwrap(), 1);
    assert_eq!(it.get_weight(&mset).unwrap(), 1);
    // two filters on the same field OR together; the query is weightless
    let q2 = parser.parse_query("id:1 id:3", default_flags()).unwrap();
    let mut enq2 = snap.new_enquire().unwrap();
    enq2.set_query(&q2);
    let mset2 = enq2.get_mset(&snap, 0, 10).unwrap();
    assert_eq!(mset2.size(), 2);
    let it2 = mset2.begin();
    assert_eq!(it2.get_docid(&mset2).unwrap(), 1);
    assert_eq!(it2.get_weight(&mset2).unwrap(), 0);
    // an explicit connector before a filter is malformed
    assert!(matches!(
        parser.parse_query("car AND id:1", default_flags()),
        Err(Error::QueryParserError { .. })
    ));
}

#[test]
fn committed_state_round_trips_through_the_codec() {
    // what commit publishes can be serialized and read back whole: the
    // durable form of the committed state.
    let db = corpus();
    let bytes = fulltext::codec::encode_state(&db);
    let reloaded = fulltext::codec::decode_writable(&bytes).unwrap();
    assert_eq!(reloaded.get_doccount().unwrap(), 3);
    let snap = reloaded.snapshot().unwrap();
    assert_eq!(snap.get_document(2).unwrap().get_data(), "two");
    let parser = QueryParser::new();
    let q = parser.parse_query("car", default_flags()).unwrap();
    assert_eq!(search_ids(&snap, &q, 0, 10), vec![1, 2]);
    // a read-only snapshot decodes from the same bytes
    let ro = fulltext::codec::decode_database(&bytes).unwrap();
    assert_eq!(ro.doccount(), 3);
    assert_eq!(search_ids(&ro, &q, 0, 10), vec![1, 2]);
    // truncation and junk are rejected as corruption
    let mut cut = bytes.clone();
    cut.pop();
    assert!(matches!(
        fulltext::codec::decode_writable(&cut),
        Err(Error::DatabaseCorrupt)
    ));
    let mut extra = bytes.clone();
    extra.push(0);
    assert!(matches!(
        fulltext::codec::decode_writable(&extra),
        Err(Error::DatabaseCorrupt)
    ));
    assert!(matches!(
        fulltext::codec::decode_database(&vec![1, 2, 3]),
        Err(Error::DatabaseCorrupt)
    ));
}

#[test]
fn document_values_round_trip() {
    let mut doc = Document::new();
    doc.add_string(3, "hello");
    assert_eq!(doc.get_value(3).unwrap(), b"hello".to_vec());
    assert!(doc.get_value(4).is_none());
    doc.add_string(3, "world");
    assert_eq!(doc.get_value(3).unwrap(), b"world".to_vec());
    doc.add_int(4, 7);
    assert_eq!(doc.get_value(4).unwrap().len(), 8);
    let copy = doc.duplicate();
    assert_eq!(copy.get_value(3).unwrap(), b"world".to_vec());
    assert_eq!(copy.get_data(), doc.get_data());
}

#[test]
fn term_generator_positions_run_across_texts() {
    let mut tg = TermGenerator::new();
    tg.set_flags(0, 0);
    tg.set_document(Document::new());
    tg.index_text_with_prefix("red car", "X");
    let doc = tg.take_document();
    // prefixed terms are stored, unprefixed are not
    assert!(doc.has_term(&b"Xred".to_vec()));
    assert!(doc.has_term(&b"Xcar".to_vec()));
    assert!(!doc.has_term(&b"red".to_vec()));
    assert_eq!(doc.wdf_of(&b"Xcar".to_vec()), 1);
    assert_eq!(doc.positions_of(&b"Xcar".to_vec()), vec![1]);
}

#[test]
fn numbers_index_as_decimal_terms() {
    let mut tg = TermGenerator::new();
    tg.set_document(Document::new());
    tg.index_int(7, "N");
    tg.index_long(-42, "N");
    tg.index_long(1234567890123, "N");
    let doc = tg.take_document();
    assert!(doc.has_term(&b"N7".to_vec()));
    assert!(doc.has_term(&b"N-42".to_vec()));
    assert!(doc.has_term(&b"N1234567890123".to_vec()));
    assert_eq!(doc.positions_of(&b"N-42".to_vec()), vec![1]);
}
