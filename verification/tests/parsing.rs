use fulltext::bytes::bytes_le;
use fulltext::constants::QueryParserFeatureFlag;
use fulltext::db::WritableDatabase;
use fulltext::doc::Document;
use fulltext::errors::Error;
use fulltext::parser::{QueryParser, RangeProcessor};
use fulltext::query::Query;
use fulltext::serial::{decode_u64, serialise_i64, serialise_u64};
use fulltext::text::TermGenerator;

fn default_flags() -> u32 {
    QueryParserFeatureFlag::FLAG_DEFAULT.mask()
}

fn one_doc_db(text: &str, key: &str) -> WritableDatabase {
    let mut tg = TermGenerator::new();
    tg.set_document(Document::new());
    tg.index_text(text);
    let mut doc = tg.take_document();
    doc.add_boolean_term(key);
    doc.set_data(key);
    let mut db = WritableDatabase::new();
    db.replace_document(key, &doc).unwrap();
    db.commit().unwrap();
    db
}

fn matches_one(db: &WritableDatabase, q: &Query) -> bool {
    let snap = db.snapshot().unwrap();
    let mut enq = snap.new_enquire().unwrap();
    enq.set_query(q);
    let mset = enq.get_mset(&snap, 0, 10).unwrap();
    mset.size() == 1
}

#[test]
fn flag_masks_have_documented_values() {
    assert_eq!(QueryParserFeatureFlag::FLAG_BOOLEAN.mask(), 1);
    assert_eq!(QueryParserFeatureFlag::FLAG_PHRASE.mask(), 2);
    assert_eq!(QueryParserFeatureFlag::FLAG_LOVEHATE.mask(), 4);
    assert_eq!(QueryParserFeatureFlag::FLAG_DEFAULT.mask(), 7);
    assert_eq!(QueryParserFeatureFlag::FLAG_PURE_NOT.mask(), 32);
    assert_eq!(fulltext::constants::TermGeneratorFlag::FLAG_SPELLING.mask(), 128);
    assert_eq!(fulltext::constants::RangeProcessorFlags::RP_SUFFIX.mask(), 1);
    assert_eq!(fulltext::constants::SnippetFlags::SNIPPET_EXHAUSTIVE.mask(), 2);
}

#[test]
fn sortable_serialisation_is_fixed_width_and_ordered() {
    assert_eq!(serialise_u64(258), vec![0, 0, 0, 0, 0, 0, 1, 2]);
    assert_eq!(serialise_u64(0), vec![0; 8]);
    assert_eq!(decode_u64(&serialise_u64(9_876_543_210)).unwrap(), 9_876_543_210);
    assert!(matches!(decode_u64(&vec![1, 2, 3]), Err(Error::Serialisation)));
    // byte order agrees with numeric order, signs included
    assert!(bytes_le(&serialise_i64(-5), &serialise_i64(3)));
    assert!(bytes_le(&serialise_i64(3), &serialise_i64(400)));
    assert!(!bytes_le(&serialise_i64(400), &serialise_i64(3)));
    assert!(bytes_le(&serialise_i64(i64::MIN), &serialise_i64(i64::MAX)));
}

#[test]
fn empty_query_matches_nothing() {
    let parser = QueryParser::new();
    let q = parser.parse_query("", default_flags()).unwrap();
    assert!(q.is_empty());
    assert!(q.is_empty_content_query());
    let db = one_doc_db("anything", "Q1");
    assert!(!matches_one(&db, &q));
    let scaled = Query::new_scaled(3, Query::new());
    assert!(!scaled.is_empty());
    assert!(scaled.is_empty_content_query());
}

#[test]
fn quoted_phrase_requires_adjacent_words_in_order() {
    let db = one_doc_db("the red car drives", "Q1");
    let parser = QueryParser::new();
    let q = parser.parse_query("\"red car\"", default_flags()).unwrap();
    assert!(matches_one(&db, &q));
    let q_rev = parser.parse_query("\"car red\"", default_flags()).unwrap();
    assert!(!matches_one(&db, &q_rev));
    let q_gap = parser.parse_query("\"red drives\"", default_flags()).unwrap();
    assert!(!matches_one(&db, &q_gap));
}

#[test]
fn hyphenated_words_parse_as_phrases() {
    let db = one_doc_db("domain name system", "Q1");
    let parser = QueryParser::new();
    let q = parser.parse_query("domain-name", default_flags()).unwrap();
    assert!(matches_one(&db, &q));
    let q_wrong = parser.parse_query("name-domain", default_flags()).unwrap();
    assert!(!matches_one(&db, &q_wrong));
}

#[test]
fn love_and_hate_markers() {
    let db = one_doc_db("red car", "Q1");
    let parser = QueryParser::new();
    let q = parser.parse_query("red -bicycle", default_flags()).unwrap();
    assert!(matches_one(&db, &q));
    let q2 = parser.parse_query("red -car", default_flags()).unwrap();
    assert!(!matches_one(&db, &q2));
    let q3 = parser.parse_query("red +car", default_flags()).unwrap();
    assert!(matches_one(&db, &q3));
    let q4 = parser.parse_query("red +bicycle", default_flags()).unwrap();
    assert!(!matches_one(&db, &q4));
}

#[test]
fn pure_not_needs_its_flag() {
    let parser = QueryParser::new();
    let denied = parser.parse_query("NOT red", default_flags());
    assert!(matches!(denied, Err(Error::QueryParserError { .. })));
    let flags = default_flags() | QueryParserFeatureFlag::FLAG_PURE_NOT.mask();
    let q = parser.parse_query("NOT red", flags).unwrap();
    let db_red = one_doc_db("red car", "Q1");
    assert!(!matches_one(&db_red, &q));
    let db_blue = one_doc_db("blue car", "Q1");
    assert!(matches_one(&db_blue, &q));
}

#[test]
fn connectors_respect_case_flags() {
    let db = one_doc_db("red car", "Q1");
    let parser = QueryParser::new();
    // lower-case "not" is a plain term without the any-case flag
    let q = parser.parse_query("red not car", default_flags()).unwrap();
    assert!(matches_one(&db, &q));
    let flags = default_flags() | QueryParserFeatureFlag::FLAG_BOOLEAN_ANY_CASE.mask();
    let q2 = parser.parse_query("red and car", flags).unwrap();
    assert!(matches_one(&db, &q2));
    let q3 = parser.parse_query("red xor car", flags).unwrap();
    assert!(!matches_one(&db, &q3));
}

#[test]
fn malformed_queries_carry_positions() {
    let parser = QueryParser::new();
    match parser.parse_query("\"never closed", default_flags()) {
        Err(Error::QueryParserError { position, .. }) => assert_eq!(position, 0),
        other => panic!("expected a parser error, got {:?}", other),
    }
    match parser.parse_query("red AND", default_flags()) {
        Err(Error::QueryParserError { position, .. }) => assert_eq!(position, 7),
        other => panic!("expected a parser error, got {:?}", other),
    }
    match parser.parse_query("AND red", default_flags()) {
        Err(Error::QueryParserError { position, .. }) => assert_eq!(position, 0),
        other => panic!("expected a parser error, got {:?}", other),
    }
    match parser.parse_query("red AND OR blue", default_flags()) {
        Err(Error::QueryParserError { position, .. }) => assert_eq!(position, 8),
        other => panic!("expected a parser error, got {:?}", other),
    }
    let e = parser.parse_query("red AND", default_flags()).unwrap_err();
    assert!(e.is_parse_error());
}

#[test]
fn wildcards_are_not_implemented() {
    let parser = QueryParser::new();
    let flags = default_flags() | QueryParserFeatureFlag::FLAG_WILDCARD.mask();
    assert!(matches!(parser.parse_query("ca*", flags), Err(Error::Unimplemented)));
    // without the flag the star is part of the word and harmless
    assert!(parser.parse_query("ca*", default_flags()).is_ok());
}

#[test]
fn field_prefixes_map_to_prefixed_terms() {
    let mut tg = TermGenerator::new();
    tg.set_document(Document::new());
    tg.index_text_with_prefix("verified search", "S");
    let mut doc = tg.take_document();
    doc.add_boolean_term("Q1");
    doc.set_data("one");
    let mut db = WritableDatabase::new();
    db.replace_document("Q1", &doc).unwrap();
    db.commit().unwrap();
    let mut parser = QueryParser::new();
    parser.add_prefix("title", "S");
    parser.add_boolean_prefix("id", "Q");
    let q = parser.parse_query("title:verified", default_flags()).unwrap();
    assert!(matches_one(&db, &q));
    let q2 = parser.parse_query("title:Search", default_flags()).unwrap();
    assert!(matches_one(&db, &q2));
    let q3 = parser.parse_query("id:1", default_flags()).unwrap();
    assert!(matches_one(&db, &q3));
    // boolean prefixes are exact: case matters
    let q4 = parser.parse_query("id:one", default_flags()).unwrap();
    assert!(!matches_one(&db, &q4));
}

#[test]
fn string_range_processor_compares_bytes() {
    let mut db = WritableDatabase::new();
    for (key, name) in [("Q1", "alpha"), ("Q2", "beta"), ("Q3", "gamma")] {
        let mut doc = Document::new();
        doc.add_boolean_term(key);
        doc.add_string(1, name);
        doc.set_data(key);
        db.replace_document(key, &doc).unwrap();
    }
    db.commit().unwrap();
    let mut parser = QueryParser::new();
    let rp = RangeProcessor::new(1, "name", fulltext::constants::RangeProcessorFlags::RP_PREFIX);
    parser.add_rangeprocessor(&rp);
    let q = parser.parse_query("name:alpha..beta", default_flags()).unwrap();
    let snap = db.snapshot().unwrap();
    let mut enq = snap.new_enquire().unwrap();
    enq.set_query(&q);
    let mset = enq.get_mset(&snap, 0, 10).unwrap();
    assert_eq!(mset.size(), 2);
}

#[test]
fn malformed_number_range_is_rejected() {
    let mut parser = QueryParser::new();
    let nrp = fulltext::parser::NumberRangeProcessor::new(
        0,
        "year",
        fulltext::constants::RangeProcessorFlags::RP_PREFIX,
    );
    parser.add_number_rangeprocessor(&nrp);
    assert!(matches!(
        parser.parse_query("year:19x2..1975", default_flags()),
        Err(Error::QueryParserError { .. })
    ));
    assert!(matches!(
        parser.parse_query("year:..", default_flags()),
        Err(Error::QueryParserError { .. })
    ));
}

#[test]
fn query_construction_and_description() {
    let parser = QueryParser::new();
    let q = parser.parse_query("red AND car", default_flags()).unwrap();
    assert_eq!(q.get_description(), "Query(and Query(term) Query(term))");
    assert_eq!(Query::new().get_description(), "Query()");
    let left = Query::new_term("red");
    let right = Query::new_term("car");
    let both = left.add_right(fulltext::constants::XapianOp::OpOr, &right).unwrap();
    assert_eq!(both.get_description(), "Query(or Query(term) Query(term))");
    let bad = left.add_right(fulltext::constants::XapianOp::OpValueRange, &right);
    assert!(matches!(bad, Err(Error::InvalidArgument)));
    let dup = both.duplicate();
    assert_eq!(dup.get_description(), both.get_description());
}

#[test]
fn stemming_folds_word_forms_on_both_sides() {
    // indexing and parsing share the stemmer, so inflected forms match
    // across the two: "running" indexes as the same term "run" queries.
    let db = one_doc_db("running stopped cities classes car", "Q1");
    let parser = QueryParser::new();
    for q in ["run", "running", "stop", "stopped", "city", "cities", "class", "classes", "car", "cars"] {
        let parsed = parser.parse_query(q, default_flags()).unwrap();
        assert!(matches_one(&db, &parsed), "query {} should match", q);
    }
    let miss = parser.parse_query("ran", default_flags()).unwrap();
    assert!(!matches_one(&db, &miss));
}

#[test]
fn stemmer_rejects_unknown_languages() {
    assert!(fulltext::text::Stem::new("en").is_ok());
    assert!(fulltext::text::Stem::new("english").is_ok());
    assert!(matches!(
        fulltext::text::Stem::new("xx"),
        Err(Error::InvalidArgument)
    ));
}

#[test]
fn query_parser_settings_are_recorded() {
    let mut parser = QueryParser::new();
    parser.set_stemmer(fulltext::text::Stem::new("en").unwrap());
    parser.set_max_wildcard_expansion(100);
    let db = fulltext::db::Database::new();
    parser.set_database(&db);
    // parsing still works after configuration
    assert!(parser.parse_query("plain", default_flags()).is_ok());
}
