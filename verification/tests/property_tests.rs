use docfind::fst_map::SearchError;
use docfind::index::{build_index, default_stop_words, Document};
use docfind::search::search;

fn doc(title: &str, category: &str, href: &str, body: &str, kws: &[&str]) -> Document {
    Document {
        title: title.to_string(),
        category: category.to_string(),
        href: href.to_string(),
        body: body.to_string(),
        keywords: Some(kws.iter().map(|s| s.to_string()).collect()),
    }
}

#[test]
fn test_empty_corpus_empty_results() {
    // An empty document list builds a valid empty index and every query
    // returns nothing
    let index = build_index(vec![]).unwrap();
    assert_eq!(index.document_strings.len(), 0);
    for q in ["", "anything", "the quick brown fox"] {
        assert!(search(&index, q, 10).unwrap().is_empty());
    }
}

#[test]
fn test_single_document_column_and_lookup() {
    // One document yields a four-slot column, and each of its keywords finds
    // exactly that document
    let index = build_index(vec![doc(
        "Solo Title",
        "Cat",
        "/solo",
        "",
        &["solo", "unique"],
    )])
    .unwrap();
    assert_eq!(index.document_strings.len(), 4);
    for q in ["solo", "unique", "title"] {
        let r = search(&index, q, 10).unwrap();
        assert_eq!(r.len(), 1);
        assert_eq!(r[0].href, "/solo");
        assert_eq!(r[0].title, "Solo Title");
        assert_eq!(r[0].category, "Cat");
        assert_eq!(r[0].body, "");
        assert!(r[0].keywords.is_none());
    }
}

#[test]
fn test_zero_max_results() {
    // max_results of zero yields an empty result
    let index = build_index(vec![doc("T", "C", "/h", "", &["term"])]).unwrap();
    assert!(search(&index, "term", 0).unwrap().is_empty());
}

#[test]
fn test_stop_word_only_query() {
    // A query of nothing but stop words matches nothing in this corpus
    let index = build_index(vec![doc("Python Guide", "C", "/py", "", &["python"])]).unwrap();
    let r = search(&index, "the and or", 10).unwrap();
    assert!(r.is_empty());
}

#[test]
fn test_fuzzy_edit_distance_one() {
    // A query one edit away from a stored keyword still finds its documents,
    // in score order
    let index = build_index(vec![
        doc("A", "C", "/a", "", &["language"]),
        doc("B", "C", "/b", "", &["other"]),
    ])
    .unwrap();
    let r = search(&index, "lamguage", 10).unwrap();
    assert_eq!(r.len(), 1);
    assert_eq!(r[0].href, "/a");
}

#[test]
fn test_saturating_score_cap() {
    // Scores saturate at 255: once capped, further matches cannot raise a
    // document above one already at the cap, so the earlier document wins
    let index = build_index(vec![
        doc("D0", "C", "/d0", "", &["qq"]),
        doc("D1", "C", "/d1", "", &["qq", "rr"]),
        doc("D2", "C", "/d2", "", &["qq", "rr", "ss"]),
    ])
    .unwrap();
    // D1 reaches 400 and D2 reaches 600 before the cap; both clamp to 255
    // and the tie falls back to input order
    let r = search(&index, "qq rr ss", 10).unwrap();
    assert_eq!(r[0].href, "/d1");
    assert_eq!(r[1].href, "/d2");
    assert_eq!(r[2].href, "/d0");
}

#[test]
fn test_ranking_is_deterministic() {
    // Two runs of the same query agree exactly
    let docs = vec![
        doc("One", "C", "/1", "", &["shared", "one"]),
        doc("Two", "C", "/2", "", &["shared", "two"]),
        doc("Three", "C", "/3", "", &["shared"]),
    ];
    let index = build_index(docs).unwrap();
    let a = search(&index, "shared", 10).unwrap();
    let b = search(&index, "shared", 10).unwrap();
    assert_eq!(a.len(), b.len());
    for (x, y) in a.iter().zip(b.iter()) {
        assert_eq!(x.href, y.href);
    }
    // Equal scores list documents in input order
    assert_eq!(a[0].href, "/1");
    assert_eq!(a[1].href, "/2");
    assert_eq!(a[2].href, "/3");
}

#[test]
fn test_body_keywords_via_phrase_scorer() {
    // With no explicit keywords and no usable title words, matches can only
    // come from body phrases handed back by the phrase scorer
    let index = build_index(vec![Document {
        title: "".to_string(),
        category: "C".to_string(),
        href: "/zebra".to_string(),
        body: "zebra watermelon".to_string(),
        keywords: None,
    }])
    .unwrap();
    let r = search(&index, "zebra", 10).unwrap();
    assert_eq!(r.len(), 1);
    assert_eq!(r[0].href, "/zebra");
}

#[test]
fn test_corrupt_posting_reference() {
    // A transducer value outside the posting range surfaces as a corrupt
    // index error at query time
    let mut b = fst::MapBuilder::memory();
    b.insert("word", 7).unwrap();
    let index = docfind::index::Index {
        fst: b.into_inner().unwrap(),
        document_strings: docfind::column::FsstStrVec::from_strings(&vec![
            "t".to_string(),
            "c".to_string(),
            "/h".to_string(),
            "b".to_string(),
        ]),
        keyword_to_documents: vec![vec![(0, 5)]],
    };
    let r = search(&index, "word", 10);
    assert_eq!(r.unwrap_err(), SearchError::CorruptIndex);
}

#[test]
fn test_missing_column_slot() {
    // A posting that references a document without column slots surfaces as
    // a corrupt index error
    let mut b = fst::MapBuilder::memory();
    b.insert("word", 0).unwrap();
    let index = docfind::index::Index {
        fst: b.into_inner().unwrap(),
        document_strings: docfind::column::FsstStrVec::from_strings(&vec![]),
        keyword_to_documents: vec![vec![(3, 5)]],
    };
    let r = search(&index, "word", 10);
    assert_eq!(r.unwrap_err(), SearchError::CorruptIndex);
}

#[test]
fn test_default_stop_words_lowercase() {
    // The built-in stop list is non-empty and lower-cased
    let sw = default_stop_words();
    assert!(!sw.is_empty());
    for w in &sw {
        assert_eq!(w, &w.to_lowercase());
    }
    assert!(sw.iter().any(|w| w == "the"));
}

#[test]
fn test_prefix_match() {
    // A term that is a prefix of a stored keyword matches it
    let index = build_index(vec![doc("T", "C", "/d", "", &["debugging"])]).unwrap();
    let r = search(&index, "debug", 10).unwrap();
    assert_eq!(r.len(), 1);
    assert_eq!(r[0].href, "/d");
}

#[test]
fn test_query_term_too_large_for_fuzzy_automaton() {
    // A term too large for the fuzzy automaton's state limit is reported,
    // not silently dropped
    let index = build_index(vec![doc("T", "C", "/h", "", &["word"])]).unwrap();
    let long = "a".repeat(10000);
    let r = search(&index, &long, 10);
    assert_eq!(r.unwrap_err(), SearchError::QueryTooComplex);
}

#[test]
fn test_parse_stop_words_format() {
    // One word per line; blank lines and comment lines are ignored; words
    // are lower-cased; a trailing carriage return is stripped
    let text = "the\n# a comment\n\nAND\r\nor";
    let sw = docfind::index::parse_stop_words(text);
    assert_eq!(sw, vec!["the".to_string(), "and".to_string(), "or".to_string()]);
    assert!(docfind::index::parse_stop_words("").is_empty());
    assert!(docfind::index::parse_stop_words("# only\n# comments\n").is_empty());
}

#[test]
fn test_build_with_custom_stop_words() {
    // A custom stop list suppresses its words as title keywords
    let docs = vec![doc("zebra title", "C", "/z", "", &[])];
    let index =
        docfind::index::build_index_with_stops(docs, vec!["zebra".to_string()]).unwrap();
    // "zebra" was stopped; only "title" remains searchable
    assert!(search(&index, "zebra", 10).unwrap().is_empty());
    assert_eq!(search(&index, "title", 10).unwrap().len(), 1);
}
