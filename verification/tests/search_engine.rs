use search_core::engine::{Document, SearchEngine, ThreadSafeSearchEngine};

fn meta(pairs: &[(&str, &str)]) -> Vec<(String, String)> {
    pairs.iter().map(|(k, v)| (k.to_string(), v.to_string())).collect()
}

fn doc(id: &str, title: &str, content: &str, metadata: Vec<(String, String)>) -> Document {
    Document {
        id: id.to_string(),
        title: title.to_string(),
        content: content.to_string(),
        metadata,
    }
}

fn two_doc_engine() -> SearchEngine {
    let mut engine = SearchEngine::new();
    engine.add_document(doc(
        "1",
        "Rust Programming Language",
        "Rust is a systems programming language that runs blazingly fast and prevents segfaults",
        meta(&[("category", "Programming")]),
    ));
    engine.add_document(doc(
        "2",
        "Web Development with JavaScript",
        "JavaScript is a scripting language commonly used for web development and creating interactive web applications",
        meta(&[("category", "Web Development")]),
    ));
    engine
}

#[test]
fn test_search_engine_basics() {
    let mut engine = two_doc_engine();
    engine.calculate_tf_idf();

    let results = engine.search("rust programming", 10, false, 0);
    assert!(!results.is_empty(), "Search should return results");
    assert_eq!(results[0].document_id, "1", "Rust document should be first result");

    let results = engine.search("javascript web", 10, false, 0);
    assert!(!results.is_empty(), "Search should return results");
    assert_eq!(results[0].document_id, "2", "JavaScript document should be first result");

    let results = engine.search("programing languag", 10, true, 2);
    assert!(!results.is_empty(), "Fuzzy search should return results despite typos");
}

#[test]
fn test_title_boost_raises_score() {
    let mut engine = two_doc_engine();
    let exact = engine.search("Rust Programming Language", 10, false, 0);
    assert_eq!(exact[0].document_id, "1");
    let partial = engine.search("programming language", 10, false, 0);
    assert_eq!(partial[0].document_id, "1");
    assert!(
        exact[0].score > partial[0].score,
        "exact-title query must outscore the partial query"
    );
}

#[test]
fn test_prefix_stability_under_limit() {
    let mut engine = two_doc_engine();
    let short = engine.search("language web systems", 1, false, 0);
    let long = engine.search("language web systems", 2, false, 0);
    assert_eq!(short.len(), 1);
    assert!(long.len() >= 1);
    assert_eq!(short[0].document_id, long[0].document_id);
    assert_eq!(short[0].score, long[0].score);
}

#[test]
fn test_scores_sorted_and_positive() {
    let mut engine = two_doc_engine();
    let results = engine.search("rust javascript web systems", 10, false, 0);
    assert!(results.len() >= 2);
    for w in results.windows(2) {
        assert!(w[0].score >= w[1].score);
    }
    for r in &results {
        assert!(r.score > 0);
    }
}

#[test]
fn test_stopwords_never_match() {
    let mut engine = two_doc_engine();
    let results = engine.search("the and of with", 10, false, 0);
    assert!(results.is_empty(), "stopwords alone must match nothing");
    let results = engine.search("a is", 10, false, 0);
    assert!(results.is_empty());
}

#[test]
fn test_zero_limit_and_empty_query() {
    let mut engine = two_doc_engine();
    assert!(engine.search("rust", 0, false, 0).is_empty());
    assert!(engine.search("", 10, false, 0).is_empty());
    assert!(engine.search("zzqqy", 10, false, 0).is_empty());
}

#[test]
fn test_uniform_corpus_exact_scores() {
    // A corpus of identical documents under distinct ids: every term has
    // document frequency N, so every IDF is ln(1) = 0 and no document has a
    // positive exact score.
    let mut engine = SearchEngine::new();
    for i in 0..1000 {
        engine.add_document(doc(
            &format!("{}", i),
            "Rust Programming Language",
            "Rust is a systems programming language",
            meta(&[("category", "Programming")]),
        ));
    }
    let results = engine.search("rust programming", 10, false, 0);
    assert!(results.is_empty(), "uniform corpus: every IDF is zero");

    // With fuzzy matching the documents all earn the same fallback score,
    // and exactly ten of the thousand come back.
    let results = engine.search("programing", 10, true, 2);
    assert_eq!(results.len(), 10);
    for r in &results {
        assert_eq!(r.score, results[0].score);
    }
}

#[test]
fn test_filter_by_metadata_drops_other_category() {
    let mut engine = two_doc_engine();
    let results = engine.search("rust javascript", 10, false, 0);
    assert!(results.len() >= 2);
    let filters = meta(&[("category", "Programming")]);
    let kept = engine.filter_by_metadata(results, &filters);
    assert_eq!(kept.len(), 1);
    assert_eq!(kept[0].document_id, "1");

    let results = engine.search("rust javascript", 10, false, 0);
    let none = engine.filter_by_metadata(results, &meta(&[("category", "Cooking")]));
    assert!(none.is_empty());

    let results = engine.search("rust javascript", 10, false, 0);
    let n = results.len();
    let all = engine.filter_by_metadata(results, &Vec::new());
    assert_eq!(all.len(), n, "an empty filter map keeps everything");
}

#[test]
fn test_replace_document_by_id() {
    let mut engine = two_doc_engine();
    engine.add_document(doc(
        "1",
        "Cooking for Beginners",
        "A gentle introduction to pasta and sauces",
        meta(&[("category", "Cooking")]),
    ));
    let results = engine.search("rust", 10, false, 0);
    assert!(results.is_empty(), "the replaced document no longer mentions rust");
    let results = engine.search("pasta", 10, false, 0);
    assert_eq!(results.len(), 1);
    assert_eq!(results[0].document_id, "1");
}

#[test]
fn test_get_document() {
    let mut engine = two_doc_engine();
    assert!(engine.get_document("1").is_some());
    assert_eq!(engine.get_document("1").unwrap().title, "Rust Programming Language");
    assert!(engine.get_document("7").is_none());
    engine.calculate_tf_idf();
    assert!(engine.get_document("2").is_some());
}

#[test]
fn test_snippet_and_highlights() {
    let mut engine = SearchEngine::new();
    let mut long = String::new();
    for i in 0..40 {
        long.push_str(&format!("word{} ", i));
    }
    long.push_str("zebra appears here at the end of a long content body");
    engine.add_document(doc("1", "Long Document", &long, Vec::new()));
    engine.add_document(doc("2", "Other Document", "unrelated filler text", Vec::new()));
    let results = engine.search("zebra", 10, false, 0);
    assert_eq!(results.len(), 1);
    let r = &results[0];
    assert!(r.snippet.starts_with("..."), "a late window is marked with an ellipsis");
    assert!(r.snippet.contains("zebra"));
    let hits: Vec<_> = r.highlights.iter().filter(|h| h.is_highlighted).collect();
    assert_eq!(hits.len(), 1);
    assert_eq!(hits[0].text, "zebra");
}

#[test]
fn test_highlights_clean_punctuation() {
    let mut engine = SearchEngine::new();
    engine.add_document(doc("1", "Punctuation", "Rust! is great, really great.", Vec::new()));
    engine.add_document(doc("2", "Other", "different words entirely", Vec::new()));
    let results = engine.search("rust", 10, false, 0);
    assert_eq!(results.len(), 1);
    let hl = &results[0].highlights;
    assert_eq!(hl.len(), 5, "one segment per whitespace-separated word");
    assert_eq!(hl[0].text, "Rust!", "the original word keeps its punctuation");
    assert!(hl[0].is_highlighted);
    assert!(!hl[1].is_highlighted);
}

#[test]
fn test_fuzzy_fallback_only_when_exact_misses() {
    let mut engine = two_doc_engine();
    // "programing" (one edit from "programming") matches only through the
    // fuzzy fallback.
    let off = engine.search("programing", 10, false, 0);
    assert!(off.is_empty());
    let on = engine.search("programing", 10, true, 2);
    assert!(!on.is_empty());
}

#[test]
fn test_thread_safe_wrapper() {
    let engine = ThreadSafeSearchEngine::new();
    engine.add_document(doc(
        "1",
        "Rust Programming Language",
        "Rust is a systems programming language",
        meta(&[("category", "Programming")]),
    ));
    engine.add_document(doc(
        "2",
        "Gardening Basics",
        "Soil, water and sunlight for healthy plants",
        meta(&[("category", "Gardening")]),
    ));
    let results = engine.search("rust", 10, false, 0);
    assert_eq!(results.len(), 1);
    assert_eq!(results[0].document_id, "1");
    let fetched = engine.get_document("1").expect("stored document");
    assert_eq!(fetched.title, "Rust Programming Language");
    assert!(engine.get_document("9").is_none());
    let filtered = engine.filter_by_metadata(
        engine.search("rust", 10, false, 0),
        &meta(&[("category", "Programming")]),
    );
    assert_eq!(filtered.len(), 1);
}

#[test]
fn test_search_is_repeatable() {
    let mut e1 = two_doc_engine();
    let mut e2 = two_doc_engine();
    let r1 = e1.search("web language", 10, false, 0);
    let r2 = e2.search("web language", 10, false, 0);
    assert_eq!(r1.len(), r2.len());
    for (a, b) in r1.iter().zip(r2.iter()) {
        assert_eq!(a.document_id, b.document_id);
        assert_eq!(a.score, b.score);
        assert_eq!(a.snippet, b.snippet);
    }
}

#[test]
fn test_finalize_idempotent() {
    let mut once = two_doc_engine();
    once.calculate_tf_idf();
    let mut twice = two_doc_engine();
    twice.calculate_tf_idf();
    twice.calculate_tf_idf();
    twice.calculate_tf_idf();
    let r1 = once.search("rust programming", 10, false, 0);
    let r2 = twice.search("rust programming", 10, false, 0);
    assert_eq!(r1.len(), r2.len());
    for (a, b) in r1.iter().zip(r2.iter()) {
        assert_eq!(a.document_id, b.document_id);
        assert_eq!(a.score, b.score);
    }
}
