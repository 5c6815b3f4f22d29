use search_core::algorithms::{
    extract_highlights, fuzzy_search, tokenize, InvertedIndex, SearchDocument,
};
use search_core::api::{
    execute_search, initialize_search_indices, search_all, search_blog, search_courses,
    search_portfolio, SearchRequest, SearchState,
};

fn sdoc(id: &str, title: &str, content: &str, metadata: Vec<(String, String)>) -> SearchDocument {
    SearchDocument {
        id: id.to_string(),
        title: title.to_string(),
        content: content.to_string(),
        metadata,
    }
}

fn meta(pairs: &[(&str, &str)]) -> Vec<(String, String)> {
    pairs.iter().map(|(k, v)| (k.to_string(), v.to_string())).collect()
}

#[test]
fn test_inverted_index() {
    let mut index = InvertedIndex::new();

    let doc1 = sdoc(
        "1",
        "Rust Programming Language",
        "Rust is a systems programming language that runs blazingly fast",
        meta(&[("category", "Programming")]),
    );
    let doc2 = sdoc(
        "2",
        "Web Development with React",
        "React is a JavaScript library for building user interfaces",
        meta(&[("category", "Web Development")]),
    );

    index.add_document(doc1);
    index.add_document(doc2);

    let results = index.search("rust programming", 10);
    assert!(!results.is_empty());
    assert_eq!(results[0].document_id, "1");

    let results = index.search("javascript react", 10);
    assert!(!results.is_empty());
    assert_eq!(results[0].document_id, "2");
}

#[test]
fn test_fuzzy_search() {
    assert!(fuzzy_search("rust", "Rust is a programming language", 1));
    assert!(fuzzy_search("progamming", "Rust is a programming language", 2)); // Typo in query
    assert!(!fuzzy_search("javascript", "Rust is a programming language", 2));
}

#[test]
fn test_tokenize_lowercases_and_splits() {
    let toks = tokenize("Hello, World! Rust-2024");
    let toks: Vec<&str> = toks.iter().map(|s| s.as_str()).collect();
    assert_eq!(toks, vec!["hello", "world", "rust", "2024"]);
    assert!(tokenize("").is_empty());
}

#[test]
fn test_index_scores_weight_title_triple() {
    let mut index = InvertedIndex::new();
    index.add_document(sdoc("t", "rust", "other words", Vec::new()));
    index.add_document(sdoc("c", "other", "rust", Vec::new()));
    let results = index.search("rust", 10);
    assert_eq!(results.len(), 2);
    assert_eq!(results[0].document_id, "t", "a title hit outweighs a content hit");
    assert_eq!(results[0].score, 3);
    assert_eq!(results[1].score, 1);
}

#[test]
fn test_index_never_stores_stopwords() {
    let mut index = InvertedIndex::new();
    index.add_document(sdoc(
        "1",
        "The Art of the Deal",
        "It is a book about a deal and the art of it",
        Vec::new(),
    ));
    assert!(index.search("the", 10).is_empty(), "stopwords are never indexed");
    assert!(index.search("is a of and", 10).is_empty());
    assert!(index.search("x", 10).is_empty(), "single characters are never indexed");
    let results = index.search("deal", 10);
    assert_eq!(results.len(), 1);
    assert_eq!(results[0].score, 3 + 1, "one title hit and one content hit");
}

#[test]
fn test_index_limit_and_order() {
    let mut index = InvertedIndex::new();
    index.add_document(sdoc("a", "fish", "fish fish fish", Vec::new()));
    index.add_document(sdoc("b", "fish", "fish", Vec::new()));
    index.add_document(sdoc("c", "crab", "nothing else", Vec::new()));
    let results = index.search("fish", 10);
    assert_eq!(results.len(), 2);
    assert_eq!(results[0].document_id, "a");
    assert_eq!(results[0].score, 6);
    assert_eq!(results[1].score, 4);
    let one = index.search("fish", 1);
    assert_eq!(one.len(), 1);
    assert_eq!(one[0].document_id, "a");
}

#[test]
fn test_index_filter_by_metadata() {
    let mut index = InvertedIndex::new();
    index.add_document(sdoc("1", "alpha", "shared words", meta(&[("kind", "x")])));
    index.add_document(sdoc("2", "beta", "shared words", meta(&[("kind", "y")])));
    let results = index.search("shared", 10);
    assert_eq!(results.len(), 2);
    let kept = index.filter_by_metadata(results, &meta(&[("kind", "y")]));
    assert_eq!(kept.len(), 1);
    assert_eq!(kept[0].document_id, "2");
}

#[test]
fn test_index_get_document() {
    let mut index = InvertedIndex::new();
    index.add_document(sdoc("1", "alpha", "body", Vec::new()));
    assert!(index.get_document("1").is_some());
    assert_eq!(index.get_document("1").unwrap().title, "alpha");
    assert!(index.get_document("2").is_none());
}

#[test]
fn test_extract_highlights_snippets() {
    let d = sdoc(
        "1",
        "t",
        "The quick brown fox jumps over the lazy dog near the river bank",
        Vec::new(),
    );
    let hl = extract_highlights(&d, "fox");
    assert_eq!(hl.len(), 1);
    assert!(hl[0].starts_with("..."));
    assert!(hl[0].contains("fox"));

    let none = extract_highlights(&d, "zebra");
    assert_eq!(none.len(), 1, "a missing term falls back to the leading content");
    assert!(none[0].ends_with("..."));
    assert!(none[0].starts_with("The quick"));
}

#[test]
fn test_execute_search_reports_total() {
    let state = SearchState::new();
    let courses = vec![
        sdoc(
            "1",
            "Introduction to Blockchain",
            "Learn the fundamentals of blockchain technology and its applications",
            meta(&[("category", "Blockchain"), ("level", "Beginner")]),
        ),
        sdoc(
            "2",
            "Advanced React Development",
            "Master modern React patterns and best practices for scalable applications",
            meta(&[("category", "Web Development"), ("level", "Advanced")]),
        ),
    ];
    initialize_search_indices(&state, courses, Vec::new(), Vec::new());
    let req = SearchRequest {
        query: "blockchain".to_string(),
        filters: None,
        limit: None,
    };
    let resp = execute_search(&state.courses_index, &req);
    assert_eq!(resp.total, resp.results.len());
    assert_eq!(resp.total, 1);
    assert_eq!(resp.results[0].document_id, "1");

    let filtered = SearchRequest {
        query: "applications".to_string(),
        filters: Some(meta(&[("level", "Advanced")])),
        limit: Some(10),
    };
    let resp = execute_search(&state.courses_index, &filtered);
    assert_eq!(resp.total, resp.results.len());
    assert_eq!(resp.total, 1);
    assert_eq!(resp.results[0].document_id, "2");
}

#[test]
fn test_search_all_merges_and_caps() {
    let state = SearchState::new();
    let courses = vec![sdoc("c1", "Solana Development", "Build on the Solana blockchain", Vec::new())];
    let portfolio = vec![sdoc("p1", "NFT Marketplace", "Built on Solana with Rust", Vec::new())];
    let blog = vec![sdoc("b1", "Getting Started with Solana", "Solana programs in Rust", Vec::new())];
    initialize_search_indices(&state, courses, portfolio, blog);
    let req = SearchRequest {
        query: "solana".to_string(),
        filters: None,
        limit: Some(30),
    };
    let resp = search_all(&state, &req);
    assert_eq!(resp.total, resp.results.len());
    assert_eq!(resp.total, 3);
    for w in resp.results.windows(2) {
        assert!(w[0].score >= w[1].score);
    }
    let capped = SearchRequest {
        query: "solana".to_string(),
        filters: None,
        limit: Some(3),
    };
    let resp = search_all(&state, &capped);
    assert!(resp.total <= 3);
}

#[test]
fn test_stopword_query_yields_no_results_via_api() {
    let state = SearchState::new();
    let courses = vec![sdoc(
        "1",
        "The Rust Course",
        "What it is and how to do it",
        Vec::new(),
    )];
    initialize_search_indices(&state, courses, Vec::new(), Vec::new());
    let req = SearchRequest {
        query: "the and what how".to_string(),
        filters: None,
        limit: None,
    };
    let resp = execute_search(&state.courses_index, &req);
    assert_eq!(resp.total, 0, "a query with no admissible terms matches nothing");
    let resp = search_all(&state, &req);
    assert_eq!(resp.total, 0);
}

#[test]
fn test_per_corpus_handlers() {
    let state = SearchState::new();
    let courses = vec![sdoc("c1", "Rust Course", "Learning Rust step by step", Vec::new())];
    let portfolio = vec![sdoc("p1", "Painting App", "A watercolor painting tool", Vec::new())];
    let blog = vec![sdoc("b1", "Travel Notes", "Hiking across the alps", Vec::new())];
    initialize_search_indices(&state, courses, portfolio, blog);
    let req = |q: &str| SearchRequest { query: q.to_string(), filters: None, limit: None };

    let resp = search_courses(&state, &req("rust"));
    assert_eq!(resp.total, 1);
    assert_eq!(resp.results[0].document_id, "c1");
    let resp = search_portfolio(&state, &req("painting"));
    assert_eq!(resp.total, 1);
    assert_eq!(resp.results[0].document_id, "p1");
    let resp = search_blog(&state, &req("hiking"));
    assert_eq!(resp.total, 1);
    assert_eq!(resp.results[0].document_id, "b1");
    let resp = search_courses(&state, &req("hiking"));
    assert_eq!(resp.total, 0, "corpora are separate");
}
