use search_core::distance::levenshtein_distance;
use search_core::engine::TfIdfVector;
use search_core::math::{isqrt, ln_scaled, LN2_SCALED, SCALE};
use search_core::text::{check_admissible, is_stopword, split_word_runs, trim_non_word};

#[test]
fn test_isqrt_values() {
    assert_eq!(isqrt(0), 0);
    assert_eq!(isqrt(1), 1);
    assert_eq!(isqrt(49), 7);
    assert_eq!(isqrt(50), 7);
    assert_eq!(isqrt(63), 7);
    assert_eq!(isqrt(64), 8);
    assert_eq!(isqrt(1_000_000_000_000), 1_000_000);
}

#[test]
fn test_ln_scaled_values() {
    assert_eq!(ln_scaled(1, 1), 0);
    assert_eq!(ln_scaled(7, 7), 0);
    assert_eq!(ln_scaled(2, 1), LN2_SCALED);
    assert_eq!(ln_scaled(4, 1), 2 * LN2_SCALED);
    assert_eq!(ln_scaled(8, 2), 2 * LN2_SCALED);
    // ln(3) is about 1.098612; twenty fraction bits land within a few
    // millionths of it.
    let ln3 = ln_scaled(3, 1);
    assert!(ln3 > 1_098_000 && ln3 < 1_099_000);
}

#[test]
fn test_edit_distance_classic() {
    assert_eq!(levenshtein_distance("kitten", "sitting"), 3);
    assert_eq!(levenshtein_distance("", "abc"), 3);
    assert_eq!(levenshtein_distance("abc", ""), 3);
    assert_eq!(levenshtein_distance("same", "same"), 0);
    assert_eq!(levenshtein_distance("programming", "programing"), 1);
    assert_eq!(levenshtein_distance("languag", "language"), 1);
}

#[test]
fn test_edit_distance_transposition() {
    assert_eq!(levenshtein_distance("ab", "ba"), 1, "an adjacent swap costs one");
    assert_eq!(levenshtein_distance("conversation", "conversatoin"), 1);
    assert_eq!(levenshtein_distance("abcd", "badc"), 2, "two independent swaps");
}

#[test]
fn test_cosine_of_vector_with_itself_is_one() {
    let mut v = TfIdfVector::new();
    v.insert("rust".to_string(), 500_000);
    v.insert("systems".to_string(), 250_000);
    v.insert("code".to_string(), 125_000);
    v.recompute_magnitude();
    assert_eq!(v.cosine_similarity(&v), SCALE, "cosine(v, v) is exactly 1.0");

    let mut empty = TfIdfVector::new();
    empty.recompute_magnitude();
    assert_eq!(empty.cosine_similarity(&empty), 0, "a zero vector has no direction");
    assert_eq!(v.cosine_similarity(&empty), 0);
}

#[test]
fn test_cosine_orthogonal_vectors() {
    let mut a = TfIdfVector::new();
    a.insert("alpha".to_string(), 700_000);
    a.recompute_magnitude();
    let mut b = TfIdfVector::new();
    b.insert("beta".to_string(), 900_000);
    b.recompute_magnitude();
    assert_eq!(a.cosine_similarity(&b), 0);
}

#[test]
fn test_stopwords_and_admissibility() {
    assert!(is_stopword(&"the".to_string()));
    assert!(is_stopword(&"about".to_string()));
    assert!(!is_stopword(&"rust".to_string()));
    assert!(!check_admissible(&"a".to_string()), "single characters are out");
    assert!(!check_admissible(&"x".to_string()));
    assert!(!check_admissible(&"the".to_string()), "stopwords are out");
    assert!(check_admissible(&"rust".to_string()));
    assert!(check_admissible(&"do2".to_string()));
}

#[test]
fn test_split_word_runs() {
    let toks = split_word_runs("one,two  three!");
    let toks: Vec<&str> = toks.iter().map(|s| s.as_str()).collect();
    assert_eq!(toks, vec!["one", "two", "three"]);
    assert!(split_word_runs("...!?").is_empty());
}

#[test]
fn test_trim_non_word() {
    assert_eq!(trim_non_word("...rust!?"), "rust");
    assert_eq!(trim_non_word("rust"), "rust");
    assert_eq!(trim_non_word("!!!"), "");
    assert_eq!(trim_non_word("don't"), "don't", "inner punctuation stays");
}
