//! Edit distance and fuzzy matching.

use cendb::search::fuzzy::{fuzzy_search, fuzzy_search_with_limit, levenshtein};

#[test]
fn identical_strings_distance_zero() {
    assert_eq!(levenshtein("hello", "hello"), 0);
    assert_eq!(levenshtein("", ""), 0);
}

#[test]
fn empty_vs_nonempty() {
    assert_eq!(levenshtein("", "abc"), 3);
    assert_eq!(levenshtein("abc", ""), 3);
}

#[test]
fn single_substitution() {
    assert_eq!(levenshtein("cat", "bat"), 1);
    assert_eq!(levenshtein("cat", "cot"), 1);
}

#[test]
fn single_insertion() {
    assert_eq!(levenshtein("cat", "cats"), 1);
    assert_eq!(levenshtein("cat", "cart"), 1);
}

#[test]
fn single_deletion() {
    assert_eq!(levenshtein("cats", "cat"), 1);
    assert_eq!(levenshtein("cart", "cat"), 1);
}

#[test]
fn distance_two() {
    assert_eq!(levenshtein("cat", "dog"), 3);
    assert_eq!(levenshtein("kitten", "sitting"), 3);
    assert_eq!(levenshtein("sunday", "saturday"), 3);
}

#[test]
fn case_sensitive() {
    assert_eq!(levenshtein("CAT", "cat"), 3);
    assert_eq!(levenshtein("Cat", "cat"), 1);
}

#[test]
fn unicode_chars() {
    assert_eq!(levenshtein("café", "cafe"), 1);
    assert_eq!(levenshtein("naïve", "naive"), 1);
    assert_eq!(levenshtein("日本語", "日本語"), 0);
    assert_eq!(levenshtein("日本語", "日本"), 1);
}

#[test]
fn fuzzy_search_includes_exact_match_at_distance_0() {
    let vocab = ["cat", "car", "bat", "cart", "dog"];
    let results = fuzzy_search("cat", &vocab, 1);
    let distances: Vec<&str> = results.iter().map(|(s, _)| s.as_str()).collect();
    assert!(distances.contains(&"cat"));
    assert!(distances.contains(&"bat"));
    assert!(distances.contains(&"car"));
    assert!(distances.contains(&"cart"));
    assert!(!distances.contains(&"dog"));
}

#[test]
fn fuzzy_search_distance_zero_only_returns_exact() {
    let vocab = ["cat", "car", "bat"];
    let results = fuzzy_search("cat", &vocab, 0);
    assert_eq!(results.len(), 1);
    assert_eq!(results[0].0, "cat");
    assert_eq!(results[0].1, 0);
}

#[test]
fn fuzzy_search_distance_one_includes_single_edits() {
    let vocab = ["cat", "car", "bat", "cats", "cart", "do", "dog", "frog"];
    let results = fuzzy_search("cat", &vocab, 1);
    let matched: std::collections::HashSet<&str> =
        results.iter().map(|(s, _)| s.as_str()).collect();
    assert!(matched.contains("cat"));
    assert!(matched.contains("car"));
    assert!(matched.contains("bat"));
    assert!(matched.contains("cats"));
    assert!(matched.contains("cart"));
    assert!(!matched.contains("dog"));
    assert!(!matched.contains("frog"));
    assert!(!matched.contains("do"));
}

#[test]
fn fuzzy_search_distance_two_includes_more() {
    let vocab = ["cat", "dog", "do", "boat", "cart", "scat"];
    let results = fuzzy_search("cat", &vocab, 2);
    let matched: std::collections::HashSet<&str> =
        results.iter().map(|(s, _)| s.as_str()).collect();
    assert!(matched.contains("cat"));
    assert!(matched.contains("cart"));
    assert!(matched.contains("scat"));
    assert!(matched.contains("boat"));
    assert!(!matched.contains("do"));
    assert!(!matched.contains("dog"));
}

#[test]
fn fuzzy_search_no_match_within_threshold() {
    let vocab = ["elephant", "rhinoceros", "hippopotamus"];
    let results = fuzzy_search("cat", &vocab, 2);
    assert!(results.is_empty());
}

#[test]
fn fuzzy_search_sorted_by_distance_then_alpha() {
    let vocab = ["bat", "car", "cat"];
    let results = fuzzy_search("cat", &vocab, 1);
    assert_eq!(results[0].0, "cat");
    assert_eq!(results[0].1, 0);
    assert_eq!(results[1].0, "bat");
    assert_eq!(results[1].1, 1);
    assert_eq!(results[2].0, "car");
    assert_eq!(results[2].1, 1);
}

#[test]
fn fuzzy_search_with_limit_truncates() {
    let vocab = ["cat", "bat", "car", "cart", "cab", "can", "cap", "cay"];
    let results = fuzzy_search_with_limit("cat", &vocab, 1, 3);
    assert_eq!(results.len(), 3);
    for (_, d) in &results {
        assert!(*d <= 1);
    }
}

#[test]
fn fuzzy_search_empty_vocabulary() {
    let results = fuzzy_search("cat", &[], 5);
    assert!(results.is_empty());
}

#[test]
fn fuzzy_search_empty_term() {
    let vocab = ["a", "ab", "abc", ""];
    let results = fuzzy_search("", &vocab, 2);
    let matched: std::collections::HashSet<&str> =
        results.iter().map(|(s, _)| s.as_str()).collect();
    assert!(matched.contains(""));
    assert!(matched.contains("a"));
    assert!(matched.contains("ab"));
    assert!(!matched.contains("abc"));
}

#[test]
fn fuzzy_search_handles_duplicates_in_vocab() {
    let vocab = ["cat", "cat", "bat"];
    let results = fuzzy_search("cat", &vocab, 1);
    assert_eq!(results.len(), 3);
}

#[test]
fn levenshtein_symmetric() {
    assert_eq!(levenshtein("abc", "xyz"), levenshtein("xyz", "abc"));
    assert_eq!(
        levenshtein("kitten", "sitting"),
        levenshtein("sitting", "kitten")
    );
}
