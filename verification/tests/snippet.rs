//! Highlighted excerpts.

use cendb::search::snippet::generate_snippet;

#[test]
fn no_text_returns_none() {
    assert_eq!(generate_snippet("", &["foo"], 50), None);
}

#[test]
fn no_query_terms_returns_none() {
    assert_eq!(generate_snippet("hello world", &[], 50), None);
}

#[test]
fn zero_max_length_returns_none() {
    assert_eq!(generate_snippet("hello world", &["hello"], 0), None);
}

#[test]
fn no_match_returns_none() {
    assert_eq!(
        generate_snippet("hello world", &["nonexistent"], 50),
        None
    );
}

#[test]
fn basic_snippet_with_highlight() {
    let text = "The quick brown fox jumps over the lazy dog";
    let s = generate_snippet(text, &["fox"], 100).unwrap();
    assert!(s.contains("<mark>fox</mark>"), "snippet was: {}", s);
}

#[test]
fn snippet_is_case_insensitive() {
    let text = "The QUICK brown fox";
    let s = generate_snippet(text, &["quick"], 100).unwrap();
    assert!(s.contains("<mark>QUICK</mark>"), "snippet was: {}", s);
}

#[test]
fn snippet_matches_whole_words_only() {
    let text = "concatenate the strings";
    assert_eq!(generate_snippet(text, &["cat"], 100), None);
}

#[test]
fn snippet_truncates_with_ellipsis_when_text_longer() {
    let text = "alpha beta gamma delta epsilon zeta eta theta";
    let s = generate_snippet(text, &["epsilon"], 20).unwrap();
    assert!(
        s.starts_with("..."),
        "snippet should start with ...: {}",
        s
    );
    assert!(s.ends_with("..."), "snippet should end with ...: {}", s);
    assert!(s.contains("<mark>epsilon</mark>"));
}

#[test]
fn snippet_no_prefix_ellipsis_when_at_start() {
    let text = "alpha beta gamma delta epsilon";
    let s = generate_snippet(text, &["alpha"], 100).unwrap();
    assert!(
        !s.starts_with("..."),
        "snippet should not start with ...: {}",
        s
    );
}

#[test]
fn snippet_no_suffix_ellipsis_when_at_end() {
    let text = "alpha beta gamma delta epsilon";
    let s = generate_snippet(text, &["epsilon"], 100).unwrap();
    assert!(
        !s.ends_with("..."),
        "snippet should not end with ...: {}",
        s
    );
}

#[test]
fn snippet_picks_densest_window() {
    let text = "foo bar foo bar baz baz baz baz baz baz baz baz baz baz baz end";
    let s = generate_snippet(text, &["baz"], 20).unwrap();
    assert!(s.contains("<mark>baz</mark>"));
    assert!(!s.contains("foo"), "snippet was: {}", s);
}

#[test]
fn snippet_highlights_multiple_matches() {
    let text = "the cat sat on the mat";
    let s = generate_snippet(text, &["cat", "mat"], 100).unwrap();
    assert!(s.contains("<mark>cat</mark>"), "snippet was: {}", s);
    assert!(s.contains("<mark>mat</mark>"), "snippet was: {}", s);
}

#[test]
fn snippet_highlights_only_matches_in_window() {
    let text = "alpha beta gamma delta epsilon zeta eta theta iota kappa";
    let s = generate_snippet(text, &["beta", "kappa"], 20).unwrap();
    let has_beta = s.contains("<mark>beta</mark>");
    let has_kappa = s.contains("<mark>kappa</mark>");
    assert!(
        has_beta ^ has_kappa,
        "expected exactly one match in window, snippet: {}",
        s
    );
}

#[test]
fn snippet_max_length_smaller_than_word() {
    let text = "a longword here";
    let s = generate_snippet(text, &["longword"], 5).unwrap();
    assert!(s.contains("<mark>"));
}

#[test]
fn snippet_preserves_original_case_in_output() {
    let text = "The Brown FOX jumped";
    let s = generate_snippet(text, &["fox"], 100).unwrap();
    assert!(s.contains("<mark>FOX</mark>"), "snippet was: {}", s);
}

#[test]
fn snippet_with_overlapping_needle_substrings() {
    let text = "the catalog has a cat";
    let s = generate_snippet(text, &["cat", "catalog"], 100).unwrap();
    assert!(s.contains("<mark>catalog</mark>"));
    assert!(s.contains("<mark>cat</mark>"));
}
