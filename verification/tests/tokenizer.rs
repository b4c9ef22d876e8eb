//! Splitting text into terms.

use cendb::search::tokenizer::{is_stopword, stem, tokenize};

#[test]
fn tokenize_basic() {
    let tokens = tokenize("The quick brown fox jumps over the lazy dog");
    assert_eq!(tokens.len(), 7);
    assert_eq!(tokens[0].term, "quick");
    assert_eq!(tokens[2].term, "fox");
}

#[test]
fn tokenize_with_punctuation() {
    let tokens = tokenize("Hello, world! This is a test.");
    assert!(tokens.iter().any(|t| t.term == "hello"));
    assert!(tokens.iter().any(|t| t.term == "world"));
    assert!(tokens.iter().any(|t| t.term == "test"));
}

#[test]
fn stem_plural() {
    assert_eq!(stem("cats"), "cat");
    assert_eq!(stem("ponies"), "poni");
    assert_eq!(stem("caresses"), "caress");
    assert_eq!(stem("cat"), "cat");
}

#[test]
fn stem_past_tense() {
    assert_eq!(stem("plastered"), "plaster");
    assert_eq!(stem("motoring"), "motor");
}

#[test]
fn stopword_filtering() {
    assert!(is_stopword("the"));
    assert!(is_stopword("is"));
    assert!(!is_stopword("database"));
}
