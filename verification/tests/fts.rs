use cendb::search::fts::{InvertedIndex, TfIdfScorer};
use cendb::search::ranking::{search_or_ranked, search_ranked, Counts, Formula};

fn weight(index: &InvertedIndex, counts: &Vec<Counts>) -> f64 {
    let mut total = 0.0;
    for (tf, df) in counts {
        if index.doc_count() > 0 && *df > 0 {
            let idf = (index.doc_count() as f64 / *df as f64).ln();
            total += (1.0 + (*tf as f64).ln()) * idf;
        }
    }
    total
}

#[test]
fn index_and_search_basic() {
    let mut idx = InvertedIndex::new();
    idx.add_document(1, "The quick brown fox jumps over the lazy dog");
    idx.add_document(2, "A quick brown dog outruns the quick fox");
    idx.add_document(3, "The lazy dog sleeps all day");

    let results = idx.search("quick fox");
    assert!(!results.is_empty());
    assert!(results.iter().any(|r| r.doc_id == 1));
    assert!(results.iter().any(|r| r.doc_id == 2));
}

#[test]
fn search_no_results() {
    let mut idx = InvertedIndex::new();
    idx.add_document(1, "hello world");
    let results = idx.search("nonexistent");
    assert!(results.is_empty());
}

#[test]
fn search_or_semantics() {
    let mut idx = InvertedIndex::new();
    idx.add_document(1, "database storage engine");
    idx.add_document(2, "web framework rust");
    idx.add_document(3, "database rust engine");

    let results = idx.search_or("database rust");
    assert_eq!(results.len(), 3);
}

#[test]
fn tfidf_scoring() {
    let mut idx = InvertedIndex::new();
    idx.add_document(1, "rust database rust database rust");
    idx.add_document(2, "rust");
    idx.add_document(3, "database");

    let results = idx.search("rust");
    assert!(!results.is_empty());
}

#[test]
fn matches_and_counts() {
    let mut idx = InvertedIndex::default();
    idx.add_document(1, "rust database rust");
    idx.add_document(2, "rust");
    let found = idx.search("rust database");
    assert_eq!(found.len(), 1);
    assert_eq!(found[0].doc_id, 1);
    assert_eq!(idx.doc_count(), 2);
    assert_eq!(idx.doc_frequency("rust"), 2);
    assert_eq!(idx.doc_frequency("none"), 0);
    assert_eq!(idx.term_count(), 2);
    assert!(idx.search("").is_empty());
    assert!(idx.search("rust missing").is_empty());
    assert_eq!(idx.search("rust rust database").len(), 1);
    idx.add_document(2, "rust again");
    assert!(idx.search("rust").iter().any(|m| m.doc_id == 2 && m.terms.len() == 2));
    assert_eq!(idx.search("rust database").len(), 1);
    assert_eq!(idx.term_count(), 3);

    let mut scorer = TfIdfScorer::new();
    scorer.add_document(&["a", "b", "a"]);
    scorer.add_document(&["a"]);
    assert_eq!(scorer.doc_count(), 2);
    assert_eq!(scorer.doc_frequency("a"), 2);
    assert_eq!(scorer.doc_frequency("b"), 1);
    assert_eq!(TfIdfScorer::default().doc_count(), 0);
}

#[test]
fn better_matches_come_first() {
    let mut idx = InvertedIndex::new();
    idx.add_document(1, "rust engine");
    idx.add_document(2, "rust rust rust engine");
    idx.add_document(3, "other words");
    let formula = Formula { score: |_: usize, counts: Vec<Counts>| weight(&idx, &counts).to_bits() };
    let found = search_ranked(&idx, &formula, "rust engine");
    let ids: Vec<u64> = found.iter().map(|x| x.0).collect();
    assert_eq!(ids, vec![2, 1]);
    let best = (1.0 + 3f64.ln()) * 1.5f64.ln() + 1.5f64.ln();
    assert!((f64::from_bits(found[0].1) - best).abs() < 1e-9);
    let either = search_or_ranked(&idx, &formula, "engine words");
    assert_eq!(either[0].0, 3);
    assert_eq!(either.len(), 3);
}
