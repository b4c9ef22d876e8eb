use cendb::search::bm25::{tokenize_query, Bm25Scorer};
use cendb::search::ranking::{rank, score, Counts, Formula};

fn avg_doc_len(s: &Bm25Scorer) -> f64 {
    if s.doc_count() == 0 {
        0.0
    } else {
        s.total_doc_len() as f64 / s.doc_count() as f64
    }
}

fn idf_of(s: &Bm25Scorer, n_t: u64) -> f64 {
    if s.doc_count() == 0 {
        return 0.0;
    }
    let n = s.doc_count() as f64;
    ((n - n_t as f64 + 0.5) / (n_t as f64 + 0.5) + 1.0).ln()
}

fn idf(s: &Bm25Scorer, term: &str) -> f64 {
    idf_of(s, s.doc_freq(term))
}

fn bm25(s: &Bm25Scorer, doc_len: usize, counts: &Vec<Counts>) -> f64 {
    let k1 = f64::from_bits(s.k1());
    let b = f64::from_bits(s.b());
    let mut total = 0.0;
    for (f, n_t) in counts {
        let f = *f as f64;
        let denom = f + k1 * (1.0 - b + b * (doc_len as f64) / avg_doc_len(s));
        if denom != 0.0 {
            total += idf_of(s, *n_t) * (f * (k1 + 1.0)) / denom;
        }
    }
    total
}

fn scored(s: &Bm25Scorer, terms: &[&str], doc_id: u64) -> f64 {
    let formula = Formula { score: |len: usize, counts: Vec<Counts>| bm25(s, len, &counts).to_bits() };
    f64::from_bits(score(s, &formula, terms, doc_id))
}

fn ranked(s: &Bm25Scorer, query: &str, doc_ids: &[u64]) -> Vec<(u64, f64)> {
    let formula = Formula { score: |len: usize, counts: Vec<Counts>| bm25(s, len, &counts).to_bits() };
    rank(s, &formula, query, doc_ids)
        .into_iter()
        .map(|(id, bits)| (id, f64::from_bits(bits)))
        .collect()
}

fn approx(a: f64, b: f64) -> bool {
    (a - b).abs() < 1e-9
}

#[test]
fn default_params() {
    let s = Bm25Scorer::new();
    assert!(approx(f64::from_bits(s.k1()), 1.2));
    assert!(approx(f64::from_bits(s.b()), 0.75));
    assert_eq!(s.doc_count(), 0);
}

#[test]
fn add_document_updates_stats() {
    let mut s = Bm25Scorer::new();
    s.add_document(1, &["rust", "database", "rust"]);
    assert_eq!(s.doc_count(), 1);
    assert_eq!(s.doc_len(1), 3);
    assert_eq!(s.doc_freq("rust"), 1);
    assert_eq!(s.doc_freq("database"), 1);
    assert_eq!(s.term_frequency("rust", 1), 2);
    assert_eq!(s.term_frequency("database", 1), 1);
    assert!(approx(avg_doc_len(&s), 3.0));
}

#[test]
fn idf_decreases_with_more_docs_containing_term() {
    let mut s = Bm25Scorer::new();
    s.add_document(1, &["rare", "common"]);
    s.add_document(2, &["common"]);
    s.add_document(3, &["common"]);
    let idf_rare = idf(&s, "rare");
    let idf_common = idf(&s, "common");
    assert!(idf_rare > idf_common, "rare term should have higher IDF");
    assert!(idf_common >= 0.0);
}

#[test]
fn idf_unknown_term_is_high() {
    let s = Bm25Scorer::from_docs(&[(1, "hello world"), (2, "foo bar")]);
    let idf_unknown = idf(&s, "nonexistent");
    let idf_known = idf(&s, "hello");
    assert!(idf_unknown > idf_known);
    assert!(idf_unknown > 0.0);
}

#[test]
fn score_zero_for_unknown_doc() {
    let s = Bm25Scorer::from_docs(&[(1, "hello world")]);
    assert!(approx(scored(&s, &["hello"], 999), 0.0));
}

#[test]
fn score_zero_for_empty_corpus() {
    let s = Bm25Scorer::new();
    assert!(approx(scored(&s, &["anything"], 1), 0.0));
}

#[test]
fn score_zero_for_non_matching_query() {
    let s = Bm25Scorer::from_docs(&[(1, "rust database"), (2, "rust engine")]);
    assert!(approx(scored(&s, &["nonexistent"], 1), 0.0));
}

#[test]
fn score_known_value_single_doc_single_term() {
    let s = Bm25Scorer::from_docs(&[(1, "rust")]);
    let idf = idf(&s, "rust");
    assert!(approx(idf, (4.0_f64 / 3.0).ln()));
    let score = scored(&s, &["rust"], 1);
    assert!(approx(score, idf));
}

#[test]
fn score_higher_tf_yields_higher_score_saturated() {
    let mut s_short = Bm25Scorer::new();
    s_short.add_document(1, &["rust"]);
    s_short.add_document(2, &["other"]);

    let mut s_long = Bm25Scorer::new();
    s_long.add_document(1, &["rust", "rust", "rust", "rust", "rust"]);
    s_long.add_document(2, &["other"]);

    let short_score = scored(&s_short, &["rust"], 1);
    let long_score = scored(&s_long, &["rust"], 1);
    assert!(long_score > short_score);
}

#[test]
fn rank_sorts_by_score_descending() {
    let docs = vec![
        (1u64, "rust rust rust database"),
        (2, "rust database"),
        (3, "database database database"),
        (4, "rust"),
    ];
    let scorer = Bm25Scorer::from_docs(&docs);
    let ranked = ranked(&scorer, "rust", &[1, 2, 3, 4]);
    let ids: Vec<u64> = ranked.iter().map(|(id, _)| *id).collect();
    assert!(ids.contains(&1));
    assert!(ids.contains(&2));
    assert!(ids.contains(&4));
    assert!(!ids.contains(&3));
    for w in ranked.windows(2) {
        assert!(w[0].1 >= w[1].1);
    }
}

#[test]
fn rank_empty_query_returns_empty() {
    let s = Bm25Scorer::from_docs(&[(1, "rust")]);
    assert!(ranked(&s, "", &[1]).is_empty());
}

#[test]
fn rank_only_stopwords_returns_empty() {
    let s = Bm25Scorer::from_docs(&[(1, "rust")]);
    assert!(ranked(&s, "the and is", &[1]).is_empty());
}

#[test]
fn rank_stems_query() {
    let s = Bm25Scorer::from_docs(&[(1, "run fast")]);
    let ranked = ranked(&s, "running", &[1]);
    assert_eq!(ranked.len(), 1);
    assert_eq!(ranked[0].0, 1);
    assert!(ranked[0].1 > 0.0);
}

#[test]
fn rank_zero_scores_filtered() {
    let s = Bm25Scorer::from_docs(&[(1, "rust"), (2, "database")]);
    let ranked = ranked(&s, "rust", &[1, 2]);
    assert_eq!(ranked.len(), 1);
    assert_eq!(ranked[0].0, 1);
}

#[test]
fn score_sums_across_query_terms() {
    let s = Bm25Scorer::from_docs(&[(1, "rust alpha"), (2, "beta"), (3, "beta")]);
    let score_both = scored(&s, &["rust", "alpha"], 1);
    let score_rust = scored(&s, &["rust"], 1);
    let score_alpha = scored(&s, &["alpha"], 1);
    assert!(approx(score_both, score_rust + score_alpha));
    assert!(score_both > score_rust);
    assert!(score_both > score_alpha);
}

#[test]
fn repeated_query_terms_dont_double_score() {
    let s = Bm25Scorer::from_docs(&[(1, "rust"), (2, "other")]);
    let once = scored(&s, &["rust"], 1);
    let twice = scored(&s, &["rust", "rust"], 1);
    assert!(approx(once, twice));
}

#[test]
fn length_normalization_favors_shorter_docs() {
    let mut s = Bm25Scorer::new();
    s.add_document(1, &["rust", "other", "words", "here"]);
    s.add_document(2, &["rust", "filler", "filler", "filler", "filler", "filler", "filler", "filler", "filler"]);
    let short = scored(&s, &["rust"], 1);
    let long = scored(&s, &["rust"], 2);
    assert!(
        short > long,
        "shorter doc with same TF should score higher (short={}, long={})",
        short, long
    );
}

#[test]
fn b_zero_disables_length_normalization() {
    let mut s = Bm25Scorer::with_params(1.2f64.to_bits(), 0f64.to_bits());
    s.add_document(1, &["rust", "other", "words", "here"]);
    s.add_document(2, &["rust", "filler", "filler", "filler", "filler", "filler", "filler", "filler", "filler"]);
    let short = scored(&s, &["rust"], 1);
    let long = scored(&s, &["rust"], 2);
    assert!(approx(short, long));
}

#[test]
fn rank_empty_doc_list_returns_empty() {
    let s = Bm25Scorer::from_docs(&[(1, "rust")]);
    assert!(ranked(&s, "rust", &[]).is_empty());
}

#[test]
fn rank_ties_break_by_doc_id_asc() {
    let s = Bm25Scorer::from_docs(&[(5, "rust"), (3, "rust")]);
    let ranked = ranked(&s, "rust", &[5, 3]);
    assert_eq!(ranked.len(), 2);
    assert_eq!(ranked[0].0, 3);
    assert_eq!(ranked[1].0, 5);
    assert!(approx(ranked[0].1, ranked[1].1));
}

#[test]
fn formulas_get_counts_of_stemmed_terms() {
    assert_eq!(tokenize_query("The running dogs"), vec!["run".to_string(), "dog".to_string()]);
    assert!(tokenize_query("the and is").is_empty());

    let mut s = Bm25Scorer::new();
    s.add_document(1, &["x", "x", "y"]);
    s.add_document(2, &["y"]);
    let input = s.score_input(&["x", "gone", "y", "x"], 1).unwrap();
    assert_eq!(input.doc_len, 3);
    assert_eq!(input.terms.len(), 2);
    assert!(s.score_input(&["x"], 3).is_none());
}

#[test]
fn a_document_added_again_counts_twice_and_takes_its_last_length() {
    let mut s = Bm25Scorer::default();
    s.add_document(1, &["a", "b"]);
    s.add_document(1, &["a"]);
    assert_eq!(s.doc_count(), 2);
    assert_eq!(s.doc_len(1), 1);
    assert_eq!(s.total_doc_len(), 1);
    assert_eq!(s.doc_freq("a"), 2);
    assert_eq!(s.term_frequency("b", 1), 0);
}
