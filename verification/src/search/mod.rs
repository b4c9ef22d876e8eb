//! Full-text search and secondary indexes.

pub mod bm25;
pub mod bm25_laws;
pub mod fts;
pub mod fts_laws;
pub mod fuzzy;
pub mod fuzzy_laws;
pub mod ranking;
pub mod ranking_laws;
pub mod secondary;
pub mod secondary_laws;
pub mod snippet;
pub mod snippet_laws;
pub mod stemmer;
pub mod stemmer_laws;
pub mod tokenizer;
pub mod tokenizer_laws;
