//! Projections: the logical data models over one storage layout.

pub mod column;
pub mod document;
pub mod document_laws;
pub mod graph;
pub mod graph_laws;
pub mod kv;
pub mod path_laws;
pub mod relational;
pub mod store_laws;
pub mod timeseries;
pub mod timeseries_laws;
