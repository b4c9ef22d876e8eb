//! CenDB: the multi-model core of an embedded database.
//!
//! Every module holds executable code together with its contracts.

pub mod bytemap;
pub mod bytes;
pub mod clock;
pub mod error;
pub mod float_laws;
pub mod floats;
pub mod idmap;
pub mod ids;
pub mod numbers;
pub mod projection;
pub mod rdf;
pub mod replication;
pub mod scan;
pub mod search;
pub mod security;
pub mod sequences;
pub mod spatial;
pub mod strmap;
pub mod text;
pub mod text_laws;
pub mod utf8;
