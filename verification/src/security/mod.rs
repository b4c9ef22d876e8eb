//! Security: hashing and provenance, authentication, authorization and
//! encryption.

pub mod access_laws;
pub mod audit;
pub mod auth;
pub mod cipher;
pub mod digest_laws;
pub mod field_encryption;
pub mod hash;
pub mod hex;
pub mod kms;
pub mod lockout_laws;
pub mod masking;
pub mod masking_laws;
pub mod merkle;
pub mod password;
pub mod glob_laws;
pub mod rbac;
pub mod session_json;
pub mod session_store;
pub mod tde;
