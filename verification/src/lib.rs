//! Turns a parsed OpenAPI-style description of REST endpoints into a set of
//! `.http` request-template documents: one request block per operation,
//! grouped into files by the endpoint path with parameter segments stripped.
//!
//! The crate is a pure transformation: callers hand it the already-parsed
//! document and receive named output buffers (plus folder names and
//! diagnostics) back; reading the schema file and writing the results are the
//! caller's business.

pub mod aggregate;
pub mod comment;
pub mod diag;
pub mod http_data;
pub mod open_api;
pub mod text;
