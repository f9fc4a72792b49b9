//! A verified word-to-document inverted index with a minimal query protocol.
//!
//! The library holds the logic of the system: tokenizing a document's text
//! into its normalized word set, merging per-document word sets into the
//! index (single merging context, order-free result), exact-word lookup, and
//! the request routing and response building of the query server. Directory
//! walking, the worker pool and the sockets live outside the library and hand
//! it plain values.

pub mod inverted_index;
pub mod server;
pub mod text;
pub mod tokenizer;
