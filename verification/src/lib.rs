//! Grepzilla: a segment-based wildcard search engine for document text.
//!
//! The crate holds the engine's rules: text normalisation, trigram
//! extraction, the binary segment format, the prefilter and verify
//! pipeline, pagination, the hot buffer and the manifest bookkeeping.

pub mod bitmap;
pub mod config;
pub mod cursor;
pub mod crc;
pub mod digits;
pub mod doc;
pub mod gram;
pub mod index;
pub mod ingest;
pub mod json;
pub mod listmap;
pub mod manifest;
pub mod manifest_ptr;
pub mod manifest_store;
pub mod normalizer;
pub mod preview;
pub mod query;
pub mod sat;
pub mod search;
pub mod segjson;
pub mod segment;
pub mod segment_search;
pub mod strmap;
pub mod text;
pub mod varint;
pub mod verify;
