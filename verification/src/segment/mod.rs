//! The binary segment: five byte strings, each closed by a CRC-64, that
//! hold a trigram index, per-field document masks and the documents.

pub mod bytes;
pub mod docs;
pub mod error;
pub mod fields;
pub mod grams;
pub mod input;
pub mod laws;
pub mod meta;
pub mod postings;
pub mod reader;
pub mod traits;
pub mod writer;
