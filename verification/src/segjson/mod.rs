//! The textual segment: four JSON texts that hold the same as a binary
//! segment, one document per line, the index and the masks as lists of
//! doc ids.

pub mod reader;
pub mod tree;
pub mod writer;
