//! A word-occurrence index: tokenizes text buffers into words separated by a
//! fixed separator set, records the byte offset of each occurrence, merges
//! per-file indexes into a global word -> file -> offsets map, and renders
//! that map as a deterministic, human-readable snapshot.

pub mod global;
pub mod index;
pub mod lex;
pub mod snapshot;
pub mod tokenizer;
pub mod walk;
