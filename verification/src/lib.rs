//! Deduck: detection of duplicate and near-duplicate files beneath a root
//! directory, with a reversible quarantine.
//!
//! The library is the verified core of the pipeline: byte-level path
//! handling, batching by (extension, size), content hashing behind trusted
//! wrappers, perceptual-similarity clustering, duplicate grouping, the
//! quarantine state machine over a directory snapshot, and the accounting
//! report. All filesystem traversal, prompting and printing live outside
//! the library and hand it plain values.

pub mod bytes;
pub mod config;
pub mod digest;
pub mod duplicates;
pub mod errors;
pub mod filters;
pub mod hasher;
pub mod quarantine;
pub mod report;
pub mod scanner;
pub mod similar;
