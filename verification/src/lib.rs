//! Exact substring matching over FASTA-style text.
//!
//! The library has two parts: a loader step that strips newline bytes from a
//! raw file image, leaving one flat byte sequence to search, and a naive
//! matcher that reports every offset at which a pattern occurs in that
//! sequence.

pub mod loader;
pub mod matcher;
