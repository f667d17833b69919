//! A trigram-based full-text code-search index.
//!
//! Documents are folded into a 64-symbol alphabet, cut into 3-symbol
//! windows (trigrams), and recorded in a paged posting-list store that
//! maps every trigram to the documents containing it.  A small query
//! compiler turns a parsed regular expression into a conservative
//! boolean expression over trigrams.

pub mod bitset;
pub mod chunk;
pub mod fold;
pub mod query;
pub mod store;
pub mod text;
pub mod trigram;
