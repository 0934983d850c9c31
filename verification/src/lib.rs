//! Aggregate structural schema of a corpus of JSON documents.
//!
//! A [`keymap::KeyMap`] records, for every key path met in the documents, how
//! often the path occurred and which kinds of value were seen there. Trees of
//! single documents are merged into one tree of the corpus, which can be
//! listed or queried by path.

pub mod json;
pub mod types;
pub mod keymap;
pub mod query;
pub mod text;
pub mod report;
pub mod corpus;
