//! Storage and link-graph core of a personal note-taking application.
//!
//! Notes live in hierarchical folders, carry tags, are full-text searchable,
//! and are cross-referenced through a directed backlink graph derived from
//! their content. The canonical rows are owned by an in-memory entity store
//! whose operations are specified and verified here; a thin unverified shell
//! persists the same state through an embedded database file.

pub mod errors;
pub mod folders;
pub mod idgen;
pub mod laws;
pub mod links;
pub mod listing;
pub mod migrate;
pub mod models;
pub mod notes;
pub mod scan;
pub mod search;
pub mod seqs;
pub mod settings;
pub mod store;
pub mod tags;
pub mod text;
