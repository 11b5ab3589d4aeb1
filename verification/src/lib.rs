//! A log-structured key-value store.
//!
//! The store keeps the latest writes in a table in memory and in a write-ahead log. When that
//! table is full, it is written out as a table on level 0; when a level has too many tables, they
//! are merged into tables of the next. The functions here take the texts of files and say what is
//! to be done to the files; they touch none themselves.

pub mod client;
pub mod client_laws;
pub mod compact_laws;
pub mod compaction;
pub mod disk;
pub mod disk_laws;
pub mod error;
pub mod flush_laws;
pub mod handler;
pub mod json;
pub mod manifest;
pub mod manifest_laws;
pub mod merge;
pub mod pattern;
pub mod record_laws;
pub mod runs;
pub mod search;
pub mod search_laws;
pub mod sorted;
pub mod soundness;
pub mod step_laws;
pub mod storage;
pub mod table;
pub mod text;
pub mod text_laws;
pub mod utils;
pub mod wal;
