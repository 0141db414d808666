//! Storage core of an embedded key-value store built on a log-structured
//! merge tree with leveled compaction.
//!
//! The crate holds the rules of the engine and proves them. Keys are byte
//! strings in lexicographic order (`keys`). Writes and removals are commands
//! (`command`), kept in runs that ascend by key (`run`): the staging table
//! in memory (`mem_table`) and the immutable tables (`table`). A version
//! (`version`) says which tables make up the store, level by level, and
//! edits lead from one version to the next; the cleaner (`version::cleaner`)
//! says when the file of a table may go. The store (`lsm_kv`) ties them
//! together and decides what a read finds, when the staging table is
//! written out, and which tables a compaction merges (`compactor`). The
//! laws that these rules obey are stated over the store as a mathematical
//! value (`store_model`, `compaction_model`, `history`, `totals`). Logs and table files are bytes whose
//! format is fixed here (`log`, `codec`, `version::codec`).
//!
//! Everything works on plain values in memory. Files, the directory lock
//! and tasks belong to the caller: an operation hands back a description of
//! the work that has to reach the disk.

pub mod codec;
pub mod command;
pub mod compaction_model;
pub mod compactor;
pub mod config;
pub mod error;
pub mod history;
pub mod keys;
pub mod log;
pub mod lsm_kv;
pub mod mem_table;
pub mod run;
pub mod scope;
pub mod store_model;
pub mod table;
pub mod totals;
pub mod version;
