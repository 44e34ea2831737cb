//! Version tracking for a watched folder: text diffs, a version graph with
//! last-writer-wins conflict detection, an index server and its clients.

pub mod text;
pub mod seqs;
pub mod records;
pub mod diff;
pub mod version_graph;
pub mod protocol;
pub mod server;
pub mod client;
pub mod watcher;
pub mod embedding;
pub mod store;
pub mod search;
pub mod files;
