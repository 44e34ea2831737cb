//! The records that the version store keeps, as plain values. Times are
//! nanoseconds since the Unix epoch.

use vstd::prelude::*;

verus! {

/// One stored version of a file. A version is stored either as a patch
/// against the one before (`diff_patch`) or whole (`content_snapshot`), and
/// its content is also kept as a list of blocks.
#[derive(Debug, Clone)]
pub struct VersionRecord {
    pub id: i64,
    pub file_id: i64,
    pub version_number: i64,
    pub timestamp: i64,
    pub diff_patch: String,
    pub prev_content_hash: String,
    pub new_content_hash: String,
    pub content_snapshot: Option<String>,
    pub is_full_snapshot: bool,
    pub file_size: i64,
    pub block_count: i64,
}

/// A tracked file.
#[derive(Debug, Clone)]
pub struct FileRecord {
    pub id: i64,
    pub path: String,
    pub file_type: String,
    pub first_seen: i64,
    pub last_modified: i64,
    pub current_hash: String,
}

/// The stored embedding of a version: the vector's bytes, four per
/// component, little-endian.
#[derive(Debug, Clone)]
pub struct EmbeddingRecord {
    pub id: i64,
    pub version_id: i64,
    pub vector: Vec<u8>,
    pub created_at: i64,
}

/// One block of a version's content: its position, hash, bytes and size.
#[derive(Debug, Clone)]
pub struct FileBlock {
    pub index: usize,
    pub hash: String,
    pub data: Vec<u8>,
    pub size: usize,
}

/// What storing a version did: its id, how many of its blocks were new, and
/// how many blocks it has.
#[derive(Debug, Clone, Copy, PartialEq, Eq, Structural)]
pub struct VersionInsertResult {
    pub version_id: i64,
    pub new_blocks_stored: usize,
    pub total_blocks: usize,
}

} // verus!
