use vstd::prelude::*;

verus! {

/// A point-in-time capacity measurement of one storage root.
pub struct DiskInfo {
    pub path: String,
    pub total_space: u64,
    pub used_space: u64,
    pub available_space: u64,
    pub usage_percentage: u8,
    pub is_accessible: bool,
}

impl DiskInfo {
    /// The measurement is internally consistent: used space is derived
    /// from total and available, and the percentage is capped at 100.
    pub open spec fn wf(self) -> bool {
        &&& self.used_space == if self.total_space >= self.available_space {
                self.total_space - self.available_space
            } else {
                0
            }
        &&& self.usage_percentage <= 100
        &&& (self.total_space > 0 ==> self.usage_percentage
                == (self.used_space as int * 100) / (self.total_space as int))
        &&& (self.total_space == 0 ==> self.usage_percentage == 0)
    }
}

/// Aggregate capacity over the whole pool of storage roots.
pub struct StorageInfo {
    pub total_space: u64,
    pub used_space: u64,
    pub available_space: u64,
    pub usage_percentage: u8,
    pub disk_count: usize,
    pub disks: Vec<DiskInfo>,
}

/// A permanently placed file, as reported by the finalizer or the
/// single-shot store operation.
pub struct StorageResult {
    pub file_id: String,
    pub filename: String,
    pub file_path: String,
    pub disk_path: String,
    pub file_size: u64,
}

/// A read-only projection of one chunked upload record. The timestamps
/// are epoch seconds handed in by the embedder — the core keeps no
/// clock of its own.
pub struct ChunkedUpload {
    pub id: u128,
    pub user_id: u128,
    pub filename: String,
    pub total_size: u64,
    pub chunk_size: u64,
    pub total_chunks: u64,
    pub uploaded_chunks: u64,
    pub temp_path: String,
    pub disk_path: String,
    pub is_completed: bool,
    pub created_at: u64,
    pub updated_at: u64,
}

/// The body of a request to begin a chunked upload.
pub struct InitiateChunkedUploadRequest {
    pub filename: String,
    pub total_size: u64,
    pub chunk_size: u64,
}

/// What the caller learns when a chunked upload is begun.
pub struct InitiateChunkedUploadResponse {
    pub upload_id: u128,
    pub chunk_size: u64,
    pub total_chunks: u64,
}

/// What the caller learns after one chunk is applied.
pub struct UploadChunkResponse {
    pub chunk_number: u64,
    pub uploaded: bool,
    pub upload_completed: bool,
}

/// Per-chunk delivery status.
pub struct ChunkInfo {
    pub chunk_number: u64,
    pub is_uploaded: bool,
}

/// Inventory of temp artifacts across the pool.
pub struct TempFilesInfo {
    pub total_files: usize,
    pub total_size: u64,
    pub oldest_file_age_hours: Option<u64>,
}

/// What a reaper sweep removed.
pub struct CleanupResult {
    pub cleaned_files: usize,
    pub freed_space: u64,
}

/// Credentials presented at login.
pub struct LoginRequest {
    pub username: String,
    pub password: String,
}

/// The claims carried by an authentication token.
pub struct Claims {
    pub sub: String,
    pub username: String,
    pub is_admin: bool,
    pub exp: usize,
}

/// The error taxonomy of the storage core.
#[derive(PartialEq, Eq, Structural, Clone, Copy, Debug)]
pub enum StorageError {
    /// No storage root can hold the requested size with the safety margin.
    CapacityExhausted,
    /// The named session or file does not exist.
    NotFound,
    /// The named session or file belongs to a different user.
    Forbidden,
    /// The session has already been completed.
    AlreadyCompleted,
    /// Completion was requested before every chunk was applied.
    Incomplete,
    /// A filesystem operation failed or was out of bounds.
    IOError,
    /// Disk capacity could not be read for a root.
    ProbeError,
}

} // verus!
