//! The data model shared by the scanner boundary and the deduplication
//! engine: file records, fingerprints, duplicate groups, scan statistics and
//! progress events.

use vstd::prelude::*;

verus! {

/// The digest algorithm behind a fingerprint.
#[derive(Debug, Clone, Copy, PartialEq, Eq, Structural, Hash)]
pub enum HashAlgorithm {
    Blake3,
    SHA256,
    XXH3,
    MD5,
}

/// A content fingerprint: a digest value rendered as lowercase hexadecimal,
/// tagged with its algorithm and with whether it covers only part of the
/// content.
#[derive(Debug)]
pub struct FileHash {
    pub algorithm: HashAlgorithm,
    pub value: String,
    pub partial: bool,
}

impl Clone for FileHash {
    fn clone(&self) -> (r: Self)
        ensures
            r == *self,
    {
        FileHash { algorithm: self.algorithm, value: self.value.clone(), partial: self.partial }
    }
}

/// A file descriptor as the engine sees it: a path, a size, and a lazily
/// filled fingerprint.
#[derive(Debug)]
pub struct FileMetadata {
    pub path: String,
    pub size: u64,
    pub hash: Option<FileHash>,
    /// Modification time in milliseconds since the epoch, when known.
    pub modified_ms: Option<u64>,
    /// Creation time in milliseconds since the epoch, when known.
    pub created_ms: Option<u64>,
}

impl Clone for FileMetadata {
    fn clone(&self) -> (r: Self)
        ensures
            r == *self,
    {
        FileMetadata {
            path: self.path.clone(),
            size: self.size,
            hash: match &self.hash {
                Some(h) => Some(h.clone()),
                None => None,
            },
            modified_ms: self.modified_ms,
            created_ms: self.created_ms,
        }
    }
}

/// A group of files that share one fingerprint.
#[derive(Debug)]
pub struct DuplicateGroup {
    pub files: Vec<FileMetadata>,
    pub total_size: u64,
    pub hash: FileHash,
}

/// Running statistics of one scan.
#[derive(Debug, Clone)]
pub struct ScanStats {
    pub files_scanned: u64,
    pub total_size: u64,
    pub start_time: std::time::Instant,
}

#[verifier::external_type_specification]
#[verifier::external_body]
pub struct ExInstant(std::time::Instant);

/// Relies on std's `Clone` for `Instant`, which is `Copy`: the clone is the
/// same instant.
pub assume_specification[ <std::time::Instant as Clone>::clone ](v: &std::time::Instant) -> (r:
    std::time::Instant)
    ensures
        r == *v,
;

/// Relies on std's `Instant::now`: an opaque reading of the monotonic clock.
#[verifier::external_body]
pub(crate) fn instant_now() -> std::time::Instant {
    std::time::Instant::now()
}

/// Relies on std's `Instant::elapsed`: the time since the given reading,
/// converted here to whole milliseconds, saturated into a `u64`.
#[verifier::external_body]
pub(crate) fn instant_elapsed_ms(start: &std::time::Instant) -> u64 {
    u64::try_from(start.elapsed().as_millis()).unwrap_or(u64::MAX)
}

impl ScanStats {
    /// Fresh statistics: nothing scanned yet, clock started now.
    pub fn new() -> (r: Self)
        ensures
            r.files_scanned == 0,
            r.total_size == 0,
    {
        ScanStats { files_scanned: 0, total_size: 0, start_time: instant_now() }
    }

    /// Whole milliseconds since these statistics were created. The clock is
    /// outside the engine, so nothing more is promised of the value.
    pub fn elapsed(&self) -> u64 {
        instant_elapsed_ms(&self.start_time)
    }
}

/// A progress event sent from a scan or hash pass to an observer.
#[derive(Debug, Clone)]
pub enum ProgressUpdate {
    Scanning { current_path: String, files_scanned: u64 },
    Processing { current_file: String, files_processed: u64, total_files: u64 },
    Hashing { current_file: String, bytes_hashed: u64, total_bytes: u64 },
    Finished(ScanStats),
}

} // verus!
