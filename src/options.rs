//! Configuration of the engine, of reads and of writes.
use vstd::prelude::*;

verus! {

/// The default size at which the mutable segment is rotated: 32 MiB.
pub const DEFAULT_TARGET_FILE_SIZE: u64 = 33554432;

/// Engine-wide options.
#[derive(Debug, Clone, Copy)]
pub struct Options {
    pub create_if_missing: bool,
    pub error_if_exists: bool,
    /// The tail offset at which the mutable segment is rotated.
    pub target_file_size: u64,
    /// Size of the row cache; 0 disables it.
    pub row_cache_size: u64,
}

impl Default for Options {
    fn default() -> (r: Self)
        ensures
            r.create_if_missing,
            !r.error_if_exists,
            r.target_file_size == DEFAULT_TARGET_FILE_SIZE,
            r.row_cache_size == 0,
    {
        Options {
            create_if_missing: true,
            error_if_exists: false,
            target_file_size: DEFAULT_TARGET_FILE_SIZE,
            row_cache_size: 0,
        }
    }
}

/// Options of one read.
#[derive(Debug, Clone, Copy)]
pub struct ReadOptions {
    /// Recompute and compare the checksum of the frame read.
    pub verify_checksum: bool,
    pub fill_cache: bool,
}

impl Default for ReadOptions {
    fn default() -> (r: Self)
        ensures
            !r.verify_checksum,
            r.fill_cache,
    {
        ReadOptions { verify_checksum: false, fill_cache: true }
    }
}

/// Options of one write.
#[derive(Debug, Clone, Copy)]
pub struct WriteOptions {
    /// Sync the mutable segment before the write returns.
    pub sync: bool,
}

impl Default for WriteOptions {
    fn default() -> (r: Self)
        ensures
            !r.sync,
    {
        WriteOptions { sync: false }
    }
}

} // verus!
