//! Size and compression-ratio ceilings: the defense against decompression
//! bombs.

use vstd::prelude::*;

verus! {

/// The ceilings one extraction enforces: per entry, for the whole archive,
/// and on the compression ratio. Policy values, configurable per call.
#[derive(Clone, Copy, Debug)]
pub struct ZipEntryLimits {
    /// Ceiling on the summed declared uncompressed sizes of all entries.
    pub max_total_uncompressed: u64,
    /// Ceiling on one entry's declared uncompressed size.
    pub max_file_uncompressed: u64,
    /// Largest accepted ratio of uncompressed to compressed size.
    pub max_compression_ratio: u64,
}

impl ZipEntryLimits {
    /// The default ceilings for an untrusted contract-project archive:
    /// 50 KiB per file, 100 KiB in total, ratio at most 200.
    pub fn rust_env() -> (r: Self)
        ensures
            r.max_total_uncompressed == 100 * 1024,
            r.max_file_uncompressed == 50 * 1024,
            r.max_compression_ratio == 200,
    {
        Self {
            max_total_uncompressed: 100 * 1024,
            max_file_uncompressed: 50 * 1024,
            max_compression_ratio: 200,
        }
    }
}

} // verus!
