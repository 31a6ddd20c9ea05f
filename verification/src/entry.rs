//! Per-entry validation: metadata policy checks and the size/ratio guard.

use vstd::prelude::*;

use crate::errors::ArchiveError;
use crate::limits::ZipEntryLimits;
use crate::paths::{entry_name_ok, normalize_entry_path, normalized_entry, safe_rel};

verus! {

/// The metadata of one raw archive entry, as plain values.
#[derive(Debug)]
pub struct EntryMeta {
    /// The path declared in the archive, verbatim.
    pub name: String,
    /// Whether the entry is flagged as encrypted.
    pub encrypted: bool,
    /// Whether the entry's mode bits declare a symbolic link.
    pub symlink: bool,
    /// The compression method, as the numeric code the zip format assigns
    /// (0 is stored, 8 is deflate).
    pub method_code: u16,
    /// The declared uncompressed size in bytes.
    pub size: u64,
    /// The declared compressed size in bytes.
    pub compressed_size: u64,
}

/// One entry as extraction materializes it: a normalized relative path,
/// whether it is a directory, and for a file its bytes.
#[derive(Debug)]
pub struct ArchiveItem {
    /// The normalized relative path, separator-joined, no trailing slash.
    pub path: String,
    /// Whether the entry is a directory.
    pub is_dir: bool,
    /// The file contents; empty for a directory.
    pub data: Vec<u8>,
}

/// The mathematical shadow of one materialized entry.
pub open spec fn item_view(e: ArchiveItem) -> (Seq<char>, bool, Seq<u8>) {
    (e.path@, e.is_dir, e.data@)
}

/// The mathematical shadow of a run of materialized entries.
pub open spec fn items_view(s: Seq<ArchiveItem>) -> Seq<(Seq<char>, bool, Seq<u8>)> {
    s.map_values(|e: ArchiveItem| item_view(e))
}

/// The supported compression methods: stored (code 0) and deflate (code 8).
pub open spec fn method_supported(code: u16) -> bool {
    code == 0 || code == 8
}

/// The first policy violation of an entry's metadata, in check order:
/// encryption, symlink, compression method, then the declared path.
pub open spec fn meta_issue(m: EntryMeta) -> Option<ArchiveError> {
    if m.encrypted {
        Some(ArchiveError::EncryptedEntry)
    } else if m.symlink {
        Some(ArchiveError::SymlinkEntry)
    } else if !method_supported(m.method_code) {
        Some(ArchiveError::UnsupportedMethod)
    } else if !entry_name_ok(m.name@) {
        Some(ArchiveError::InvalidEntryName)
    } else {
        None
    }
}

/// Checks one entry's metadata, first violation first: not encrypted, not a
/// symlink, a supported compression method, and a safely normalizable path.
/// Passing yields the normalized path, which downstream steps may trust.
pub fn validate_entry_metadata(m: &EntryMeta) -> (r: Result<String, ArchiveError>)
    ensures
        r is Ok <==> meta_issue(*m) is None,
        r matches Err(e) ==> e == meta_issue(*m).unwrap(),
        r matches Ok(p) ==> p@ == normalized_entry(m.name@) && safe_rel(p@),
{
    if m.encrypted {
        return Err(ArchiveError::EncryptedEntry);
    }
    if m.symlink {
        return Err(ArchiveError::SymlinkEntry);
    }
    if !(m.method_code == 0 || m.method_code == 8) {
        return Err(ArchiveError::UnsupportedMethod);
    }
    normalize_entry_path(m.name.as_str())
}

/// The outcome of the size/ratio guard on one entry: the new running total,
/// or the first ceiling it breaks.
pub open spec fn size_check(m: EntryMeta, total: u64, lim: ZipEntryLimits) -> Result<
    u64,
    ArchiveError,
> {
    if m.size > lim.max_file_uncompressed {
        Err(ArchiveError::EntryTooLarge)
    } else if total + m.size > u64::MAX {
        Err(ArchiveError::SizeOverflow)
    } else if total + m.size > lim.max_total_uncompressed {
        Err(ArchiveError::ArchiveTooLarge)
    } else if m.compressed_size * lim.max_compression_ratio < m.size {
        Err(ArchiveError::SuspiciousRatio)
    } else {
        Ok((total + m.size) as u64)
    }
}

/// Enforces the per-file ceiling, the archive-total ceiling (with overflow
/// detected, never wrapped), and the compression-ratio defense, in that
/// order; returns the updated running total.
pub fn validate_entry_size(m: &EntryMeta, total_uncompressed: u64, zip_entry_limits: &ZipEntryLimits)
    -> (r: Result<u64, ArchiveError>)
    ensures
        r == size_check(*m, total_uncompressed, *zip_entry_limits),
{
    if m.size > zip_entry_limits.max_file_uncompressed {
        return Err(ArchiveError::EntryTooLarge);
    }
    let new_total = match total_uncompressed.checked_add(m.size) {
        Some(t) => t,
        None => {
            return Err(ArchiveError::SizeOverflow);
        },
    };
    if new_total > zip_entry_limits.max_total_uncompressed {
        return Err(ArchiveError::ArchiveTooLarge);
    }
    match m.compressed_size.checked_mul(zip_entry_limits.max_compression_ratio) {
        Some(v) => {
            if v < m.size {
                return Err(ArchiveError::SuspiciousRatio);
            }
        },
        None => {
            proof {
                assert(m.compressed_size * zip_entry_limits.max_compression_ratio
                    >= m.size);
            }
        },
    }
    Ok(new_total)
}

} // verus!
