//! The closed error taxonomy of the archive engine.

use vstd::prelude::*;

verus! {

/// Everything that can go wrong while extracting or packing an archive.
///
/// Each variant is one failure kind; `message` gives the short diagnostic
/// text a caller may show for it.
#[derive(Clone, Copy, PartialEq, Eq, Structural, Debug)]
pub enum ArchiveError {
    /// The container itself cannot be opened or parsed.
    MalformedContainer,
    /// The raw entry count disagrees with the allow-list-derived expectation.
    StructureMismatch,
    /// An entry is marked encrypted in the archive metadata.
    EncryptedEntry,
    /// An entry is marked as a symlink in the archive metadata.
    SymlinkEntry,
    /// An entry uses a compression method outside the supported set.
    UnsupportedMethod,
    /// An entry's declared path is absolute, prefixed, or otherwise unsafe.
    InvalidEntryName,
    /// An entry's normalized path was already accepted in this extraction.
    DuplicateEntry,
    /// An entry's normalized path matches no allow-list pattern.
    UnexpectedContent,
    /// An entry's declared uncompressed size exceeds the per-file ceiling.
    EntryTooLarge,
    /// The running total of declared uncompressed sizes exceeds the ceiling.
    ArchiveTooLarge,
    /// Adding an entry's size to the running total overflowed.
    SizeOverflow,
    /// An entry's compressed size is implausibly small for its declared size.
    SuspiciousRatio,
    /// An entry's actual byte count differs from its declared size.
    SizeMismatch,
    /// A joined path would fall outside the destination root.
    PathEscape,
    /// An underlying archive-library or filesystem failure.
    Io,
}

impl ArchiveError {
    /// The short diagnostic text for this failure kind.
    pub fn message(&self) -> (r: &'static str)
        ensures
            *self == ArchiveError::MalformedContainer ==> r@ == "invalid Zip archive"@,
            *self == ArchiveError::StructureMismatch ==> r@ == "Unexpected zip file"@,
            *self == ArchiveError::EncryptedEntry ==> r@ == "Encrypted entries are not allowed"@,
            *self == ArchiveError::SymlinkEntry ==> r@ == "Symlink entries are not allowed"@,
            *self == ArchiveError::UnsupportedMethod ==> r@ == "Unsupported compression method"@,
            *self == ArchiveError::InvalidEntryName ==> r@ == "invalid entry name"@,
            *self == ArchiveError::DuplicateEntry ==> r@ == "duplicate entry"@,
            *self == ArchiveError::UnexpectedContent ==> r@ == "Unexpected zip content"@,
            *self == ArchiveError::EntryTooLarge ==> r@ == "entry too large"@,
            *self == ArchiveError::ArchiveTooLarge ==> r@ == "archive too large"@,
            *self == ArchiveError::SizeOverflow ==> r@ == "Size overflow"@,
            *self == ArchiveError::SuspiciousRatio ==> r@ == "suspicious compression ratio"@,
            *self == ArchiveError::SizeMismatch ==> r@ == "size mismatch"@,
            *self == ArchiveError::PathEscape ==> r@ == "Path escape root"@,
            *self == ArchiveError::Io ==> r@ == "I/O error"@,
    {
        match self {
            ArchiveError::MalformedContainer => "invalid Zip archive",
            ArchiveError::StructureMismatch => "Unexpected zip file",
            ArchiveError::EncryptedEntry => "Encrypted entries are not allowed",
            ArchiveError::SymlinkEntry => "Symlink entries are not allowed",
            ArchiveError::UnsupportedMethod => "Unsupported compression method",
            ArchiveError::InvalidEntryName => "invalid entry name",
            ArchiveError::DuplicateEntry => "duplicate entry",
            ArchiveError::UnexpectedContent => "Unexpected zip content",
            ArchiveError::EntryTooLarge => "entry too large",
            ArchiveError::ArchiveTooLarge => "archive too large",
            ArchiveError::SizeOverflow => "Size overflow",
            ArchiveError::SuspiciousRatio => "suspicious compression ratio",
            ArchiveError::SizeMismatch => "size mismatch",
            ArchiveError::PathEscape => "Path escape root",
            ArchiveError::Io => "I/O error",
        }
    }
}

} // verus!
