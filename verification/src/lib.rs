//! Secure archive extraction and repackaging.
//!
//! Given an untrusted zip archive and a caller-supplied allow-list of path
//! patterns, the extractor accepts only entries that are allow-listed, safely
//! named, within size and compression-ratio ceilings, and unique; any
//! violation aborts the whole operation. A companion packer serializes a
//! directory tree (handed over as plain entries) back into an archive with
//! normalized, forward-slash entry names.

pub mod errors;
pub mod extract;
pub mod config;
pub mod entry;
pub mod glob;
pub mod limits;
pub mod models;
pub mod pack;
pub mod paths;
pub mod structure;
