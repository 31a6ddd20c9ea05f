use tempfile::tempdir;

use stellar_api::config::{parse_u16, parse_u64, ServerConfig};
use stellar_api::errors::ArchiveError;
use stellar_api::paths::{
    ancestor_chain, ancestors_rel, expand_with_directories, join_and_assert_inside, norm,
    normalize_entry_path,
};
use stellar_api::pack::normalize_path;
use stellar_api::structure;

fn strings(xs: &[&str]) -> Vec<String> {
    xs.iter().map(|s| s.to_string()).collect()
}

#[test]
fn expand_with_directories_includes_parents() {
    let res = expand_with_directories(&strings(&["a/b/c.txt"]));
    assert!(res.iter().any(|s| s == "a/b/c.txt"));
    assert!(res.iter().any(|s| s == "a/b"));
    assert!(res.iter().any(|s| s == "a/") || res.iter().any(|s| s == "a"));
}

#[test]
fn join_and_assert_inside_detects_escape() {
    let tmp = tempdir().expect("tmp");
    let root = tmp.path().to_str().expect("utf-8 root");

    let res = join_and_assert_inside(root, "/abs_evil.txt");
    assert!(res.is_err(), "expected join_and_assert_inside to fail on absolute path");
}

#[test]
fn ai_join_and_assert_inside_success() {
    let tmp = tempdir().expect("tmp");
    let root = tmp.path().to_str().expect("utf-8 root");

    let res = join_and_assert_inside(root, "subdir/file.txt");
    assert!(res.is_ok());
    let got = res.unwrap();
    assert!(got.starts_with(root));
}

#[test]
fn ai_expand_with_directories_handles_dot_and_backslash() {
    let items = expand_with_directories(&strings(&["./a/b/c.txt", "dir\\file.txt"]));
    assert!(items.iter().any(|s| s.ends_with("a/b/c.txt")));
    assert!(items.iter().any(|s| s.contains("dir/") || s.contains("dir\\")));
}

#[test]
fn norm_strips_dot_prefix_and_backslashes() {
    assert_eq!(norm("./a/b"), "a/b");
    assert_eq!(norm("dir\\file.txt"), "dir/file.txt");
    assert_eq!(norm("plain.txt"), "plain.txt");
}

#[test]
fn normalize_path_uses_forward_slashes() {
    assert_eq!(normalize_path("dir\\sub\\f.txt"), "dir/sub/f.txt");
    assert_eq!(normalize_path("dir/sub/f.txt"), "dir/sub/f.txt");
}

#[test]
fn ancestors_rel_lists_parents_only() {
    let parents = ancestors_rel("a/b/c.txt");
    assert_eq!(parents, strings(&["a", "a/b"]));

    let with_self = structure::ancestors_rel("a/b/c.txt");
    assert_eq!(with_self, strings(&["a", "a/b", "a/b/c.txt"]));
}

#[test]
fn ancestor_chain_walks_root_to_target() {
    let chain = ancestor_chain("/srv/data", "a/b/c.txt");
    assert_eq!(chain, strings(&["/srv/data/a", "/srv/data/a/b", "/srv/data/a/b/c.txt"]));
}

#[test]
fn normalize_entry_path_cleans_and_rejects() {
    assert_eq!(normalize_entry_path("dir1/b.txt").unwrap(), "dir1/b.txt");
    assert_eq!(normalize_entry_path("dir1/").unwrap(), "dir1");
    assert_eq!(normalize_entry_path("a/./b").unwrap(), "a/b");
    assert_eq!(normalize_entry_path("a/../b").unwrap(), "b");
    assert!(matches!(
        normalize_entry_path("../evil.txt"),
        Err(ArchiveError::InvalidEntryName)
    ));
    assert!(matches!(normalize_entry_path("/abs.txt"), Err(ArchiveError::InvalidEntryName)));
    assert!(matches!(normalize_entry_path("a/../../b"), Err(ArchiveError::InvalidEntryName)));
    assert!(matches!(normalize_entry_path("C:\\evil"), Err(ArchiveError::InvalidEntryName)));
    assert!(matches!(normalize_entry_path("bad\0name"), Err(ArchiveError::InvalidEntryName)));
}

#[test]
fn expanded_allowlist_has_slash_variants() {
    let items = expand_with_directories(&strings(&["contracts/proj/src/lib.rs"]));
    assert!(items.iter().any(|s| s == "contracts"));
    assert!(items.iter().any(|s| s == "contracts/"));
    assert!(items.iter().any(|s| s == "contracts/proj"));
    assert!(items.iter().any(|s| s == "contracts/proj/"));
    assert!(items.iter().any(|s| s == "contracts/proj/src"));
    assert!(items.iter().any(|s| s == "contracts/proj/src/"));
    assert!(items.iter().any(|s| s == "contracts/proj/src/lib.rs"));
    assert_eq!(items.len(), 7);
}

#[test]
fn ai_server_config_defaults_and_overrides() {
    let defaults = ServerConfig::from_raw_environment(None, None, None, None);
    assert_eq!(defaults.host, "0.0.0.0");
    assert_eq!(defaults.port, 8888);
    assert_eq!(defaults.rate_limit_requests_per_second, 100);
    assert_eq!(defaults.wizard_origin, "http://localhost:8080");

    let overridden = ServerConfig::from_raw_environment(
        Some("127.0.0.1".to_string()),
        Some("4242".to_string()),
        Some("7".to_string()),
        Some("https://example.test".to_string()),
    );
    assert_eq!(overridden.host, "127.0.0.1");
    assert_eq!(overridden.port, 4242);
    assert_eq!(overridden.rate_limit_requests_per_second, 7);
    assert_eq!(overridden.wizard_origin, "https://example.test");

    let unparsable = ServerConfig::from_raw_environment(
        None,
        Some("not-a-port".to_string()),
        Some("many".to_string()),
        None,
    );
    assert_eq!(unparsable.port, 8080);
    assert_eq!(unparsable.rate_limit_requests_per_second, 100);
}

#[test]
fn decimal_parsing_matches_std() {
    assert_eq!(parse_u64("123"), Some(123));
    assert_eq!(parse_u64("+123"), Some(123));
    assert_eq!(parse_u64(""), None);
    assert_eq!(parse_u64("+"), None);
    assert_eq!(parse_u64("12a"), None);
    assert_eq!(parse_u64("18446744073709551615"), Some(u64::MAX));
    assert_eq!(parse_u64("18446744073709551616"), None);
    assert_eq!(parse_u16("65535"), Some(65535));
    assert_eq!(parse_u16("65536"), None);
    assert_eq!(parse_u16("070"), Some(70));
    assert_eq!(parse_u64("99999999999999999999"), None);
}

#[test]
fn error_messages_match_policy_text() {
    assert_eq!(ArchiveError::StructureMismatch.message(), "Unexpected zip file");
    assert_eq!(ArchiveError::EncryptedEntry.message(), "Encrypted entries are not allowed");
    assert_eq!(ArchiveError::SymlinkEntry.message(), "Symlink entries are not allowed");
    assert_eq!(ArchiveError::UnsupportedMethod.message(), "Unsupported compression method");
    assert_eq!(ArchiveError::InvalidEntryName.message(), "invalid entry name");
    assert_eq!(ArchiveError::DuplicateEntry.message(), "duplicate entry");
    assert_eq!(ArchiveError::UnexpectedContent.message(), "Unexpected zip content");
    assert_eq!(ArchiveError::EntryTooLarge.message(), "entry too large");
    assert_eq!(ArchiveError::ArchiveTooLarge.message(), "archive too large");
    assert_eq!(ArchiveError::SizeOverflow.message(), "Size overflow");
    assert_eq!(ArchiveError::SuspiciousRatio.message(), "suspicious compression ratio");
    assert_eq!(ArchiveError::SizeMismatch.message(), "size mismatch");
    assert_eq!(ArchiveError::PathEscape.message(), "Path escape root");
}
