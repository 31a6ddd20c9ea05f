use std::io::Write;

use stellar_api::entry::ArchiveItem;
use stellar_api::errors::ArchiveError;
use stellar_api::extract::extract_archive;
use stellar_api::limits::ZipEntryLimits;
use stellar_api::pack::pack_entries;
use stellar_api::structure::expected_entry_count;

use zip::write::SimpleFileOptions;
use zip::CompressionMethod;
use zip::ZipWriter;

fn strings(xs: &[&str]) -> Vec<String> {
    xs.iter().map(|s| s.to_string()).collect()
}

fn file_item(path: &str, data: &[u8]) -> ArchiveItem {
    ArchiveItem { path: path.to_string(), is_dir: false, data: data.to_vec() }
}

fn dir_item(path: &str) -> ArchiveItem {
    ArchiveItem { path: path.to_string(), is_dir: true, data: Vec::new() }
}

/// The sample tree: `a.txt`, `dir1/` and `dir1/b.txt`, zipped.
fn sample_archive() -> Vec<u8> {
    pack_entries(&vec![
        file_item("a.txt", b"hello"),
        dir_item("dir1"),
        file_item("dir1/b.txt", b"world"),
    ])
    .expect("Failed to zip directory")
}

fn find<'a>(items: &'a [ArchiveItem], path: &str) -> Option<&'a ArchiveItem> {
    items.iter().find(|e| e.path == path)
}

#[test]
fn test_returns_streaming_ndjson_response_with_headers() {
    let zip_bytes = sample_archive();

    let extracted = extract_archive(
        zip_bytes,
        &strings(&["a.txt", "dir1/b.txt"]),
        &ZipEntryLimits::rust_env(),
    )
    .expect("Extraction should succeed");

    let a_txt = find(&extracted, "a.txt").expect("read a.txt");
    let b_txt = find(&extracted, "dir1/b.txt").expect("read dir1/b.txt");

    assert_eq!(a_txt.data, b"hello".to_vec());
    assert_eq!(b_txt.data, b"world".to_vec());
    assert!(find(&extracted, "dir1").expect("dir1").is_dir);
}

#[test]
fn test_builds_system_prompt_with_contract_context() {
    let count = expected_entry_count(&strings(&["a.txt", "dir1/b.txt"]));
    assert_eq!(count, 3);
}

#[test]
fn test_persists_chat_on_successful_stream_completion() {
    let big = vec![0u8; 60 * 1024];
    let zip_bytes =
        pack_entries(&vec![file_item("big.bin", &big)]).expect("Failed to zip directory");

    let result =
        extract_archive(zip_bytes, &strings(&["big.bin"]), &ZipEntryLimits::rust_env());
    match result {
        Err(e) if e == ArchiveError::EntryTooLarge => assert_eq!(e.message(), "entry too large"),
        _ => panic!("Expected the entry-too-large error, got {result:?}"),
    }
}

#[test]
fn test_filters_out_messages_at_or_above500_chars() {
    let compressible = vec![b'A'; 49 * 1024];
    let zip_bytes = pack_entries(&vec![file_item("compressible.txt", &compressible)])
        .expect("Failed to zip directory");

    let result = extract_archive(
        zip_bytes,
        &strings(&["compressible.txt"]),
        &ZipEntryLimits::rust_env(),
    );
    match result {
        Err(e) if e == ArchiveError::SuspiciousRatio => {
            assert_eq!(e.message(), "suspicious compression ratio")
        },
        _ => panic!("Expected the suspicious-compression-ratio error, got {result:?}"),
    }
}

#[test]
fn test_uses_empty_tools_for_unsupported_language() {
    let zip_bytes = sample_archive();

    let result = extract_archive(
        zip_bytes,
        &strings(&["x.txt", "y/z.txt"]),
        &ZipEntryLimits::rust_env(),
    );
    match result {
        Err(e) if e == ArchiveError::UnexpectedContent => {
            assert_eq!(e.message(), "Unexpected zip content")
        },
        _ => panic!("Expected the unexpected-content error, got {result:?}"),
    }
}

#[test]
fn test_returns_error_json_on_request_parsing_failure() {
    let invalid = vec![0u8, 1, 2, 3, 4, 5];
    let res = extract_archive(invalid, &strings(&[]), &ZipEntryLimits::rust_env());
    assert!(res.is_err(), "Expected error on invalid zip data");
    assert!(matches!(res, Err(ArchiveError::MalformedContainer)));
}

#[test]
fn test_fails_when_entry_count_mismatch() {
    let zip_bytes = sample_archive();

    let result = extract_archive(zip_bytes, &strings(&["a.txt"]), &ZipEntryLimits::rust_env());
    match result {
        Err(e) if e == ArchiveError::StructureMismatch => {
            assert_eq!(e.message(), "Unexpected zip file")
        },
        _ => panic!("Expected the structure-mismatch error, got {result:?}"),
    }
}

#[test]
fn test_supports_stored_compression_method() {
    let mut bytes = Vec::new();
    {
        let cursor = std::io::Cursor::new(&mut bytes);
        let mut writer = ZipWriter::new(cursor);
        let options = SimpleFileOptions::default().compression_method(CompressionMethod::Stored);

        writer.add_directory("dir1/", options).expect("add dir1/");

        writer.start_file("a.txt", options).expect("start a.txt");
        writer.write_all(b"hello").expect("write a.txt");

        writer.start_file("dir1/b.txt", options).expect("start dir1/b.txt");
        writer.write_all(b"world").expect("write dir1/b.txt");

        writer.finish().expect("finish zip");
    }

    let extracted = extract_archive(
        bytes,
        &strings(&["a.txt", "dir1/b.txt"]),
        &ZipEntryLimits::rust_env(),
    )
    .expect("Extraction should succeed with Stored method");

    let a_txt = find(&extracted, "a.txt").expect("read a.txt");
    let b_txt = find(&extracted, "dir1/b.txt").expect("read dir1/b.txt");

    assert_eq!(a_txt.data, b"hello".to_vec());
    assert_eq!(b_txt.data, b"world".to_vec());
}

#[test]
fn test_rejects_path_traversal_entries() {
    let mut bytes = Vec::new();
    {
        let cursor = std::io::Cursor::new(&mut bytes);
        let mut writer = ZipWriter::new(cursor);
        let options = SimpleFileOptions::default().compression_method(CompressionMethod::Stored);

        writer.start_file("../evil.txt", options).expect("start ../evil.txt");
        writer.write_all(b"oops").expect("write ../evil.txt");
        writer.finish().expect("finish zip");
    }

    let result = extract_archive(bytes, &strings(&["evil.txt"]), &ZipEntryLimits::rust_env());
    match result {
        Err(ArchiveError::InvalidEntryName) => {},
        _ => panic!("Expected the invalid-entry-name error for path traversal, got {result:?}"),
    }
}

#[test]
fn test_rejects_archives_exceeding_total_uncompressed_size() {
    let mut bytes = Vec::new();
    {
        let cursor = std::io::Cursor::new(&mut bytes);
        let mut writer = ZipWriter::new(cursor);
        let options = SimpleFileOptions::default().compression_method(CompressionMethod::Stored);

        let big = vec![0u8; 40 * 1024];
        for name in ["f1.bin", "f2.bin", "f3.bin"] {
            writer.start_file(name, options).expect("start file");
            writer.write_all(&big).expect("write file");
        }
        writer.finish().expect("finish zip");
    }

    let result = extract_archive(
        bytes,
        &strings(&["f1.bin", "f2.bin", "f3.bin"]),
        &ZipEntryLimits::rust_env(),
    );
    match result {
        Err(e) if e == ArchiveError::ArchiveTooLarge => {
            assert_eq!(e.message(), "archive too large")
        },
        _ => panic!("Expected the archive-too-large error, got {result:?}"),
    }
}

#[test]
fn test_allows_matching_with_glob_patterns() {
    let zip_bytes = sample_archive();

    let extracted = extract_archive(
        zip_bytes,
        &strings(&["a.txt", "dir1/*.txt"]),
        &ZipEntryLimits::rust_env(),
    )
    .expect("Extraction should succeed with glob patterns");

    let a_txt = find(&extracted, "a.txt").expect("read a.txt");
    let b_txt = find(&extracted, "dir1/b.txt").expect("read dir1/b.txt");

    assert_eq!(a_txt.data, b"hello".to_vec());
    assert_eq!(b_txt.data, b"world".to_vec());
}

#[test]
fn scenario_absolute_entry_rejected() {
    let mut bytes = Vec::new();
    {
        let cursor = std::io::Cursor::new(&mut bytes);
        let mut writer = ZipWriter::new(cursor);
        let options = SimpleFileOptions::default().compression_method(CompressionMethod::Stored);

        writer.start_file("/abs.txt", options).expect("start /abs.txt");
        writer.write_all(b"oops").expect("write /abs.txt");
        writer.finish().expect("finish zip");
    }

    let result = extract_archive(bytes, &strings(&["abs.txt"]), &ZipEntryLimits::rust_env());
    match result {
        Err(ArchiveError::InvalidEntryName) => {},
        _ => panic!("Expected the invalid-entry-name error for an absolute path, got {result:?}"),
    }
}

/// Sets the named flag bit in every local and central header of the raw
/// archive, to fabricate metadata the zip writer will not produce itself.
fn set_general_purpose_flag(bytes: &mut Vec<u8>) {
    let mut i: usize = 0;
    while i + 4 <= bytes.len() {
        if bytes[i] == 0x50 && bytes[i + 1] == 0x4b {
            if bytes[i + 2] == 0x03 && bytes[i + 3] == 0x04 && i + 8 < bytes.len() {
                bytes[i + 6] |= 1;
            }
            if bytes[i + 2] == 0x01 && bytes[i + 3] == 0x02 && i + 10 < bytes.len() {
                bytes[i + 8] |= 1;
            }
        }
        i += 1;
    }
}

#[test]
fn scenario_encrypted_entry_rejected() {
    let mut bytes = Vec::new();
    {
        let cursor = std::io::Cursor::new(&mut bytes);
        let mut writer = ZipWriter::new(cursor);
        let options = SimpleFileOptions::default().compression_method(CompressionMethod::Stored);
        writer.start_file("a.txt", options).expect("start a.txt");
        writer.write_all(b"hello").expect("write a.txt");
        writer.finish().expect("finish zip");
    }
    set_general_purpose_flag(&mut bytes);

    let result = extract_archive(bytes, &strings(&["a.txt"]), &ZipEntryLimits::rust_env());
    match result {
        Err(e) if e == ArchiveError::EncryptedEntry => {
            assert_eq!(e.message(), "Encrypted entries are not allowed")
        },
        _ => panic!("Expected the encrypted-entry error, got {result:?}"),
    }
}

#[test]
fn scenario_symlink_entry_rejected() {
    let mut bytes = Vec::new();
    {
        let cursor = std::io::Cursor::new(&mut bytes);
        let mut writer = ZipWriter::new(cursor);
        let options = SimpleFileOptions::default().compression_method(CompressionMethod::Stored);
        writer.add_symlink("link", "a.txt", options).expect("add symlink");
        writer.finish().expect("finish zip");
    }

    let result = extract_archive(bytes, &strings(&["link"]), &ZipEntryLimits::rust_env());
    match result {
        Err(e) if e == ArchiveError::SymlinkEntry => {
            assert_eq!(e.message(), "Symlink entries are not allowed")
        },
        _ => panic!("Expected the symlink-entry error, got {result:?}"),
    }
}

/// Rewrites the compression method of every central-directory header.
fn set_central_method(bytes: &mut Vec<u8>, method: u16) {
    let mut i: usize = 0;
    while i + 12 <= bytes.len() {
        if bytes[i] == 0x50 && bytes[i + 1] == 0x4b && bytes[i + 2] == 0x01 && bytes[i + 3]
            == 0x02
        {
            bytes[i + 10] = (method & 0xff) as u8;
            bytes[i + 11] = (method >> 8) as u8;
        }
        i += 1;
    }
}

#[test]
fn scenario_unsupported_method_rejected() {
    let mut bytes = Vec::new();
    {
        let cursor = std::io::Cursor::new(&mut bytes);
        let mut writer = ZipWriter::new(cursor);
        let options = SimpleFileOptions::default().compression_method(CompressionMethod::Stored);
        writer.start_file("a.txt", options).expect("start a.txt");
        writer.write_all(b"hello").expect("write a.txt");
        writer.finish().expect("finish zip");
    }
    set_central_method(&mut bytes, 12);

    let result = extract_archive(bytes, &strings(&["a.txt"]), &ZipEntryLimits::rust_env());
    match result {
        Err(e) if e == ArchiveError::UnsupportedMethod => {
            assert_eq!(e.message(), "Unsupported compression method")
        },
        _ => panic!("Expected the unsupported-method error, got {result:?}"),
    }
}

#[test]
fn scenario_duplicate_normalized_entry_rejected() {
    let mut bytes = Vec::new();
    {
        let cursor = std::io::Cursor::new(&mut bytes);
        let mut writer = ZipWriter::new(cursor);
        let options = SimpleFileOptions::default().compression_method(CompressionMethod::Stored);
        writer.start_file("a.txt", options).expect("start a.txt");
        writer.write_all(b"one").expect("write a.txt");
        writer.start_file("./a.txt", options).expect("start ./a.txt");
        writer.write_all(b"two").expect("write ./a.txt");
        writer.finish().expect("finish zip");
    }

    let result =
        extract_archive(bytes, &strings(&["a.txt", "x"]), &ZipEntryLimits::rust_env());
    match result {
        Err(e) if e == ArchiveError::DuplicateEntry => {
            assert_eq!(e.message(), "duplicate entry")
        },
        _ => panic!("Expected the duplicate-entry error, got {result:?}"),
    }
}

#[test]
fn scenario_invalid_allowlist_pattern_is_io_error() {
    let zip_bytes =
        pack_entries(&vec![file_item("a.txt", b"hello")]).expect("Failed to zip directory");

    let result = extract_archive(zip_bytes, &strings(&["[invalid"]), &ZipEntryLimits::rust_env());
    assert!(matches!(result, Err(ArchiveError::Io)));
}

/// Adds one to the declared uncompressed size of every central-directory
/// header, so the header lies about the entry's size.
fn inflate_central_uncompressed_size(bytes: &mut Vec<u8>) {
    let mut i: usize = 0;
    while i + 28 <= bytes.len() {
        if bytes[i] == 0x50 && bytes[i + 1] == 0x4b && bytes[i + 2] == 0x01 && bytes[i + 3]
            == 0x02
        {
            let off = i + 24;
            let old = u32::from_le_bytes([
                bytes[off],
                bytes[off + 1],
                bytes[off + 2],
                bytes[off + 3],
            ]);
            let new = (old + 1).to_le_bytes();
            bytes[off] = new[0];
            bytes[off + 1] = new[1];
            bytes[off + 2] = new[2];
            bytes[off + 3] = new[3];
        }
        i += 1;
    }
}

#[test]
fn scenario_size_mismatch_rejected() {
    let mut bytes = Vec::new();
    {
        let cursor = std::io::Cursor::new(&mut bytes);
        let mut writer = ZipWriter::new(cursor);
        let options = SimpleFileOptions::default().compression_method(CompressionMethod::Stored);
        writer.start_file("a.txt", options).expect("start a.txt");
        writer.write_all(b"hello").expect("write a.txt");
        writer.finish().expect("finish zip");
    }
    inflate_central_uncompressed_size(&mut bytes);

    let result = extract_archive(bytes, &strings(&["a.txt"]), &ZipEntryLimits::rust_env());
    match result {
        Err(e) if e == ArchiveError::SizeMismatch => assert_eq!(e.message(), "size mismatch"),
        _ => panic!("Expected the size-mismatch error, got {result:?}"),
    }
}

#[test]
fn scenario_round_trip_reproduces_tree() {
    let zip_bytes = sample_archive();
    assert_eq!(expected_entry_count(&strings(&["a.txt", "dir1/b.txt"])), 3);

    let extracted = extract_archive(
        zip_bytes,
        &strings(&["a.txt", "dir1/b.txt"]),
        &ZipEntryLimits::rust_env(),
    )
    .expect("first extraction");

    let repacked = pack_entries(&extracted).expect("repack");
    let again = extract_archive(
        repacked,
        &strings(&["a.txt", "dir1/b.txt"]),
        &ZipEntryLimits::rust_env(),
    )
    .expect("second extraction");

    assert_eq!(extracted.len(), again.len());
    for e in &extracted {
        let other = find(&again, &e.path).expect("entry survives the round trip");
        assert_eq!(e.is_dir, other.is_dir);
        assert_eq!(e.data, other.data);
    }
}

#[test]
fn scenario_expected_entry_count_is_order_independent() {
    let a = expected_entry_count(&strings(&["a.txt", "dir1/b.txt"]));
    let b = expected_entry_count(&strings(&["dir1/b.txt", "a.txt"]));
    let c = expected_entry_count(&strings(&["dir1/b.txt", "a.txt", "dir1/b.txt"]));
    assert_eq!(a, b);
    assert_eq!(a, c);
    assert_eq!(a, expected_entry_count(&strings(&["a.txt", "dir1/b.txt"])));
}
