//! The extractor: validates an untrusted archive against an allow-list and
//! the size ceilings, and turns it into plain entries ready to materialize.
//!
//! The zip crate parses the container; every decision about an entry —
//! allow-listed or not, safe path or not, within ceilings or not — is made
//! here, on plain values, and an archive is accepted exactly when the spec
//! function `scan` accepts what the container holds.

use vstd::prelude::*;

use crate::entry::{item_view, items_view, meta_issue, size_check, validate_entry_metadata, validate_entry_size, ArchiveItem, EntryMeta};
use crate::errors::ArchiveError;
use crate::glob::{allow_match, glob_match, globset_patterns, is_glob_match};
use crate::limits::ZipEntryLimits;
use crate::paths::{expand_set_spec, is_dir_name, normalized_entry, vec_contains_string};
use crate::paths::expand_with_directories;
use crate::structure::{expected_count_spec, expected_entry_count};
use std::io::Read;

verus! {

#[verifier::external_type_specification]
#[verifier::external_body]
#[verifier::reject_recursive_types(R)]
pub struct ExZipArchive<R>(zip::ZipArchive<R>);

#[verifier::external_type_specification]
#[verifier::external_body]
#[verifier::reject_recursive_types(T)]
pub struct ExCursor<T>(std::io::Cursor<T>);

/// What an opened in-memory archive holds: for each raw entry, in archive
/// order, its metadata and its full decompressed data.
pub uninterp spec fn archive_entries(a: zip::ZipArchive<std::io::Cursor<Vec<u8>>>) -> Seq<
    (EntryMeta, Seq<u8>),
>;

/// What the given bytes parse to as an archive: the entry table the
/// container yields, or nothing when the container cannot be opened.
/// Parsing is a function of the bytes alone.
pub uninterp spec fn parsed_entries_of(bytes: Seq<u8>) -> Option<Seq<(EntryMeta, Seq<u8>)>>;

/// Whether every entry of the container these bytes hold can actually be
/// read: all metadata reads succeed, and the data of every unencrypted
/// entry with a supported method decompresses without error. A function of
/// the bytes alone.
pub uninterp spec fn source_reads_ok(bytes: Seq<u8>) -> bool;

/// The same readability fact, carried on the opened archive value: the
/// per-entry readers speak of the archive they are handed, the opener ties
/// it back to the source bytes.
pub uninterp spec fn archive_reads_ok(a: zip::ZipArchive<std::io::Cursor<Vec<u8>>>) -> bool;

/// Everything the allow-list expansion needs from the glob engine: every
/// expanded pattern is valid syntax and the whole list compiles into one
/// matcher.
pub open spec fn expansion_ok(ps: Seq<Seq<char>>) -> bool {
    &&& forall|j: int|
        0 <= j < crate::paths::expansion_list(ps).len() ==> crate::glob::glob_syntax_ok(
            #[trigger] crate::paths::expansion_list(ps)[j],
        )
    &&& crate::glob::globset_buildable(crate::paths::expansion_list(ps))
}

/// The whole extraction policy as one function: processes the entries in
/// archive order with the seen-path set and the size ledger as state, and
/// returns the materialized entries, or the first violation.
pub open spec fn scan(
    entries: Seq<(EntryMeta, Seq<u8>)>,
    allowed: Set<Seq<char>>,
    lim: ZipEntryLimits,
    seen: Set<Seq<char>>,
    total: u64,
) -> Result<Seq<(Seq<char>, bool, Seq<u8>)>, ArchiveError>
    decreases entries.len(),
{
    if entries.len() == 0 {
        Ok(Seq::empty())
    } else {
        let m = entries[0].0;
        let data = entries[0].1;
        match meta_issue(m) {
            Some(e) => Err(e),
            None => {
                let path = normalized_entry(m.name@);
                if seen.contains(path) {
                    Err(ArchiveError::DuplicateEntry)
                } else if !allow_match(allowed, path) {
                    Err(ArchiveError::UnexpectedContent)
                } else if is_dir_name(m.name@) {
                    match scan(entries.drop_first(), allowed, lim, seen.insert(path), total) {
                        Ok(rest) => Ok(seq![(path, true, Seq::<u8>::empty())] + rest),
                        Err(e) => Err(e),
                    }
                } else {
                    match size_check(m, total, lim) {
                        Err(e) => Err(e),
                        Ok(nt) => {
                            if data.len() < m.size {
                                Err(ArchiveError::SizeMismatch)
                            } else {
                                match scan(
                                    entries.drop_first(),
                                    allowed,
                                    lim,
                                    seen.insert(path),
                                    nt,
                                ) {
                                    Ok(rest) => Ok(
                                        seq![(path, false, data.take(m.size as int))] + rest,
                                    ),
                                    Err(e) => Err(e),
                                }
                            }
                        },
                    }
                }
            },
        }
    }
}

/// How a partial extraction relates to the whole: what the full scan yields
/// is the part already materialized followed by what the rest yields, and a
/// failure of the rest is a failure of the whole.
pub open spec fn scan_continues(
    full: Result<Seq<(Seq<char>, bool, Seq<u8>)>, ArchiveError>,
    partial: Seq<(Seq<char>, bool, Seq<u8>)>,
    suffix: Result<Seq<(Seq<char>, bool, Seq<u8>)>, ArchiveError>,
) -> bool {
    match suffix {
        Ok(rest) => full == Ok::<_, ArchiveError>(partial + rest),
        Err(e) => full == Err::<Seq<(Seq<char>, bool, Seq<u8>)>, _>(e),
    }
}

/// Relies on `zip::ZipArchive::new`: it reads the central directory of the
/// in-memory archive, succeeding exactly when the bytes parse, and the
/// opened archive holds exactly what the bytes parse to; failure means the
/// container cannot be parsed.
#[verifier::external_body]
pub(crate) fn open_archive(zip_data: Vec<u8>) -> (r: Result<
    zip::ZipArchive<std::io::Cursor<Vec<u8>>>,
    ArchiveError,
>)
    ensures
        r is Ok <==> parsed_entries_of(zip_data@) is Some,
        r matches Ok(a) ==> archive_entries(a) == parsed_entries_of(zip_data@).unwrap(),
        r matches Ok(a) ==> (archive_reads_ok(a) <==> source_reads_ok(zip_data@)),
        r matches Err(e) ==> e == ArchiveError::MalformedContainer,
{
    match zip::ZipArchive::new(std::io::Cursor::new(zip_data)) {
        Ok(a) => Ok(a),
        Err(_) => Err(ArchiveError::MalformedContainer),
    }
}

/// Relies on `zip::ZipArchive::len`: the number of raw entries.
#[verifier::external_body]
fn archive_len(a: &zip::ZipArchive<std::io::Cursor<Vec<u8>>>) -> (n: usize)
    ensures
        n == archive_entries(*a).len(),
{
    a.len()
}

/// Relies on `zip::ZipArchive::by_index_raw` and the entry's metadata
/// accessors (`name`, `encrypted`, `is_symlink`, `compression`, `size`,
/// `compressed_size`): the metadata of entry `i`, read without
/// decompressing or decrypting anything. Reading moves the underlying
/// cursor but never changes the entry table.
#[verifier::external_body]
#[allow(deprecated)]
fn entry_meta_at(a: &mut zip::ZipArchive<std::io::Cursor<Vec<u8>>>, i: usize) -> (r: Result<
    EntryMeta,
    ArchiveError,
>)
    requires
        i < archive_entries(*old(a)).len(),
    ensures
        archive_entries(*final(a)) == archive_entries(*old(a)),
        archive_reads_ok(*final(a)) == archive_reads_ok(*old(a)),
        r matches Ok(m) ==> m == archive_entries(*old(a))[i as int].0,
        archive_reads_ok(*old(a)) ==> r is Ok,
        r matches Err(e) ==> e == ArchiveError::Io,
{
    match a.by_index_raw(i) {
        Ok(f) => Ok(
            EntryMeta {
                name: f.name().to_owned(),
                encrypted: f.encrypted(),
                symlink: f.is_symlink(),
                method_code: f.compression().to_u16(),
                size: f.size(),
                compressed_size: f.compressed_size(),
            },
        ),
        Err(_) => Err(ArchiveError::Io),
    }
}

/// Relies on `zip::ZipArchive::by_index` and std's `Read::take` with
/// `read_to_end`: the decompressed bytes of entry `i`, at most `limit` of
/// them. Reading moves the cursor but never changes the entry table.
#[verifier::external_body]
fn entry_data_at(a: &mut zip::ZipArchive<std::io::Cursor<Vec<u8>>>, i: usize, limit: u64) -> (r:
    Result<Vec<u8>, ArchiveError>)
    requires
        i < archive_entries(*old(a)).len(),
    ensures
        archive_entries(*final(a)) == archive_entries(*old(a)),
        archive_reads_ok(*final(a)) == archive_reads_ok(*old(a)),
        (archive_reads_ok(*old(a)) && !archive_entries(*old(a))[i as int].0.encrypted
            && crate::entry::method_supported(archive_entries(*old(a))[i as int].0.method_code))
            ==> r is Ok,
        r matches Ok(d) ==> d@ == ({
            let full = archive_entries(*old(a))[i as int].1;
            if limit <= full.len() {
                full.take(limit as int)
            } else {
                full
            }
        }),
        r matches Err(e) ==> e == ArchiveError::Io,
{
    match a.by_index(i) {
        Ok(f) => {
            let mut buf: Vec<u8> = Vec::new();
            match f.take(limit).read_to_end(&mut buf) {
                Ok(_) => Ok(buf),
                Err(_) => Err(ArchiveError::Io),
            }
        },
        Err(_) => Err(ArchiveError::Io),
    }
}

/// Whether the declared name marks a directory entry.
fn name_is_dir(name: &String) -> (r: bool)
    ensures
        r == is_dir_name(name@),
{
    let n = name.as_str().unicode_len();
    if n == 0 {
        false
    } else {
        let c = name.as_str().get_char(n - 1);
        proof {
            assert(name@.last() == name@[n - 1]);
        }
        c == '/' || c == '\\'
    }
}

/// Rejects a normalized path that was already accepted in this extraction
/// or that matches no allow-list pattern; otherwise registers it as seen.
pub fn validate_and_register_entry(
    entry_path: &String,
    expected_globset: &globset::GlobSet,
    seen_paths: &mut Vec<String>,
) -> (r: Result<(), ArchiveError>)
    ensures
        r is Ok <==> (!old(seen_paths).deep_view().to_set().contains(entry_path@) && allow_match(
            globset_patterns(*expected_globset).to_set(),
            entry_path@,
        )),
        r matches Err(e) ==> e == (if old(seen_paths).deep_view().to_set().contains(entry_path@) {
            ArchiveError::DuplicateEntry
        } else {
            ArchiveError::UnexpectedContent
        }),
        r is Err ==> final(seen_paths).deep_view() == old(seen_paths).deep_view(),
        r is Ok ==> final(seen_paths).deep_view() == old(seen_paths).deep_view().push(entry_path@),
{
    let ghost pats = globset_patterns(*expected_globset);
    if vec_contains_string(seen_paths, entry_path) {
        return Err(ArchiveError::DuplicateEntry);
    }
    match is_glob_match(expected_globset, entry_path.as_str()) {
        Ok(_) => {
            proof {
                let j = choose|j: int|
                    0 <= j < pats.len() && glob_match(#[trigger] pats[j], entry_path@);
                assert(pats.contains(pats[j]));
                assert(pats.to_set().contains(pats[j]));
                assert(allow_match(pats.to_set(), entry_path@));
            }
        },
        Err(_) => {
            proof {
                if allow_match(pats.to_set(), entry_path@) {
                    let p = choose|p: Seq<char>|
                        #[trigger] pats.to_set().contains(p) && glob_match(p, entry_path@);
                    assert(pats.contains(p));
                    let j = choose|j: int| 0 <= j < pats.len() && pats[j] == p;
                    assert(glob_match(pats[j], entry_path@));
                }
            }
            return Err(ArchiveError::UnexpectedContent);
        },
    }
    let ghost old_deep = seen_paths.deep_view();
    seen_paths.push(entry_path.clone());
    proof {
        assert(seen_paths.deep_view() =~= old_deep.push(entry_path@));
    }
    Ok(())
}

/// Validates the archive's shape against the allow-list and materializes
/// every entry, first violation first. The entry count must equal the
/// allow-list's expanded cardinality before any per-entry work; on success
/// the result is exactly what `scan` accepts of the archive's contents.
pub fn extract_from_archive(
    archive: &mut zip::ZipArchive<std::io::Cursor<Vec<u8>>>,
    expected_files: &Vec<String>,
    limits: &ZipEntryLimits,
) -> (r: Result<Vec<ArchiveItem>, ArchiveError>)
    ensures
        r == Err::<Vec<ArchiveItem>, _>(ArchiveError::StructureMismatch) <==> archive_entries(
            *old(archive),
        ).len() != expected_count_spec(expected_files.deep_view()),
        r matches Ok(out) ==> scan(
            archive_entries(*old(archive)),
            expand_set_spec(expected_files.deep_view()),
            *limits,
            Set::empty(),
            0,
        ) == Ok::<_, ArchiveError>(items_view(out@)),
        scan(
            archive_entries(*old(archive)),
            expand_set_spec(expected_files.deep_view()),
            *limits,
            Set::empty(),
            0,
        ) is Err ==> r is Err,
        r matches Err(e) ==> (e != ArchiveError::StructureMismatch && e != ArchiveError::Io
            ==> scan(
            archive_entries(*old(archive)),
            expand_set_spec(expected_files.deep_view()),
            *limits,
            Set::empty(),
            0,
        ) == Err::<Seq<(Seq<char>, bool, Seq<u8>)>, _>(e)),
        (archive_reads_ok(*old(archive)) && expansion_ok(expected_files.deep_view())) ==> r
            != Err::<Vec<ArchiveItem>, ArchiveError>(ArchiveError::Io),
        (archive_reads_ok(*old(archive)) && expansion_ok(expected_files.deep_view())
            && archive_entries(*old(archive)).len() == expected_count_spec(
            expected_files.deep_view(),
        ) && scan(
            archive_entries(*old(archive)),
            expand_set_spec(expected_files.deep_view()),
            *limits,
            Set::empty(),
            0,
        ) is Ok) ==> r is Ok,
{
    let ghost entries0 = archive_entries(*old(archive));
    let ghost allowed = expand_set_spec(expected_files.deep_view());
    let ghost lim = *limits;
    let ghost scan0 = scan(entries0, allowed, lim, Set::empty(), 0);
    let n = archive_len(archive);
    let count = expected_entry_count(expected_files);
    if n != count {
        return Err(ArchiveError::StructureMismatch);
    }
    let expanded = expand_with_directories(expected_files);
    let ghost exp_deep = expanded.deep_view();
    let expected_globset = match crate::glob::build_globset(expanded) {
        Ok(g) => g,
        Err(_) => {
            proof {
                lemma_scan_no_structure_mismatch(entries0, allowed, lim, Set::empty(), 0);
                assert(exp_deep == crate::paths::expansion_list(expected_files.deep_view()));
                assert(!expansion_ok(expected_files.deep_view()));
            }
            return Err(ArchiveError::Io);
        },
    };
    proof {
        assert(globset_patterns(expected_globset) == exp_deep);
        assert(exp_deep.to_set() == allowed);
    }
    let mut seen_paths: Vec<String> = Vec::new();
    let mut total_uncompressed: u64 = 0;
    let mut out: Vec<ArchiveItem> = Vec::new();
    let mut i: usize = 0;
    proof {
        assert(entries0.skip(0) =~= entries0);
        assert(items_view(out@) =~= Seq::<(Seq<char>, bool, Seq<u8>)>::empty());
        assert(seen_paths.deep_view().to_set() =~= Set::<Seq<char>>::empty());
        if scan0 is Ok {
            assert(Seq::<(Seq<char>, bool, Seq<u8>)>::empty() + scan0.unwrap() =~= scan0.unwrap());
        }
    }
    while i < n
        invariant
            entries0 == archive_entries(*old(archive)),
            archive_entries(*archive) == entries0,
            archive_reads_ok(*archive) == archive_reads_ok(*old(archive)),
            allowed == expand_set_spec(expected_files.deep_view()),
            lim == *limits,
            scan0 == scan(entries0, allowed, lim, Set::empty(), 0),
            n == entries0.len(),
            entries0.len() == expected_count_spec(expected_files.deep_view()),
            i <= n,
            globset_patterns(expected_globset) == exp_deep,
            exp_deep.to_set() == allowed,
            scan_continues(
                scan0,
                items_view(out@),
                scan(
                    entries0.skip(i as int),
                    allowed,
                    lim,
                    seen_paths.deep_view().to_set(),
                    total_uncompressed,
                ),
            ),
        decreases n - i,
    {
        let ghost suffix = entries0.skip(i as int);
        let ghost seen0 = seen_paths.deep_view().to_set();
        let ghost total0 = total_uncompressed;
        proof {
            assert(suffix.len() == n - i);
            assert(suffix[0] == entries0[i as int]);
            assert(suffix.drop_first() =~= entries0.skip(i + 1));
        }
        let m = match entry_meta_at(archive, i) {
            Ok(m) => m,
            Err(e) => {
                proof {
                    assert(!archive_reads_ok(*old(archive)));
                }
                return Err(e);
            },
        };
        proof {
            assert(m == suffix[0].0);
        }
        let entry_path = match validate_entry_metadata(&m) {
            Ok(p) => p,
            Err(e) => {
                proof {
                    assert(scan(suffix, allowed, lim, seen0, total0) == Err::<
                        Seq<(Seq<char>, bool, Seq<u8>)>,
                        _,
                    >(e));
                    assert(e != ArchiveError::Io);
                }
                return Err(e);
            },
        };
        let ghost path = normalized_entry(m.name@);
        proof {
            assert(entry_path@ == path);
        }
        let ghost seen_pre = seen_paths.deep_view();
        match validate_and_register_entry(&entry_path, &expected_globset, &mut seen_paths) {
            Ok(()) => {},
            Err(e) => {
                proof {
                    assert(scan(suffix, allowed, lim, seen0, total0) == Err::<
                        Seq<(Seq<char>, bool, Seq<u8>)>,
                        _,
                    >(e));
                    assert(e != ArchiveError::Io);
                }
                return Err(e);
            },
        }
        proof {
            assert(!seen0.contains(path) && allow_match(allowed, path));
            assert(seen_paths.deep_view() == seen_pre.push(path));
            crate::paths::lemma_push_to_set(seen_pre, path);
            assert(seen_paths.deep_view().to_set() == seen0.insert(path));
        }
        let ghost scan_item: (Seq<char>, bool, Seq<u8>);
        let ghost pre_items = items_view(out@);
        let dir = name_is_dir(&m.name);
        if dir {
            proof {
                scan_item = (path, true, Seq::<u8>::empty());
            }
            out.push(ArchiveItem { path: entry_path, is_dir: true, data: Vec::new() });
            proof {
                assert(items_view(out@) =~= pre_items.push(scan_item)) by {
                    assert(out@.last().path@ == path);
                    assert(out@.last().is_dir == true);
                    assert(out@.last().data@ =~= Seq::<u8>::empty());
                    assert forall|t: int| 0 <= t < out@.len() - 1 implies items_view(out@)[t]
                        == pre_items[t] by {
                        assert(out@[t] == out@.drop_last()[t]);
                    }
                }
            }
        } else {
            total_uncompressed = match validate_entry_size(&m, total_uncompressed, limits) {
                Ok(t) => t,
                Err(e) => {
                    proof {
                        assert(size_check(m, total0, lim) == Err::<u64, _>(e));
                        assert(scan(suffix, allowed, lim, seen0, total0) == Err::<
                            Seq<(Seq<char>, bool, Seq<u8>)>,
                            _,
                        >(e));
                        assert(e != ArchiveError::Io);
                    }
                    return Err(e);
                },
            };
            proof {
                assert(size_check(m, total0, lim) == Ok::<_, ArchiveError>(total_uncompressed));
            }
            let data = match entry_data_at(archive, i, m.size) {
                Ok(d) => d,
                Err(e) => {
                    proof {
                        assert(meta_issue(m) is None);
                        assert(!m.encrypted && crate::entry::method_supported(m.method_code));
                        assert(!archive_reads_ok(*old(archive)));
                    }
                    return Err(e);
                },
            };
            if (data.len() as u64) != m.size {
                proof {
                    assert(suffix[0].1.len() < m.size);
                    assert(scan(suffix, allowed, lim, seen0, total0) == Err::<
                        Seq<(Seq<char>, bool, Seq<u8>)>,
                        _,
                    >(ArchiveError::SizeMismatch));
                }
                return Err(ArchiveError::SizeMismatch);
            }
            proof {
                assert(suffix[0].1.len() >= m.size);
                assert(data@ =~= suffix[0].1.take(m.size as int));
                scan_item = (path, false, suffix[0].1.take(m.size as int));
            }
            let ghost dview = data@;
            out.push(ArchiveItem { path: entry_path, is_dir: false, data });
            proof {
                assert(items_view(out@) =~= pre_items.push(scan_item)) by {
                    assert(out@.last().path@ == path);
                    assert(out@.last().is_dir == false);
                    assert(out@.last().data@ == dview);
                    assert forall|t: int| 0 <= t < out@.len() - 1 implies items_view(out@)[t]
                        == pre_items[t] by {
                        assert(out@[t] == out@.drop_last()[t]);
                    }
                }
            }
        }
        proof {
            let suffix2 = entries0.skip(i + 1);
            let seen2 = seen_paths.deep_view().to_set();
            let s2 = scan(suffix2, allowed, lim, seen2, total_uncompressed);
            assert(seen2 == seen0.insert(path));
            match s2 {
                Err(e) => {
                    assert(scan(suffix, allowed, lim, seen0, total0) == Err::<
                        Seq<(Seq<char>, bool, Seq<u8>)>,
                        _,
                    >(e));
                },
                Ok(rest) => {
                    assert(scan(suffix, allowed, lim, seen0, total0) == Ok::<_, ArchiveError>(
                        seq![scan_item] + rest,
                    ));
                    assert(scan_continues(scan0, pre_items, scan(suffix, allowed, lim, seen0,
                        total0)));
                    assert(scan0 == Ok::<_, ArchiveError>(pre_items + (seq![scan_item] + rest)));
                    assert(pre_items + (seq![scan_item] + rest) =~= items_view(out@) + rest);
                },
            }
        }
        i = i + 1;
    }
    proof {
        assert(entries0.skip(n as int) =~= Seq::<(EntryMeta, Seq<u8>)>::empty());
        assert(items_view(out@) + Seq::<(Seq<char>, bool, Seq<u8>)>::empty() =~= items_view(out@));
        lemma_scan_no_structure_mismatch(entries0, allowed, lim, Set::empty(), 0);
    }
    Ok(out)
}

/// The bytes extraction will write: the summed lengths of the file entries.
pub open spec fn sum_file_sizes(items: Seq<(Seq<char>, bool, Seq<u8>)>) -> int
    decreases items.len(),
{
    if items.len() == 0 {
        0
    } else {
        (if !items[0].1 {
            items[0].2.len() as int
        } else {
            0
        }) + sum_file_sizes(items.drop_first())
    }
}

/// Whether any entry of the run is a file.
pub open spec fn has_file(items: Seq<(Seq<char>, bool, Seq<u8>)>) -> bool {
    exists|k: int| 0 <= k < items.len() && !(#[trigger] items[k]).1
}

/// What acceptance guarantees of one entry: the facts that hold of a raw
/// entry and the item scan materialized for it, relative to the allow-list
/// and the paths seen before the whole run.
pub open spec fn accepted_entry_facts(
    m: EntryMeta,
    item: (Seq<char>, bool, Seq<u8>),
    allowed: Set<Seq<char>>,
    seen: Set<Seq<char>>,
    lim: ZipEntryLimits,
) -> bool {
    &&& item.0 == normalized_entry(m.name@)
    &&& item.1 == is_dir_name(m.name@)
    &&& crate::paths::safe_rel(item.0)
    &&& allow_match(allowed, item.0)
    &&& !seen.contains(item.0)
    &&& !m.encrypted
    &&& !m.symlink
    &&& crate::entry::method_supported(m.method_code)
    &&& crate::paths::entry_name_ok(m.name@)
    &&& (!item.1 ==> item.2.len() == m.size && m.size <= lim.max_file_uncompressed
        && m.compressed_size * lim.max_compression_ratio >= m.size)
}

/// Scan accepts one item per entry, and each accepted item satisfies the
/// per-entry facts.
proof fn lemma_scan_ok_entries(
    entries: Seq<(EntryMeta, Seq<u8>)>,
    allowed: Set<Seq<char>>,
    lim: ZipEntryLimits,
    seen: Set<Seq<char>>,
    total: u64,
)
    requires
        scan(entries, allowed, lim, seen, total) is Ok,
    ensures
        scan(entries, allowed, lim, seen, total).unwrap().len() == entries.len(),
        forall|k: int|
            0 <= k < entries.len() ==> accepted_entry_facts(
                entries[k].0,
                #[trigger] scan(entries, allowed, lim, seen, total).unwrap()[k],
                allowed,
                seen,
                lim,
            ),
    decreases entries.len(),
{
    let out = scan(entries, allowed, lim, seen, total).unwrap();
    if entries.len() == 0 {
    } else {
        let m = entries[0].0;
        let data = entries[0].1;
        let path = normalized_entry(m.name@);
        let rest_entries = entries.drop_first();
        crate::paths::lemma_segs_wf(crate::paths::slashed(m.name@));
        lemma_normalized_entry_safe(m.name@);
        let seen2 = seen.insert(path);
        let nt = if is_dir_name(m.name@) {
            total
        } else {
            (total + m.size) as u64
        };
        let head = if is_dir_name(m.name@) {
            (path, true, Seq::<u8>::empty())
        } else {
            (path, false, data.take(m.size as int))
        };
        let rest = scan(rest_entries, allowed, lim, seen2, nt).unwrap();
        lemma_scan_ok_entries(rest_entries, allowed, lim, seen2, nt);
        assert(out =~= seq![head] + rest);
        assert(accepted_entry_facts(m, out[0], allowed, seen, lim));
        assert forall|k: int| 0 <= k < entries.len() implies accepted_entry_facts(
            entries[k].0,
            #[trigger] out[k],
            allowed,
            seen,
            lim,
        ) by {
            if k > 0 {
                assert(out[k] == rest[k - 1]);
                assert(entries[k] == rest_entries[k - 1]);
                assert(accepted_entry_facts(rest_entries[k - 1].0, rest[k - 1], allowed, seen2,
                    lim));
            }
        }
    }
}

/// Scan's aggregates: the accepted paths are pairwise distinct, and the
/// accepted file bytes fit under the total ceiling.
proof fn lemma_scan_ok_aggregates(
    entries: Seq<(EntryMeta, Seq<u8>)>,
    allowed: Set<Seq<char>>,
    lim: ZipEntryLimits,
    seen: Set<Seq<char>>,
    total: u64,
)
    requires
        scan(entries, allowed, lim, seen, total) is Ok,
    ensures
        ({
            let out = scan(entries, allowed, lim, seen, total).unwrap();
            &&& forall|k1: int, k2: int|
                0 <= k1 < k2 < out.len() ==> (#[trigger] out[k1]).0 != (#[trigger] out[k2]).0
            &&& sum_file_sizes(out) >= 0
            &&& (has_file(out) ==> total + sum_file_sizes(out) <= lim.max_total_uncompressed)
        }),
    decreases entries.len(),
{
    let out = scan(entries, allowed, lim, seen, total).unwrap();
    if entries.len() == 0 {
    } else {
        let m = entries[0].0;
        let data = entries[0].1;
        let path = normalized_entry(m.name@);
        let rest_entries = entries.drop_first();
        let seen2 = seen.insert(path);
        if is_dir_name(m.name@) {
            let rest = scan(rest_entries, allowed, lim, seen2, total).unwrap();
            lemma_scan_ok_aggregates(rest_entries, allowed, lim, seen2, total);
            lemma_scan_ok_entries(rest_entries, allowed, lim, seen2, total);
            assert(out =~= seq![(path, true, Seq::<u8>::empty())] + rest);
            assert forall|k1: int, k2: int| 0 <= k1 < k2 < out.len() implies (
            #[trigger] out[k1]).0 != (#[trigger] out[k2]).0 by {
                if k1 == 0 {
                    assert(accepted_entry_facts(rest_entries[k2 - 1].0, rest[k2 - 1], allowed,
                        seen2, lim));
                    assert(!seen2.contains(rest[k2 - 1].0));
                } else {
                    assert(out[k1] == rest[k1 - 1] && out[k2] == rest[k2 - 1]);
                }
            }
            assert(out.drop_first() =~= rest);
            assert(sum_file_sizes(out) == sum_file_sizes(rest));
            if has_file(out) {
                let k = choose|k: int| 0 <= k < out.len() && !out[k].1;
                assert(!rest[k - 1].1);
                assert(has_file(rest));
            }
        } else {
            let nt = (total + m.size) as u64;
            let rest = scan(rest_entries, allowed, lim, seen2, nt).unwrap();
            lemma_scan_ok_aggregates(rest_entries, allowed, lim, seen2, nt);
            lemma_scan_ok_entries(rest_entries, allowed, lim, seen2, nt);
            assert(out =~= seq![(path, false, data.take(m.size as int))] + rest);
            assert forall|k1: int, k2: int| 0 <= k1 < k2 < out.len() implies (
            #[trigger] out[k1]).0 != (#[trigger] out[k2]).0 by {
                if k1 == 0 {
                    assert(accepted_entry_facts(rest_entries[k2 - 1].0, rest[k2 - 1], allowed,
                        seen2, lim));
                    assert(!seen2.contains(rest[k2 - 1].0));
                } else {
                    assert(out[k1] == rest[k1 - 1] && out[k2] == rest[k2 - 1]);
                }
            }
            assert(out.drop_first() =~= rest);
            assert(out[0].2.len() == m.size);
            assert(sum_file_sizes(out) == m.size + sum_file_sizes(rest));
            if has_file(rest) {
                assert(nt + sum_file_sizes(rest) <= lim.max_total_uncompressed);
            } else {
                assert forall|k: int| 0 <= k < rest.len() implies (#[trigger] rest[k]).1 by {
                    if !rest[k].1 {
                        assert(has_file(rest));
                    }
                }
                lemma_sum_file_sizes_all_dirs(rest);
            }
        }
    }
}

/// What an accepted archive is guaranteed to look like: one output per raw
/// entry; every path safe, allow-listed, and distinct; no encrypted or
/// symlink entry and no unsupported method anywhere; every file within the
/// per-file ceiling and the ratio defense, and all files together within
/// the total ceiling.
pub proof fn lemma_scan_ok_properties(
    entries: Seq<(EntryMeta, Seq<u8>)>,
    allowed: Set<Seq<char>>,
    lim: ZipEntryLimits,
    seen: Set<Seq<char>>,
    total: u64,
)
    requires
        scan(entries, allowed, lim, seen, total) is Ok,
    ensures
        ({
            let out = scan(entries, allowed, lim, seen, total).unwrap();
            &&& out.len() == entries.len()
            &&& forall|k: int|
                0 <= k < out.len() ==> {
                    &&& (#[trigger] out[k]).0 == normalized_entry(entries[k].0.name@)
                    &&& out[k].1 == is_dir_name(entries[k].0.name@)
                    &&& crate::paths::safe_rel(out[k].0)
                    &&& allow_match(allowed, out[k].0)
                    &&& !seen.contains(out[k].0)
                    &&& !entries[k].0.encrypted
                    &&& !entries[k].0.symlink
                    &&& crate::entry::method_supported(entries[k].0.method_code)
                    &&& crate::paths::entry_name_ok(entries[k].0.name@)
                    &&& (!out[k].1 ==> out[k].2.len() == entries[k].0.size && entries[k].0.size
                        <= lim.max_file_uncompressed && entries[k].0.compressed_size
                        * lim.max_compression_ratio >= entries[k].0.size)
                }
            &&& forall|k1: int, k2: int|
                0 <= k1 < k2 < out.len() ==> (#[trigger] out[k1]).0 != (#[trigger] out[k2]).0
            &&& sum_file_sizes(out) >= 0
            &&& (has_file(out) ==> total + sum_file_sizes(out) <= lim.max_total_uncompressed)
        }),
{
    let out = scan(entries, allowed, lim, seen, total).unwrap();
    lemma_scan_ok_entries(entries, allowed, lim, seen, total);
    lemma_scan_ok_aggregates(entries, allowed, lim, seen, total);
    assert forall|k: int| 0 <= k < out.len() implies {
        &&& (#[trigger] out[k]).0 == normalized_entry(entries[k].0.name@)
        &&& out[k].1 == is_dir_name(entries[k].0.name@)
        &&& crate::paths::safe_rel(out[k].0)
        &&& allow_match(allowed, out[k].0)
        &&& !seen.contains(out[k].0)
        &&& !entries[k].0.encrypted
        &&& !entries[k].0.symlink
        &&& crate::entry::method_supported(entries[k].0.method_code)
        &&& crate::paths::entry_name_ok(entries[k].0.name@)
        &&& (!out[k].1 ==> out[k].2.len() == entries[k].0.size && entries[k].0.size
            <= lim.max_file_uncompressed && entries[k].0.compressed_size
            * lim.max_compression_ratio >= entries[k].0.size)
    } by {
        assert(accepted_entry_facts(entries[k].0, out[k], allowed, seen, lim));
    }
}

/// A run with no file entries writes no bytes.
proof fn lemma_sum_file_sizes_all_dirs(items: Seq<(Seq<char>, bool, Seq<u8>)>)
    requires
        forall|k: int| 0 <= k < items.len() ==> (#[trigger] items[k]).1,
    ensures
        sum_file_sizes(items) == 0,
    decreases items.len(),
{
    if items.len() > 0 {
        lemma_sum_file_sizes_all_dirs(items.drop_first());
    }
}

/// The bytes an archive declares it will expand to: the summed declared
/// uncompressed sizes of its file entries.
pub open spec fn declared_file_total(entries: Seq<(EntryMeta, Seq<u8>)>) -> int
    decreases entries.len(),
{
    if entries.len() == 0 {
        0
    } else {
        (if !is_dir_name(entries[0].0.name@) {
            entries[0].0.size as int
        } else {
            0
        }) + declared_file_total(entries.drop_first())
    }
}

/// What an accepted archive writes is what it declared: the summed bytes
/// of the materialized files equal the summed declared sizes of the
/// archive's file entries.
pub proof fn lemma_scan_sum_declared(
    entries: Seq<(EntryMeta, Seq<u8>)>,
    allowed: Set<Seq<char>>,
    lim: ZipEntryLimits,
    seen: Set<Seq<char>>,
    total: u64,
)
    requires
        scan(entries, allowed, lim, seen, total) is Ok,
    ensures
        sum_file_sizes(scan(entries, allowed, lim, seen, total).unwrap()) == declared_file_total(
            entries,
        ),
    decreases entries.len(),
{
    let out = scan(entries, allowed, lim, seen, total).unwrap();
    if entries.len() == 0 {
    } else {
        let m = entries[0].0;
        let data = entries[0].1;
        let path = normalized_entry(m.name@);
        let rest_entries = entries.drop_first();
        if is_dir_name(m.name@) {
            let rest = scan(rest_entries, allowed, lim, seen.insert(path), total).unwrap();
            lemma_scan_sum_declared(rest_entries, allowed, lim, seen.insert(path), total);
            assert(out =~= seq![(path, true, Seq::<u8>::empty())] + rest);
            assert(out.drop_first() =~= rest);
            assert(sum_file_sizes(out) == sum_file_sizes(rest));
            assert(declared_file_total(entries) == declared_file_total(rest_entries));
        } else {
            let nt = (total + m.size) as u64;
            let rest = scan(rest_entries, allowed, lim, seen.insert(path), nt).unwrap();
            lemma_scan_sum_declared(rest_entries, allowed, lim, seen.insert(path), nt);
            assert(out =~= seq![(path, false, data.take(m.size as int))] + rest);
            assert(out.drop_first() =~= rest);
            assert(out[0].2.len() == m.size);
            assert(sum_file_sizes(out) == m.size + sum_file_sizes(rest));
            assert(declared_file_total(entries) == m.size + declared_file_total(rest_entries));
        }
    }
}

/// A safe entry name normalizes to a safe relative path.
proof fn lemma_normalized_entry_safe(name: Seq<char>)
    requires
        crate::paths::entry_name_ok(name),
    ensures
        crate::paths::safe_rel(normalized_entry(name)),
{
    let parts = crate::paths::segs(crate::paths::slashed(name));
    crate::paths::lemma_segs_wf(crate::paths::slashed(name));
    let cleaned = crate::paths::clean_segs(parts).unwrap();
    lemma_clean_segs_safe(parts);
    crate::paths::lemma_join_segs_roundtrip(cleaned);
    if cleaned.len() > 0 {
        crate::paths::lemma_seg_join_first(cleaned);
        assert(cleaned[0][0] != '/') by {
            if cleaned[0][0] == '/' {
                assert(cleaned[0].contains('/'));
            }
        }
    }
}

/// Cleaning produces well-formed segments, none of them `.` or `..`.
proof fn lemma_clean_segs_safe(parts: Seq<Seq<char>>)
    requires
        crate::paths::wf_segs(parts),
        crate::paths::clean_segs(parts) is Some,
    ensures
        ({
            let cleaned = crate::paths::clean_segs(parts).unwrap();
            &&& crate::paths::wf_segs(cleaned)
            &&& forall|k: int|
                0 <= k < cleaned.len() ==> (#[trigger] cleaned[k]) != seq!['.', '.'] && cleaned[k]
                    != seq!['.']
        }),
    decreases parts.len(),
{
    if parts.len() > 0 {
        let dl = parts.drop_last();
        assert(crate::paths::wf_segs(dl));
        lemma_clean_segs_safe(dl);
        let v = crate::paths::clean_segs(dl).unwrap();
        let last = parts.last();
        assert(last == parts[parts.len() - 1]);
        if last == seq!['.'] {
        } else if last == seq!['.', '.'] {
        } else {
            let cleaned = crate::paths::clean_segs(parts).unwrap();
            assert(cleaned =~= v.push(last));
        }
    }
}

/// Opens an in-memory archive and extracts it against the allow-list and
/// ceilings. The container error comes exactly when the bytes do not parse;
/// the structural error exactly when the parsed entry count disagrees with
/// the allow-list; a policy, containment or resource error exactly as
/// `scan` finds it in the parsed entries; and with a readable, compilable
/// input the call succeeds exactly when `scan` accepts. On success the
/// result holds one entry per raw archive entry, every one with a safe,
/// distinct, allow-listed relative path, every file within the per-file
/// ceiling and all files together within the total ceiling.
pub fn extract_archive(zip_data: Vec<u8>, expected_files: &Vec<String>, limits: &ZipEntryLimits)
    -> (r: Result<Vec<ArchiveItem>, ArchiveError>)
    ensures
        r == Err::<Vec<ArchiveItem>, ArchiveError>(ArchiveError::MalformedContainer)
            <==> parsed_entries_of(zip_data@) is None,
        parsed_entries_of(zip_data@) matches Some(entries) ==> {
            &&& (r == Err::<Vec<ArchiveItem>, ArchiveError>(ArchiveError::StructureMismatch)
                <==> entries.len() != expected_count_spec(expected_files.deep_view()))
            &&& (r matches Ok(out) ==> scan(
                entries,
                expand_set_spec(expected_files.deep_view()),
                *limits,
                Set::empty(),
                0,
            ) == Ok::<_, ArchiveError>(items_view(out@)))
            &&& (scan(
                entries,
                expand_set_spec(expected_files.deep_view()),
                *limits,
                Set::empty(),
                0,
            ) is Err ==> r is Err)
            &&& (r matches Err(e) ==> (e != ArchiveError::StructureMismatch && e
                != ArchiveError::Io && e != ArchiveError::MalformedContainer ==> scan(
                entries,
                expand_set_spec(expected_files.deep_view()),
                *limits,
                Set::empty(),
                0,
            ) == Err::<Seq<(Seq<char>, bool, Seq<u8>)>, _>(e)))
            &&& ((source_reads_ok(zip_data@) && expansion_ok(expected_files.deep_view())
                && entries.len() == expected_count_spec(expected_files.deep_view()) && scan(
                entries,
                expand_set_spec(expected_files.deep_view()),
                *limits,
                Set::empty(),
                0,
            ) is Ok) ==> r is Ok)
        },
        r matches Ok(out) ==> {
            &&& out@.len() == expected_count_spec(expected_files.deep_view())
            &&& forall|k: int|
                0 <= k < out@.len() ==> {
                    &&& crate::paths::safe_rel((#[trigger] out@[k]).path@)
                    &&& allow_match(
                        expand_set_spec(expected_files.deep_view()),
                        out@[k].path@,
                    )
                    &&& (!out@[k].is_dir ==> out@[k].data@.len()
                        <= limits.max_file_uncompressed)
                }
            &&& forall|k1: int, k2: int|
                0 <= k1 < k2 < out@.len() ==> (#[trigger] out@[k1]).path@ != (
                #[trigger] out@[k2]).path@
            &&& sum_file_sizes(items_view(out@)) <= limits.max_total_uncompressed
        },
{
    let ghost bytes = zip_data@;
    let mut archive = match open_archive(zip_data) {
        Ok(a) => a,
        Err(e) => {
            return Err(e);
        },
    };
    let ghost entries0 = archive_entries(archive);
    let ghost allowed = expand_set_spec(expected_files.deep_view());
    proof {
        assert(parsed_entries_of(bytes) is Some);
        assert(entries0 == parsed_entries_of(bytes).unwrap());
    }
    let r = extract_from_archive(&mut archive, expected_files, limits);
    proof {
        lemma_scan_no_structure_mismatch(entries0, allowed, *limits, Set::empty(), 0);
        if r == Err::<Vec<ArchiveItem>, ArchiveError>(ArchiveError::MalformedContainer) {
            assert(scan(entries0, allowed, *limits, Set::empty(), 0) == Err::<
                Seq<(Seq<char>, bool, Seq<u8>)>,
                _,
            >(ArchiveError::MalformedContainer));
        }
    }
    match r {
        Ok(out) => {
            proof {
                lemma_scan_ok_properties(entries0, allowed, *limits, Set::empty(), 0);
                let items = scan(entries0, allowed, *limits, Set::empty(), 0).unwrap();
                assert(items == items_view(out@));
                assert(items_view(out@).len() == out@.len());
                assert forall|k: int| 0 <= k < out@.len() implies {
                    &&& crate::paths::safe_rel((#[trigger] out@[k]).path@)
                    &&& allow_match(allowed, out@[k].path@)
                    &&& (!out@[k].is_dir ==> out@[k].data@.len() <= limits.max_file_uncompressed)
                } by {
                    assert(items[k] == item_view(out@[k]));
                    if !out@[k].is_dir {
                        assert(items[k].2.len() <= limits.max_file_uncompressed);
                    }
                }
                assert forall|k1: int, k2: int| 0 <= k1 < k2 < out@.len() implies (
                #[trigger] out@[k1]).path@ != (#[trigger] out@[k2]).path@ by {
                    assert(items[k1].0 == out@[k1].path@);
                    assert(items[k2].0 == out@[k2].path@);
                }
                if has_file(items) {
                } else {
                    lemma_sum_file_sizes_all_dirs(items);
                }
            }
            Ok(out)
        },
        Err(e) => Err(e),
    }
}

/// No archive holding an encrypted entry, a symlink entry, an unsupported
/// compression method, or an unsafe entry name is ever accepted, wherever in
/// the archive that entry sits.
pub proof fn lemma_policy_entry_rejected(
    entries: Seq<(EntryMeta, Seq<u8>)>,
    allowed: Set<Seq<char>>,
    lim: ZipEntryLimits,
    k: int,
)
    requires
        0 <= k < entries.len(),
        entries[k].0.encrypted || entries[k].0.symlink || !crate::entry::method_supported(
            entries[k].0.method_code,
        ) || !crate::paths::entry_name_ok(entries[k].0.name@),
    ensures
        scan(entries, allowed, lim, Set::empty(), 0) is Err,
{
    if scan(entries, allowed, lim, Set::empty(), 0) is Ok {
        lemma_scan_ok_properties(entries, allowed, lim, Set::empty(), 0);
        let out = scan(entries, allowed, lim, Set::empty(), 0).unwrap();
        assert(out[k].0 == normalized_entry(entries[k].0.name@));
    }
}

/// No archive entry whose declared path is absolute or would climb above
/// its root is ever accepted, wherever in the archive it sits.
pub proof fn lemma_traversal_entry_rejected(
    entries: Seq<(EntryMeta, Seq<u8>)>,
    allowed: Set<Seq<char>>,
    lim: ZipEntryLimits,
    k: int,
)
    requires
        0 <= k < entries.len(),
        ({
            let name = entries[k].0.name@;
            (name.len() > 0 && (name[0] == '/' || name[0] == '\\')) || crate::paths::clean_segs(
                crate::paths::segs(crate::paths::slashed(name)),
            ) is None
        }),
    ensures
        scan(entries, allowed, lim, Set::empty(), 0) is Err,
{
    assert(!crate::paths::entry_name_ok(entries[k].0.name@));
    lemma_policy_entry_rejected(entries, allowed, lim, k);
}

/// No archive holding a file entry over the per-file ceiling, or one whose
/// compressed size is implausibly small for its declared size, is ever
/// accepted.
pub proof fn lemma_resource_entry_rejected(
    entries: Seq<(EntryMeta, Seq<u8>)>,
    allowed: Set<Seq<char>>,
    lim: ZipEntryLimits,
    k: int,
)
    requires
        0 <= k < entries.len(),
        !is_dir_name(entries[k].0.name@),
        entries[k].0.size > lim.max_file_uncompressed || entries[k].0.compressed_size
            * lim.max_compression_ratio < entries[k].0.size,
    ensures
        scan(entries, allowed, lim, Set::empty(), 0) is Err,
{
    if scan(entries, allowed, lim, Set::empty(), 0) is Ok {
        lemma_scan_ok_properties(entries, allowed, lim, Set::empty(), 0);
        let out = scan(entries, allowed, lim, Set::empty(), 0).unwrap();
        assert(out[k].1 == is_dir_name(entries[k].0.name@));
    }
}

/// An archive with no file entries declares no bytes.
proof fn lemma_declared_total_all_dirs(entries: Seq<(EntryMeta, Seq<u8>)>)
    requires
        forall|k: int| 0 <= k < entries.len() ==> is_dir_name((#[trigger] entries[k]).0.name@),
    ensures
        declared_file_total(entries) == 0,
    decreases entries.len(),
{
    if entries.len() > 0 {
        assert(forall|k: int|
            0 <= k < entries.drop_first().len() ==> is_dir_name(
                (#[trigger] entries.drop_first()[k]).0.name@,
            ));
        lemma_declared_total_all_dirs(entries.drop_first());
    }
}

/// No archive whose file entries together declare more than the total
/// ceiling is ever accepted.
pub proof fn lemma_total_ceiling_rejected(
    entries: Seq<(EntryMeta, Seq<u8>)>,
    allowed: Set<Seq<char>>,
    lim: ZipEntryLimits,
)
    requires
        declared_file_total(entries) > lim.max_total_uncompressed,
    ensures
        scan(entries, allowed, lim, Set::empty(), 0) is Err,
{
    if scan(entries, allowed, lim, Set::empty(), 0) is Ok {
        lemma_scan_ok_properties(entries, allowed, lim, Set::empty(), 0);
        lemma_scan_sum_declared(entries, allowed, lim, Set::empty(), 0);
        let out = scan(entries, allowed, lim, Set::empty(), 0).unwrap();
        if !has_file(out) {
            assert forall|k: int| 0 <= k < entries.len() implies is_dir_name(
                (#[trigger] entries[k]).0.name@,
            ) by {
                assert(out[k].1 == is_dir_name(entries[k].0.name@));
                if !out[k].1 {
                    assert(has_file(out));
                }
            }
            lemma_declared_total_all_dirs(entries);
        }
    }
}

/// `scan` never reports a structural mismatch or an I/O failure: those come
/// only from the archive's shape check and the container itself.
pub proof fn lemma_scan_no_structure_mismatch(
    entries: Seq<(EntryMeta, Seq<u8>)>,
    allowed: Set<Seq<char>>,
    lim: ZipEntryLimits,
    seen: Set<Seq<char>>,
    total: u64,
)
    ensures
        scan(entries, allowed, lim, seen, total) != Err::<Seq<(Seq<char>, bool, Seq<u8>)>, _>(
            ArchiveError::StructureMismatch,
        ),
        scan(entries, allowed, lim, seen, total) != Err::<Seq<(Seq<char>, bool, Seq<u8>)>, _>(
            ArchiveError::Io,
        ),
        scan(entries, allowed, lim, seen, total) != Err::<Seq<(Seq<char>, bool, Seq<u8>)>, _>(
            ArchiveError::MalformedContainer,
        ),
    decreases entries.len(),
{
    if entries.len() > 0 {
        let m = entries[0].0;
        if meta_issue(m) is None {
            let path = normalized_entry(m.name@);
            if !seen.contains(path) && allow_match(allowed, path) {
                if is_dir_name(m.name@) {
                    lemma_scan_no_structure_mismatch(
                        entries.drop_first(),
                        allowed,
                        lim,
                        seen.insert(path),
                        total,
                    );
                } else {
                    match size_check(m, total, lim) {
                        Err(_) => {},
                        Ok(nt) => {
                            lemma_scan_no_structure_mismatch(
                                entries.drop_first(),
                                allowed,
                                lim,
                                seen.insert(path),
                                nt,
                            );
                        },
                    }
                }
            }
        }
    }
}

} // verus!
