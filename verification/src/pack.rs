//! The packer: serializes a directory tree, handed over as plain entries,
//! into an archive with normalized forward-slash names.
//!
//! Directory entries get a trailing separator; every entry is written with
//! the packer's fixed policy: deflate and a fixed permission marker. The
//! crate is built without the zip crate's clock feature, so the bytes a
//! given entry run serializes to are a function of that run alone.

use vstd::prelude::*;

use crate::entry::ArchiveItem;
use crate::errors::ArchiveError;

verus! {

/// An archive being written into memory. Verus cannot take the writer's
/// type directly (its parameter is bound by std traits vstd does not
/// cover), so the writer lives behind this opaque struct; `writer_entries`
/// names what it holds.
#[verifier::external_body]
pub struct ArchiveWriter {
    inner: zip::ZipWriter<std::io::Cursor<Vec<u8>>>,
}

/// What a writer under construction holds: for each written entry its name,
/// whether it is a directory, the compression method code and unix
/// permissions it was written with, and its data so far.
pub uninterp spec fn writer_entries(w: ArchiveWriter) -> Seq<
    (Seq<char>, bool, u16, u32, Seq<u8>),
>;

/// The serialized archive a finished writer yields for a given entry run.
/// With the fixed default options and constant timestamps this depends on
/// the run alone.
pub uninterp spec fn zipped_of(entries: Seq<(Seq<char>, bool, u16, u32, Seq<u8>)>) -> Seq<u8>;

/// Whether the zip writer accepts this run of entries: writing exactly
/// these records from a fresh in-memory writer — one call per directory,
/// a start and one data write per file — and then finishing, all succeed.
/// A function of the run alone (the writer is in memory and the options
/// are fixed).
pub uninterp spec fn zip_write_ok(entries: Seq<(Seq<char>, bool, u16, u32, Seq<u8>)>) -> bool;

/// The compression method code every entry is packed with: deflate.
pub open spec fn pack_method_code() -> u16 {
    8
}

/// The unix permission marker every entry is packed with.
pub open spec fn pack_permissions() -> u32 {
    0o755
}

/// A directory entry's name in the archive: the name with a trailing
/// separator added if it has none.
pub open spec fn with_dir_slash(s: Seq<char>) -> Seq<char> {
    if s.len() > 0 && s.last() == '/' {
        s
    } else {
        s.push('/')
    }
}

/// The write calls one materialized entry turns into.
pub open spec fn pack_item_view(it: ArchiveItem) -> (Seq<char>, bool, u16, u32, Seq<u8>) {
    if it.is_dir {
        (
            with_dir_slash(crate::paths::slashed(it.path@)),
            true,
            pack_method_code(),
            pack_permissions(),
            Seq::empty(),
        )
    } else {
        (
            crate::paths::slashed(it.path@),
            false,
            pack_method_code(),
            pack_permissions(),
            it.data@,
        )
    }
}

/// The write calls a run of entries turns into, in order.
pub open spec fn pack_view(items: Seq<ArchiveItem>) -> Seq<(Seq<char>, bool, u16, u32, Seq<u8>)> {
    items.map_values(|it: ArchiveItem| pack_item_view(it))
}

/// Whether the zip writer accepts every step of packing these entries:
/// each prefix of the plan, each file's started (still empty) form, and
/// the finished whole. In practice this holds whenever the entry names are
/// distinct and of ordinary length; it is the packer's only outside
/// obligation.
pub open spec fn pack_writes_ok(items: Seq<ArchiveItem>) -> bool {
    &&& zip_write_ok(pack_view(items))
    &&& forall|k: int| 0 <= k < items.len() ==> zip_write_ok(#[trigger] pack_view(items.take(k + 1)))
    &&& forall|k: int|
        0 <= k < items.len() && !(#[trigger] items[k]).is_dir ==> zip_write_ok(
            pack_view(items.take(k)).push(
                (
                    crate::paths::slashed(items[k].path@),
                    false,
                    pack_method_code(),
                    pack_permissions(),
                    Seq::<u8>::empty(),
                ),
            ),
        )
}

/// Relies on `zip::ZipWriter::new` over an empty in-memory cursor: a fresh
/// writer holds no entries.
#[verifier::external_body]
fn writer_new() -> (w: ArchiveWriter)
    ensures
        writer_entries(w) == Seq::<(Seq<char>, bool, u16, u32, Seq<u8>)>::empty(),
{
    ArchiveWriter { inner: zip::ZipWriter::new(std::io::Cursor::new(Vec::new())) }
}

/// Relies on `zip::ZipWriter::add_directory` with default options plus the
/// given method code and unix permissions: it appends one directory entry
/// of that name. The run records the arguments as given; for directory
/// entries zip itself stores the entry uncompressed and adds the directory
/// bit to the permissions, deterministically.
#[verifier::external_body]
#[allow(deprecated)]
fn writer_add_directory(
    w: &mut ArchiveWriter,
    name: &String,
    method_code: u16,
    permissions: u32,
) -> (r: Result<(), ArchiveError>)
    ensures
        r is Ok ==> writer_entries(*final(w)) == writer_entries(*old(w)).push(
            (name@, true, method_code, permissions, Seq::<u8>::empty()),
        ),
        zip_write_ok(
            writer_entries(*old(w)).push(
                (name@, true, method_code, permissions, Seq::<u8>::empty()),
            ),
        ) ==> r is Ok,
        r matches Err(e) ==> e == ArchiveError::Io,
{
    let opts = zip::write::SimpleFileOptions::default().compression_method(
        zip::CompressionMethod::from_u16(method_code),
    ).unix_permissions(permissions);
    match w.inner.add_directory(name.as_str(), opts) {
        Ok(()) => Ok(()),
        Err(_) => Err(ArchiveError::Io),
    }
}

/// Relies on `zip::ZipWriter::start_file` with default options plus the
/// given method code and unix permissions: it appends one file entry of
/// that name, with no data yet.
#[verifier::external_body]
#[allow(deprecated)]
fn writer_start_file(
    w: &mut ArchiveWriter,
    name: &String,
    method_code: u16,
    permissions: u32,
) -> (r: Result<(), ArchiveError>)
    ensures
        r is Ok ==> writer_entries(*final(w)) == writer_entries(*old(w)).push(
            (name@, false, method_code, permissions, Seq::<u8>::empty()),
        ),
        zip_write_ok(
            writer_entries(*old(w)).push(
                (name@, false, method_code, permissions, Seq::<u8>::empty()),
            ),
        ) ==> r is Ok,
        r matches Err(e) ==> e == ArchiveError::Io,
{
    let opts = zip::write::SimpleFileOptions::default().compression_method(
        zip::CompressionMethod::from_u16(method_code),
    ).unix_permissions(permissions);
    match w.inner.start_file(name.as_str(), opts) {
        Ok(()) => Ok(()),
        Err(_) => Err(ArchiveError::Io),
    }
}

/// Relies on `std::io::Write::write_all` on the writer: it appends the
/// bytes to the file entry currently being written. An empty buffer is
/// written without touching the writer at all — std's `write_all` issues
/// no call for it — so it succeeds on any writer and changes nothing.
#[verifier::external_body]
fn writer_write_all(w: &mut ArchiveWriter, buf: &Vec<u8>) -> (r: Result<
    (),
    ArchiveError,
>)
    ensures
        buf@.len() == 0 ==> r is Ok && writer_entries(*final(w)) == writer_entries(*old(w)),
        r is Ok && buf@.len() > 0 ==> writer_entries(*old(w)).len() > 0 && !writer_entries(
            *old(w),
        ).last().1 && writer_entries(*final(w)) == writer_entries(*old(w)).drop_last().push(
            ({
                let e = writer_entries(*old(w)).last();
                (e.0, e.1, e.2, e.3, e.4 + buf@)
            }),
        ),
        (writer_entries(*old(w)).len() > 0 && !writer_entries(*old(w)).last().1 && zip_write_ok(
            writer_entries(*old(w)).drop_last().push(
                ({
                    let e = writer_entries(*old(w)).last();
                    (e.0, e.1, e.2, e.3, e.4 + buf@)
                }),
            ),
        )) ==> r is Ok,
        r matches Err(e) ==> e == ArchiveError::Io,
{
    match std::io::Write::write_all(&mut w.inner, buf.as_slice()) {
        Ok(()) => Ok(()),
        Err(_) => Err(ArchiveError::Io),
    }
}

/// Relies on `zip::ZipWriter::finish` and `Cursor::into_inner`: the final
/// archive bytes for the written entries. Built without the zip crate's
/// clock feature, the result is a function of those entries alone.
#[verifier::external_body]
fn writer_finish(w: ArchiveWriter) -> (r: Result<Vec<u8>, ArchiveError>)
    ensures
        r matches Ok(b) ==> b@ == zipped_of(writer_entries(w)),
        zip_write_ok(writer_entries(w)) ==> r is Ok,
        r matches Err(e) ==> e == ArchiveError::Io,
{
    match w.inner.finish() {
        Ok(c) => Ok(c.into_inner()),
        Err(_) => Err(ArchiveError::Io),
    }
}

/// The archive entry name a path is packed under: separators normalized to
/// forward slashes regardless of the host convention.
pub fn normalize_path(p: &str) -> (r: String)
    ensures
        r@ == crate::paths::slashed(p@),
{
    let chars = crate::paths::str_chars(p);
    let n = chars.len();
    let mut t: Vec<char> = Vec::new();
    let mut i: usize = 0;
    while i < n
        invariant
            n == chars@.len(),
            chars@ == p@,
            i <= n,
            t@ == chars@.take(i as int).map_values(|c: char| if c == '\\' { '/' } else { c }),
        decreases n - i,
    {
        let c = chars[i];
        if c == '\\' {
            t.push('/');
        } else {
            t.push(c);
        }
        proof {
            assert(chars@.take(i + 1) =~= chars@.take(i as int).push(chars@[i as int]));
            assert(chars@.take(i + 1).map_values(|c: char| if c == '\\' { '/' } else { c })
                =~= chars@.take(i as int).map_values(
                |c: char| if c == '\\' { '/' } else { c },
            ).push(if chars@[i as int] == '\\' { '/' } else { chars@[i as int] }));
        }
        i = i + 1;
    }
    proof {
        assert(chars@.take(n as int) =~= chars@);
        assert(t@ =~= crate::paths::slashed(p@));
    }
    crate::paths::chars_to_string(&t)
}

/// A directory's archive name: the normalized name with a trailing
/// separator added if it has none.
fn dir_entry_name(name: &String) -> (r: String)
    ensures
        r@ == with_dir_slash(name@),
{
    let n = name.as_str().unicode_len();
    if n > 0 && name.as_str().get_char(n - 1) == '/' {
        proof {
            assert(name@.last() == name@[n - 1]);
        }
        name.clone()
    } else {
        proof {
            if n > 0 {
                assert(name@.last() == name@[n - 1]);
            }
        }
        let mut chars = crate::paths::str_chars(name.as_str());
        chars.push('/');
        proof {
            assert(chars@ =~= name@.push('/'));
        }
        crate::paths::chars_to_string(&chars)
    }
}

/// Serializes the given entries into one archive: directory entries with a
/// trailing separator, every name in forward-slash form, everything written
/// with the packer's fixed method and permission marker. On success the
/// bytes are exactly the serialization of those write calls; and whenever
/// the writer accepts every step of the plan, the call succeeds.
pub fn pack_entries(items: &Vec<ArchiveItem>) -> (r: Result<Vec<u8>, ArchiveError>)
    ensures
        r matches Ok(b) ==> b@ == zipped_of(pack_view(items@)),
        pack_writes_ok(items@) ==> r is Ok,
        r matches Err(e) ==> e == ArchiveError::Io,
{
    let mut w = writer_new();
    let n = items.len();
    let mut i: usize = 0;
    proof {
        assert(pack_view(items@.take(0)) =~= writer_entries(w));
    }
    while i < n
        invariant
            n == items@.len(),
            i <= n,
            writer_entries(w) == pack_view(items@.take(i as int)),
        decreases n - i,
    {
        let it = &items[i];
        let ghost pre = writer_entries(w);
        let normalized = normalize_path(it.path.as_str());
        proof {
            assert(items@.take(i + 1).drop_last() =~= items@.take(i as int));
            assert(pack_view(items@.take(i + 1)) =~= pack_view(items@.take(i as int)).push(
                pack_item_view(items@[i as int]),
            ));
        }
        if it.is_dir {
            let dname = dir_entry_name(&normalized);
            match writer_add_directory(&mut w, &dname, 8, 0o755) {
                Ok(()) => {},
                Err(e) => {
                    proof {
                        if pack_writes_ok(items@) {
                            assert(zip_write_ok(pack_view(items@.take(i + 1))));
                            assert(pre.push(
                                (dname@, true, 8u16, 0o755u32, Seq::<u8>::empty()),
                            ) =~= pack_view(items@.take(i + 1)));
                        }
                    }
                    return Err(e);
                },
            }
        } else {
            match writer_start_file(&mut w, &normalized, 8, 0o755) {
                Ok(()) => {},
                Err(e) => {
                    proof {
                        if pack_writes_ok(items@) {
                            assert(!items@[i as int].is_dir);
                            assert(zip_write_ok(
                                pack_view(items@.take(i as int)).push(
                                    (
                                        crate::paths::slashed(items@[i as int].path@),
                                        false,
                                        pack_method_code(),
                                        pack_permissions(),
                                        Seq::<u8>::empty(),
                                    ),
                                ),
                            ));
                            assert(pre.push(
                                (normalized@, false, 8u16, 0o755u32, Seq::<u8>::empty()),
                            ) =~= pack_view(items@.take(i as int)).push(
                                (
                                    crate::paths::slashed(items@[i as int].path@),
                                    false,
                                    pack_method_code(),
                                    pack_permissions(),
                                    Seq::<u8>::empty(),
                                ),
                            ));
                        }
                    }
                    return Err(e);
                },
            }
            let ghost mid = writer_entries(w);
            proof {
                assert(mid.drop_last() =~= pre);
                assert(Seq::<u8>::empty() + it.data@ =~= it.data@);
                assert(mid.drop_last().push(
                    ({
                        let e = mid.last();
                        (e.0, e.1, e.2, e.3, e.4 + it.data@)
                    }),
                ) =~= pack_view(items@.take(i + 1)));
            }
            match writer_write_all(&mut w, &it.data) {
                Ok(()) => {
                    proof {
                        if it.data@.len() == 0 {
                            assert(writer_entries(w) =~= pack_view(items@.take(i + 1)));
                        }
                    }
                },
                Err(e) => {
                    proof {
                        assert(it.data@.len() > 0);
                        if pack_writes_ok(items@) {
                            assert(zip_write_ok(pack_view(items@.take(i + 1))));
                        }
                    }
                    return Err(e);
                },
            }
        }
        proof {
            assert(writer_entries(w) =~= pack_view(items@.take(i + 1)));
        }
        i = i + 1;
    }
    proof {
        assert(items@.take(n as int) =~= items@);
    }
    let r = writer_finish(w);
    proof {
        if pack_writes_ok(items@) {
            assert(zip_write_ok(pack_view(items@)));
        }
    }
    r
}

} // verus!
