//! Trusted boundary to the zip crate, over in-memory cursors, and to std's
//! UTF-8 check. Each item's contract states only what the called code's
//! source or documentation shows.

use vstd::prelude::*;

use std::io::Read;
use std::io::Write;

use crate::entries::EpubError;
use crate::entries::RawEntry;

verus! {

#[verifier::external_type_specification]
#[verifier::external_body]
#[verifier::reject_recursive_types(T)]
pub struct ExCursor<T>(std::io::Cursor<T>);

#[verifier::external_type_specification]
#[verifier::external_body]
#[verifier::reject_recursive_types(R)]
pub struct ExZipArchive<R>(zip::ZipArchive<R>);

/// An archive writer over an in-memory buffer. Verus cannot take the zip
/// writer's trait-bounded type directly, so it stands behind this opaque
/// struct; `zw_entries` names what it holds.
#[verifier::external_body]
pub struct ArchiveWriter {
    inner: zip::ZipWriter<std::io::Cursor<Vec<u8>>>,
}

/// The entries an open archive holds, in archive order: entry name and
/// content bytes of each.
pub uninterp spec fn zip_contents(a: zip::ZipArchive<std::io::Cursor<Vec<u8>>>) -> Seq<
    (Seq<u8>, Seq<u8>),
>;

/// The entries encoded by an archive's bytes, when they are readable.
pub uninterp spec fn zip_entries_of(bytes: Seq<u8>) -> Seq<(Seq<u8>, Seq<u8>)>;

/// Whether the bytes form a readable archive: opening them succeeds.
pub uninterp spec fn zip_readable(bytes: Seq<u8>) -> bool;

/// Whether entry `i` of the archive opened from `bytes` can be extracted:
/// it decompresses and its path stays inside the archive root.
pub uninterp spec fn entry_readable(bytes: Seq<u8>, i: int) -> bool;

/// Whether entry `i` of an open archive can be extracted.
pub uninterp spec fn zip_entry_ok(a: zip::ZipArchive<std::io::Cursor<Vec<u8>>>, i: int) -> bool;

/// The entries written to an archive writer so far, in writing order.
pub uninterp spec fn zw_entries(w: ArchiveWriter) -> Seq<(Seq<u8>, Seq<u8>)>;

/// Relies on zip::ZipArchive::new over an in-memory cursor: reading an
/// archive is a function of its bytes alone, so opening succeeds exactly
/// on readable bytes, and on success the open archive holds exactly the
/// entries the bytes encode, each extractable exactly when the bytes say
/// so.
#[verifier::external_body]
pub fn zip_open(bytes: Vec<u8>) -> (r: Result<
    zip::ZipArchive<std::io::Cursor<Vec<u8>>>,
    EpubError,
>)
    ensures
        (r is Ok) == zip_readable(bytes@),
        r matches Err(e) ==> e == EpubError::BadArchive,
        r matches Ok(a) ==> zip_contents(a) == zip_entries_of(bytes@) && (forall|j: int|
            #[trigger] zip_entry_ok(a, j) == entry_readable(bytes@, j)),
{
    match zip::ZipArchive::new(std::io::Cursor::new(bytes)) {
        Ok(a) => Ok(a),
        Err(_) => Err(EpubError::BadArchive),
    }
}

/// Relies on zip::ZipArchive::len: the number of entries.
#[verifier::external_body]
pub fn zip_len(a: &zip::ZipArchive<std::io::Cursor<Vec<u8>>>) -> (r: usize)
    ensures
        r as int == zip_contents(*a).len(),
{
    a.len()
}

/// Relies on zip::ZipArchive::by_index, ZipFile::name,
/// ZipFile::enclosed_name and std::io::Read::read_to_end: extraction
/// succeeds exactly when the entry is extractable — it fails only on an
/// entry that does not decompress or whose path escapes the archive root
/// — and yields entry `i`'s name (a directory entry keeps its trailing
/// separator) and decompressed bytes. Reading repositions the underlying
/// cursor only: the archive's contents and every entry's extractability
/// are unchanged.
#[verifier::external_body]
pub fn zip_entry(a: &mut zip::ZipArchive<std::io::Cursor<Vec<u8>>>, i: usize) -> (r: Result<
    RawEntry,
    EpubError,
>)
    requires
        i < zip_contents(*old(a)).len(),
    ensures
        zip_contents(*final(a)) == zip_contents(*old(a)),
        forall|j: int| #[trigger] zip_entry_ok(*final(a), j) == zip_entry_ok(*old(a), j),
        (r is Ok) == zip_entry_ok(*old(a), i as int),
        r matches Err(e) ==> e == EpubError::BadEntry,
        r matches Ok(e) ==> e.name@ == zip_contents(*old(a))[i as int].0 && e.data@
            == zip_contents(*old(a))[i as int].1,
{
    let Ok(mut f) = a.by_index(i) else { return Err(EpubError::BadEntry) };
    if f.enclosed_name().is_none() {
        return Err(EpubError::BadEntry);
    }
    let name = f.name().to_string();
    let mut data: Vec<u8> = Vec::new();
    if f.read_to_end(&mut data).is_err() {
        return Err(EpubError::BadEntry);
    }
    Ok(RawEntry { name: name.into_bytes(), data })
}

/// Relies on zip::ZipWriter::new over a fresh in-memory cursor: a new
/// writer holds no entries.
#[verifier::external_body]
pub fn zw_new() -> (r: ArchiveWriter)
    ensures
        zw_entries(r) == Seq::<(Seq<u8>, Seq<u8>)>::empty(),
{
    ArchiveWriter { inner: zip::ZipWriter::new(std::io::Cursor::new(Vec::new())) }
}

/// Relies on zip::ZipWriter::start_file and std::io::Write::write_all: on
/// success, one entry with the given path and content is appended after
/// the entries already written.
#[verifier::external_body]
pub fn zw_add(w: &mut ArchiveWriter, name: &Vec<u8>, data: &Vec<u8>) -> (r: Result<
    (),
    EpubError,
>)
    ensures
        r matches Ok(_) ==> zw_entries(*final(w)) == zw_entries(*old(w)).push((name@, data@)),
{
    let Ok(name) = String::from_utf8(name.clone()) else { return Err(EpubError::WriteFailed) };
    let options = zip::write::SimpleFileOptions::default();
    if w.inner.start_file(name, options).is_err() {
        return Err(EpubError::WriteFailed);
    }
    if w.inner.write_all(data.as_slice()).is_err() {
        return Err(EpubError::WriteFailed);
    }
    Ok(())
}

/// Relies on zip::ZipWriter::finish and std::io::Cursor::into_inner: the
/// serialized bytes of the archive written so far, which read back as
/// exactly the entries that were written, in writing order — the writer
/// itself rejects a duplicate name, so every accepted entry round-trips.
#[verifier::external_body]
pub fn zw_finish(w: ArchiveWriter) -> (r: Result<Vec<u8>, EpubError>)
    ensures
        r matches Ok(b) ==> zip_entries_of(b@) == zw_entries(w),
{
    match w.inner.finish() {
        Ok(c) => Ok(c.into_inner()),
        Err(_) => Err(EpubError::WriteFailed),
    }
}

/// Relies on std::str::from_utf8: it succeeds exactly on valid UTF-8,
/// which vstd's `valid_utf8` formalizes.
#[verifier::external_body]
pub fn utf8_check(b: &Vec<u8>) -> (r: bool)
    ensures
        r == vstd::utf8::valid_utf8(b@),
{
    std::str::from_utf8(b.as_slice()).is_ok()
}

} // verus!
