//! Access to ZIP archives, through the `zip` crate.
use vstd::prelude::*;
use std::io::{Cursor, Read, Write};
use zip::write::SimpleFileOptions;
use zip::{CompressionMethod, ZipWriter};
use vstd::utf8::encode_utf8;

verus! {

/// The error type of the `zip` crate.
#[verifier::external_type_specification]
#[verifier::external_body]
pub struct ExZipError(zip::result::ZipError);

/// Whether the `zip` crate opens `data` as an archive.
pub uninterp spec fn zip_opens(data: Seq<u8>) -> bool;

/// The size that the archive `data` records for its entry `name`, when the
/// `zip` crate opens the archive and finds the entry.
pub uninterp spec fn zip_entry_size(data: Seq<u8>, name: Seq<char>) -> Option<u64>;

/// The content of the entry `name` of the archive `data`, when the `zip`
/// crate opens the archive, finds the entry and reads it to its end.
pub uninterp spec fn zip_entry_bytes(data: Seq<u8>, name: Seq<char>) -> Option<Seq<u8>>;

/// The largest entry that is read (100 MB).
pub const MAX_ENTRY_SIZE: u64 = 104857600;

/// The content of the entry `name` of the archive `data`, when the archive
/// opens, has the entry, records it as no larger than `MAX_ENTRY_SIZE`, and
/// reads it.
pub open spec fn entry_read(data: Seq<u8>, name: Seq<char>) -> Option<Seq<u8>> {
    match zip_entry_size(data, name) {
        Some(size) => if size > MAX_ENTRY_SIZE {
            None
        } else {
            zip_entry_bytes(data, name)
        },
        None => None,
    }
}

/// The content of the entry, or nothing when it cannot be read.
pub open spec fn entry_content(data: Seq<u8>, name: Seq<char>) -> Seq<u8> {
    match entry_read(data, name) {
        Some(b) => b,
        None => Seq::empty(),
    }
}

/// An entry recorded as larger than `MAX_ENTRY_SIZE` is not read: it gives
/// no content.
pub proof fn lemma_large_entries_not_read(data: Seq<u8>, name: Seq<char>)
    requires
        zip_entry_size(data, name) matches Some(s) && s > MAX_ENTRY_SIZE,
    ensures
        entry_read(data, name) is None,
        entry_content(data, name) == Seq::<u8>::empty(),
{
}

/// Opens `data` with `zip::ZipArchive::new`; the result is `Ok` exactly
/// when the archive opens, which is all that is claimed of it.
#[verifier::external_body]
pub(crate) fn zip_check(data: &[u8]) -> (res: Result<(), zip::result::ZipError>)
    ensures
        res is Ok <==> zip_opens(data@),
{
    zip::ZipArchive::new(std::io::Cursor::new(data)).map(|_| ())
}

/// Opens `data` with `zip::ZipArchive::new` and looks up `name` with
/// `ZipArchive::by_name`, giving the entry's `ZipFile::size`. Claimed: the
/// result is the named function of the data and the name, and it is `Ok`
/// only when the archive opens.
#[verifier::external_body]
pub(crate) fn zip_size(data: &[u8], name: &str) -> (res: Result<u64, zip::result::ZipError>)
    ensures
        res matches Ok(s) ==> zip_entry_size(data@, name@) == Some(s) && zip_opens(data@),
        res is Err ==> zip_entry_size(data@, name@) is None,
{
    let mut archive = zip::ZipArchive::new(std::io::Cursor::new(data))?;
    let file = archive.by_name(name)?;
    Ok(file.size())
}

/// Opens `data` with `zip::ZipArchive::new`, looks up `name` with
/// `ZipArchive::by_name` and reads the entry with `Read::read_to_end`: the
/// outer error is the archive's or the lookup's, the inner one the read's.
/// Claimed: the bytes read are the named function of the data and the name,
/// and any error means that function has no value there.
#[verifier::external_body]
pub(crate) fn zip_read(data: &[u8], name: &str) -> (res: Result<Result<Vec<u8>, std::io::Error>, zip::result::ZipError>)
    ensures
        res matches Ok(Ok(b)) ==> zip_entry_bytes(data@, name@) == Some(b@) && zip_opens(data@),
        !(res matches Ok(Ok(_))) ==> zip_entry_bytes(data@, name@) is None,
{
    let mut archive = zip::ZipArchive::new(std::io::Cursor::new(data))?;
    let mut file = archive.by_name(name)?;
    let mut buf = Vec::new();
    Ok(file.read_to_end(&mut buf).map(|_| buf))
}

// ---------------------------------------------------------------------------
// Writing
// ---------------------------------------------------------------------------

/// An archive being written into memory: the `zip` crate's `ZipWriter`
/// over a `Cursor<Vec<u8>>`, whose bound on `Write + Seek` Verus does not
/// take in a type declaration.
#[verifier::external_body]
pub struct ArchiveWriter {
    inner: ZipWriter<Cursor<Vec<u8>>>,
}

/// An entry of an archive being written: its name, whether it is stored
/// without compression, and its bytes.
pub type ZipEntry = (Seq<char>, bool, Seq<u8>);

/// The entries started in an archive writer, in the order they were
/// started, each with the bytes written to it so far.
pub uninterp spec fn zip_written(w: ArchiveWriter) -> Seq<ZipEntry>;

/// Whether an entry of the archive writer is open for writing: the
/// `zip` writer's `writing_to_file`, set when an entry is started.
pub uninterp spec fn zip_entry_open(w: ArchiveWriter) -> bool;

/// The bytes of the archive that the `zip` crate finishes for these entries,
/// written one after the other in this order.
pub uninterp spec fn zip_archive_of(entries: Seq<ZipEntry>) -> Seq<u8>;

/// The longest entry name, in UTF-8 bytes, that the `zip` crate writes: its
/// local header records the length in 16 bits.
pub const MAX_NAME_BYTES: usize = 65535;

/// The entry sizes under which writing is sure to succeed (1 GiB): far
/// enough below the 4 GiB limit of an entry written without the ZIP64
/// option that the deflate-compressed bytes stay under it too.
pub const MAX_WRITTEN_ENTRY: u64 = 1073741824;

/// The name fits in a ZIP header.
pub open spec fn name_fits(name: Seq<char>) -> bool {
    encode_utf8(name).len() <= MAX_NAME_BYTES
}

/// Every entry is smaller than `MAX_WRITTEN_ENTRY`.
pub open spec fn entries_fit(es: Seq<ZipEntry>) -> bool {
    forall|k: int| 0 <= k < es.len() ==> (#[trigger] es[k]).2.len() < MAX_WRITTEN_ENTRY
}

/// No two entries share a name.
pub open spec fn distinct_names(es: Seq<ZipEntry>) -> bool {
    forall|i: int, j: int| 0 <= i < j < es.len() ==> #[trigger] es[i].0 != #[trigger] es[j].0
}

/// `name` is not the name of any of the entries.
pub open spec fn name_unused(es: Seq<ZipEntry>, name: Seq<char>) -> bool {
    forall|k: int| 0 <= k < es.len() ==> #[trigger] es[k].0 != name
}

/// The entries with `bytes` written at the end of the last one.
pub open spec fn append_to_last(es: Seq<ZipEntry>, bytes: Seq<u8>) -> Seq<ZipEntry> {
    let last = es.last();
    es.update(es.len() - 1, (last.0, last.1, last.2 + bytes))
}

/// Each entry reads back, by its name, as the bytes written to it.
pub open spec fn reads_back(data: Seq<u8>, es: Seq<ZipEntry>) -> bool {
    &&& zip_opens(data)
    &&& forall|i: int|
        0 <= i < es.len() ==> zip_entry_bytes(data, #[trigger] es[i].0) == Some(es[i].2)
            && zip_entry_size(data, es[i].0) == Some(es[i].2.len() as u64)
}

/// A new archive writer over an empty in-memory buffer:
/// `ZipWriter::new(Cursor::new(Vec::new()))`, with no entry started.
#[verifier::external_body]
pub(crate) fn zip_writer_new() -> (res: ArchiveWriter)
    ensures
        zip_written(res) == Seq::<ZipEntry>::empty(),
        !zip_entry_open(res),
{
    ArchiveWriter { inner: ZipWriter::new(Cursor::new(Vec::new())) }
}

/// Starts an entry stored without compression: `ZipWriter::start_file` with
/// `CompressionMethod::Stored`. It fails on a name already started
/// (`insert_file_data`); when it succeeds the entry is added, empty. It
/// finishes the entry before, which fails only when that entry's compressed
/// size passes 4 GiB; the cursor it writes to never fails. So it succeeds on
/// an unused name when the entries so far fit. A name longer than 65535
/// bytes makes `local_block` panic, so it is not admitted.
#[verifier::external_body]
pub(crate) fn zip_start_stored(w: &mut ArchiveWriter, name: &str) -> (res: Result<
    (),
    zip::result::ZipError,
>)
    requires
        name_fits(name@),
    ensures
        res is Ok ==> name_unused(zip_written(*old(w)), name@) && zip_written(*final(w))
            == zip_written(*old(w)).push((name@, true, Seq::<u8>::empty())) && zip_entry_open(*final(w)),
        name_unused(zip_written(*old(w)), name@) && entries_fit(zip_written(*old(w))) ==> res is Ok,
{
    w.inner.start_file(name, SimpleFileOptions::default().compression_method(CompressionMethod::Stored))
}

/// Starts a deflate-compressed entry: `ZipWriter::start_file` with
/// `CompressionMethod::Deflated` at the default level. It fails on a name
/// already started; when it succeeds the entry is added, empty. As for a
/// stored entry, it succeeds on an unused name when the entries so far fit,
/// and a name longer than 65535 bytes is not admitted.
#[verifier::external_body]
pub(crate) fn zip_start_deflated(w: &mut ArchiveWriter, name: &str) -> (res: Result<
    (),
    zip::result::ZipError,
>)
    requires
        name_fits(name@),
    ensures
        res is Ok ==> name_unused(zip_written(*old(w)), name@) && zip_written(*final(w))
            == zip_written(*old(w)).push((name@, false, Seq::<u8>::empty())) && zip_entry_open(*final(w)),
        name_unused(zip_written(*old(w)), name@) && entries_fit(zip_written(*old(w))) ==> res is Ok,
{
    w.inner.start_file(name, SimpleFileOptions::default().compression_method(CompressionMethod::Deflated))
}

/// Writes bytes to the entry last started: std's `Write::write_all` over
/// the `zip` writer's `write`. No bytes is `Ok` at once, with nothing
/// changed. Otherwise `write` fails when no entry is open, or when the
/// entry passes 4 GiB (`ZIP64_BYTES_THR`) without the large-file option;
/// the cursor it writes to never fails. When it succeeds the bytes end the
/// open entry, which stays open.
#[verifier::external_body]
pub(crate) fn zip_write_all(w: &mut ArchiveWriter, bytes: &[u8]) -> (res: Result<
    (),
    std::io::Error,
>)
    ensures
        bytes@.len() == 0 ==> res is Ok && zip_written(*final(w)) == zip_written(*old(w))
            && zip_entry_open(*final(w)) == zip_entry_open(*old(w)),
        bytes@.len() > 0 && res is Ok ==> zip_entry_open(*old(w)) && zip_written(*old(w)).len() > 0
            && zip_written(*final(w)) == append_to_last(zip_written(*old(w)), bytes@)
            && zip_entry_open(*final(w)),
        zip_entry_open(*old(w)) && zip_written(*old(w)).len() > 0 && zip_written(*old(w)).last().2.len()
            + bytes@.len() <= 0xFFFF_FFFF ==> res is Ok,
{
    w.inner.write_all(bytes)
}

/// Finishes the archive: `ZipWriter::finish`, then `Cursor::into_inner`.
/// The archive is the named function of the entries, and each entry reads
/// back by its name as its bytes. Finishing fails only when the last
/// entry's compressed size passes 4 GiB; the central directory is written
/// to the cursor, which never fails, so it succeeds when the entries fit.
#[verifier::external_body]
pub(crate) fn zip_finish(w: ArchiveWriter) -> (res: Result<Vec<u8>, zip::result::ZipError>)
    ensures
        res matches Ok(b) ==> b@ == zip_archive_of(zip_written(w)),
        res matches Ok(b) ==> distinct_names(zip_written(w)) ==> reads_back(b@, zip_written(w)),
        entries_fit(zip_written(w)) ==> res is Ok,
{
    w.inner.finish().map(|c| c.into_inner())
}

} // verus!
