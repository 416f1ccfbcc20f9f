//! The archive-reading collaborator: a zip container held in memory, read
//! through the `zip` crate behind trusted declarations.  What the container
//! holds is named, never restated; everything done with the entries once
//! read is verified against those names.

use vstd::prelude::*;

use crate::driver::ExtractionReport;
use crate::driver::extract_entries;
use crate::driver::spec_extract;
use crate::entry::ArchiveEntry;
use crate::entry::EntryV;
use crate::entry::entry_views;
use crate::fs_tree::FsTree;

verus! {

/// The opened archive type of the `zip` crate.
#[verifier::external_type_specification]
#[verifier::external_body]
#[verifier::reject_recursive_types(R)]
pub struct ExZipArchive<R>(zip::ZipArchive<R>);

/// The error type of the `zip` crate.
#[verifier::external_type_specification]
#[verifier::external_body]
pub struct ExZipError(zip::result::ZipError);

/// The in-memory reader the archive is opened over.
#[verifier::external_type_specification]
#[verifier::external_body]
#[verifier::reject_recursive_types(T)]
pub struct ExCursor<T>(std::io::Cursor<T>);

/// The entries an opened archive holds, in stored order, as plain values:
/// declared path, declared size, comment, permission bits and decompressed
/// content.  A function of the archive value alone.
pub uninterp spec fn archive_entries(a: zip::ZipArchive<std::io::Cursor<Vec<u8>>>) -> Seq<EntryV>;

/// Whether every entry of an opened archive can be read out: opened without
/// a password and decompressed without error.  A function of the archive
/// value alone.
pub uninterp spec fn archive_readable(a: zip::ZipArchive<std::io::Cursor<Vec<u8>>>) -> bool;

/// Whether the bytes parse as a zip container.  Parsing is deterministic, so
/// this is a function of the bytes alone.
pub uninterp spec fn zip_parses(bytes: Seq<u8>) -> bool;

/// The entries of the container the bytes hold, once they parse.
pub uninterp spec fn zip_entries(bytes: Seq<u8>) -> Seq<EntryV>;

/// Whether every entry of the container the bytes hold can be read out.
pub uninterp spec fn zip_readable(bytes: Seq<u8>) -> bool;

/// The archive could not be opened or enumerated; nothing was extracted.
#[derive(Clone, Copy, Debug, PartialEq, Eq, Structural)]
pub enum FatalError {
    ArchiveUnreadable,
}

/// Relies on `zip::ZipArchive::new` over an in-memory cursor: parsing the
/// container's central directory.  Parsing is deterministic in the bytes, so
/// its success, the entries of the opened archive and their readability are
/// functions of the bytes, named here and never restated.
#[verifier::external_body]
fn open_archive(bytes: Vec<u8>) -> (r: Result<
    zip::ZipArchive<std::io::Cursor<Vec<u8>>>,
    zip::result::ZipError,
>)
    ensures
        r is Ok <==> zip_parses(bytes@),
        r matches Ok(a) ==> archive_entries(a) == zip_entries(bytes@) && (archive_readable(a)
            <==> zip_readable(bytes@)),
{
    zip::ZipArchive::new(std::io::Cursor::new(bytes))
}

/// Relies on `zip::ZipArchive::len`: the number of contained entries.
#[verifier::external_body]
fn entry_count(a: &zip::ZipArchive<std::io::Cursor<Vec<u8>>>) -> (n: usize)
    ensures
        n == archive_entries(*a).len(),
{
    a.len()
}

/// Relies on `zip::ZipArchive::by_index_decrypt` (with an empty password,
/// which unencrypted entries discard) and the `zip::read::ZipFile` accessors
/// `name`, `size`, `comment`, `unix_mode`, with `std::io::Read::read_to_end`
/// for the decompressed content: entry `i` of the archive, as plain values.
/// `by_index_decrypt` reports an entry that demands a password as a value,
/// where `by_index` would panic.  Reading moves the underlying cursor but
/// never changes what the archive holds or whether it is readable.
#[verifier::external_body]
fn read_entry(a: &mut zip::ZipArchive<std::io::Cursor<Vec<u8>>>, i: usize) -> (r: Option<
    ArchiveEntry,
>)
    ensures
        archive_entries(*final(a)) == archive_entries(*old(a)),
        archive_readable(*final(a)) == archive_readable(*old(a)),
        r matches Some(e) ==> i < archive_entries(*old(a)).len() && e@ == archive_entries(
            *old(a),
        )[i as int],
        archive_readable(*old(a)) && i < archive_entries(*old(a)).len() ==> r is Some,
{
    let mut f = match a.by_index_decrypt(i, &[]) {
        Ok(Ok(f)) => f,
        _ => return None,
    };
    let declared_path = f.name().to_string();
    let size = f.size();
    let comment = f.comment().to_string();
    let mode_bits = f.unix_mode();
    let mut content: Vec<u8> = Vec::new();
    if std::io::Read::read_to_end(&mut f, &mut content).is_err() {
        return None;
    }
    Some(ArchiveEntry { declared_path, size, comment, mode_bits, content })
}

/// Read every entry of an opened archive out as plain values, in stored
/// order.  `None` only when some entry cannot be read: extraction must then
/// not start at all.
fn load_entries(a: &mut zip::ZipArchive<std::io::Cursor<Vec<u8>>>) -> (r: Option<
    Vec<ArchiveEntry>,
>)
    ensures
        archive_entries(*final(a)) == archive_entries(*old(a)),
        archive_readable(*final(a)) == archive_readable(*old(a)),
        r matches Some(es) ==> entry_views(es@) == archive_entries(*old(a)),
        archive_readable(*old(a)) ==> r is Some,
{
    let n = entry_count(a);
    let mut es: Vec<ArchiveEntry> = Vec::new();
    let mut i: usize = 0;
    proof {
        assert(entry_views(es@) =~= archive_entries(*a).take(0));
    }
    while i < n
        invariant
            i <= n,
            n == archive_entries(*a).len(),
            archive_entries(*a) == archive_entries(*old(a)),
            archive_readable(*a) == archive_readable(*old(a)),
            entry_views(es@) == archive_entries(*a).take(i as int),
        decreases n - i,
    {
        match read_entry(a, i) {
            Some(e) => {
                proof {
                    assert(entry_views(es@.push(e)) =~= entry_views(es@).push(e@));
                    assert(archive_entries(*a).take(i as int + 1) =~= archive_entries(*a).take(
                        i as int,
                    ).push(archive_entries(*a)[i as int]));
                }
                es.push(e);
            },
            None => {
                return None;
            },
        }
        i += 1;
    }
    proof {
        assert(archive_entries(*a).take(n as int) =~= archive_entries(*a));
    }
    Some(es)
}

/// Extract an opened archive into the destination tree: every entry, in
/// stored order, sanitized and materialized, with the full report — exactly
/// `spec_extract` of the archive's entries.  Succeeds whenever the archive
/// is readable; fails, without touching the tree, only when some entry
/// cannot be read.
pub fn extract_archive(
    a: &mut zip::ZipArchive<std::io::Cursor<Vec<u8>>>,
    dest: &mut FsTree,
    modes_supported: bool,
) -> (r: Result<ExtractionReport, FatalError>)
    requires
        old(dest).inv(),
    ensures
        final(dest).inv(),
        archive_entries(*final(a)) == archive_entries(*old(a)),
        archive_readable(*old(a)) ==> r is Ok,
        match r {
            Ok(report) => {
                &&& final(dest)@ == spec_extract(
                    archive_entries(*old(a)),
                    old(dest)@,
                    modes_supported,
                ).0
                &&& report@ == spec_extract(
                    archive_entries(*old(a)),
                    old(dest)@,
                    modes_supported,
                ).1
            },
            Err(_) => final(dest)@ == old(dest)@,
        },
{
    match load_entries(a) {
        Some(es) => Ok(extract_entries(&es, dest, modes_supported)),
        None => Err(FatalError::ArchiveUnreadable),
    }
}

/// Extract a zip container, given as its raw bytes, into the destination
/// tree.  The container is parsed by the archive-reading collaborator; the
/// final tree and the report are exactly `spec_extract` of the container's
/// entries.  Succeeds whenever the bytes parse and every entry is readable;
/// fails, without touching the tree, when the container cannot be opened or
/// enumerated.
pub fn extract_zip_bytes(bytes: Vec<u8>, dest: &mut FsTree, modes_supported: bool) -> (r: Result<
    ExtractionReport,
    FatalError,
>)
    requires
        old(dest).inv(),
    ensures
        final(dest).inv(),
        zip_parses(bytes@) && zip_readable(bytes@) ==> r is Ok,
        !zip_parses(bytes@) ==> r is Err,
        match r {
            Ok(report) => {
                &&& final(dest)@ == spec_extract(
                    zip_entries(bytes@),
                    old(dest)@,
                    modes_supported,
                ).0
                &&& report@ == spec_extract(zip_entries(bytes@), old(dest)@, modes_supported).1
            },
            Err(_) => final(dest)@ == old(dest)@,
        },
{
    let ghost bs = bytes@;
    match open_archive(bytes) {
        Ok(mut a) => {
            let ghost es = archive_entries(a);
            let r = extract_archive(&mut a, dest, modes_supported);
            proof {
                assert(es == zip_entries(bs));
                if r is Ok {
                    assert(dest@ == spec_extract(zip_entries(bs), old(dest)@, modes_supported).0);
                }
            }
            r
        },
        Err(_) => Err(FatalError::ArchiveUnreadable),
    }
}

} // verus!
