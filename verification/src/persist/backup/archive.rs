//! A zip archive, entry by entry. The archives themselves are those of the `zip`
//! crate.

use std::io::{Cursor, Read, Write};
use vstd::prelude::*;
use vstd::utf8::encode_utf8;

verus! {

/// The longest name an entry of an archive can have, in bytes.
pub const MAX_ENTRY_NAME_LEN: usize = 65_535;

/// How much an entry of an archive is sure to have room for, in bytes. The length
/// fields would hold twice as much, but what is compressed may come out longer than
/// it went in.
pub const SURE_ENTRY_LEN: usize = 0x7fff_ffff;

/// A `zip::ZipWriter` into memory, of which nothing is known but what the functions
/// below say.
#[verifier::external_body]
pub struct ArchiveWriter {
    zip: zip::ZipWriter<Cursor<Vec<u8>>>,
}

/// `zip::ZipArchive`, of which nothing is known but what the functions below say.
#[verifier::external_type_specification]
#[verifier::external_body]
#[verifier::reject_recursive_types(R)]
pub struct ExZipArchive<R>(zip::ZipArchive<R>);

/// `std::io::Cursor`, which lets an archive be written to and read from memory.
#[verifier::external_type_specification]
#[verifier::external_body]
#[verifier::reject_recursive_types(T)]
pub struct ExCursor<T>(std::io::Cursor<T>);

/// The entries which were written, in their order, each with its name.
pub uninterp spec fn written_entries(w: ArchiveWriter) -> Seq<(Seq<char>, Seq<u8>)>;

/// Whether the last entry is still open for writing.
pub uninterp spec fn is_writing(w: ArchiveWriter) -> bool;

/// Whether nothing which was written had to be cut off again, or was left half
/// finished.
pub uninterp spec fn is_whole(w: ArchiveWriter) -> bool;

/// The bytes an archive is read from.
pub uninterp spec fn archive_bytes(a: zip::ZipArchive<Cursor<Vec<u8>>>) -> Seq<u8>;

/// How many entries the archive in some bytes has, or why there is no archive.
pub uninterp spec fn zip_count(bytes: Seq<u8>) -> Result<nat, Seq<char>>;

/// The name of an entry of the archive in some bytes, or why there is none.
pub uninterp spec fn zip_name(bytes: Seq<u8>, index: nat) -> Result<Seq<char>, Seq<char>>;

/// The content of an entry of the archive in some bytes, or why it can not be
/// read.
pub uninterp spec fn zip_content(bytes: Seq<u8>, index: nat) -> Result<Seq<u8>, Seq<char>>;

/// Whether the archive in some bytes has exactly these entries.
pub open spec fn holds_entries(bytes: Seq<u8>, entries: Seq<(Seq<char>, Seq<u8>)>) -> bool {
    &&& zip_count(bytes) == Ok::<nat, Seq<char>>(entries.len())
    &&& forall|i: int|
        0 <= i < entries.len() ==> zip_name(bytes, i as nat) == Ok::<Seq<char>, Seq<char>>(
            (#[trigger] entries[i]).0,
        ) && zip_content(bytes, i as nat) == Ok::<Seq<u8>, Seq<char>>(entries[i].1)
}

/// Whether an entry has the name.
pub open spec fn has_entry(entries: Seq<(Seq<char>, Seq<u8>)>, name: Seq<char>) -> bool {
    exists|i: int| 0 <= i < entries.len() && (#[trigger] entries[i]).0 == name
}

/// Whether no entry is longer than what there is sure to be room for.
pub open spec fn small_entries(entries: Seq<(Seq<char>, Seq<u8>)>) -> bool {
    forall|i: int| 0 <= i < entries.len() ==> (#[trigger] entries[i]).1.len() <= SURE_ENTRY_LEN
}

/// How many entries an archive can not have if it is to be found again: as many as
/// its own counter says where there are too many for it.
pub const COUNTER_OVERFLOWS: usize = 65_535;

/// Whether a name holds what marks the locator of a large archive.
pub open spec fn holds_locator(name: Seq<char>) -> bool {
    exists|i: int|
        0 <= i && i + 4 <= name.len() && (#[trigger] name[i]) == 'P' && name[i + 1] == 'K'
            && name[i + 2] == '\u{6}' && name[i + 3] == '\u{7}'
}

/// Whether an archive of these entries is found again where it is written: none of
/// them is long, no name looks like a part of the archive itself, and their number is
/// not the one which stands for more.
pub open spec fn can_be_found_again(entries: Seq<(Seq<char>, Seq<u8>)>) -> bool {
    &&& small_entries(entries)
    &&& entries.len() != COUNTER_OVERFLOWS
    &&& forall|i: int| 0 <= i < entries.len() ==> !holds_locator((#[trigger] entries[i]).0)
}

/// `zip::ZipWriter::new` on an empty buffer: an archive with no entries.
#[verifier::external_body]
pub(crate) fn zip_new() -> (w: ArchiveWriter)
    ensures
        written_entries(w).len() == 0,
        is_whole(w),
{
    ArchiveWriter { zip: zip::ZipWriter::new(Cursor::new(Vec::new())) }
}

/// `zip::ZipWriter::start_file` with deflate compression: an entry with nothing in
/// it yet is added behind the others and is open for writing. It fails where an
/// entry of that name is there already, and does not fail otherwise while the
/// entries before it are small; for entries which are not, nothing is said of that.
/// Where it fails the entries are what they were, and the archive is still whole if
/// they are small. A name too long for its length field would make it panic, and a
/// writer which had to cut something off may.
#[verifier::external_body]
pub(crate) fn zip_start(w: &mut ArchiveWriter, name: &str) -> (r: Result<(), String>)
    requires
        encode_utf8(name@).len() <= MAX_ENTRY_NAME_LEN,
        is_whole(*old(w)),
    ensures
        (r is Ok ==> written_entries(*final(w)) == written_entries(*old(w)).push((name@, Seq::empty()))),
        (r is Ok ==> is_writing(*final(w)) && is_whole(*final(w))),
        (r is Err ==> written_entries(*final(w)) == written_entries(*old(w))),
        (small_entries(written_entries(*old(w))) ==> is_whole(*final(w))),
        (has_entry(written_entries(*old(w)), name@) ==> r is Err),
        (small_entries(written_entries(*old(w))) && !has_entry(written_entries(*old(w)), name@) ==> r is Ok),
{
    let options = zip::write::SimpleFileOptions::default()
        .compression_method(zip::CompressionMethod::Deflated);
    w.zip.start_file(name, options).map_err(|err| err.to_string())
}

/// `std::io::Write::write_all` of `zip::ZipWriter`: the bytes are added to the last
/// entry, which stays open. It does not fail while the entry stays small; for one
/// which does not, nothing is said of that. Where it fails the entry is taken out
/// again, and whether the archive is still whole is not said.
#[verifier::external_body]
pub(crate) fn zip_write(w: &mut ArchiveWriter, payload: &[u8]) -> (r: Result<(), String>)
    requires
        is_writing(*old(w)),
        is_whole(*old(w)),
        written_entries(*old(w)).len() > 0,
    ensures
        (r is Ok ==> written_entries(*final(w)) == written_entries(*old(w)).update(
            written_entries(*old(w)).len() - 1,
            (
                written_entries(*old(w)).last().0,
                written_entries(*old(w)).last().1 + payload@,
            ),
        )),
        (r is Ok ==> is_writing(*final(w)) && is_whole(*final(w))),
        (r is Err ==> written_entries(*final(w)) == written_entries(*old(w)).drop_last()),
        (written_entries(*old(w)).last().1.len() + payload@.len() <= SURE_ENTRY_LEN ==> r is Ok),
{
    w.zip.write_all(payload).map_err(|err| err.to_string())
}

/// `zip::ZipWriter::finish`: the bytes of the archive. It does not fail where every
/// entry is small; for entries which are not, nothing is said of that. What is read
/// out of the bytes is what was written, entry by entry, where the entries are ones
/// which are found again; otherwise nothing is said of what is read out of them. A
/// writer which had to cut something off may panic.
#[verifier::external_body]
pub(crate) fn zip_finish(w: ArchiveWriter) -> (r: Result<Vec<u8>, String>)
    requires
        is_whole(w),
    ensures
        (r matches Ok(bytes) ==> (can_be_found_again(written_entries(w)) ==> holds_entries(bytes@, written_entries(w)))),
        (small_entries(written_entries(w)) ==> r is Ok),
{
    w.zip.finish().map(|buffer| buffer.into_inner()).map_err(|err| err.to_string())
}

/// `zip::ZipArchive::new`: the archive in the bytes, or why there is none.
#[verifier::external_body]
pub(crate) fn zip_open(src: &[u8]) -> (r: Result<zip::ZipArchive<Cursor<Vec<u8>>>, String>)
    ensures
        (match r {
            Ok(archive) => zip_count(src@) is Ok && archive_bytes(archive) == src@,
            Err(err) => zip_count(src@) == Err::<nat, Seq<char>>(err@),
        }),
{
    zip::ZipArchive::new(Cursor::new(src.to_vec())).map_err(|err| err.to_string())
}

/// `zip::ZipArchive::len`: how many entries there are.
#[verifier::external_body]
pub(crate) fn zip_len(archive: &zip::ZipArchive<Cursor<Vec<u8>>>) -> (r: usize)
    ensures
        (zip_count(archive_bytes(*archive)) matches Ok(n) ==> r == n),
{
    archive.len()
}

/// `zip::ZipArchive::by_index` and `ZipFile::name`: the name of an entry, or why
/// the entry can not be had.
#[verifier::external_body]
pub(crate) fn zip_entry_name(archive: &mut zip::ZipArchive<Cursor<Vec<u8>>>, index: usize) -> (r: Result<String, String>)
    ensures
        archive_bytes(*final(archive)) == archive_bytes(*old(archive)),
        (match r {
            Ok(name) => zip_name(archive_bytes(*old(archive)), index as nat) == Ok::<Seq<char>, Seq<char>>(name@),
            Err(err) => zip_name(archive_bytes(*old(archive)), index as nat) == Err::<Seq<char>, Seq<char>>(err@),
        }),
{
    archive.by_index(index).map(|entry| entry.name().to_string()).map_err(|err| err.to_string())
}

/// `zip::ZipArchive::by_index` and `std::io::Read::read_to_end` of what it gives:
/// the content of an entry, or why it can not be read.
#[verifier::external_body]
pub(crate) fn zip_entry_content(archive: &mut zip::ZipArchive<Cursor<Vec<u8>>>, index: usize) -> (r: Result<Vec<u8>, String>)
    ensures
        archive_bytes(*final(archive)) == archive_bytes(*old(archive)),
        (match r {
            Ok(content) => zip_content(archive_bytes(*old(archive)), index as nat) == Ok::<Seq<u8>, Seq<char>>(content@),
            Err(err) => zip_content(archive_bytes(*old(archive)), index as nat) == Err::<Seq<u8>, Seq<char>>(err@),
        }),
{
    let mut content = Vec::new();
    let mut entry = archive.by_index(index).map_err(|err| err.to_string())?;
    entry.read_to_end(&mut content).map_err(|err| err.to_string())?;
    Ok(content)
}

}
