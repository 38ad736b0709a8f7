//! A backup is a zip of one namespace, laid out the way the namespace is:
//!
//! ```text
//!   <table>/.metadata               that table's attributes, schemas and all
//!   <table>/<base64url(partition)>  the partition, as a partition blob
//! ```
//!
//! `<table>` is the table's own name while that name can be a path segment, and
//! `~<base64url(name)>` when it can not - see `encode_table_name`.
//!
//! A partition is already serialized as a self-contained blob for the page-files,
//! so a backup does not need a second way to write one - it is an array of
//! partitions, one zip entry each, with the metadata they can not be read
//! without beside them. The schemas are part of that metadata, so a restored
//! table is showable without a second entry to carry them.
//!
//! The blobs go in **uncompressed** and the zip deflates them. Zstd-ing each blob
//! and then deflating the result would cost the compression twice and save it
//! once, and the zip is what an operator opens with the tool they already have.

use super::archive::{
    archive_bytes, can_be_found_again, has_entry, holds_entries, is_whole, small_entries,
    written_entries, zip_content, zip_count, zip_entry_content, zip_entry_name, zip_finish,
    zip_len, zip_name, zip_new, zip_open, zip_start, zip_write, ArchiveWriter,
    MAX_ENTRY_NAME_LEN, SURE_ENTRY_LEN,
};
use crate::persist::base64url::{
    a_key_survives_encoding, decode, decoded, encode, encoded, no_path_in_what_is_encoded,
    symbol_value,
};
use crate::text::{chars_of, same_text};
use vstd::prelude::*;
use vstd::utf8::{decode_utf8, encode_utf8, valid_utf8};

verus! {

/// What a table's attributes are found under.
pub const METADATA_ENTRY: &'static str = ".metadata";

/// Marks a table name which had to be encoded to become a path segment. It is
/// not in the base64url alphabet, so a name carrying it is never one which does
/// not.
pub const ENCODED_TABLE_MARK: char = '~';

/// One table as a backup holds it.
pub struct BackupTableContent {
    pub table_name: String,
    /// What stands in the table's metadata entry.
    pub metadata: Option<Vec<u8>>,
    pub partitions: Vec<BackupPartitionContent>,
}

pub struct BackupPartitionContent {
    pub partition_key: String,
    /// Exactly what [`crate::persist::partition_blob::serialize`] makes.
    pub blob: Vec<u8>,
}

/// Everything one backup carries.
pub struct BackupContent {
    pub tables: Vec<BackupTableContent>,
}

/// What a backup says of one table.
#[verifier::ext_equal]
pub struct TableBackup {
    pub table_name: Seq<char>,
    pub metadata: Option<Seq<u8>>,
    pub partitions: Seq<(Seq<char>, Seq<u8>)>,
}

impl View for BackupTableContent {
    type V = TableBackup;

    open spec fn view(&self) -> TableBackup {
        TableBackup {
            table_name: self.table_name@,
            metadata: match self.metadata {
                Some(bytes) => Some(bytes@),
                None => None,
            },
            partitions: Seq::new(
                self.partitions@.len(),
                |i: int| (self.partitions@[i].partition_key@, self.partitions@[i].blob@),
            ),
        }
    }
}

/// What a backup says of some tables.
pub open spec fn backup_views(tables: Seq<BackupTableContent>) -> Seq<TableBackup> {
    Seq::new(tables.len(), |i: int| tables[i]@)
}

/// Whether the name survives being one segment of a zip entry and coming back.
/// `..` is refused as well: the archive is only ever read into memory here, but
/// an operator unpacking it with an ordinary tool would have it step out of the
/// folder they unpacked into.
pub open spec fn can_be_path_segment(name: Seq<char>) -> bool {
    &&& name.len() > 0
    &&& name[0] != ENCODED_TABLE_MARK
    &&& !name.contains('/')
    &&& !name.contains('\\')
    &&& !name.contains('\0')
    &&& name != "."@
    &&& name != ".."@
}

/// What a table is called inside the archive.
pub open spec fn table_entry(name: Seq<char>) -> Seq<char> {
    if can_be_path_segment(name) {
        name
    } else {
        seq![ENCODED_TABLE_MARK] + encoded(encode_utf8(name))
    }
}

/// Which table something inside the archive is called after.
pub open spec fn entry_table(entry: Seq<char>) -> Seq<char> {
    if entry.len() > 0 && entry[0] == ENCODED_TABLE_MARK {
        match decoded(entry.skip(1)) {
            Some(bytes) => if valid_utf8(bytes) {
                decode_utf8(bytes)
            } else {
                entry
            },
            None => entry,
        }
    } else {
        entry
    }
}

/// The entry of a table's attributes.
pub open spec fn metadata_entry(table_name: Seq<char>) -> Seq<char> {
    table_entry(table_name) + "/"@ + METADATA_ENTRY@
}

/// The entry of a partition.
pub open spec fn partition_entry(table_name: Seq<char>, partition_key: Seq<char>) -> Seq<char> {
    table_entry(table_name) + "/"@ + encoded(encode_utf8(partition_key))
}

/// Where the first slash of a name stands; at its end if there is none.
pub open spec fn first_slash(name: Seq<char>) -> int
    decreases name.len(),
{
    if name.len() == 0 || name[0] == '/' {
        0
    } else {
        1 + first_slash(name.drop_first())
    }
}

/// Where a table stands among some; behind them if it is not there.
pub open spec fn table_place(tables: Seq<TableBackup>, table_name: Seq<char>) -> int
    decreases tables.len(),
{
    if tables.len() == 0 || tables[0].table_name == table_name {
        0
    } else {
        1 + table_place(tables.drop_first(), table_name)
    }
}

/// The tables with one among them.
pub open spec fn with_table(tables: Seq<TableBackup>, table_name: Seq<char>) -> Seq<TableBackup> {
    if table_place(tables, table_name) < tables.len() {
        tables
    } else {
        tables.push(TableBackup { table_name, metadata: None, partitions: Seq::empty() })
    }
}

/// The tables once the attributes of one are read.
pub open spec fn with_metadata(
    tables: Seq<TableBackup>,
    table_name: Seq<char>,
    metadata: Seq<u8>,
) -> Seq<TableBackup> {
    let all = with_table(tables, table_name);
    let at = table_place(tables, table_name);
    all.update(at, TableBackup { metadata: Some(metadata), ..all[at] })
}

/// The tables once a partition of one is read.
pub open spec fn with_partition(
    tables: Seq<TableBackup>,
    table_name: Seq<char>,
    partition_key: Seq<char>,
    blob: Seq<u8>,
) -> Seq<TableBackup> {
    let all = with_table(tables, table_name);
    let at = table_place(tables, table_name);
    all.update(
        at,
        TableBackup { partitions: all[at].partitions.push((partition_key, blob)), ..all[at] },
    )
}

/// The tables once an entry is read. An entry whose name is not understood changes
/// nothing.
pub open spec fn with_entry(tables: Seq<TableBackup>, name: Seq<char>, content: Seq<u8>) -> Seq<
    TableBackup,
> {
    let slash = first_slash(name);
    if slash >= name.len() {
        tables
    } else {
        let table_name = entry_table(name.take(slash));
        let rest = name.skip(slash + 1);
        if rest == METADATA_ENTRY@ {
            with_metadata(tables, table_name, content)
        } else {
            match decoded(rest) {
                Some(bytes) => if valid_utf8(bytes) {
                    with_partition(tables, table_name, decode_utf8(bytes), content)
                } else {
                    tables
                },
                None => tables,
            }
        }
    }
}

/// Whether the name is one of an entry this build knows: that of a table's
/// attributes, or that of a partition.
pub open spec fn is_understood(name: Seq<char>) -> bool {
    let slash = first_slash(name);
    let rest = name.skip(slash + 1);
    &&& slash < name.len()
    &&& rest == METADATA_ENTRY@ || (decoded(rest) matches Some(bytes) && valid_utf8(bytes))
}

/// The tables in the first entries of an archive, or why they can not be read.
pub open spec fn tables_in(bytes: Seq<u8>, n: nat) -> Result<Seq<TableBackup>, Seq<char>>
    decreases n,
{
    if n == 0 {
        Ok(Seq::empty())
    } else {
        let index = (n - 1) as nat;
        match tables_in(bytes, index) {
            Err(err) => Err(err),
            Ok(tables) => match zip_name(bytes, index) {
                Err(err) => Err("can not read an entry of the backup: "@ + err),
                Ok(name) => match zip_content(bytes, index) {
                    Err(err) => Err("can not read "@ + name + " out of the backup: "@ + err),
                    Ok(content) => Ok(with_entry(tables, name, content)),
                },
            },
        }
    }
}

/// The tables of a backup, or why they can not be read.
pub open spec fn backup_tables(bytes: Seq<u8>) -> Result<Seq<TableBackup>, Seq<char>> {
    match zip_count(bytes) {
        Err(err) => Err("this is not a backup of this server: "@ + err),
        Ok(n) => tables_in(bytes, n),
    }
}

/// Whether this says that an entry can not be added, whatever the reason.
pub open spec fn is_add_error(name: Seq<char>, err: Seq<char>) -> bool {
    exists|reason: Seq<char>|
        {
            ||| err == #[trigger] start_error(name, reason)
            ||| err == write_error(name, reason)
        }
}

/// What an entry which can not be started is answered with.
pub open spec fn start_error(name: Seq<char>, reason: Seq<char>) -> Seq<char> {
    "can not start "@ + name + " inside the backup: "@ + reason
}

/// What an entry which can not be written is answered with.
pub open spec fn write_error(name: Seq<char>, reason: Seq<char>) -> Seq<char> {
    "can not write "@ + name + " inside the backup: "@ + reason
}

/// What an archive which can not be closed is answered with.
pub open spec fn close_error(reason: Seq<char>) -> Seq<char> {
    "can not close the backup: "@ + reason
}

/// Builds the zip of one namespace.
pub struct BackupZipBuilder {
    zip: ArchiveWriter,
    /// Whether every entry so far is small.
    all_small: bool,
    /// Whether an entry had to be cut off for its length. Nothing is written behind
    /// that any more.
    cut_off: bool,
}

impl BackupZipBuilder {
    /// The entries so far.
    pub closed spec fn entries(&self) -> Seq<(Seq<char>, Seq<u8>)> {
        written_entries(self.zip)
    }

    /// Whether an entry had to be cut off for its length. Such a builder takes nothing
    /// in any more.
    pub closed spec fn is_cut_off(&self) -> bool {
        self.cut_off
    }

    /// The builder knows what it has written.
    pub closed spec fn wf(&self) -> bool {
        !self.cut_off ==> is_whole(self.zip) && self.all_small == small_entries(self.entries())
    }

    /// Whether an entry with this name and a content of this length is sure to be
    /// taken in.
    pub open spec fn takes(&self, name: Seq<char>, len: nat) -> bool {
        &&& !self.is_cut_off()
        &&& small_entries(self.entries())
        &&& len <= SURE_ENTRY_LEN
        &&& !has_entry(self.entries(), name)
    }

    /// An archive with nothing in it.
    pub fn new() -> (r: Self)
        ensures
            r.wf(),
            r.entries().len() == 0,
            !r.is_cut_off(),
    {
        BackupZipBuilder { zip: zip_new(), all_small: true, cut_off: false }
    }

    /// Adds a table, with what its attributes are written as. A table which is there
    /// already is refused, and nothing else is while the entries are small. What is
    /// refused leaves the archive as it was.
    pub fn add_table(&mut self, table_name: &str, metadata: &[u8]) -> (r: Result<(), String>)
        requires
            old(self).wf(),
            encode_utf8(metadata_entry(table_name@)).len() <= MAX_ENTRY_NAME_LEN,
        ensures
            final(self).wf(),
            r is Ok ==> final(self).entries() == old(self).entries().push(
                (metadata_entry(table_name@), metadata@),
            ),
            r is Err ==> final(self).entries() == old(self).entries(),
            has_entry(old(self).entries(), metadata_entry(table_name@)) ==> r is Err,
            old(self).takes(metadata_entry(table_name@), metadata@.len()) ==> r is Ok,
            final(self).is_cut_off() ==> old(self).is_cut_off() || !small_entries(
                old(self).entries(),
            ) || metadata@.len() > SURE_ENTRY_LEN,
            r matches Err(err) ==> is_add_error(metadata_entry(table_name@), err@),
    {
        let mut name = encode_table_name(table_name);
        name.append("/");
        name.append(METADATA_ENTRY);
        self.add_entry(name.as_str(), metadata)
    }

    /// Adds a partition of a table. A partition which is there already is refused,
    /// and nothing else is while the entries are small. What is refused leaves the
    /// archive as it was.
    pub fn add_partition(&mut self, table_name: &str, partition_key: &str, blob: &[u8]) -> (r:
        Result<(), String>)
        requires
            old(self).wf(),
            encode_utf8(partition_entry(table_name@, partition_key@)).len() <= MAX_ENTRY_NAME_LEN,
        ensures
            final(self).wf(),
            r is Ok ==> final(self).entries() == old(self).entries().push(
                (partition_entry(table_name@, partition_key@), blob@),
            ),
            r is Err ==> final(self).entries() == old(self).entries(),
            has_entry(old(self).entries(), partition_entry(table_name@, partition_key@)) ==> r is Err,
            old(self).takes(partition_entry(table_name@, partition_key@), blob@.len()) ==> r is Ok,
            final(self).is_cut_off() ==> old(self).is_cut_off() || !small_entries(
                old(self).entries(),
            ) || blob@.len() > SURE_ENTRY_LEN,
            r matches Err(err) ==> is_add_error(
                partition_entry(table_name@, partition_key@),
                err@,
            ),
    {
        let mut name = encode_table_name(table_name);
        name.append("/");
        let key = encode(partition_key);
        name.append(key.as_str());
        self.add_entry(name.as_str(), blob)
    }

    /// The bytes of the archive. It is sure to work while the entries are small. What
    /// is read out of them is what was added, where the entries are ones which are
    /// found again.
    pub fn build(self) -> (r: Result<Vec<u8>, String>)
        requires
            self.wf(),
        ensures
            r matches Ok(bytes) ==> (can_be_found_again(self.entries()) ==> holds_entries(
                bytes@,
                self.entries(),
            )),
            !self.is_cut_off() && small_entries(self.entries()) ==> r is Ok,
            r matches Err(err) ==> exists|reason: Seq<char>| err@ == #[trigger] close_error(reason),
    {
        if self.cut_off {
            let mut err = "can not close the backup: ".to_owned();
            err.append("an entry of it was cut off");
            assert(err@ == close_error("an entry of it was cut off"@));
            return Err(err);
        }
        match zip_finish(self.zip) {
            Ok(bytes) => Ok(bytes),
            Err(reason) => {
                let mut err = "can not close the backup: ".to_owned();
                err.append(reason.as_str());
                assert(err@ == close_error(reason@));
                Err(err)
            },
        }
    }

    fn add_entry(&mut self, name: &str, payload: &[u8]) -> (r: Result<(), String>)
        requires
            old(self).wf(),
            encode_utf8(name@).len() <= MAX_ENTRY_NAME_LEN,
        ensures
            final(self).wf(),
            r is Ok ==> final(self).entries() == old(self).entries().push((name@, payload@)),
            r is Err ==> final(self).entries() == old(self).entries(),
            has_entry(old(self).entries(), name@) ==> r is Err,
            old(self).takes(name@, payload@.len()) ==> r is Ok,
            final(self).is_cut_off() ==> old(self).is_cut_off() || !small_entries(
                old(self).entries(),
            ) || payload@.len() > SURE_ENTRY_LEN,
            r matches Err(err) ==> is_add_error(name@, err@),
    {
        let ghost before = self.entries();
        if self.cut_off {
            let mut err = "can not start ".to_owned();
            err.append(name);
            err.append(" inside the backup: ");
            err.append("an entry before it was cut off");
            assert(err@ == start_error(name@, "an entry before it was cut off"@));
            return Err(err);
        }
        if let Err(reason) = zip_start(&mut self.zip, name) {
            // While the entries are small it is the name which is refused.
            self.cut_off = !self.all_small;
            let mut err = "can not start ".to_owned();
            err.append(name);
            err.append(" inside the backup: ");
            err.append(reason.as_str());
            assert(err@ == start_error(name@, reason@));
            return Err(err);
        }
        let ghost started = self.entries();
        proof {
            assert(started.drop_last() =~= before);
        }
        if let Err(reason) = zip_write(&mut self.zip, payload) {
            self.cut_off = true;
            let mut err = "can not write ".to_owned();
            err.append(name);
            err.append(" inside the backup: ");
            err.append(reason.as_str());
            assert(err@ == write_error(name@, reason@));
            assert(start_error(name@, reason@).len() >= 0);
            assert(self.entries() =~= before);
            return Err(err);
        }
        self.all_small = self.all_small && payload.len() <= SURE_ENTRY_LEN;
        proof {
            let after = before.push((name@, payload@));
            assert(Seq::<u8>::empty() + payload@ =~= payload@);
            assert(self.entries() =~= after);
            assert(small_entries(after) == (small_entries(before) && payload@.len()
                <= SURE_ENTRY_LEN)) by {
                assert(after[before.len() as int].1 == payload@);
                if small_entries(after) {
                    assert forall|i: int| 0 <= i < before.len() implies (
                    #[trigger] before[i]).1.len() <= SURE_ENTRY_LEN by {
                        assert(after[i] == before[i]);
                    }
                }
            }
        }
        Ok(())
    }
}

/// A table name is validated nowhere, so it can hold the `/` zip entries are
/// built out of - and the partitions of a table with such a name would otherwise
/// not be found again: the name of a partition is what stands behind the first `/`,
/// and an entry in which that does not decode is skipped. A name which is already a path
/// segment is left alone: the point of writing a plain zip is that an operator
/// can open it and see which table is which.
pub fn encode_table_name(table_name: &str) -> (r: String)
    ensures
        r@ == table_entry(table_name@),
{
    if is_path_segment(table_name) {
        return table_name.to_owned();
    }
    let mut r = String::new();
    r.push(ENCODED_TABLE_MARK);
    let name = encode(table_name);
    r.append(name.as_str());
    assert(r@ =~= table_entry(table_name@));
    r
}

/// Which table an entry belongs to. A backup taken before table names were encoded
/// could carry one which starts with the mark and is not encoded at all, so a
/// decode which does not work is the name itself rather than the end of the whole
/// archive.
pub fn decode_table_name(entry: &str) -> (r: String)
    ensures
        r@ == entry_table(entry@),
{
    let chars = chars_of(entry);
    if chars.len() == 0 || chars[0] != ENCODED_TABLE_MARK {
        return entry.to_owned();
    }
    let name = text_between(&chars, 1, chars.len());
    assert(name@ =~= entry@.skip(1));
    match decode(name.as_str()) {
        Ok(table_name) => table_name,
        Err(_) => entry.to_owned(),
    }
}

/// Some of the characters of a text, as a text.
fn text_between(chars: &Vec<char>, from: usize, to: usize) -> (r: String)
    requires
        from <= to <= chars@.len(),
    ensures
        r@ == chars@.subrange(from as int, to as int),
{
    let mut r = String::new();
    for i in from..to
        invariant
            from <= to <= chars@.len(),
            r@ == chars@.subrange(from as int, i as int),
    {
        r.push(chars[i]);
        assert(r@ =~= chars@.subrange(from as int, i + 1));
    }
    r
}

/// Whether the name survives being one segment of a zip entry and coming back.
pub fn is_path_segment(name: &str) -> (r: bool)
    ensures
        r == can_be_path_segment(name@),
{
    if name.is_empty() || same_text(name, ".") || same_text(name, "..") {
        return false;
    }
    let mut first = true;
    for c in it: name.chars()
        invariant
            it.seq() == name@,
            it.index() <= name@.len(),
            first == (it.index() == 0),
            it.index() > 0 ==> name@[0] != ENCODED_TABLE_MARK,
            forall|i: int|
                0 <= i < it.index() ==> #[trigger] name@[i] != '/' && name@[i] != '\\' && name@[i]
                    != '\0',
    {
        assert(name@[it.index() as int] == c);
        if first && c == ENCODED_TABLE_MARK {
            return false;
        }
        if c == '/' || c == '\\' || c == '\0' {
            assert(name@.contains(c));
            return false;
        }
        first = false;
    }
    true
}

proof fn lemma_first_slash(name: Seq<char>)
    ensures
        0 <= first_slash(name) <= name.len(),
        forall|i: int| 0 <= i < first_slash(name) ==> #[trigger] name[i] != '/',
        first_slash(name) < name.len() ==> name[first_slash(name)] == '/',
    decreases name.len(),
{
    if name.len() > 0 && name[0] != '/' {
        lemma_first_slash(name.drop_first());
        assert forall|i: int| 0 <= i < first_slash(name) implies #[trigger] name[i] != '/' by {
            if i > 0 {
                assert(name.drop_first()[i - 1] == name[i]);
            }
        }
    }
}

proof fn lemma_first_slash_is(name: Seq<char>, at: int)
    requires
        0 <= at <= name.len(),
        forall|i: int| 0 <= i < at ==> #[trigger] name[i] != '/',
        at < name.len() ==> name[at] == '/',
    ensures
        first_slash(name) == at,
{
    lemma_first_slash(name);
    let found = first_slash(name);
    if found < at {
        assert(name[found] != '/');
    } else if found > at {
        assert(name[at] != '/');
    }
}

fn find_slash(chars: &Vec<char>) -> (r: usize)
    ensures
        r == first_slash(chars@),
        r <= chars@.len(),
{
    let mut i: usize = 0;
    while i < chars.len() && chars[i] != '/'
        invariant
            i <= chars@.len(),
            forall|j: int| 0 <= j < i ==> #[trigger] chars@[j] != '/',
        decreases chars.len() - i,
    {
        i = i + 1;
    }
    proof {
        lemma_first_slash_is(chars@, i as int);
    }
    i
}

proof fn lemma_table_place(tables: Seq<TableBackup>, table_name: Seq<char>, at: int)
    requires
        0 <= at <= tables.len(),
        forall|i: int| 0 <= i < at ==> (#[trigger] tables[i]).table_name != table_name,
        at < tables.len() ==> tables[at].table_name == table_name,
    ensures
        table_place(tables, table_name) == at,
    decreases tables.len(),
{
    if at > 0 {
        let rest = tables.drop_first();
        assert(tables[0].table_name != table_name);
        assert forall|i: int| 0 <= i < at - 1 implies (#[trigger] rest[i]).table_name
            != table_name by {
            assert(rest[i] == tables[i + 1]);
        }
        lemma_table_place(rest, table_name, at - 1);
    }
}

/// Where the table stands, after it was put behind the others if it was not there.
fn get_or_create(tables: &mut Vec<BackupTableContent>, table_name: &str) -> (r: usize)
    ensures
        r < final(tables)@.len(),
        r == table_place(backup_views(old(tables)@), table_name@),
        backup_views(final(tables)@) == with_table(backup_views(old(tables)@), table_name@),
{
    let ghost views = backup_views(tables@);
    let mut i: usize = 0;
    while i < tables.len() && !same_text(tables[i].table_name.as_str(), table_name)
        invariant
            i <= tables@.len(),
            views == backup_views(tables@),
            *tables == *old(tables),
            forall|j: int| 0 <= j < i ==> (#[trigger] views[j]).table_name != table_name@,
        decreases tables.len() - i,
    {
        i = i + 1;
    }
    proof {
        lemma_table_place(views, table_name@, i as int);
    }
    if i == tables.len() {
        tables.push(
            BackupTableContent {
                table_name: table_name.to_owned(),
                metadata: None,
                partitions: Vec::new(),
            },
        );
        proof {
            let last = tables@.last()@;
            assert(last =~= TableBackup {
                table_name: table_name@,
                metadata: None,
                partitions: Seq::empty(),
            });
            assert(backup_views(tables@) =~= with_table(views, table_name@));
        }
    }
    i
}

/// Takes one entry of a backup in.
///
/// An entry whose name this build does not understand is skipped rather than
/// refused: a backup written by a newer server still restores what this one can
/// read instead of restoring nothing.
pub fn take_entry(tables: &mut Vec<BackupTableContent>, name: &str, content: Vec<u8>)
    ensures
        backup_views(final(tables)@) == with_entry(backup_views(old(tables)@), name@, content@),
{
    let ghost before = backup_views(tables@);
    let chars = chars_of(name);
    let slash: usize = find_slash(&chars);
    if slash >= chars.len() {
        return;
    }
    let entry = text_between(&chars, 0, slash);
    let rest = text_between(&chars, slash + 1, chars.len());
    assert(entry@ =~= name@.take(slash as int));
    assert(rest@ =~= name@.skip(slash + 1));
    let table_name = decode_table_name(entry.as_str());
    if same_text(rest.as_str(), METADATA_ENTRY) {
        let at: usize = get_or_create(tables, table_name.as_str());
        let ghost all = backup_views(tables@);
        tables[at].metadata = Some(content);
        proof {
            assert(tables@[at as int]@ =~= TableBackup {
                metadata: Some(content@),
                ..all[at as int]
            });
            assert(backup_views(tables@) =~= with_metadata(before, table_name@, content@));
        }
        return;
    }
    if let Ok(partition_key) = decode(rest.as_str()) {
        let at: usize = get_or_create(tables, table_name.as_str());
        let ghost all = backup_views(tables@);
        let ghost was = tables@[at as int];
        let ghost key = partition_key@;
        tables[at].partitions.push(BackupPartitionContent { partition_key, blob: content });
        proof {
            assert(all[at as int] == was@);
            assert(tables@[at as int]@.partitions =~= was@.partitions.push((key, content@)));
            assert(tables@[at as int]@ =~= TableBackup {
                partitions: was@.partitions.push((key, content@)),
                ..all[at as int]
            });
            assert(backup_views(tables@) =~= with_partition(before, table_name@, key, content@));
        }
    }
}

/// Reads a backup back.
///
/// An entry whose name this build does not understand is skipped rather than
/// refused: a backup written by a newer server still restores what this one can
/// read instead of restoring nothing.
pub fn read(src: &[u8]) -> (r: Result<BackupContent, String>)
    ensures
        match r {
            Ok(content) => backup_tables(src@) == Ok::<Seq<TableBackup>, Seq<char>>(
                backup_views(content.tables@),
            ),
            Err(err) => backup_tables(src@) == Err::<Seq<TableBackup>, Seq<char>>(err@),
        },
{
    let mut archive = match zip_open(src) {
        Ok(archive) => archive,
        Err(reason) => {
            let mut err = "this is not a backup of this server: ".to_owned();
            err.append(reason.as_str());
            return Err(err);
        },
    };
    let mut tables: Vec<BackupTableContent> = Vec::new();
    let count: usize = zip_len(&archive);
    assert(backup_views(tables@) =~= Seq::<TableBackup>::empty());
    for index in 0..count
        invariant
            archive_bytes(archive) == src@,
            zip_count(src@) == Ok::<nat, Seq<char>>(count as nat),
            tables_in(src@, index as nat) == Ok::<Seq<TableBackup>, Seq<char>>(
                backup_views(tables@),
            ),
    {
        let name = match zip_entry_name(&mut archive, index) {
            Ok(name) => name,
            Err(reason) => {
                let mut err = "can not read an entry of the backup: ".to_owned();
                err.append(reason.as_str());
                proof {
                    lemma_error_stays(src@, (index + 1) as nat, count as nat);
                }
                return Err(err);
            },
        };
        let content = match zip_entry_content(&mut archive, index) {
            Ok(content) => content,
            Err(reason) => {
                let mut err = "can not read ".to_owned();
                err.append(name.as_str());
                err.append(" out of the backup: ");
                err.append(reason.as_str());
                proof {
                    lemma_error_stays(src@, (index + 1) as nat, count as nat);
                }
                return Err(err);
            },
        };
        take_entry(&mut tables, name.as_str(), content);
    }
    Ok(BackupContent { tables })
}

proof fn lemma_error_stays(bytes: Seq<u8>, a: nat, b: nat)
    requires
        a <= b,
        tables_in(bytes, a) is Err,
    ensures
        tables_in(bytes, b) == tables_in(bytes, a),
    decreases b,
{
    if a < b {
        lemma_error_stays(bytes, a, (b - 1) as nat);
    }
}

/// A table is found under its own name again, whatever that name is.
pub proof fn a_table_name_survives_the_archive(name: Seq<char>)
    ensures
        entry_table(table_entry(name)) == name,
{
    if !can_be_path_segment(name) {
        let entry = table_entry(name);
        assert(entry.skip(1) =~= encoded(encode_utf8(name)));
        a_key_survives_encoding(name);
    }
}

/// What a table is called inside the archive has no path in it.
pub proof fn a_table_entry_is_one_segment(name: Seq<char>)
    ensures
        table_entry(name).len() > 0,
        !table_entry(name).contains('/'),
        !table_entry(name).contains('\\'),
{
    if !can_be_path_segment(name) {
        let entry = table_entry(name);
        let code = encoded(encode_utf8(name));
        no_path_in_what_is_encoded(encode_utf8(name));
        assert forall|i: int| 0 <= i < entry.len() implies #[trigger] entry[i] != '/' && entry[i]
            != '\\' by {
            if i > 0 {
                assert(entry[i] == code[i - 1]);
                assert(code.contains(code[i - 1]));
            }
        }
    }
}

/// One thing which goes into a backup.
pub enum BackupItem {
    Table { table_name: Seq<char>, metadata: Seq<u8> },
    Partition { table_name: Seq<char>, partition_key: Seq<char>, blob: Seq<u8> },
}

/// The entry of one thing.
pub open spec fn item_entry(item: BackupItem) -> (Seq<char>, Seq<u8>) {
    match item {
        BackupItem::Table { table_name, metadata } => (metadata_entry(table_name), metadata),
        BackupItem::Partition { table_name, partition_key, blob } => (
            partition_entry(table_name, partition_key),
            blob,
        ),
    }
}

/// The entries of some things.
pub open spec fn item_entries(items: Seq<BackupItem>) -> Seq<(Seq<char>, Seq<u8>)> {
    Seq::new(items.len(), |i: int| item_entry(items[i]))
}

/// The tables some things make up.
pub open spec fn item_tables(items: Seq<BackupItem>) -> Seq<TableBackup>
    decreases items.len(),
{
    if items.len() == 0 {
        Seq::empty()
    } else {
        let before = item_tables(items.drop_last());
        match items.last() {
            BackupItem::Table { table_name, metadata } => with_metadata(
                before,
                table_name,
                metadata,
            ),
            BackupItem::Partition { table_name, partition_key, blob } => with_partition(
                before,
                table_name,
                partition_key,
                blob,
            ),
        }
    }
}

/// What an entry is read as.
pub proof fn lemma_item_is_read(tables: Seq<TableBackup>, item: BackupItem)
    ensures
        with_entry(tables, item_entry(item).0, item_entry(item).1) == (match item {
            BackupItem::Table { table_name, metadata } => with_metadata(
                tables,
                table_name,
                metadata,
            ),
            BackupItem::Partition { table_name, partition_key, blob } => with_partition(
                tables,
                table_name,
                partition_key,
                blob,
            ),
        }),
{
    reveal_strlit("/");
    reveal_strlit(".metadata");
    let (table_name, rest) = match item {
        BackupItem::Table { table_name, metadata } => (table_name, METADATA_ENTRY@),
        BackupItem::Partition { table_name, partition_key, blob } => (
            table_name,
            encoded(encode_utf8(partition_key)),
        ),
    };
    let front = table_entry(table_name);
    let name = item_entry(item).0;
    assert(name =~= front + "/"@ + rest);
    a_table_entry_is_one_segment(table_name);
    a_table_name_survives_the_archive(table_name);
    assert forall|i: int| 0 <= i < front.len() implies #[trigger] name[i] != '/' by {
        assert(name[i] == front[i]);
        assert(front.contains(front[i]));
    }
    assert(name[front.len() as int] == '/');
    lemma_first_slash_is(name, front.len() as int);
    assert(name.take(front.len() as int) =~= front);
    assert(name.skip(front.len() as int + 1) =~= rest);
    if let BackupItem::Partition { table_name: _, partition_key, blob: _ } = item {
        no_path_in_what_is_encoded(encode_utf8(partition_key));
        a_key_survives_encoding(partition_key);
        if rest == METADATA_ENTRY@ {
            assert(symbol_value(rest[0]) is Some);
        }
    }
}

/// A backup is read back as it was built: every table with its attributes and its
/// partitions, in the order they were added. `BackupZipBuilder::build` says for which
/// entries the bytes hold them.
pub proof fn a_backup_is_read_back(bytes: Seq<u8>, items: Seq<BackupItem>)
    requires
        holds_entries(bytes, item_entries(items)),
    ensures
        backup_tables(bytes) == Ok::<Seq<TableBackup>, Seq<char>>(item_tables(items)),
{
    lemma_items_are_read(bytes, items, items.len());
    assert(items.take(items.len() as int) =~= items);
}

proof fn lemma_items_are_read(bytes: Seq<u8>, items: Seq<BackupItem>, n: nat)
    requires
        holds_entries(bytes, item_entries(items)),
        n <= items.len(),
    ensures
        tables_in(bytes, n) == Ok::<Seq<TableBackup>, Seq<char>>(item_tables(items.take(n as int))),
    decreases n,
{
    if n > 0 {
        let index = (n - 1) as nat;
        lemma_items_are_read(bytes, items, index);
        let fewer = items.take(index as int);
        assert(items.take(n as int).drop_last() =~= fewer);
        assert(items.take(n as int).last() == items[index as int]);
        assert(item_entries(items)[index as int] == item_entry(items[index as int]));
        lemma_item_is_read(item_tables(fewer), items[index as int]);
    }
}

/// An entry whose name is not understood does not cost anything: whatever the other
/// entries are read as, with it they are read as the same.
pub proof fn an_unknown_entry_changes_nothing(
    tables: Seq<TableBackup>,
    name: Seq<char>,
    content: Seq<u8>,
)
    requires
        !is_understood(name),
    ensures
        with_entry(tables, name, content) == tables,
{
}

}
