//! The in-memory bookkeeping of the files backend.

use super::loaded_from_disk::{LoadedPartition, LoadedTableAttrs};
use super::page_scan::{
    file_bytes, find_file, is_corrupt, lemma_one_more_class, lemma_winners_recover, lists_disk,
    lists_free, next_version_after, resolve, scan_class, scanned_slots, PageFile, PlaceByPartition,
    ScannedSlot,
};
use super::size_class::{size_class_for, smallest_class_for, MAX_SIZE_CLASS, MIN_SIZE_CLASS};
use super::slot::{
    bytes_needed, encode_slot, keys_fit, slot_bytes, slot_bytes_needed, MAX_KEY_LEN,
};
use super::slot_book::{
    below, disk_without_all, fits, is_recovered, is_recovery, moved_index, partition_record,
    record_at, slots_on, ClassBook, Disk, PartitionName, SlotBook, SlotLocation, SlotMove,
};
use super::slot_laws::{
    a_compaction_pairs_up, compacting_keeps_order, deleting_keeps_order, lemma_free_count,
    lemma_slot_taken, removing_a_free_file_keeps_order, saving_keeps_order,
};
use super::slot_recovery::a_recovered_book_matches_the_disk;
use super::table_metadata_contract::TableMetadataFileContract;
use crate::hashed_list::HashedList;
use crate::text::{append_decimal, chars_of, decimal, text_before};
use crate::text_map::TextMap;
use ahash::AHashMap;
use std::collections::HashSet;
use vstd::prelude::*;

verus! {

/// Runtime state of one size-class page-file.
pub struct ClassState {
    /// Number of slots the file currently holds (file_len / size_class).
    pub slot_count: u64,
    /// Indices of freed slots available for reuse. In-memory only: a freed slot
    /// is self-describing on disk (`body_len == 0`), so the list is rebuilt by
    /// the recovery scan - nothing to persist.
    pub free: Vec<u64>,
}

pub type ClassList = HashedList<AHashMap<u32, usize>, ClassState>;

pub type PartitionIndex = HashedList<AHashMap<(String, String), usize>, SlotLocation>;

/// The in-memory bookkeeping of the files backend. Rebuilt entirely by scanning
/// the page-files on `load_all_partitions`, so nothing here needs to be a
/// crash-consistent on-disk structure besides the slots themselves.
///
/// Nothing here touches a file: what has to be written, zeroed, moved or removed
/// is handed to the caller, who does it.
pub struct FilesRepoInner {
    root: String,
    classes: ClassList,
    /// (table_name, partition_key) -> slot location.
    index: PartitionIndex,
    /// table_name -> attributes (mirrored to `<root>/tables.meta`).
    tables: TextMap<TableMetadataFileContract>,
    /// Monotonic per-write counter used as the slot `version` for crash-time
    /// duplicate resolution. Seeded above the max version seen on disk during
    /// the recovery scan, so it stays monotonic across restarts and never
    /// depends on the (non-monotonic) wall clock.
    next_version: u64,
}

/// A file found in the persistence root.
pub struct FoundFile {
    pub name: String,
    pub len: u64,
}

/// What writing a partition does to the page-files: one slot is written, and
/// then the slot the partition had before, if it had another one, is zeroed.
pub struct SavePlan {
    pub target: SlotLocation,
    pub bytes: Vec<u8>,
    pub freed: Option<SlotLocation>,
}

/// What a recovery scan found: the partitions, and the slots to zero because
/// another slot of the same partition won.
pub struct Recovery {
    pub partitions: Vec<LoadedPartition>,
    pub losers: Vec<SlotLocation>,
}

/// Why a recovery scan gave up.
pub enum RecoveryError {
    /// A slot is broken, and errors are not to be skipped.
    CorruptSlot(SlotLocation),
    /// A slot has the highest version there can be, so nothing can be written
    /// over it any more.
    VersionsExhausted,
}

/// One live slot which moves into a free slot at the head of its page-file.
pub struct PlannedMove {
    pub key: (String, String),
    pub from: u64,
    pub to: u64,
}

impl View for PlannedMove {
    type V = SlotMove;

    open spec fn view(&self) -> SlotMove {
        SlotMove { name: (self.key.0@, self.key.1@), from: self.from, to: self.to }
    }
}

/// What some planned moves say.
pub open spec fn moves_view(moves: Seq<PlannedMove>) -> Seq<SlotMove> {
    Seq::new(moves.len(), |i: int| moves[i]@)
}

/// Whether a partition with a payload of this length can be written.
pub open spec fn can_be_saved(book: SlotBook, name: PartitionName, payload_len: nat) -> bool {
    let needed = bytes_needed(name.0, name.1, payload_len);
    &&& keys_fit(name.0, name.1)
    &&& needed <= MAX_SIZE_CLASS
    &&& book.next_version < u64::MAX
    &&& book.has_room(smallest_class_for(needed) as u32)
}

/// What the states of page-files say.
pub open spec fn class_books(classes: Map<u32, ClassState>) -> Map<u32, ClassBook> {
    Map::new(
        |c: u32| classes.contains_key(c),
        |c: u32| ClassBook { slot_count: classes[c].slot_count as nat, free: classes[c].free@ },
    )
}

/// The number some digits stand for.
pub open spec fn digits_value(digits: Seq<char>) -> nat
    decreases digits.len(),
{
    if digits.len() == 0 {
        0
    } else {
        digits_value(digits.drop_last()) * 10 + (digits.last() as nat - '0' as nat) as nat
    }
}

/// Whether a text is made of digits and of nothing else.
pub open spec fn all_digits(text: Seq<char>) -> bool {
    text.len() > 0 && forall|i: int|
        0 <= i < text.len() ==> '0' <= #[trigger] text[i] && text[i] <= '9'
}

/// The digits of a number which may have a plus sign in front.
pub open spec fn unsigned_digits(text: Seq<char>) -> Seq<char> {
    if text.len() > 0 && text[0] == '+' {
        text.drop_first()
    } else {
        text
    }
}

/// The size class a file name stands for: the name of a page-file is a plain
/// integer, at least as large as the smallest class.
pub open spec fn class_of_file(name: Seq<char>) -> Option<u32> {
    let digits = unsigned_digits(name);
    if all_digits(digits) && MIN_SIZE_CLASS <= digits_value(digits) <= u32::MAX {
        Some(digits_value(digits) as u32)
    } else {
        None
    }
}

/// How many slots the page-files hold which were found.
pub open spec fn found_classes(files: Seq<FoundFile>) -> Map<u32, nat>
    decreases files.len(),
{
    if files.len() == 0 {
        Map::empty()
    } else {
        let before = found_classes(files.drop_last());
        match class_of_file(files.last().name@) {
            Some(c) => before.insert(c, files.last().len as nat / c as nat),
            None => before,
        }
    }
}

/// What some entries of `tables.meta` say, the later one of two with the same
/// name.
pub open spec fn named_tables(
    tables: Seq<(String, TableMetadataFileContract)>,
) -> Map<Seq<char>, TableMetadataFileContract>
    decreases tables.len(),
{
    if tables.len() == 0 {
        Map::empty()
    } else {
        named_tables(tables.drop_last()).insert(tables.last().0@, tables.last().1)
    }
}

/// The disk a scan looks at.
pub open spec fn scanned_disk(book: SlotBook, files: Seq<PageFile>) -> Disk {
    Map::new(
        |c: u32| book.classes.contains_key(c),
        |c: u32| scanned_slots(file_bytes(files, c), c, book.slot_count(c)),
    )
}

/// Whether these are the partitions of an index, each once, with what the disk
/// says of them.
pub open spec fn are_partitions(
    partitions: Seq<LoadedPartition>,
    disk: Disk,
    index: Map<PartitionName, SlotLocation>,
) -> bool {
    &&& forall|j: int|
        0 <= j < partitions.len() ==> {
            let name = ((#[trigger] partitions[j]).table_name@, partitions[j].partition_key@);
            &&& index.contains_key(name)
            &&& partitions[j].payload@ == record_at(disk, index[name])->0.payload
        }
    &&& forall|i: int, j: int|
        #![trigger partitions[i], partitions[j]]
        0 <= i < j < partitions.len() ==> partitions[i].table_name@ != partitions[j].table_name@
            || partitions[i].partition_key@ != partitions[j].partition_key@
    &&& forall|name: PartitionName| #[trigger]
        index.contains_key(name) ==> exists|j: int|
            0 <= j < partitions.len() && (#[trigger] partitions[j]).table_name@ == name.0
                && partitions[j].partition_key@ == name.1
}

/// The size class a file name stands for.
pub fn parse_class_name(name: &str) -> (r: Option<u32>)
    ensures
        r == class_of_file(name@),
{
    let chars = chars_of(name);
    let start: usize = if chars.len() > 0 && chars[0] == '+' {
        1
    } else {
        0
    };
    let ghost digits = unsigned_digits(name@);
    assert(digits =~= chars@.skip(start as int));
    if chars.len() == start {
        return None;
    }
    let mut value: u64 = 0;
    let mut fits = true;
    assert(digits.take(0) =~= Seq::<char>::empty());
    for i in start..chars.len()
        invariant
            chars@ == name@,
            start <= chars.len(),
            digits == unsigned_digits(name@),
            digits == chars@.skip(start as int),
            forall|j: int|
                0 <= j < i - start ==> '0' <= #[trigger] digits[j] && digits[j] <= '9',
            fits ==> value == digits_value(digits.take(i - start)) && value <= u32::MAX,
            !fits ==> digits_value(digits.take(i - start)) > u32::MAX,
    {
        let c: char = chars[i];
        assert(digits[i - start] == c);
        if !('0' <= c && c <= '9') {
            return None;
        }
        assert(digits.take(i + 1 - start).drop_last() =~= digits.take(i - start));
        if fits {
            value = value * 10 + (c as u32 - 48) as u64;
            fits = value <= u32::MAX as u64;
        }
    }
    assert(digits.take(digits.len() as int) =~= digits);
    if fits && value >= MIN_SIZE_CLASS as u64 {
        Some(value as u32)
    } else {
        None
    }
}

impl FilesRepoInner {
    /// What the page-files hold, and where.
    pub closed spec fn book(&self) -> SlotBook {
        SlotBook {
            classes: class_books(self.classes.map()),
            index: self.index.map(),
            next_version: self.next_version as nat,
        }
    }

    /// What `tables.meta` says.
    pub closed spec fn tables(&self) -> Map<Seq<char>, TableMetadataFileContract> {
        self.tables.map()
    }

    /// The folder everything is in.
    pub closed spec fn root(&self) -> Seq<char> {
        self.root@
    }

    closed spec fn lists_wf(&self) -> bool {
        self.classes.wf() && self.index.wf() && self.tables.wf()
    }

    /// The lists are in order, and so is the bookkeeping.
    pub closed spec fn wf(&self) -> bool {
        self.lists_wf() && self.book().wf()
    }

    /// What is in order is in order.
    pub proof fn book_is_in_order(&self)
        requires
            self.wf(),
        ensures
            self.book().wf(),
    {
    }

    /// The bookkeeping of a folder with these files in it, before anything is
    /// read out of them. Files whose name is not a plain integer (`tables.meta`)
    /// are not page-files and are skipped.
    pub fn open(
        root: String,
        tables: Vec<(String, TableMetadataFileContract)>,
        files: &Vec<FoundFile>,
    ) -> (r: Self)
        ensures
            r.wf(),
            r.book().is_fresh(),
            r.book().next_version == 0,
            r.book().classes.dom() == found_classes(files@).dom(),
            forall|c: u32| #[trigger]
                r.book().classes.contains_key(c) ==> r.book().classes[c].slot_count
                    == found_classes(files@)[c],
            r.tables() == named_tables(tables@),
            r.root() == root@,
    {
        let classes = discover_class_files(files);
        let index: PartitionIndex = HashedList::new();
        let mut named: TextMap<TableMetadataFileContract> = TextMap::new();
        for entry in it: tables
            invariant
                it.seq() == tables@,
                named.wf(),
                named.map() == named_tables(tables@.take(it.index() as int)),
                it.index() <= tables@.len(),
        {
            assert(tables@.take(it.index() + 1).drop_last() =~= tables@.take(it.index() as int));
            named.insert(entry.0, entry.1);
        }
        assert(tables@.take(tables@.len() as int) =~= tables@);
        let r = FilesRepoInner { root, classes, index, tables: named, next_version: 0 };
        proof {
            assert(r.book().index =~= Map::<PartitionName, SlotLocation>::empty());
            assert(r.book().classes.dom() =~= found_classes(files@).dom());
            assert forall|c: u32| #[trigger] r.book().classes.contains_key(c) implies r.book().class_wf(
                c,
            ) by {
                assert(r.classes.map().contains_key(c));
            }
        }
        r
    }

    /// Where the page-file of a class is.
    pub fn class_path(&self, size_class: u32) -> (r: String)
        ensures
            r@ == self.root() + "/"@ + decimal(size_class as nat),
    {
        let mut path = self.root.clone();
        path.append("/");
        append_decimal(&mut path, size_class as u128);
        path
    }
}

/// Whether the states of page-files are those of files just found.
spec fn are_found(classes: Map<u32, ClassState>, found: Map<u32, nat>) -> bool {
    &&& classes.dom() == found.dom()
    &&& forall|c: u32| #[trigger]
        classes.contains_key(c) ==> {
            &&& classes[c].slot_count == found[c]
            &&& classes[c].free@.len() == 0
            &&& MIN_SIZE_CLASS <= c
            &&& classes[c].slot_count * c <= u64::MAX
        }
}

/// Records every page-file's slot count. Files whose name is not a plain integer
/// (`tables.meta`) are not page-files and are skipped.
fn discover_class_files(files: &Vec<FoundFile>) -> (r: ClassList)
    ensures
        r.wf(),
        are_found(r.map(), found_classes(files@)),
{
    let mut classes: ClassList = HashedList::new();
    assert(files@.take(0) =~= Seq::<FoundFile>::empty());
    assert(classes.map().dom() =~= found_classes(files@.take(0)).dom());
    for i in 0..files.len()
        invariant
            classes.wf(),
            are_found(classes.map(), found_classes(files@.take(i as int))),
    {
        let file = &files[i];
        let ghost before = classes.map();
        assert(files@.take(i + 1).drop_last() =~= files@.take(i as int));
        if let Some(c) = parse_class_name(file.name.as_str()) {
            let slot_count: u64 = file.len / c as u64;
            proof {
                lemma_slots_fit(file.len as nat, c as nat);
            }
            classes.insert(c, ClassState { slot_count, free: Vec::new() });
            proof {
                assert(classes.map().dom() =~= found_classes(files@.take(i + 1)).dom());
                assert forall|d: u32| #[trigger] classes.map().contains_key(d) implies {
                    &&& classes.map()[d].slot_count == found_classes(files@.take(i + 1))[d]
                    &&& classes.map()[d].free@.len() == 0
                    &&& MIN_SIZE_CLASS <= d
                    &&& classes.map()[d].slot_count * d <= u64::MAX
                } by {
                    if d != c {
                        assert(before.contains_key(d));
                    }
                }
            }
        }
    }
    assert(files@.take(files@.len() as int) =~= files@);
    classes
}

proof fn lemma_slots_fit(len: nat, size: nat)
    requires
        size > 0,
    ensures
        (len / size) * size <= len,
{
    vstd::arithmetic::div_mod::lemma_fundamental_div_mod(len as int, size as int);
    assert((len / size) * size == size * (len / size)) by (nonlinear_arith);
}

/// What the states of page-files say once one of them changed.
proof fn lemma_class_books(
    before: Map<u32, ClassState>,
    after: Map<u32, ClassState>,
    c: u32,
    state: ClassState,
)
    requires
        after == before.insert(c, state),
    ensures
        class_books(after) == class_books(before).insert(
            c,
            (ClassBook { slot_count: state.slot_count as nat, free: state.free@ }),
        ),
{
    assert(class_books(after) =~= class_books(before).insert(
        c,
        ClassBook { slot_count: state.slot_count as nat, free: state.free@ },
    ));
}

impl FilesRepoInner {
    /// Reserves a slot index in `size_class`, reusing a freed one when
    /// available, otherwise extending the file by one slot.
    fn allocate_slot(&mut self, size_class: u32) -> (r: SlotLocation)
        requires
            old(self).wf(),
            MIN_SIZE_CLASS <= size_class,
            old(self).book().has_room(size_class),
        ensures
            final(self).wf(),
            r == old(self).book().next_slot(size_class),
            final(self).book() == old(self).book().with_slot_taken(size_class),
            final(self).index == old(self).index,
            final(self).tables == old(self).tables,
            final(self).root == old(self).root,
            final(self).next_version == old(self).next_version,
    {
        let ghost before = self.book();
        let ghost was = self.classes.map();
        proof {
            lemma_slot_taken(before, size_class);
        }
        let mut state = match self.classes.remove(&size_class) {
            Some(state) => state,
            None => ClassState { slot_count: 0, free: Vec::new() },
        };
        assert(state.slot_count == before.slot_count(size_class));
        assert(state.free@ == before.free_of(size_class));
        let slot_index: u64 = match state.free.pop() {
            Some(slot_index) => slot_index,
            None => {
                let slot_index: u64 = state.slot_count;
                proof {
                    assert(state.slot_count < u64::MAX) by (nonlinear_arith)
                        requires
                            (state.slot_count + 1) * size_class <= u64::MAX,
                            size_class >= 512,
                    ;
                }
                state.slot_count = slot_index + 1;
                slot_index
            },
        };
        self.classes.insert(size_class, state);
        proof {
            assert(self.classes.map() =~= was.insert(size_class, state));
            lemma_class_books(was, self.classes.map(), size_class, state);
            let taken = before.with_slot_taken(size_class);
            assert(state.free@ =~= taken.classes[size_class].free);
            assert(self.book() =~= taken);
        }
        SlotLocation { size_class, slot_index }
    }

    /// Puts a slot back among those which can be reused.
    fn free_slot(&mut self, location: SlotLocation)
        requires
            old(self).lists_wf(),
            old(self).book().classes.contains_key(location.size_class),
        ensures
            final(self).lists_wf(),
            final(self).book() == old(self).book().with_slot_freed(location),
            final(self).index == old(self).index,
            final(self).tables == old(self).tables,
            final(self).root == old(self).root,
            final(self).next_version == old(self).next_version,
    {
        let ghost before = self.book();
        let ghost was = self.classes.map();
        assert(self.classes.has(location.size_class));
        if let Some(state) = self.classes.remove(&location.size_class) {
            let mut state = state;
            state.free.push(location.slot_index);
            self.classes.insert(location.size_class, state);
            proof {
                assert(self.classes.map() =~= was.insert(location.size_class, state));
                lemma_class_books(was, self.classes.map(), location.size_class, state);
                assert(self.book() =~= before.with_slot_freed(location));
            }
        }
    }

    /// Whether a partition with a payload of this length can be written: its keys
    /// have to fit into a slot header, the whole of it into the largest slot there
    /// is, and there has to be a version and a slot left.
    pub fn can_save_partition(&self, table_name: &str, partition_key: &str, payload_len: usize) -> (r:
        bool)
        requires
            self.wf(),
        ensures
            r == can_be_saved(self.book(), (table_name@, partition_key@), payload_len as nat),
    {
        let limit: usize = MAX_SIZE_CLASS as usize;
        if table_name.as_bytes().len() > MAX_KEY_LEN || partition_key.as_bytes().len()
            > MAX_KEY_LEN || payload_len > limit || self.next_version == u64::MAX {
            return false;
        }
        let needed: usize = slot_bytes_needed(table_name, partition_key, payload_len);
        if needed > limit {
            return false;
        }
        let size_class: u32 = size_class_for(needed);
        match self.classes.get(&size_class) {
            Some(state) => {
                assert(self.book().classes.contains_key(size_class));
                let slots: u128 = state.slot_count as u128 + 1;
                assert(slots * size_class <= u128::MAX) by (nonlinear_arith)
                    requires
                        slots <= 0x1_0000_0000_0000_0000,
                        size_class <= 0xffff_ffff,
                ;
                assert(slots * size_class == (self.book().slot_count(size_class) + 1) * size_class);
                state.free.len() > 0 || slots * size_class as u128 <= u64::MAX as u128
            },
            None => {
                assert((self.book().slot_count(size_class) + 1) * size_class <= u64::MAX)
                    by (nonlinear_arith)
                    requires
                        self.book().slot_count(size_class) == 0,
                        size_class <= 0xffff_ffff,
                ;
                true
            },
        }
    }

    /// Gives a partition a slot and says what to write into it. It stays where it
    /// is when the size class is unchanged, otherwise it gets another slot and the
    /// one it had is given up.
    pub fn save_partition(&mut self, table_name: &str, partition_key: &str, payload: &[u8]) -> (r:
        SavePlan)
        requires
            old(self).wf(),
            can_be_saved(old(self).book(), (table_name@, partition_key@), payload@.len()),
        ensures
            final(self).wf(),
            ({
                let name = (table_name@, partition_key@);
                let needed = bytes_needed(table_name@, partition_key@, payload@.len());
                let c = smallest_class_for(needed) as u32;
                &&& MIN_SIZE_CLASS <= c && needed <= c
                &&& final(self).book() == old(self).book().saved(name, c)
                &&& r.target == old(self).book().save_target(name, c)
                &&& r.freed == old(self).book().save_freed(name, c)
                &&& r.bytes@ == slot_bytes(
                    c as nat,
                    partition_record(name, old(self).book().next_version, payload@),
                )
            }),
            final(self).tables() == old(self).tables(),
            final(self).root() == old(self).root(),
    {
        let ghost book = self.book();
        let ghost name = (table_name@, partition_key@);
        let needed: usize = slot_bytes_needed(table_name, partition_key, payload.len());
        let size_class: u32 = size_class_for(needed);
        proof {
            saving_keeps_order(book, name, size_class);
        }
        let key = (table_name.to_owned(), partition_key.to_owned());
        let version: u64 = self.next_version;
        let existing: Option<SlotLocation> = match self.index.get(&key) {
            Some(location) => Some(*location),
            None => None,
        };
        let target: SlotLocation = match existing {
            Some(location) => if location.size_class == size_class {
                location
            } else {
                self.allocate_slot(size_class)
            },
            None => self.allocate_slot(size_class),
        };
        let ghost taken = self.book();
        self.next_version = version + 1;
        self.index.insert(key, target);
        assert(self.book() =~= taken.with_partition_at(name, target));
        let bytes = encode_slot(size_class, version, table_name, partition_key, payload);
        let freed: Option<SlotLocation> = match existing {
            Some(old_location) => if old_location != target {
                proof {
                    book.book_has_class(name);
                }
                self.free_slot(old_location);
                Some(old_location)
            } else {
                None
            },
            None => None,
        };
        SavePlan { target, bytes, freed }
    }

    /// Takes a partition out and says which slot to zero, if it had one.
    pub fn delete_partition(&mut self, table_name: &str, partition_key: &str) -> (r: Option<
        SlotLocation,
    >)
        requires
            old(self).wf(),
        ensures
            final(self).wf(),
            final(self).book() == old(self).book().deleted((table_name@, partition_key@)),
            r == (if old(self).book().index.contains_key((table_name@, partition_key@)) {
                Some(old(self).book().index[(table_name@, partition_key@)])
            } else {
                None
            }),
            final(self).tables() == old(self).tables(),
            final(self).root() == old(self).root(),
    {
        let ghost book = self.book();
        let ghost name = (table_name@, partition_key@);
        proof {
            deleting_keeps_order(book, name);
        }
        let key = (table_name.to_owned(), partition_key.to_owned());
        match self.index.remove(&key) {
            Some(location) => {
                proof {
                    book.book_has_class(name);
                }
                self.free_slot(location);
                Some(location)
            },
            None => {
                assert(book.index.remove(name) =~= book.index);
                None
            },
        }
    }

    /// Says of a table what goes into `tables.meta`.
    pub fn save_table_metadata(&mut self, table_name: &str, contract: TableMetadataFileContract)
        requires
            old(self).wf(),
        ensures
            final(self).wf(),
            final(self).tables() == old(self).tables().insert(table_name@, contract),
            final(self).book() == old(self).book(),
            final(self).root() == old(self).root(),
    {
        self.tables.insert(table_name.to_owned(), contract);
    }

    /// Takes a table out of `tables.meta`, and says whether that changed
    /// anything.
    pub fn delete_table_metadata(&mut self, table_name: &str) -> (r: bool)
        requires
            old(self).wf(),
        ensures
            final(self).wf(),
            r == old(self).tables().contains_key(table_name@),
            final(self).tables() == old(self).tables().remove(table_name@),
            final(self).book() == old(self).book(),
            final(self).root() == old(self).root(),
    {
        self.tables.remove(table_name)
    }

    /// What `tables.meta` says, in the order of the table names.
    pub fn get_tables(&self) -> (r: Vec<LoadedTableAttrs>)
        requires
            self.wf(),
        ensures
            forall|i: int|
                0 <= i < r@.len() ==> self.tables().contains_key((#[trigger] r@[i]).table_name@)
                    && r@[i].attr.same_as(&self.tables()[r@[i].table_name@]),
            forall|i: int, j: int|
                #![trigger r@[i], r@[j]]
                0 <= i < j < r@.len() ==> text_before(r@[i].table_name@, r@[j].table_name@),
            forall|name: Seq<char>| #[trigger]
                self.tables().contains_key(name) ==> exists|i: int|
                    0 <= i < r@.len() && (#[trigger] r@[i]).table_name@ == name,
    {
        let mut r: Vec<LoadedTableAttrs> = Vec::new();
        let count: usize = self.tables.len();
        for i in 0..count
            invariant
                count == self.tables.entries().len(),
                self.tables.wf(),
                r@.len() == i,
                forall|j: int|
                    0 <= j < i ==> (#[trigger] r@[j]).table_name@ == self.tables.entries()[j].0@
                        && r@[j].attr.same_as(&self.tables.entries()[j].1),
        {
            r.push(
                LoadedTableAttrs {
                    table_name: self.tables.name_at(i).clone(),
                    attr: self.tables.value_at(i).copy(),
                },
            );
        }
        proof {
            assert forall|i: int| 0 <= i < r@.len() implies self.tables().contains_key(
                (#[trigger] r@[i]).table_name@,
            ) && r@[i].attr.same_as(&self.tables()[r@[i].table_name@]) by {
                self.tables.entry_is_in_map(i);
            }
            assert forall|i: int, j: int|
                #![trigger r@[i], r@[j]]
                0 <= i < j < r@.len() implies text_before(
                r@[i].table_name@,
                r@[j].table_name@,
            ) by {
                assert(text_before(
                    self.tables.entries()[i].0@,
                    self.tables.entries()[j].0@,
                ));
            }
            assert forall|name: Seq<char>| #[trigger] self.tables().contains_key(name) implies exists|
                i: int,
            | 0 <= i < r@.len() && (#[trigger] r@[i]).table_name@ == name by {
                let i = self.tables.place_of(name);
                assert(self.tables.entries()[i].0@ == name);
                assert(r@[i].table_name@ == name);
            }
        }
        r
    }

    /// Forgets everything: the folder is about to be removed, and a repo which
    /// somehow gets used again finds nothing rather than pointing at files that
    /// are not there.
    pub fn delete_everything(&mut self)
        requires
            old(self).wf(),
        ensures
            final(self).wf(),
            final(self).book().classes == Map::<u32, ClassBook>::empty(),
            final(self).book().index == Map::<PartitionName, SlotLocation>::empty(),
            final(self).book().next_version == old(self).book().next_version,
            final(self).tables() == Map::<Seq<char>, TableMetadataFileContract>::empty(),
            final(self).root() == old(self).root(),
    {
        self.index = HashedList::new();
        self.classes = HashedList::new();
        self.tables = TextMap::new();
        assert(self.book().classes =~= Map::<u32, ClassBook>::empty());
        assert(self.book().index =~= Map::<PartitionName, SlotLocation>::empty());
    }
}

/// Whether every slot below the count is in the list.
fn all_free(slot_count: u64, free: &Vec<u64>) -> (r: bool)
    ensures
        r == (forall|i: u64| i < slot_count ==> #[trigger] free@.contains(i)),
{
    broadcast use vstd::std_specs::hash::group_hash_axioms;

    let mut known: HashSet<u64> = HashSet::new();
    for k in 0..free.len()
        invariant
            forall|i: u64| #[trigger] known@.contains(i) <==> free@.take(k as int).contains(i),
    {
        let ghost before = known@;
        known.insert(free[k]);
        proof {
            assert(free@.take(k + 1) =~= free@.take(k as int).push(free@[k as int]));
            assert forall|i: u64| #[trigger] known@.contains(i) <==> free@.take(k + 1).contains(
                i,
            ) by {
                let shorter = free@.take(k as int);
                let longer = free@.take(k + 1);
                if shorter.contains(i) {
                    let j = choose|j: int| 0 <= j < shorter.len() && shorter[j] == i;
                    assert(longer[j] == i);
                }
                if i == free@[k as int] {
                    assert(longer[k as int] == i);
                }
                if longer.contains(i) && i != free@[k as int] {
                    let j = choose|j: int| 0 <= j < longer.len() && longer[j] == i;
                    assert(shorter[j] == i);
                }
                assert(known@.contains(i) <==> before.contains(i) || i == free@[k as int]);
            }
        }
    }
    assert(free@.take(free@.len() as int) =~= free@);
    for i in 0..slot_count
        invariant
            forall|j: u64| #[trigger] known@.contains(j) <==> free@.contains(j),
            forall|j: u64| j < i ==> #[trigger] free@.contains(j),
    {
        if !known.contains(&i) {
            assert(!free@.contains(i));
            return false;
        }
    }
    true
}

/// The slots of a list which stand below an end.
fn list_below(slots: &Vec<u64>, end: u64) -> (r: Vec<u64>)
    ensures
        r@ == below(slots@, end as nat),
{
    let mut r: Vec<u64> = Vec::new();
    assert(slots@.take(0) =~= Seq::<u64>::empty());
    for i in 0..slots.len()
        invariant
            r@ == below(slots@.take(i as int), end as nat),
    {
        assert(slots@.take(i + 1).drop_last() =~= slots@.take(i as int));
        if slots[i] < end {
            r.push(slots[i]);
        }
    }
    assert(slots@.take(slots@.len() as int) =~= slots@);
    r
}

impl FilesRepoInner {
    /// The size classes there are page-files of.
    pub fn class_sizes(&self) -> (r: Vec<u32>)
        requires
            self.wf(),
        ensures
            r@.no_duplicates(),
            forall|c: u32| #[trigger]
                r@.contains(c) <==> self.book().classes.contains_key(c),
    {
        let mut r: Vec<u32> = Vec::new();
        let count: usize = self.classes.len();
        for i in 0..count
            invariant
                count == self.classes.entries().len(),
                self.classes.wf(),
                r@.len() == i,
                forall|j: int| 0 <= j < i ==> #[trigger] r@[j] == self.classes.name_at(j),
        {
            r.push(*self.classes.key_at(i));
        }
        proof {
            self.classes.keys_differ();
            assert forall|i: int, j: int| 0 <= i < r@.len() && 0 <= j < r@.len() && i != j implies
                r@[i] != r@[j] by {
                assert(self.classes.name_at(i) != self.classes.name_at(j));
            }
            assert forall|c: u32| #[trigger] r@.contains(c) <==> self.book().classes.contains_key(
                c,
            ) by {
                if r@.contains(c) {
                    let j = choose|j: int| 0 <= j < r@.len() && r@[j] == c;
                    self.classes.entry_is_in_map(j);
                }
                if self.classes.has(c) {
                    let j = self.classes.place_of(c);
                    assert(r@[j] == c);
                }
            }
        }
        r
    }

    /// The page-files whose every slot is free: they are fully dead, so the
    /// `<size>` file can be removed; a future write to that size class recreates
    /// the file from scratch.
    pub fn fully_free_classes(&self) -> (r: Vec<u32>)
        requires
            self.wf(),
        ensures
            r@.no_duplicates(),
            forall|c: u32| #[trigger] r@.contains(c) <==> self.book().is_fully_free(c),
    {
        let mut r: Vec<u32> = Vec::new();
        let ghost mut places: Seq<int> = Seq::empty();
        let count: usize = self.classes.len();
        for i in 0..count
            invariant
                count == self.classes.entries().len(),
                self.classes.wf(),
                listed_at(r@, places, self.classes, i as int),
                forall|j: int|
                    0 <= j < i ==> (places.contains(j) <==> self.book().is_fully_free(
                        #[trigger] self.classes.name_at(j),
                    )),
        {
            let state = self.classes.value_at(i);
            let c: u32 = *self.classes.key_at(i);
            proof {
                self.classes.entry_is_in_map(i as int);
                assert(self.book().classes.contains_key(c));
            }
            let ghost before = places;
            let dead = state.slot_count > 0 && all_free(state.slot_count, &state.free);
            proof {
                let class = self.book().classes[c];
                assert(class.slot_count == state.slot_count && class.free == state.free@);
                assert(dead == self.book().is_fully_free(c));
            }
            if dead {
                r.push(c);
                proof {
                    places = places.push(i as int);
                    assert(places[before.len() as int] == i);
                }
            }
            proof {
                lemma_listed_grows(before, places, i as int);
            }
        }
        proof {
            lemma_listed(r@, places, self.classes, count as int);
            assert forall|c: u32| #[trigger] r@.contains(c) <==> self.book().is_fully_free(c) by {
                if self.book().is_fully_free(c) {
                    assert(self.classes.has(c));
                    let j = self.classes.place_of(c);
                    assert(self.classes.name_at(j) == c);
                }
            }
        }
        r
    }

    /// Forgets a page-file which was removed.
    pub fn drop_class(&mut self, size_class: u32)
        requires
            old(self).wf(),
            old(self).book().is_fully_free(size_class),
        ensures
            final(self).wf(),
            final(self).book() == old(self).book().without_class(size_class),
            final(self).tables() == old(self).tables(),
            final(self).root() == old(self).root(),
    {
        let ghost book = self.book();
        proof {
            removing_a_free_file_keeps_order(book, size_class);
        }
        self.classes.remove(&size_class);
        assert(self.book().classes =~= book.without_class(size_class).classes);
    }

    /// The page-files worth compacting. Fully-free ones are not: their file is
    /// to be removed, and if that failed, compacting them would just re-hit the
    /// same broken file.
    pub fn compact_candidates(&self) -> (r: Vec<u32>)
        requires
            self.wf(),
        ensures
            r@.no_duplicates(),
            forall|c: u32| #[trigger] r@.contains(c) <==> self.book().is_worth_compacting(c),
    {
        let mut r: Vec<u32> = Vec::new();
        let ghost mut places: Seq<int> = Seq::empty();
        let count: usize = self.classes.len();
        for i in 0..count
            invariant
                count == self.classes.entries().len(),
                self.classes.wf(),
                listed_at(r@, places, self.classes, i as int),
                forall|j: int|
                    0 <= j < i ==> (places.contains(j) <==> self.book().is_worth_compacting(
                        #[trigger] self.classes.name_at(j),
                    )),
        {
            let state = self.classes.value_at(i);
            let c: u32 = *self.classes.key_at(i);
            proof {
                self.classes.entry_is_in_map(i as int);
                assert(self.book().classes.contains_key(c));
            }
            let free: u64 = state.free.len() as u64;
            let ghost before = places;
            if state.slot_count > 2 && free < state.slot_count && free >= state.slot_count - free {
                r.push(c);
                proof {
                    places = places.push(i as int);
                    assert(places[before.len() as int] == i);
                }
            }
            proof {
                lemma_listed_grows(before, places, i as int);
            }
        }
        proof {
            lemma_listed(r@, places, self.classes, count as int);
            assert forall|c: u32| #[trigger] r@.contains(c) <==> self.book().is_worth_compacting(
                c,
            ) by {
                if self.book().is_worth_compacting(c) {
                    assert(self.classes.has(c));
                    let j = self.classes.place_of(c);
                    assert(self.classes.name_at(j) == c);
                }
            }
        }
        r
    }
}

/// Whether these are the classes at some places of the list below an end.
spec fn listed_at(listed: Seq<u32>, places: Seq<int>, classes: ClassList, end: int) -> bool {
    &&& listed.len() == places.len()
    &&& places.no_duplicates()
    &&& forall|k: int|
        0 <= k < places.len() ==> 0 <= #[trigger] places[k] < end && listed[k] == classes.name_at(
            places[k],
        )
}

proof fn lemma_listed_grows(before: Seq<int>, after: Seq<int>, i: int)
    requires
        before.no_duplicates(),
        forall|k: int| 0 <= k < before.len() ==> 0 <= #[trigger] before[k] < i,
        after == before || after == before.push(i),
    ensures
        after.no_duplicates(),
        forall|j: int| j != i ==> (#[trigger] after.contains(j) <==> before.contains(j)),
        after == before ==> !after.contains(i),
        after == before.push(i) ==> after.contains(i),
{
    if after == before.push(i) {
        assert(after[before.len() as int] == i);
        assert forall|j: int| j != i implies (#[trigger] after.contains(j) <==> before.contains(
            j,
        )) by {
            if before.contains(j) {
                let k = choose|k: int| 0 <= k < before.len() && before[k] == j;
                assert(after[k] == j);
            }
            if after.contains(j) {
                let k = choose|k: int| 0 <= k < after.len() && after[k] == j;
                assert(before[k] == j);
            }
        }
    }
}

proof fn lemma_listed(listed: Seq<u32>, places: Seq<int>, classes: ClassList, end: int)
    requires
        classes.wf(),
        end == classes.entries().len(),
        listed_at(listed, places, classes, end),
    ensures
        listed.no_duplicates(),
        forall|c: u32| #[trigger]
            listed.contains(c) <==> exists|j: int|
                0 <= j < end && places.contains(j) && #[trigger] classes.name_at(j) == c,
{
    classes.keys_differ();
    assert forall|i: int, j: int|
        0 <= i < listed.len() && 0 <= j < listed.len() && i != j implies listed[i]
        != listed[j] by {
        assert(places[i] != places[j]);
        assert(classes.name_at(places[i]) != classes.name_at(places[j]));
    }
    assert forall|c: u32| #[trigger] listed.contains(c) <==> exists|j: int|
        0 <= j < end && places.contains(j) && #[trigger] classes.name_at(j) == c by {
        if listed.contains(c) {
            let k = choose|k: int| 0 <= k < listed.len() && listed[k] == c;
            assert(places.contains(places[k]));
            assert(classes.name_at(places[k]) == c);
        }
        if exists|j: int| 0 <= j < end && places.contains(j) && #[trigger] classes.name_at(j) == c {
            let j = choose|j: int|
                0 <= j < end && places.contains(j) && #[trigger] classes.name_at(j) == c;
            let k = choose|k: int| 0 <= k < places.len() && places[k] == j;
            assert(listed[k] == c);
        }
    }
}

/// The partitions at or beyond the new end of a page-file.
pub open spec fn tail_lives(book: SlotBook, c: u32) -> Set<PartitionName> {
    Set::new(|name: PartitionName| book.is_tail_live(c, name))
}

/// Whether a partition stands below a place of the index.
spec fn stands_below(index: PartitionIndex, name: PartitionName, n: int) -> bool {
    exists|p: int| 0 <= p < n && #[trigger] index.name_at(p) == name
}

/// Whether these moves start at every partition beyond the new end, each once.
spec fn lists_tails(moves: Seq<PlannedMove>, book: SlotBook, c: u32, index: PartitionIndex, n: int) -> bool {
    &&& forall|k: int|
        0 <= k < moves.len() ==> book.is_tail_live(c, (#[trigger] moves[k])@.name)
            && book.index[moves[k]@.name].slot_index == moves[k].from
    &&& forall|i: int, j: int|
        #![trigger moves[i], moves[j]]
        0 <= i < j < moves.len() ==> moves[i]@.name != moves[j]@.name
    &&& forall|p: int|
        0 <= p < n ==> (book.is_tail_live(c, #[trigger] index.name_at(p)) <==> exists|k: int|
            0 <= k < moves.len() && (#[trigger] moves[k])@.name == index.name_at(p))
}

impl FilesRepoInner {
    /// How to compact a half-empty page-file: every live slot sitting beyond the
    /// new end of file is to be copied verbatim (crc and version included, so the
    /// copy is valid by construction) into a free slot at the head, the copies are
    /// to be synced, and the file is to be truncated to exactly its live slots.
    ///
    /// Crash safety, in copy-sync-truncate order: a torn copy fails its crc on
    /// the next scan and is skipped while the original tail slot still holds the
    /// data; a completed copy that crashes before the truncate leaves two valid
    /// slots with the SAME version - the head copy is scanned first and wins the
    /// dedup, the tail original is zeroed as the loser.
    ///
    /// There is no plan where the live slots beyond the new end and the free slots
    /// below it do not pair up; they do where every slot is either free or has a
    /// partition in it.
    pub fn plan_compaction(&self, size_class: u32) -> (r: Option<Vec<PlannedMove>>)
        requires
            self.wf(),
            self.book().classes.contains_key(size_class),
        ensures
            r is Some <==> tail_lives(self.book(), size_class).len() == self.book().head_frees(
                size_class,
            ).len(),
            r matches Some(moves) ==> self.book().is_compaction(size_class, moves_view(moves@)),
            self.book().is_complete() ==> r is Some,
    {
        let ghost book = self.book();
        let mut moves: Vec<PlannedMove> = Vec::new();
        assert(self.classes.has(size_class));
        let (live_count, head_frees) = match self.classes.get(&size_class) {
            Some(state) => {
                proof {
                    lemma_free_count(book, size_class);
                }
                let live_count: u64 = state.slot_count - state.free.len() as u64;
                (live_count, list_below(&state.free, live_count))
            },
            None => (0, Vec::new()),
        };
        assert(live_count == book.live_count(size_class));
        assert(head_frees@ == book.head_frees(size_class));
        let count: usize = self.index.len();
        for i in 0..count
            invariant
                count == self.index.entries().len(),
                self.index.wf(),
                book == self.book(),
                live_count == book.live_count(size_class),
                lists_tails(moves@, book, size_class, self.index, i as int),
                forall|k: int|
                    0 <= k < moves@.len() ==> stands_below(
                        self.index,
                        (#[trigger] moves@[k])@.name,
                        i as int,
                    ),
        {
            let location = self.index.value_at(i);
            let key = self.index.key_at(i);
            let ghost before = moves@;
            let ghost name = self.index.name_at(i as int);
            proof {
                self.index.entry_is_in_map(i as int);
                self.index.keys_differ();
                assert(book.index.contains_key(name));
                assert(book.index[name] == *location);
            }
            if location.size_class == size_class && location.slot_index >= live_count {
                moves.push(
                    PlannedMove {
                        key: (key.0.clone(), key.1.clone()),
                        from: location.slot_index,
                        to: 0,
                    },
                );
                assert(moves@.last()@.name == name);
            }
            proof {
                lemma_tails_grow(before, moves@, book, size_class, self.index, i as int);
            }
        }
        proof {
            let tails = Seq::new(moves@.len(), |k: int| moves@[k]@.name);
            assert forall|name: PartitionName| #[trigger] tails.contains(name) <==> book.is_tail_live(
                size_class,
                name,
            ) by {
                if tails.contains(name) {
                    let k = choose|k: int| 0 <= k < tails.len() && tails[k] == name;
                    assert(moves@[k]@.name == name);
                }
                if book.is_tail_live(size_class, name) {
                    assert(self.index.has(name));
                    let p = self.index.place_of(name);
                    assert(self.index.name_at(p) == name);
                    let k = choose|k: int|
                        0 <= k < moves@.len() && (#[trigger] moves@[k])@.name == name;
                    assert(tails[k] == name);
                }
            }
            assert(tails.no_duplicates()) by {
                assert forall|i: int, j: int|
                    0 <= i < tails.len() && 0 <= j < tails.len() && i != j implies tails[i]
                    != tails[j] by {
                    if i < j {
                        assert(moves@[i]@.name != moves@[j]@.name);
                    } else {
                        assert(moves@[j]@.name != moves@[i]@.name);
                    }
                }
            }
            assert(tails.to_set() =~= tail_lives(book, size_class));
            tails.unique_seq_to_set();
            if book.is_complete() {
                a_compaction_pairs_up(book, size_class, tails);
            }
        }
        if moves.len() != head_frees.len() {
            return None;
        }
        let ghost planned = moves@;
        for k in 0..head_frees.len()
            invariant
                moves@.len() == planned.len() == head_frees@.len(),
                forall|j: int|
                    0 <= j < planned.len() ==> (#[trigger] moves@[j])@.name == planned[j]@.name
                        && moves@[j].from == planned[j].from,
                forall|j: int| 0 <= j < k ==> (#[trigger] moves@[j]).to == head_frees@[j],
        {
            moves[k].to = head_frees[k];
        }
        proof {
            let view = moves_view(moves@);
            assert forall|j: int| 0 <= j < view.len() implies {
                &&& (#[trigger] view[j]).to == book.head_frees(size_class)[j]
                &&& book.index.contains_key(view[j].name)
                &&& book.index[view[j].name] == SlotLocation {
                    size_class,
                    slot_index: view[j].from,
                }
                &&& book.live_count(size_class) <= view[j].from
            } by {
                assert(moves@[j]@.name == planned[j]@.name);
                assert(book.is_tail_live(size_class, planned[j]@.name));
            }
            assert forall|i: int, j: int|
                #![trigger view[i], view[j]]
                0 <= i < j < view.len() implies view[i].name != view[j].name by {
                assert(moves@[i]@.name == planned[i]@.name);
                assert(moves@[j]@.name == planned[j]@.name);
            }
            assert forall|name: PartitionName| #[trigger]
                book.is_tail_live(size_class, name) implies exists|j: int|
                0 <= j < view.len() && (#[trigger] view[j]).name == name by {
                assert(self.index.has(name));
                let p = self.index.place_of(name);
                assert(self.index.name_at(p) == name);
                let k = choose|k: int|
                    0 <= k < planned.len() && (#[trigger] planned[k])@.name == name;
                assert(moves@[k]@.name == planned[k]@.name);
                assert(view[k].name == name);
            }
        }
        Some(moves)
    }

    /// How many slots of a page-file are live: as many as it has once it is
    /// compacted.
    pub fn live_slots(&self, size_class: u32) -> (r: u64)
        requires
            self.wf(),
            self.book().classes.contains_key(size_class),
        ensures
            r == self.book().live_count(size_class),
    {
        assert(self.classes.has(size_class));
        match self.classes.get(&size_class) {
            Some(state) => {
                proof {
                    lemma_free_count(self.book(), size_class);
                }
                state.slot_count - state.free.len() as u64
            },
            None => 0,
        }
    }

    /// The page-file is compacted: the partitions which moved are found in their
    /// new slots, and the file has no free slots any more.
    pub fn finish_compaction(&mut self, size_class: u32, moves: &Vec<PlannedMove>)
        requires
            old(self).wf(),
            old(self).book().classes.contains_key(size_class),
            old(self).book().is_compaction(size_class, moves_view(moves@)),
        ensures
            final(self).wf(),
            final(self).book() == old(self).book().compacted(size_class, moves_view(moves@)),
            final(self).tables() == old(self).tables(),
            final(self).root() == old(self).root(),
    {
        let ghost book = self.book();
        let ghost view = moves_view(moves@);
        let ghost was = self.classes.map();
        proof {
            compacting_keeps_order(book, size_class, view);
            lemma_free_count(book, size_class);
            assert(self.classes.has(size_class));
            assert(view.take(0) =~= Seq::<SlotMove>::empty());
        }
        for k in 0..moves.len()
            invariant
                self.index.wf(),
                view == moves_view(moves@),
                self.index.map() == moved_index(book.index, size_class, view.take(k as int)),
                self.classes == old(self).classes,
                self.tables == old(self).tables,
                self.root == old(self).root,
                self.next_version == old(self).next_version,
        {
            let step = &moves[k];
            assert(view.take(k + 1).drop_last() =~= view.take(k as int));
            assert(view.take(k + 1).last() == step@);
            self.index.insert(
                (step.key.0.clone(), step.key.1.clone()),
                SlotLocation { size_class, slot_index: step.to },
            );
        }
        assert(view.take(view.len() as int) =~= view);
        if let Some(state) = self.classes.remove(&size_class) {
            let live_count: u64 = state.slot_count - state.free.len() as u64;
            let state = ClassState { slot_count: live_count, free: Vec::new() };
            self.classes.insert(size_class, state);
            proof {
                assert(self.classes.map() =~= was.insert(size_class, state));
                lemma_class_books(was, self.classes.map(), size_class, state);
                assert(self.book() =~= book.compacted(size_class, view));
            }
        }
    }
}

proof fn lemma_tails_grow(
    before: Seq<PlannedMove>,
    after: Seq<PlannedMove>,
    book: SlotBook,
    c: u32,
    index: PartitionIndex,
    i: int,
)
    requires
        index.wf(),
        0 <= i < index.entries().len(),
        lists_tails(before, book, c, index, i),
        forall|k: int|
            0 <= k < before.len() ==> stands_below(index, (#[trigger] before[k])@.name, i),
        book.is_tail_live(c, index.name_at(i)) ==> after.len() == before.len() + 1 && after
            == before.push(after.last()) && after.last()@.name == index.name_at(i)
            && after.last().from == book.index[index.name_at(i)].slot_index,
        !book.is_tail_live(c, index.name_at(i)) ==> after == before,
    ensures
        lists_tails(after, book, c, index, i + 1),
        forall|k: int|
            0 <= k < after.len() ==> stands_below(index, (#[trigger] after[k])@.name, i + 1),
{
    index.keys_differ();
    let name = index.name_at(i);
    assert forall|k: int| 0 <= k < before.len() implies (#[trigger] before[k])@.name != name by {
        let p = choose|p: int| 0 <= p < i && #[trigger] index.name_at(p) == before[k]@.name;
        assert(index.name_at(p) != index.name_at(i));
    }
    assert forall|k: int| 0 <= k < before.len() implies #[trigger] after[k] == before[k] by {}
    assert forall|a: int, b: int|
        #![trigger after[a], after[b]]
        0 <= a < b < after.len() implies after[a]@.name != after[b]@.name by {
        assert(after[a] == before[a]);
        if b < before.len() {
            assert(after[b] == before[b]);
        }
    }
    assert forall|p: int| 0 <= p < i + 1 implies (book.is_tail_live(c, #[trigger] index.name_at(p))
        <==> exists|k: int|
        0 <= k < after.len() && (#[trigger] after[k])@.name == index.name_at(p)) by {
        if p < i {
            assert(index.name_at(p) != name);
            if book.is_tail_live(c, index.name_at(p)) {
                let k = choose|k: int|
                    0 <= k < before.len() && (#[trigger] before[k])@.name == index.name_at(p);
                assert(after[k]@.name == index.name_at(p));
            }
            if exists|k: int|
                0 <= k < after.len() && (#[trigger] after[k])@.name == index.name_at(p) {
                let k = choose|k: int|
                    0 <= k < after.len() && (#[trigger] after[k])@.name == index.name_at(p);
                assert(before[k]@.name == index.name_at(p));
            }
        } else if book.is_tail_live(c, name) {
            assert(after[before.len() as int]@.name == name);
        } else if exists|k: int| 0 <= k < after.len() && (#[trigger] after[k])@.name == name {
            let k = choose|k: int| 0 <= k < after.len() && (#[trigger] after[k])@.name == name;
            assert(before[k]@.name == name);
        }
    }
    assert forall|k: int| 0 <= k < after.len() implies stands_below(
        index,
        (#[trigger] after[k])@.name,
        i + 1,
    ) by {
        if k < before.len() {
            let p = choose|p: int| 0 <= p < i && #[trigger] index.name_at(p) == before[k]@.name;
            assert(index.name_at(p) == after[k]@.name);
        } else {
            assert(index.name_at(i) == after[k]@.name);
        }
    }
    assert forall|k: int| 0 <= k < after.len() implies book.is_tail_live(
        c,
        (#[trigger] after[k])@.name,
    ) && book.index[after[k]@.name].slot_index == after[k].from by {
        if k < before.len() {
            assert(before[k] == after[k]);
        }
    }
}

/// The classes below a place of the list.
spec fn classes_below(classes: ClassList, n: int) -> Set<u32> {
    Set::new(|c: u32| exists|p: int| 0 <= p < n && #[trigger] classes.name_at(p) == c)
}

/// Whether a slot of the disk is broken.
pub open spec fn is_corrupt_on(disk: Disk, location: SlotLocation) -> bool {
    is_corrupt(slots_on(disk, location.size_class), location.slot_index as int)
}

/// Whether the free lists of the classes below a place are those of the disk.
spec fn frees_listed(frees: Seq<Vec<u64>>, classes: ClassList, disk: Disk) -> bool {
    forall|j: int|
        0 <= j < frees.len() ==> lists_free(
            (#[trigger] frees[j])@,
            slots_on(disk, classes.name_at(j)),
        )
}

/// Whether a slot which says nothing, or one of the lost ones, is what is free.
spec fn are_free(book: SlotBook, disk: Disk, lost: Seq<SlotLocation>) -> bool {
    forall|c: u32| #[trigger]
        book.classes.contains_key(c) ==> {
            &&& book.classes[c].free.no_duplicates()
            &&& forall|i: u64| #[trigger]
                book.classes[c].free.contains(i) <==> {
                    ||| i < slots_on(disk, c).len() && record_at(
                        disk,
                        SlotLocation { size_class: c, slot_index: i },
                    ) is None
                    ||| lost.contains(SlotLocation { size_class: c, slot_index: i })
                }
        }
}

/// What a slot picked up by the scan says of its place on the disk.
proof fn lemma_found_apart(found: Seq<ScannedSlot>, disk: Disk, classes: Set<u32>, p: int, q: int)
    requires
        lists_disk(found, disk, classes),
        0 <= p < found.len(),
        0 <= q < found.len(),
        found[p].location == found[q].location,
    ensures
        p == q,
{
    if p < q {
        assert(found[p].location.slot_index < found[q].location.slot_index);
    } else if q < p {
        assert(found[q].location.slot_index < found[p].location.slot_index);
    }
}

impl FilesRepoInner {
    fn scan_all(&self, files: &Vec<PageFile>, skip_errors: bool) -> (r: Result<
        (Vec<ScannedSlot>, Vec<Vec<u64>>),
        SlotLocation,
    >)
        requires
            self.wf(),
        ensures
            ({
                let disk = scanned_disk(self.book(), files@);
                match r {
                    Ok((found, frees)) => {
                        &&& lists_disk(
                            found@,
                            disk,
                            classes_below(self.classes, self.classes.entries().len() as int),
                        )
                        &&& frees@.len() == self.classes.entries().len()
                        &&& frees_listed(frees@, self.classes, disk)
                        &&& skip_errors || forall|l: SlotLocation| !(#[trigger] is_corrupt_on(
                            disk,
                            l,
                        ))
                    },
                    Err(location) => {
                        &&& !skip_errors
                        &&& is_corrupt_on(disk, location)
                        &&& forall|i: u64|
                            i < location.slot_index ==> !is_corrupt_on(
                                disk,
                                (#[trigger] at_slot(location.size_class, i)),
                            )
                    },
                }
            }),
    {
        let ghost book = self.book();
        let ghost disk = scanned_disk(book, files@);
        let mut found: Vec<ScannedSlot> = Vec::new();
        let mut frees: Vec<Vec<u64>> = Vec::new();
        let count: usize = self.classes.len();
        assert(classes_below(self.classes, 0) =~= Set::<u32>::empty());
        for i in 0..count
            invariant
                count == self.classes.entries().len(),
                self.wf(),
                book == self.book(),
                disk == scanned_disk(book, files@),
                lists_disk(found@, disk, classes_below(self.classes, i as int)),
                frees@.len() == i,
                frees_listed(frees@, self.classes, disk),
                skip_errors || forall|l: SlotLocation|
                    classes_below(self.classes, i as int).contains(l.size_class) ==> !(
                    #[trigger] is_corrupt_on(disk, l)),
        {
            let size_class: u32 = *self.classes.key_at(i);
            let slot_count: u64 = self.classes.value_at(i).slot_count;
            let ghost done = classes_below(self.classes, i as int);
            let ghost known = found@;
            proof {
                self.classes.entry_is_in_map(i as int);
                self.classes.keys_differ();
                assert(book.classes.contains_key(size_class));
                assert(book.class_wf(size_class));
                assert(!done.contains(size_class)) by {
                    if done.contains(size_class) {
                        let p = choose|p: int|
                            0 <= p < i && #[trigger] self.classes.name_at(p) == size_class;
                        assert(self.classes.name_at(p) == self.classes.name_at(i as int));
                    }
                }
                assert(classes_below(self.classes, i + 1) =~= done.insert(size_class)) by {
                    assert(self.classes.name_at(i as int) == size_class);
                    assert forall|c: u32| #[trigger] done.insert(size_class).contains(
                        c,
                    ) <==> classes_below(self.classes, i + 1).contains(c) by {
                        if done.contains(c) {
                            let p = choose|p: int|
                                0 <= p < i && #[trigger] self.classes.name_at(p) == c;
                            assert(self.classes.name_at(p) == c);
                        }
                        if classes_below(self.classes, i + 1).contains(c) {
                            let p = choose|p: int|
                                0 <= p < i + 1 && #[trigger] self.classes.name_at(p) == c;
                            if p < i {
                                assert(self.classes.name_at(p) == c);
                            }
                        }
                    }
                }
            }
            let scan = match find_file(files, size_class) {
                Some(at) => scan_class(
                    size_class,
                    slot_count,
                    files[at].bytes.as_slice(),
                    skip_errors,
                ),
                None => {
                    let nothing: Vec<u8> = Vec::new();
                    assert(nothing@ =~= file_bytes(files@, size_class));
                    scan_class(size_class, slot_count, nothing.as_slice(), skip_errors)
                },
            };
            assert(slots_on(disk, size_class) == scanned_slots(
                file_bytes(files@, size_class),
                size_class,
                slot_count as nat,
            ));
            match scan {
                Ok((occupied, free)) => {
                    let mut occupied = occupied;
                    let ghost new = occupied@;
                    found.append(&mut occupied);
                    proof {
                        lemma_one_more_class(known, new, disk, done, size_class);
                        assert(found@ =~= known + new);
                    }
                    let ghost known_frees = frees@;
                    frees.push(free);
                    proof {
                        assert forall|j: int| 0 <= j < frees@.len() implies lists_free(
                            (#[trigger] frees@[j])@,
                            slots_on(disk, self.classes.name_at(j)),
                        ) by {
                            if j < i {
                                assert(frees@[j] == known_frees[j]);
                            }
                        }
                        if !skip_errors {
                            assert forall|l: SlotLocation|
                                classes_below(self.classes, i + 1).contains(
                                    l.size_class,
                                ) implies !(#[trigger] is_corrupt_on(disk, l)) by {
                                if l.size_class == size_class {
                                    assert(!is_corrupt(
                                        slots_on(disk, size_class),
                                        l.slot_index as int,
                                    ));
                                }
                            }
                        }
                    }
                },
                Err(slot_index) => {
                    let location = SlotLocation { size_class, slot_index };
                    proof {
                        assert(is_corrupt_on(disk, location));
                        assert forall|k: u64| k < slot_index implies !is_corrupt_on(
                            disk,
                            (#[trigger] at_slot(size_class, k)),
                        ) by {
                            assert(!is_corrupt(slots_on(disk, size_class), k as int));
                        }
                    }
                    return Err(location);
                },
            }
        }
        proof {
            if !skip_errors {
                assert forall|l: SlotLocation| !(#[trigger] is_corrupt_on(disk, l)) by {
                    self.lemma_all_classes(l.size_class);
                }
            }
        }
        Ok((found, frees))
    }

    /// Every class there is stands in the list.
    proof fn lemma_all_classes(&self, c: u32)
        requires
            self.wf(),
        ensures
            self.book().classes.contains_key(c) <==> classes_below(
                self.classes,
                self.classes.entries().len() as int,
            ).contains(c),
            !self.book().classes.contains_key(c) ==> forall|files: Seq<PageFile>|
                slots_on(#[trigger] scanned_disk(self.book(), files), c).len() == 0,
    {
        if self.classes.has(c) {
            let p = self.classes.place_of(c);
            assert(self.classes.name_at(p) == c);
        }
        if exists|p: int|
            0 <= p < self.classes.entries().len() && #[trigger] self.classes.name_at(p) == c {
            let p = choose|p: int|
                0 <= p < self.classes.entries().len() && #[trigger] self.classes.name_at(p) == c;
            self.classes.entry_is_in_map(p);
        }
    }

    /// Gives every class its free list.
    fn set_free_lists(&mut self, frees: Vec<Vec<u64>>, Ghost(disk): Ghost<Disk>)
        requires
            old(self).wf(),
            frees@.len() == old(self).classes.entries().len(),
            frees_listed(frees@, old(self).classes, disk),
        ensures
            final(self).lists_wf(),
            final(self).book().classes.dom() == old(self).book().classes.dom(),
            forall|c: u32| #[trigger]
                final(self).book().classes.contains_key(c)
                    ==> final(self).book().classes[c].slot_count
                    == old(self).book().classes[c].slot_count,
            are_free(final(self).book(), disk, Seq::empty()),
            final(self).index == old(self).index,
            final(self).tables == old(self).tables,
            final(self).root == old(self).root,
            final(self).next_version == old(self).next_version,
    {
        let ghost before = self.classes;
        let mut i: usize = 0;
        let total: usize = frees.len();
        for free in it: frees
            invariant
                total == frees@.len(),
                it.seq() == frees@,
                it.index() <= frees@.len(),
                i == it.index(),
                frees@.len() == before.entries().len(),
                self.lists_wf(),
                self.classes.entries().len() == before.entries().len(),
                forall|j: int|
                    0 <= j < before.entries().len() ==> (#[trigger] self.classes.entries()[j]).0
                        == before.entries()[j].0 && self.classes.entries()[j].1.slot_count
                        == before.entries()[j].1.slot_count,
                forall|j: int|
                    0 <= j < i ==> (#[trigger] self.classes.entries()[j]).1.free == frees@[j],
                self.index == old(self).index,
                self.tables == old(self).tables,
                self.root == old(self).root,
                self.next_version == old(self).next_version,
        {
            let slot_count: u64 = self.classes.value_at(i).slot_count;
            self.classes.replace_at(i, ClassState { slot_count, free });
            i = i + 1;
        }
        proof {
            let book = self.book();
            let was = old(self).book();
            assert forall|j: int| 0 <= j < before.entries().len() implies #[trigger]
                self.classes.name_at(j) == before.name_at(j) by {
                assert(self.classes.entries()[j].0 == before.entries()[j].0);
            }
            assert forall|c: u32| was.classes.contains_key(c) <==> #[trigger]
                book.classes.contains_key(c) by {
                if before.has(c) {
                    let j = before.place_of(c);
                    assert(self.classes.name_at(j) == c);
                }
                if self.classes.has(c) {
                    let j = self.classes.place_of(c);
                    assert(before.name_at(j) == c);
                }
            }
            assert(book.classes.dom() =~= was.classes.dom());
            assert forall|c: u32| #[trigger] book.classes.contains_key(c) implies {
                &&& book.classes[c].slot_count == was.classes[c].slot_count
                &&& lists_free(book.classes[c].free, slots_on(disk, c))
            } by {
                let j = self.classes.place_of(c);
                assert(self.classes.has(c));
                assert(self.classes.name_at(j) == c);
                self.classes.entry_is_in_map(j);
                before.entry_is_in_map(j);
                assert(self.classes.entries()[j].1.free == frees@[j]);
                assert(lists_free(frees@[j]@, slots_on(disk, before.name_at(j))));
            }
            let none = Seq::<SlotLocation>::empty();
            assert forall|c: u32| #[trigger] book.classes.contains_key(c) implies {
                &&& book.classes[c].free.no_duplicates()
                &&& forall|k: u64| #[trigger]
                    book.classes[c].free.contains(k) <==> {
                        ||| k < slots_on(disk, c).len() && record_at(
                            disk,
                            SlotLocation { size_class: c, slot_index: k },
                        ) is None
                        ||| none.contains(SlotLocation { size_class: c, slot_index: k })
                    }
            } by {
                assert(lists_free(book.classes[c].free, slots_on(disk, c)));
            }
        }
    }

    /// Frees the slots which lost, and names them.
    fn free_losers(
        &mut self,
        found: &Vec<ScannedSlot>,
        losers: &Vec<usize>,
        Ghost(disk): Ghost<Disk>,
        Ghost(classes): Ghost<Set<u32>>,
    ) -> (lost: Vec<SlotLocation>)
        requires
            old(self).lists_wf(),
            lists_disk(found@, disk, classes),
            forall|c: u32| #[trigger] classes.contains(c) ==> old(self).book().classes.contains_key(c),
            losers@.no_duplicates(),
            forall|k: int| 0 <= k < losers@.len() ==> #[trigger] losers@[k] < found@.len(),
            are_free(old(self).book(), disk, Seq::empty()),
        ensures
            final(self).lists_wf(),
            final(self).book().classes.dom() == old(self).book().classes.dom(),
            forall|c: u32| #[trigger]
                final(self).book().classes.contains_key(c)
                    ==> final(self).book().classes[c].slot_count
                    == old(self).book().classes[c].slot_count,
            are_free(final(self).book(), disk, lost@),
            lost@.len() == losers@.len(),
            forall|k: int|
                0 <= k < lost@.len() ==> #[trigger] lost@[k] == found@[losers@[k] as int].location,
            lost@.no_duplicates(),
            final(self).index == old(self).index,
            final(self).tables == old(self).tables,
            final(self).root == old(self).root,
            final(self).next_version == old(self).next_version,
    {
        let mut lost: Vec<SlotLocation> = Vec::new();
        assert(lost@ =~= Seq::<SlotLocation>::empty());
        for k in 0..losers.len()
            invariant
                self.lists_wf(),
                lists_disk(found@, disk, classes),
                forall|c: u32| #[trigger]
                    classes.contains(c) ==> old(self).book().classes.contains_key(c),
                losers@.no_duplicates(),
                forall|j: int| 0 <= j < losers@.len() ==> #[trigger] losers@[j] < found@.len(),
                self.book().classes.dom() == old(self).book().classes.dom(),
                forall|c: u32| #[trigger]
                    self.book().classes.contains_key(c) ==> self.book().classes[c].slot_count
                        == old(self).book().classes[c].slot_count,
                are_free(self.book(), disk, lost@),
                lost@.len() == k,
                forall|j: int|
                    0 <= j < lost@.len() ==> #[trigger] lost@[j]
                        == found@[losers@[j] as int].location,
                lost@.no_duplicates(),
                self.index == old(self).index,
                self.tables == old(self).tables,
                self.root == old(self).root,
                self.next_version == old(self).next_version,
        {
            let location: SlotLocation = found[losers[k]].location;
            let ghost before = self.book();
            let ghost known = lost@;
            proof {
                assert(losers@[k as int] < found@.len());
                assert(classes.contains(found@[losers@[k as int] as int].location.size_class));
                assert(before.classes.dom().contains(location.size_class));
                assert forall|j: int| 0 <= j < known.len() implies known[j] != location by {
                    if known[j] == location {
                        assert(losers@[j] < found@.len());
                        lemma_found_apart(
                            found@,
                            disk,
                            classes,
                            losers@[j] as int,
                            losers@[k as int] as int,
                        );
                    }
                }
            }
            self.free_slot(location);
            lost.push(location);
            proof {
                lemma_one_more_free(before, self.book(), disk, known, lost@, location);
                assert(self.book().classes.dom() =~= old(self).book().classes.dom());
            }
        }
        lost
    }

    /// Puts the slots which won into the index, and hands out what they hold.
    fn take_in(
        &mut self,
        found: Vec<ScannedSlot>,
        winners: &PlaceByPartition,
    ) -> (partitions: Vec<LoadedPartition>)
        requires
            old(self).lists_wf(),
            old(self).book().index.dom() == Set::<PartitionName>::empty(),
            winners.wf(),
            forall|name: PartitionName| #[trigger]
                winners.map().contains_key(name) ==> winners.map()[name] < found@.len()
                    && found@[winners.map()[name] as int].name() == name,
            forall|q: int|
                0 <= q < found@.len() ==> winners.map().contains_key((#[trigger] found@[q]).name()),
        ensures
            final(self).lists_wf(),
            final(self).book().index.dom() == winners.map().dom(),
            forall|name: PartitionName| #[trigger]
                final(self).book().index.contains_key(name) ==> final(self).book().index[name]
                    == found@[winners.map()[name] as int].location,
            forall|j: int|
                0 <= j < partitions@.len() ==> {
                    let name = partition_name((#[trigger] partitions@[j]));
                    &&& winners.map().contains_key(name)
                    &&& partitions@[j].payload@ == found@[winners.map()[name] as int].payload@
                },
            forall|i: int, j: int|
                #![trigger partitions@[i], partitions@[j]]
                0 <= i < j < partitions@.len() ==> partition_name(partitions@[i])
                    != partition_name(partitions@[j]),
            forall|name: PartitionName| #[trigger]
                winners.map().contains_key(name) ==> exists|j: int|
                    0 <= j < partitions@.len() && partition_name(#[trigger] partitions@[j]) == name,
            final(self).classes == old(self).classes,
            final(self).tables == old(self).tables,
            final(self).root == old(self).root,
            final(self).next_version == old(self).next_version,
    {
        let mut partitions: Vec<LoadedPartition> = Vec::new();
        let ghost mut places: Seq<int> = Seq::empty();
        let mut i: usize = 0;
        let total: usize = found.len();
        for slot in it: found
            invariant
                total == found@.len(),
                it.seq() == found@,
                it.index() <= found@.len(),
                i == it.index(),
                self.lists_wf(),
                winners.wf(),
                forall|name: PartitionName| #[trigger]
                    winners.map().contains_key(name) ==> winners.map()[name] < found@.len()
                        && found@[winners.map()[name] as int].name() == name,
                forall|q: int|
                    0 <= q < found@.len() ==> winners.map().contains_key(
                        (#[trigger] found@[q]).name(),
                    ),
                forall|name: PartitionName| #[trigger]
                    self.index.map().contains_key(name) <==> winners.map().contains_key(name)
                        && winners.map()[name] < i,
                forall|name: PartitionName| #[trigger]
                    self.index.map().contains_key(name) ==> self.index.map()[name]
                        == found@[winners.map()[name] as int].location,
                places.len() == partitions@.len(),
                handed_out(partitions@, places, found@, winners.map(), i as int),
                forall|a: int, b: int|
                    #![trigger places[a], places[b]]
                    0 <= a < b < places.len() ==> places[a] < places[b],
                forall|p: int|
                    0 <= p < i && winners.map()[(#[trigger] found@[p]).name()] == p ==> exists|j: int|
                        0 <= j < places.len() && #[trigger] places[j] == p,
                self.classes == old(self).classes,
                self.tables == old(self).tables,
                self.root == old(self).root,
                self.next_version == old(self).next_version,
        {
            let ghost name = slot.name();
            let ghost known = places;
            let ghost known_partitions = partitions@;
            assert(found@[i as int] == slot);
            let won = match winners.get(&slot.key) {
                Some(at) => *at == i,
                None => false,
            };
            assert(won == (winners.map()[name] == i));
            if won {
                let key = (slot.key.0.clone(), slot.key.1.clone());
                self.index.insert(key, slot.location);
                partitions.push(
                    LoadedPartition {
                        table_name: slot.key.0,
                        partition_key: slot.key.1,
                        payload: slot.payload,
                    },
                );
                proof {
                    places = places.push(i as int);
                    assert(places[known.len() as int] == i);
                }
            }
            proof {
                assert forall|a: int, b: int|
                    #![trigger places[a], places[b]]
                    0 <= a < b < places.len() implies places[a] < places[b] by {
                    assert(known[a] == places[a]);
                    assert(is_handed_out(
                        known_partitions[a],
                        known[a],
                        found@,
                        winners.map(),
                        i as int,
                    ));
                    if b < known.len() {
                        assert(known[b] == places[b]);
                    }
                }
                assert forall|j: int| 0 <= j < partitions@.len() implies is_handed_out(
                    #[trigger] partitions@[j],
                    places[j],
                    found@,
                    winners.map(),
                    i + 1,
                ) by {
                    if j < known.len() {
                        assert(partitions@[j] == known_partitions[j]);
                        assert(places[j] == known[j]);
                    }
                }
                assert forall|p: int|
                    0 <= p < i + 1 && winners.map()[(#[trigger] found@[p]).name()]
                        == p implies exists|j: int| 0 <= j < places.len() && #[trigger] places[j]
                    == p by {
                    if p < i {
                        let j = choose|j: int| 0 <= j < known.len() && #[trigger] known[j] == p;
                        assert(places[j] == p);
                    }
                }
            }
            i = i + 1;
        }
        proof {
            assert(self.book().index.dom() =~= winners.map().dom());
            assert forall|a: int, b: int|
                #![trigger partitions@[a], partitions@[b]]
                0 <= a < b < partitions@.len() implies partition_name(partitions@[a])
                != partition_name(partitions@[b]) by {
                assert(places[a] < places[b]);
            }
            assert forall|name: PartitionName| #[trigger]
                winners.map().contains_key(name) implies exists|j: int|
                0 <= j < partitions@.len() && partition_name(#[trigger] partitions@[j]) == name by {
                let p = winners.map()[name] as int;
                assert(found@[p].name() == name);
                let j = choose|j: int| 0 <= j < places.len() && #[trigger] places[j] == p;
                assert(partition_name(partitions@[j]) == name);
            }
        }
        partitions
    }

    /// Makes the bookkeeping out of what stands in the page-files: the index, the
    /// free lists and the version of the next write. Every live partition's payload
    /// is handed out. After a crash mid relocation two slots may carry the same
    /// key - the higher `version` wins, and the loser is to be zeroed on disk so it
    /// can never resurrect later. A file which was not read counts as empty.
    ///
    /// A broken slot is fatal unless errors are skipped. Where it fails, nothing
    /// has changed.
    pub fn load_all_partitions(&mut self, files: &Vec<PageFile>, skip_errors: bool) -> (r: Result<
        Recovery,
        RecoveryError,
    >)
        requires
            old(self).wf(),
            old(self).book().is_fresh(),
        ensures
            final(self).wf(),
            final(self).tables() == old(self).tables(),
            final(self).root() == old(self).root(),
            ({
                let disk = scanned_disk(old(self).book(), files@);
                let healthy = forall|l: SlotLocation| !(#[trigger] is_corrupt_on(disk, l));
                match r {
                    Ok(recovery) => {
                        &&& skip_errors || healthy
                        &&& is_recovered(
                            old(self).book(),
                            disk,
                            final(self).book(),
                            recovery.losers@,
                        )
                        &&& are_partitions(recovery.partitions@, disk, final(self).book().index)
                        &&& final(self).book().matches(disk_without_all(disk, recovery.losers@))
                        &&& forall|l: SlotLocation|
                            (#[trigger] record_at(disk, l)) is Some ==> record_at(
                                disk,
                                l,
                            )->0.version < u64::MAX
                    },
                    Err(RecoveryError::CorruptSlot(location)) => {
                        &&& !skip_errors
                        &&& is_corrupt_on(disk, location)
                        &&& forall|i: u64|
                            i < location.slot_index ==> !is_corrupt_on(
                                disk,
                                (#[trigger] at_slot(location.size_class, i)),
                            )
                        &&& final(self).book() == old(self).book()
                    },
                    Err(RecoveryError::VersionsExhausted) => {
                        &&& skip_errors || healthy
                        &&& exists|l: SlotLocation|
                            (#[trigger] record_at(disk, l)) is Some && record_at(disk, l)->0.version
                                == u64::MAX
                        &&& final(self).book() == old(self).book()
                    },
                }
            }),
    {
        let ghost before = self.book();
        let ghost disk = scanned_disk(before, files@);
        let ghost all = classes_below(self.classes, self.classes.entries().len() as int);
        let (found, frees) = match self.scan_all(files, skip_errors) {
            Ok(scanned) => scanned,
            Err(location) => return Err(RecoveryError::CorruptSlot(location)),
        };
        proof {
            assert forall|l: SlotLocation| (#[trigger] record_at(disk, l)) is Some implies all.contains(
                l.size_class,
            ) by {
                self.lemma_all_classes(l.size_class);
            }
            assert forall|c: u32| #[trigger] all.contains(c) implies before.classes.contains_key(
                c,
            ) by {
                self.lemma_all_classes(c);
            }
            assert(fits(before, disk));
        }
        let next_version: u64 = match next_version_after(&found) {
            Some(next_version) => next_version,
            None => {
                proof {
                    let p = choose|p: int|
                        0 <= p < found@.len() && (#[trigger] found@[p]).version == u64::MAX;
                    assert(record_at(disk, found@[p].location) == Some(found@[p].record()));
                }
                return Err(RecoveryError::VersionsExhausted);
            },
        };
        let (winners, losers) = resolve(&found);
        self.set_free_lists(frees, Ghost(disk));
        assert forall|k: int| 0 <= k < losers@.len() implies #[trigger] losers@[k] < found@.len() by {
            assert(losers@.contains(losers@[k]));
        }
        assert forall|c: u32| #[trigger] all.contains(c) implies self.book().classes.contains_key(
            c,
        ) by {
            assert(before.classes.dom().contains(c));
        }
        let lost = self.free_losers(&found, &losers, Ghost(disk), Ghost(all));
        assert(self.book().index.dom() =~= Set::<PartitionName>::empty());
        let ghost slots = found@;
        assert(slots.len() == found.len());
        let partitions = self.take_in(found, &winners);
        self.next_version = next_version;
        proof {
            let after = self.book();
            lemma_winners_recover(slots, disk, all, winners.map(), after.index);
            self.lemma_recovered(before, disk, slots, all, winners.map(), losers@, lost@);
            a_recovered_book_matches_the_disk(before, disk, after, lost@);
            assert forall|l: SlotLocation| (#[trigger] record_at(disk, l)) is Some implies record_at(
                disk,
                l,
            )->0.version < u64::MAX by {
                let p = choose|p: int| 0 <= p < slots.len() && (#[trigger] slots[p]).location == l;
                assert(slots[p].version < next_version);
            }
            assert forall|j: int| 0 <= j < partitions@.len() implies {
                let name = ((#[trigger] partitions@[j]).table_name@, partitions@[j].partition_key@);
                &&& after.index.contains_key(name)
                &&& partitions@[j].payload@ == record_at(disk, after.index[name])->0.payload
            } by {
                let name = partition_name(partitions@[j]);
                assert(winners.map().dom().contains(name));
                assert(after.index.contains_key(name));
                let p = winners.map()[name] as int;
                assert(record_at(disk, slots[p].location) == Some(slots[p].record()));
            }
            assert forall|i: int, j: int|
                #![trigger partitions@[i], partitions@[j]]
                0 <= i < j < partitions@.len() implies partitions@[i].table_name@
                != partitions@[j].table_name@ || partitions@[i].partition_key@
                != partitions@[j].partition_key@ by {
                assert(partition_name(partitions@[i]) != partition_name(partitions@[j]));
            }
            assert forall|name: PartitionName| #[trigger] after.index.contains_key(name) implies exists|
                j: int,
            |
                0 <= j < partitions@.len() && (#[trigger] partitions@[j]).table_name@ == name.0
                    && partitions@[j].partition_key@ == name.1 by {
                assert(winners.map().dom().contains(name));
                let j = choose|j: int|
                    0 <= j < partitions@.len() && partition_name(#[trigger] partitions@[j]) == name;
                assert(partitions@[j].table_name@ == name.0);
            }
        }
        Ok(Recovery { partitions, losers: lost })
    }

    proof fn lemma_recovered(
        &self,
        before: SlotBook,
        disk: Disk,
        found: Seq<ScannedSlot>,
        classes: Set<u32>,
        winners: Map<PartitionName, usize>,
        losers: Seq<usize>,
        lost: Seq<SlotLocation>,
    )
        requires
            lists_disk(found, disk, classes),
            forall|l: SlotLocation| (#[trigger] record_at(disk, l)) is Some ==> classes.contains(
                l.size_class,
            ),
            is_recovery(disk, self.book().index),
            forall|name: PartitionName| #[trigger]
                winners.contains_key(name) ==> winners[name] < found.len()
                    && found[winners[name] as int].name() == name,
            forall|q: int| 0 <= q < found.len() ==> winners.contains_key((#[trigger] found[q]).name()),
            forall|q: usize| #[trigger]
                losers.contains(q) <==> q < found.len() && winners[found[q as int].name()] != q,
            self.book().index.dom() == winners.dom(),
            forall|name: PartitionName| #[trigger]
                self.book().index.contains_key(name) ==> self.book().index[name]
                    == found[winners[name] as int].location,
            lost.len() == losers.len(),
            lost.no_duplicates(),
            forall|k: int|
                0 <= k < lost.len() ==> #[trigger] lost[k] == found[losers[k] as int].location,
            are_free(self.book(), disk, lost),
            self.book().classes.dom() == before.classes.dom(),
            forall|c: u32| #[trigger]
                self.book().classes.contains_key(c) ==> self.book().classes[c].slot_count
                    == before.classes[c].slot_count,
            1 <= self.book().next_version,
            found.len() <= usize::MAX,
            forall|p: int|
                0 <= p < found.len() ==> (#[trigger] found[p]).version < self.book().next_version,
            self.book().next_version > 1 ==> exists|p: int|
                0 <= p < found.len() && (#[trigger] found[p]).version + 1
                    == self.book().next_version,
        ensures
            is_recovered(before, disk, self.book(), lost),
    {
        let after = self.book();
        assert forall|l: SlotLocation| #[trigger] lost.contains(l) <==> record_at(disk, l) is Some
            && !after.is_live(l) by {
            if lost.contains(l) {
                let k = choose|k: int| 0 <= k < lost.len() && lost[k] == l;
                let q = losers[k];
                assert(losers.contains(q));
                assert(record_at(disk, found[q as int].location) == Some(found[q as int].record()));
                if after.is_live(l) {
                    let name = choose|name: PartitionName| #[trigger]
                        after.index.contains_key(name) && after.index[name] == l;
                    assert(winners.dom().contains(name));
                    lemma_found_apart(found, disk, classes, winners[name] as int, q as int);
                }
            }
            if record_at(disk, l) is Some && !after.is_live(l) {
                let p = choose|p: int| 0 <= p < found.len() && (#[trigger] found[p]).location == l;
                let name = found[p].name();
                assert(winners.contains_key(name));
                assert(after.index.dom().contains(name));
                if winners[name] == p {
                    assert(after.index.contains_key(name));
                    assert(after.index[name] == l);
                }
                assert(losers.contains(p as usize));
                let k = choose|k: int| 0 <= k < losers.len() && losers[k] == p as usize;
                assert(lost[k] == l);
            }
        }
        assert forall|c: u32| #[trigger] after.classes.contains_key(c) implies {
            &&& after.classes[c].slot_count == before.classes[c].slot_count
            &&& after.classes[c].free.no_duplicates()
            &&& forall|i: u64| #[trigger]
                after.classes[c].free.contains(i) <==> i < slots_on(disk, c).len()
                    && !after.is_live(SlotLocation { size_class: c, slot_index: i })
        } by {
            assert forall|i: u64| #[trigger] after.classes[c].free.contains(i) <==> i < slots_on(
                disk,
                c,
            ).len() && !after.is_live(SlotLocation { size_class: c, slot_index: i }) by {
                let l = SlotLocation { size_class: c, slot_index: i };
                if after.is_live(l) {
                    let name = choose|name: PartitionName| #[trigger]
                        after.index.contains_key(name) && after.index[name] == l;
                    assert(super::slot_book::holds(disk, l, name));
                    assert(!lost.contains(l));
                }
            }
        }
        assert forall|l: SlotLocation| (#[trigger] record_at(disk, l)) is Some implies record_at(
            disk,
            l,
        )->0.version < after.next_version by {
            let p = choose|p: int| 0 <= p < found.len() && (#[trigger] found[p]).location == l;
            assert(record_at(disk, found[p].location) == Some(found[p].record()));
        }
        if after.next_version > 1 {
            let p = choose|p: int|
                0 <= p < found.len() && (#[trigger] found[p]).version + 1 == after.next_version;
            assert(record_at(disk, found[p].location) == Some(found[p].record()));
        }
    }
}

/// Whether a partition is what a slot which won holds.
spec fn is_handed_out(
    partition: LoadedPartition,
    place: int,
    found: Seq<ScannedSlot>,
    winners: Map<PartitionName, usize>,
    n: int,
) -> bool {
    &&& 0 <= place < n
    &&& partition_name(partition) == found[place].name()
    &&& partition.payload@ == found[place].payload@
    &&& winners[found[place].name()] == place
}

/// Whether these partitions are what slots which won hold.
spec fn handed_out(
    partitions: Seq<LoadedPartition>,
    places: Seq<int>,
    found: Seq<ScannedSlot>,
    winners: Map<PartitionName, usize>,
    n: int,
) -> bool {
    forall|j: int|
        0 <= j < partitions.len() ==> is_handed_out(
            #[trigger] partitions[j],
            places[j],
            found,
            winners,
            n,
        )
}

/// Whose partition came off the disk.
pub open spec fn partition_name(partition: LoadedPartition) -> PartitionName {
    (partition.table_name@, partition.partition_key@)
}

proof fn lemma_one_more_free(
    before: SlotBook,
    after: SlotBook,
    disk: Disk,
    known: Seq<SlotLocation>,
    lost: Seq<SlotLocation>,
    location: SlotLocation,
)
    requires
        before.classes.contains_key(location.size_class),
        after == before.with_slot_freed(location),
        are_free(before, disk, known),
        known.no_duplicates(),
        forall|j: int| 0 <= j < known.len() ==> known[j] != location,
        lost == known.push(location),
        record_at(disk, location) is Some,
    ensures
        are_free(after, disk, lost),
        lost.no_duplicates(),
{
    assert forall|l: SlotLocation| #[trigger] lost.contains(l) <==> known.contains(l) || l
        == location by {
        if known.contains(l) {
            let j = choose|j: int| 0 <= j < known.len() && known[j] == l;
            assert(lost[j] == l);
        }
        if l == location {
            assert(lost[known.len() as int] == l);
        }
        if lost.contains(l) && l != location {
            let j = choose|j: int| 0 <= j < lost.len() && lost[j] == l;
            assert(known[j] == l);
        }
    }
    assert forall|c: u32| #[trigger] after.classes.contains_key(c) implies {
        &&& after.classes[c].free.no_duplicates()
        &&& forall|i: u64| #[trigger]
            after.classes[c].free.contains(i) <==> {
                ||| i < slots_on(disk, c).len() && record_at(
                    disk,
                    SlotLocation { size_class: c, slot_index: i },
                ) is None
                ||| lost.contains(SlotLocation { size_class: c, slot_index: i })
            }
    } by {
        assert(before.classes.contains_key(c));
        let was = before.classes[c].free;
        let now = after.classes[c].free;
        if c == location.size_class {
            assert(!was.contains(location.slot_index));
            assert forall|i: u64| #[trigger] now.contains(i) <==> was.contains(i) || i
                == location.slot_index by {
                if was.contains(i) {
                    let j = choose|j: int| 0 <= j < was.len() && was[j] == i;
                    assert(now[j] == i);
                }
                if i == location.slot_index {
                    assert(now[was.len() as int] == i);
                }
                if now.contains(i) && i != location.slot_index {
                    let j = choose|j: int| 0 <= j < now.len() && now[j] == i;
                    assert(was[j] == i);
                }
            }
            assert forall|i: int, j: int|
                0 <= i < now.len() && 0 <= j < now.len() && i != j implies now[i] != now[j] by {
                if i < was.len() {
                    assert(was.contains(was[i]));
                }
                if j < was.len() {
                    assert(was.contains(was[j]));
                }
            }
        }
        assert forall|i: u64| #[trigger] now.contains(i) <==> {
            ||| i < slots_on(disk, c).len() && record_at(
                disk,
                SlotLocation { size_class: c, slot_index: i },
            ) is None
            ||| lost.contains(SlotLocation { size_class: c, slot_index: i })
        } by {
            assert(was.contains(i) <==> {
                ||| i < slots_on(disk, c).len() && record_at(
                    disk,
                    SlotLocation { size_class: c, slot_index: i },
                ) is None
                ||| known.contains(SlotLocation { size_class: c, slot_index: i })
            });
        }
    }
}

/// A slot by its class and its index.
pub open spec fn at_slot(size_class: u32, slot_index: u64) -> SlotLocation {
    SlotLocation { size_class, slot_index }
}

}
