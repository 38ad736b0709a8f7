//! The bookkeeping of the page-files, as mathematics: which slots there are,
//! which partition stands in which of them, and what that means for a disk.
//!
//! A disk is seen slot by slot: every page-file is a sequence of slots, each as
//! long as the file's size class.

use super::size_class::MIN_SIZE_CLASS;
use super::slot::{a_zeroed_slot_is_free, slot_bytes, slot_content, zeros, SlotContent, SlotRecord};
use vstd::prelude::*;

verus! {

/// Where a partition's slot lives: which size-class page-file and which slot
/// index inside it.
#[derive(Clone, Copy, PartialEq, Eq, Structural)]
pub struct SlotLocation {
    pub size_class: u32,
    pub slot_index: u64,
}

impl SlotLocation {
    /// Where in its page-file the slot starts.
    pub fn offset(&self) -> (r: u64)
        requires
            self.slot_index * self.size_class <= u64::MAX,
        ensures
            r == self.slot_index * self.size_class,
    {
        self.slot_index * self.size_class as u64
    }
}

/// Table name and partition key.
pub type PartitionName = (Seq<char>, Seq<char>);

/// What is known of one page-file.
#[verifier::ext_equal]
pub struct ClassBook {
    /// Number of slots the file holds.
    pub slot_count: nat,
    /// Slots which can be reused, the next one to be reused last.
    pub free: Seq<u64>,
}

/// Everything the bookkeeping knows.
#[verifier::ext_equal]
pub struct SlotBook {
    pub classes: Map<u32, ClassBook>,
    pub index: Map<PartitionName, SlotLocation>,
    /// The version the next write gets.
    pub next_version: nat,
}

/// The page-files by their size class, slot by slot.
pub type Disk = Map<u32, Seq<Seq<u8>>>;

impl SlotBook {
    /// Whether a partition stands in the slot.
    pub open spec fn is_live(self, location: SlotLocation) -> bool {
        exists|name: PartitionName| #[trigger]
            self.index.contains_key(name) && self.index[name] == location
    }

    /// Every partition has a slot of its own which is there, and a free slot is
    /// free once and for all.
    pub open spec fn wf(self) -> bool {
        &&& forall|name: PartitionName| #[trigger]
            self.index.contains_key(name) ==> self.has_slot(self.index[name])
        &&& forall|a: PartitionName, b: PartitionName| #[trigger]
            self.index.contains_key(a) && #[trigger] self.index.contains_key(b) && self.index[a]
                == self.index[b] ==> a == b
        &&& forall|c: u32| #[trigger] self.classes.contains_key(c) ==> self.class_wf(c)
    }

    /// Whether the slot is one of its page-file.
    pub open spec fn has_slot(self, location: SlotLocation) -> bool {
        self.classes.contains_key(location.size_class) && location.slot_index
            < self.classes[location.size_class].slot_count
    }

    /// What holds of one page-file.
    pub open spec fn class_wf(self, c: u32) -> bool {
        &&& MIN_SIZE_CLASS <= c
        &&& self.classes[c].slot_count * c <= u64::MAX
        &&& self.classes[c].free.no_duplicates()
        &&& forall|j: int|
            #![trigger self.classes[c].free[j]]
            0 <= j < self.classes[c].free.len() ==> {
                &&& self.classes[c].free[j] < self.classes[c].slot_count
                &&& !self.is_live(
                    SlotLocation { size_class: c, slot_index: self.classes[c].free[j] },
                )
            }
    }

    /// Nothing is known yet but how many slots every page-file holds.
    pub open spec fn is_fresh(self) -> bool {
        &&& self.index.dom() == Set::<PartitionName>::empty()
        &&& forall|c: u32| #[trigger]
            self.classes.contains_key(c) ==> self.classes[c].free.len() == 0
    }

    /// Whether every slot there is is either free or has a partition in it.
    pub open spec fn is_complete(self) -> bool {
        forall|location: SlotLocation| #[trigger]
            self.has_slot(location) ==> self.is_live(location) || self.free_of(
                location.size_class,
            ).contains(location.slot_index)
    }

    /// Whether the page-file of the class can take one slot more.
    pub open spec fn has_room(self, c: u32) -> bool {
        self.free_of(c).len() > 0 || (self.slot_count(c) + 1) * c <= u64::MAX
    }

    /// How many slots the page-file holds, none if there is no such file.
    pub open spec fn slot_count(self, c: u32) -> nat {
        if self.classes.contains_key(c) {
            self.classes[c].slot_count
        } else {
            0
        }
    }

    /// The slots of the page-file which can be reused.
    pub open spec fn free_of(self, c: u32) -> Seq<u64> {
        if self.classes.contains_key(c) {
            self.classes[c].free
        } else {
            Seq::empty()
        }
    }

    /// The slot the next new partition of the class gets: the last freed one, or
    /// a new one at the end of the file.
    pub open spec fn next_slot(self, c: u32) -> SlotLocation {
        SlotLocation {
            size_class: c,
            slot_index: if self.free_of(c).len() > 0 {
                self.free_of(c).last()
            } else {
                self.slot_count(c) as u64
            },
        }
    }

    /// The bookkeeping once that slot is taken.
    pub open spec fn with_slot_taken(self, c: u32) -> SlotBook {
        let class = if self.free_of(c).len() > 0 {
            ClassBook { slot_count: self.slot_count(c), free: self.free_of(c).drop_last() }
        } else {
            ClassBook { slot_count: self.slot_count(c) + 1, free: Seq::empty() }
        };
        SlotBook { classes: self.classes.insert(c, class), ..self }
    }

    /// The bookkeeping once a slot is free again.
    pub open spec fn with_slot_freed(self, location: SlotLocation) -> SlotBook {
        let c = location.size_class;
        SlotBook {
            classes: self.classes.insert(
                c,
                ClassBook {
                    slot_count: self.slot_count(c),
                    free: self.free_of(c).push(location.slot_index),
                },
            ),
            ..self
        }
    }

    /// The bookkeeping once a partition is written into a slot.
    pub open spec fn with_partition_at(self, name: PartitionName, slot: SlotLocation) -> SlotBook {
        SlotBook {
            index: self.index.insert(name, slot),
            next_version: self.next_version + 1,
            ..self
        }
    }

    /// The slot a partition is written into: the one it has if that is of the
    /// right class, another one if not.
    pub open spec fn save_target(self, name: PartitionName, c: u32) -> SlotLocation {
        if self.index.contains_key(name) && self.index[name].size_class == c {
            self.index[name]
        } else {
            self.next_slot(c)
        }
    }

    /// The slot which is given up when the partition is written.
    pub open spec fn save_freed(self, name: PartitionName, c: u32) -> Option<SlotLocation> {
        if self.index.contains_key(name) && self.index[name].size_class != c {
            Some(self.index[name])
        } else {
            None
        }
    }

    /// The bookkeeping once the partition is written into a slot of the class.
    pub open spec fn saved(self, name: PartitionName, c: u32) -> SlotBook {
        let taken = if self.index.contains_key(name) && self.index[name].size_class == c {
            self
        } else {
            self.with_slot_taken(c)
        };
        let placed = taken.with_partition_at(name, self.save_target(name, c));
        match self.save_freed(name, c) {
            Some(old) => placed.with_slot_freed(old),
            None => placed,
        }
    }

    /// The bookkeeping once the partition is gone.
    pub open spec fn deleted(self, name: PartitionName) -> SlotBook {
        if self.index.contains_key(name) {
            SlotBook { index: self.index.remove(name), ..self }.with_slot_freed(self.index[name])
        } else {
            self
        }
    }

    /// Whether every slot of the page-file is free.
    pub open spec fn is_fully_free(self, c: u32) -> bool {
        &&& self.classes.contains_key(c)
        &&& self.classes[c].slot_count > 0
        &&& forall|i: u64|
            i < self.classes[c].slot_count ==> #[trigger] self.classes[c].free.contains(i)
    }

    /// The bookkeeping once the page-file is removed.
    pub open spec fn without_class(self, c: u32) -> SlotBook {
        SlotBook { classes: self.classes.remove(c), ..self }
    }

    /// Whether the page-file is worth compacting: more than two slots, not all of
    /// them free, and at least half of them free.
    pub open spec fn is_worth_compacting(self, c: u32) -> bool {
        &&& self.classes.contains_key(c)
        &&& self.classes[c].slot_count > 2
        &&& self.classes[c].free.len() < self.classes[c].slot_count
        &&& self.classes[c].free.len() * 2 >= self.classes[c].slot_count
    }

    /// How many slots the page-file has once it is compacted.
    pub open spec fn live_count(self, c: u32) -> nat {
        (self.classes[c].slot_count - self.classes[c].free.len()) as nat
    }

    /// Whether these moves make the page-file as short as it can get: the free
    /// slots below the new end, in the order they are listed in, take what
    /// stands at or beyond it.
    pub open spec fn is_compaction(self, c: u32, moves: Seq<SlotMove>) -> bool {
        let end = self.live_count(c);
        &&& moves.len() == self.head_frees(c).len()
        &&& forall|j: int|
            0 <= j < moves.len() ==> {
                &&& (#[trigger] moves[j]).to == self.head_frees(c)[j]
                &&& self.index.contains_key(moves[j].name)
                &&& self.index[moves[j].name] == SlotLocation {
                    size_class: c,
                    slot_index: moves[j].from,
                }
                &&& end <= moves[j].from
            }
        &&& forall|i: int, j: int|
            #![trigger moves[i], moves[j]]
            0 <= i < j < moves.len() ==> moves[i].name != moves[j].name
        &&& forall|name: PartitionName| #[trigger]
            self.is_tail_live(c, name) ==> exists|j: int|
                0 <= j < moves.len() && (#[trigger] moves[j]).name == name
    }

    /// The free slots of the page-file below its new end.
    pub open spec fn head_frees(self, c: u32) -> Seq<u64> {
        below(self.classes[c].free, self.live_count(c))
    }

    /// Whether the partition stands at or beyond the new end of the page-file.
    pub open spec fn is_tail_live(self, c: u32, name: PartitionName) -> bool {
        &&& self.index.contains_key(name)
        &&& self.index[name].size_class == c
        &&& self.live_count(c) <= self.index[name].slot_index
    }

    /// The bookkeeping once the page-file is compacted.
    pub open spec fn compacted(self, c: u32, moves: Seq<SlotMove>) -> SlotBook {
        SlotBook {
            classes: self.classes.insert(
                c,
                ClassBook { slot_count: self.live_count(c), free: Seq::empty() },
            ),
            index: moved_index(self.index, c, moves),
            ..self
        }
    }

    /// Whether the disk holds exactly what the index says: every partition in its
    /// slot, written before the next version, and nothing else in any slot.
    pub open spec fn matches(self, disk: Disk) -> bool {
        &&& forall|name: PartitionName| #[trigger]
            self.index.contains_key(name) ==> {
                &&& record_at(disk, self.index[name]) is Some
                &&& name_of(record_at(disk, self.index[name])->0) == name
                &&& record_at(disk, self.index[name])->0.version < self.next_version
            }
        &&& forall|location: SlotLocation|
            (#[trigger] record_at(disk, location)) is Some ==> {
                &&& self.index.contains_key(name_of(record_at(disk, location)->0))
                &&& self.index[name_of(record_at(disk, location)->0)] == location
            }
    }

    /// The page-file of a partition is there.
    pub proof fn book_has_class(self, name: PartitionName)
        requires
            self.wf(),
            self.index.contains_key(name),
        ensures
            self.classes.contains_key(self.index[name].size_class),
    {
        assert(self.has_slot(self.index[name]));
    }

    /// What the disk holds of every partition.
    pub open spec fn stored(self, disk: Disk) -> Map<PartitionName, Seq<u8>> {
        Map::new(
            |name: PartitionName| self.index.contains_key(name),
            |name: PartitionName| record_at(disk, self.index[name])->0.payload,
        )
    }
}

/// The slots of a list which stand below an end, in the order of the list.
pub open spec fn below(slots: Seq<u64>, end: nat) -> Seq<u64>
    decreases slots.len(),
{
    if slots.len() == 0 {
        Seq::empty()
    } else if slots.last() < end {
        below(slots.drop_last(), end).push(slots.last())
    } else {
        below(slots.drop_last(), end)
    }
}

/// One partition which moves inside its page-file.
#[verifier::ext_equal]
pub struct SlotMove {
    pub name: PartitionName,
    pub from: u64,
    pub to: u64,
}

/// The index once the moves are made.
pub open spec fn moved_index(
    index: Map<PartitionName, SlotLocation>,
    c: u32,
    moves: Seq<SlotMove>,
) -> Map<PartitionName, SlotLocation>
    decreases moves.len(),
{
    if moves.len() == 0 {
        index
    } else {
        moved_index(index, c, moves.drop_last()).insert(
            moves.last().name,
            SlotLocation { size_class: c, slot_index: moves.last().to },
        )
    }
}

/// The slots of a page-file, none if there is no such file.
pub open spec fn slots_on(disk: Disk, c: u32) -> Seq<Seq<u8>> {
    if disk.contains_key(c) {
        disk[c]
    } else {
        Seq::empty()
    }
}

/// What a slot of the disk says, if it says anything.
pub open spec fn record_at(disk: Disk, location: SlotLocation) -> Option<SlotRecord> {
    let slots = slots_on(disk, location.size_class);
    if location.slot_index < slots.len() {
        record_in(slots[location.slot_index as int])
    } else {
        None
    }
}

/// What the bytes of a slot say, if they say anything.
pub open spec fn record_in(bytes: Seq<u8>) -> Option<SlotRecord> {
    match slot_content(bytes) {
        SlotContent::Occupied(record) => Some(record),
        _ => None,
    }
}

/// Whose partition a slot holds.
pub open spec fn name_of(record: SlotRecord) -> PartitionName {
    (record.table_name, record.partition_key)
}

/// A page-file once a slot is written. A file which was shorter grows up to the
/// slot, with zeros in between.
pub open spec fn slots_with(slots: Seq<Seq<u8>>, i: nat, bytes: Seq<u8>, size: nat) -> Seq<Seq<u8>> {
    if i < slots.len() {
        slots.update(i as int, bytes)
    } else {
        slots + Seq::new((i - slots.len()) as nat, |j: int| zeros(size)) + seq![bytes]
    }
}

/// The disk once a slot is written.
pub open spec fn disk_with(disk: Disk, location: SlotLocation, bytes: Seq<u8>) -> Disk {
    let c = location.size_class;
    disk.insert(c, slots_with(slots_on(disk, c), location.slot_index as nat, bytes, c as nat))
}

/// A slot with its prefix zeroed.
pub open spec fn zeroed(slot: Seq<u8>) -> Seq<u8> {
    Seq::new(slot.len(), |i: int| if i < 16 { 0u8 } else { slot[i] })
}

/// The disk once the prefix of a slot is zeroed.
pub open spec fn disk_without(disk: Disk, location: SlotLocation) -> Disk {
    let c = location.size_class;
    let slots = slots_on(disk, c);
    if location.slot_index < slots.len() {
        disk.insert(
            c,
            slots.update(location.slot_index as int, zeroed(slots[location.slot_index as int])),
        )
    } else {
        disk
    }
}

/// The disk once the prefixes of some slots are zeroed.
pub open spec fn disk_without_all(disk: Disk, locations: Seq<SlotLocation>) -> Disk
    decreases locations.len(),
{
    if locations.len() == 0 {
        disk
    } else {
        disk_without(disk_without_all(disk, locations.drop_last()), locations.last())
    }
}

/// Writing a slot changes what that slot says and nothing else.
pub proof fn lemma_disk_with(disk: Disk, location: SlotLocation, bytes: Seq<u8>)
    requires
        location.size_class >= 16,
    ensures
        record_at(disk_with(disk, location, bytes), location) == record_in(bytes),
        forall|l: SlotLocation|
            l != location ==> #[trigger] record_at(disk_with(disk, location, bytes), l)
                == record_at(disk, l),
{
    let c = location.size_class;
    let after = disk_with(disk, location, bytes);
    a_zeroed_slot_is_free(zeros(c as nat));
    assert forall|l: SlotLocation| l != location implies #[trigger] record_at(after, l)
        == record_at(disk, l) by {
        if l.size_class == c {
            let slots = slots_on(disk, c);
            let i = l.slot_index as int;
            if slots.len() <= i < location.slot_index {
                assert(after[c][i] == zeros(c as nat));
            }
        }
    }
}

/// Zeroing the prefix of a slot makes that slot say nothing and changes nothing
/// else.
pub proof fn lemma_disk_without(disk: Disk, location: SlotLocation)
    ensures
        record_at(disk_without(disk, location), location) is None,
        forall|l: SlotLocation|
            l != location ==> #[trigger] record_at(disk_without(disk, location), l) == record_at(
                disk,
                l,
            ),
{
    let c = location.size_class;
    let slots = slots_on(disk, c);
    if location.slot_index < slots.len() {
        let bytes = zeroed(slots[location.slot_index as int]);
        if bytes.len() >= 16 {
            a_zeroed_slot_is_free(bytes);
        }
    }
}

/// Zeroing the prefixes of some slots makes those slots say nothing and changes
/// nothing else.
pub proof fn lemma_disk_without_all(disk: Disk, locations: Seq<SlotLocation>)
    ensures
        forall|l: SlotLocation| #[trigger]
            record_at(disk_without_all(disk, locations), l) == (if locations.contains(l) {
                None
            } else {
                record_at(disk, l)
            }),
    decreases locations.len(),
{
    if locations.len() > 0 {
        let fewer = locations.drop_last();
        lemma_disk_without_all(disk, fewer);
        lemma_disk_without(disk_without_all(disk, fewer), locations.last());
        assert forall|l: SlotLocation| #[trigger]
            record_at(disk_without_all(disk, locations), l) == (if locations.contains(l) {
                None
            } else {
                record_at(disk, l)
            }) by {
            if l == locations.last() {
                assert(locations.contains(l));
            } else if fewer.contains(l) {
                let j = choose|j: int| 0 <= j < fewer.len() && fewer[j] == l;
                assert(locations[j] == l);
            } else if locations.contains(l) {
                let j = choose|j: int| 0 <= j < locations.len() && locations[j] == l;
                assert(fewer[j] == l);
            }
        }
    }
}

/// What is written of a partition.
pub open spec fn partition_record(
    name: PartitionName,
    version: nat,
    payload: Seq<u8>,
) -> SlotRecord {
    SlotRecord { version, table_name: name.0, partition_key: name.1, payload }
}

/// The disk once the slot of a partition is written and the slot it had before
/// is not zeroed yet.
pub open spec fn disk_half_saved(
    book: SlotBook,
    disk: Disk,
    name: PartitionName,
    c: u32,
    payload: Seq<u8>,
) -> Disk {
    disk_with(
        disk,
        book.save_target(name, c),
        slot_bytes(c as nat, partition_record(name, book.next_version, payload)),
    )
}

/// The disk once a partition is written and the slot it had before is zeroed.
pub open spec fn disk_saved(
    book: SlotBook,
    disk: Disk,
    name: PartitionName,
    c: u32,
    payload: Seq<u8>,
) -> Disk {
    let written = disk_half_saved(book, disk, name, c, payload);
    match book.save_freed(name, c) {
        Some(old) => disk_without(written, old),
        None => written,
    }
}

/// The disk once a partition is deleted.
pub open spec fn disk_deleted(book: SlotBook, disk: Disk, name: PartitionName) -> Disk {
    if book.index.contains_key(name) {
        disk_without(disk, book.index[name])
    } else {
        disk
    }
}

/// A page-file once its moves are copied and its tail is not cut yet.
pub open spec fn disk_half_compacted(disk: Disk, c: u32, moves: Seq<SlotMove>) -> Disk
    decreases moves.len(),
{
    if moves.len() == 0 {
        disk
    } else {
        let before = disk_half_compacted(disk, c, moves.drop_last());
        disk_with(
            before,
            SlotLocation { size_class: c, slot_index: moves.last().to },
            slots_on(before, c)[moves.last().from as int],
        )
    }
}

/// A page-file cut to so many slots.
pub open spec fn disk_cut(disk: Disk, c: u32, end: nat) -> Disk {
    if end <= slots_on(disk, c).len() {
        disk.insert(c, slots_on(disk, c).take(end as int))
    } else {
        disk
    }
}

/// Whether a slot holds the partition.
pub open spec fn holds(disk: Disk, location: SlotLocation, name: PartitionName) -> bool {
    record_at(disk, location) is Some && name_of(record_at(disk, location)->0) == name
}

/// Whether these are the partitions of the disk. Where several slots hold the
/// same partition it is the one with the highest version, and of several of the
/// same version in one page-file it is the first one.
pub open spec fn is_recovery(disk: Disk, index: Map<PartitionName, SlotLocation>) -> bool {
    &&& forall|name: PartitionName| #[trigger]
        index.contains_key(name) ==> holds(disk, index[name], name)
    &&& forall|name: PartitionName, location: SlotLocation| #[trigger]
        holds(disk, location, name) ==> {
            &&& index.contains_key(name)
            &&& record_at(disk, location)->0.version <= record_at(disk, index[name])->0.version
            &&& record_at(disk, location)->0.version == record_at(disk, index[name])->0.version
                && location.size_class == index[name].size_class ==> index[name].slot_index
                <= location.slot_index
        }
}

/// Whether the version is the lowest one above everything on the disk.
pub open spec fn is_next_version(disk: Disk, version: nat) -> bool {
    &&& 1 <= version
    &&& forall|location: SlotLocation| (#[trigger] record_at(disk, location)) is Some
        ==> record_at(disk, location)->0.version < version
    &&& version > 1 ==> exists|location: SlotLocation|
        (#[trigger] record_at(disk, location)) is Some && record_at(disk, location)->0.version + 1
            == version
}

/// Whether the disk has nothing but what these page-files can hold.
pub open spec fn fits(book: SlotBook, disk: Disk) -> bool {
    forall|c: u32| (#[trigger] slots_on(disk, c)).len() <= book.slot_count(c)
}

/// Whether this is what a scan of the disk makes of a bookkeeping which knew
/// nothing but how many slots there are: the partitions of the disk are in the
/// index, every other slot which was read is free, and the slots which lost
/// against another one of the same partition are named.
pub open spec fn is_recovered(
    before: SlotBook,
    disk: Disk,
    after: SlotBook,
    losers: Seq<SlotLocation>,
) -> bool {
    &&& is_recovery(disk, after.index)
    &&& is_next_version(disk, after.next_version)
    &&& after.classes.dom() == before.classes.dom()
    &&& forall|c: u32| #[trigger]
        after.classes.contains_key(c) ==> {
            &&& after.classes[c].slot_count == before.classes[c].slot_count
            &&& after.classes[c].free.no_duplicates()
            &&& forall|i: u64| #[trigger]
                after.classes[c].free.contains(i) <==> i < slots_on(disk, c).len()
                    && !after.is_live(SlotLocation { size_class: c, slot_index: i })
        }
    &&& losers.no_duplicates()
    &&& forall|location: SlotLocation| #[trigger]
        losers.contains(location) <==> record_at(disk, location) is Some && !after.is_live(location)
}

}
