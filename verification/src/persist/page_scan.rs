//! The recovery scan: what stands in the slots of the page-files, and which slot
//! holds a partition where several do.

use super::page_file::{lemma_whole_slot, slot_of, slots_of};
use super::slot::{decode_slot, slot_content, SlotContent, SlotRecord, SlotState};
use super::slot_book::{
    holds, is_recovery, record_at, record_in, slots_on, Disk, PartitionName, SlotLocation,
};
use crate::hashed_list::HashedList;
use ahash::AHashMap;
use vstd::prelude::*;

verus! {

/// A page-file as it was read.
pub struct PageFile {
    pub size_class: u32,
    pub bytes: Vec<u8>,
}

/// Where in a list something of a partition stands.
pub type PlaceByPartition = HashedList<AHashMap<(String, String), usize>, usize>;

/// What was read of the page-file of a class: nothing if none was.
pub open spec fn file_bytes(files: Seq<PageFile>, c: u32) -> Seq<u8>
    decreases files.len(),
{
    if files.len() == 0 {
        Seq::empty()
    } else if files[0].size_class == c {
        files[0].bytes@
    } else {
        file_bytes(files.drop_first(), c)
    }
}

/// The slots a scan looks at: those which were there when the file was found and
/// are still there.
pub open spec fn scanned_slots(bytes: Seq<u8>, c: u32, slot_count: nat) -> Seq<Seq<u8>> {
    let slots = slots_of(bytes, c as nat);
    if slot_count < slots.len() {
        slots.take(slot_count as int)
    } else {
        slots
    }
}

/// A slot picked up by the recovery scan.
pub struct ScannedSlot {
    pub key: (String, String),
    pub location: SlotLocation,
    pub version: u64,
    pub payload: Vec<u8>,
}

impl ScannedSlot {
    /// Whose partition it is.
    pub open spec fn name(&self) -> PartitionName {
        (self.key.0@, self.key.1@)
    }

    /// What it says.
    pub open spec fn record(&self) -> SlotRecord {
        SlotRecord {
            version: self.version as nat,
            table_name: self.key.0@,
            partition_key: self.key.1@,
            payload: self.payload@,
        }
    }
}

/// Whether these are the occupied ones of some slots, in their order.
pub open spec fn lists_slots(found: Seq<ScannedSlot>, c: u32, slots: Seq<Seq<u8>>) -> bool {
    &&& forall|p: int|
        0 <= p < found.len() ==> {
            &&& (#[trigger] found[p]).location.size_class == c
            &&& found[p].location.slot_index < slots.len()
            &&& record_in(slots[found[p].location.slot_index as int]) == Some(found[p].record())
        }
    &&& forall|p: int, q: int|
        #![trigger found[p], found[q]]
        0 <= p < q < found.len() ==> found[p].location.slot_index < found[q].location.slot_index
    &&& forall|i: int|
        0 <= i < slots.len() && record_in(#[trigger] slots[i]) is Some ==> exists|p: int|
            0 <= p < found.len() && (#[trigger] found[p]).location.slot_index == i
}

/// Whether these are the slots which say nothing, each once.
pub open spec fn lists_free(free: Seq<u64>, slots: Seq<Seq<u8>>) -> bool {
    &&& free.no_duplicates()
    &&& forall|i: u64| #[trigger]
        free.contains(i) <==> i < slots.len() && record_in(slots[i as int]) is None
}

/// Whether a slot is broken.
pub open spec fn is_corrupt(slots: Seq<Seq<u8>>, i: int) -> bool {
    0 <= i < slots.len() && slot_content(slots[i]) == SlotContent::Corrupt
}

/// What was read of the page-file of a class.
pub fn find_file(files: &Vec<PageFile>, c: u32) -> (r: Option<usize>)
    ensures
        r matches Some(at) ==> at < files@.len() && files@[at as int].bytes@ == file_bytes(
            files@,
            c,
        ),
        r is None ==> file_bytes(files@, c).len() == 0,
{
    let mut i: usize = 0;
    assert(files@.skip(0) =~= files@);
    while i < files.len()
        invariant
            i <= files.len(),
            file_bytes(files@.skip(i as int), c) == file_bytes(files@, c),
        decreases files.len() - i,
    {
        assert(files@.skip(i as int).drop_first() =~= files@.skip(i + 1));
        if files[i].size_class == c {
            return Some(i);
        }
        i = i + 1;
    }
    None
}

/// Scans the slots of one page-file: the occupied ones are picked up, and the
/// others are free. A broken slot ends the scan unless errors are skipped; then
/// it is free as well, since it can never be decoded to a key.
pub fn scan_class(
    size_class: u32,
    slot_count: u64,
    bytes: &[u8],
    skip_errors: bool,
) -> (r: Result<(Vec<ScannedSlot>, Vec<u64>), u64>)
    requires
        size_class > 0,
    ensures
        ({
            let slots = scanned_slots(bytes@, size_class, slot_count as nat);
            match r {
                Ok((found, free)) => {
                    &&& lists_slots(found@, size_class, slots)
                    &&& lists_free(free@, slots)
                    &&& skip_errors || forall|i: int| !(#[trigger] is_corrupt(slots, i))
                },
                Err(at) => {
                    &&& !skip_errors
                    &&& is_corrupt(slots, at as int)
                    &&& forall|i: int| 0 <= i < at ==> !(#[trigger] is_corrupt(slots, i))
                },
            }
        }),
{
    let ghost slots = scanned_slots(bytes@, size_class, slot_count as nat);
    let slot_len: usize = size_class as usize;
    let mut found: Vec<ScannedSlot> = Vec::new();
    let mut free: Vec<u64> = Vec::new();
    let mut slot_index: u64 = 0;
    let mut start: usize = 0;
    assert(0 * size_class == 0) by (nonlinear_arith);
    while slot_index < slot_count && slot_len <= bytes.len() - start
        invariant
            size_class > 0,
            slot_len == size_class,
            slots == scanned_slots(bytes@, size_class, slot_count as nat),
            slot_index <= slots.len(),
            slot_index <= slot_count,
            start == slot_index * size_class,
            start <= bytes.len(),
            lists_slots(found@, size_class, slots.take(slot_index as int)),
            lists_free(free@, slots.take(slot_index as int)),
            forall|i: int| 0 <= i < slot_index && !skip_errors ==> !(#[trigger] is_corrupt(slots, i)),
        decreases slot_count - slot_index,
    {
        let ghost i = slot_index as int;
        let ghost before = slots.take(i);
        let ghost after = slots.take(i + 1);
        let ghost known_free = free@;
        let end: usize = start + slot_len;
        proof {
            lemma_whole_slot(bytes@.len(), size_class as nat, i);
            assert(slots[i] == slot_of(bytes@, size_class as nat, i));
            assert((i + 1) * size_class == i * size_class + size_class) by (nonlinear_arith);
            assert(after.drop_last() =~= before);
            assert(after =~= before.push(slots[i]));
        }
        let slot = &bytes[start..end];
        assert(slot@ =~= slots[i]);
        match decode_slot(slot) {
            SlotState::Free => {
                free.push(slot_index);
                proof {
                    lemma_free_grows(known_free, slots, i);
                    lemma_found_stays(found@, size_class, slots, i);
                }
            },
            SlotState::Corrupt => {
                if !skip_errors {
                    assert(is_corrupt(slots, i));
                    return Err(slot_index);
                }
                free.push(slot_index);
                proof {
                    lemma_free_grows(known_free, slots, i);
                    lemma_found_stays(found@, size_class, slots, i);
                }
            },
            SlotState::Occupied(slot) => {
                let ghost known = found@;
                found.push(
                    ScannedSlot {
                        key: (slot.table_name, slot.partition_key),
                        location: SlotLocation { size_class, slot_index },
                        version: slot.version,
                        payload: slot.payload,
                    },
                );
                proof {
                    assert(found@.last().record() =~= slot@);
                    lemma_found_grows(known, found@, size_class, slots, i);
                    lemma_free_stays(free@, slots, i);
                }
            },
        }
        slot_index = slot_index + 1;
        start = end;
    }
    proof {
        lemma_whole_slot(bytes@.len(), size_class as nat, slot_index as int);
        assert(slot_index == slots.len());
        assert(slots.take(slot_index as int) =~= slots);
        assert forall|i: int| !skip_errors implies !(#[trigger] is_corrupt(slots, i)) by {}
    }
    Ok((found, free))
}

proof fn lemma_free_grows(free: Seq<u64>, slots: Seq<Seq<u8>>, i: int)
    requires
        0 <= i < slots.len(),
        i <= u64::MAX,
        lists_free(free, slots.take(i)),
        record_in(slots[i]) is None,
    ensures
        lists_free(free.push(i as u64), slots.take(i + 1)),
{
    let after = free.push(i as u64);
    assert forall|k: u64| #[trigger] after.contains(k) <==> k < i + 1 && record_in(
        slots.take(i + 1)[k as int],
    ) is None by {
        if k == i {
            assert(after[free.len() as int] == k);
        } else {
            assert(free.contains(k) <==> k < i && record_in(slots.take(i)[k as int]) is None);
            if free.contains(k) {
                let j = choose|j: int| 0 <= j < free.len() && free[j] == k;
                assert(after[j] == k);
            }
            if after.contains(k) {
                let j = choose|j: int| 0 <= j < after.len() && after[j] == k;
                assert(free[j] == k);
            }
        }
    }
    assert forall|a: int, b: int| 0 <= a < after.len() && 0 <= b < after.len() && a != b implies
        after[a] != after[b] by {
        if a < free.len() {
            assert(free.contains(free[a]));
        }
        if b < free.len() {
            assert(free.contains(free[b]));
        }
    }
}

proof fn lemma_free_stays(free: Seq<u64>, slots: Seq<Seq<u8>>, i: int)
    requires
        0 <= i < slots.len(),
        lists_free(free, slots.take(i)),
        record_in(slots[i]) is Some,
    ensures
        lists_free(free, slots.take(i + 1)),
{
    assert forall|k: u64| #[trigger] free.contains(k) <==> k < i + 1 && record_in(
        slots.take(i + 1)[k as int],
    ) is None by {
        assert(free.contains(k) <==> k < i && record_in(slots.take(i)[k as int]) is None);
    }
}

proof fn lemma_found_stays(found: Seq<ScannedSlot>, c: u32, slots: Seq<Seq<u8>>, i: int)
    requires
        0 <= i < slots.len(),
        lists_slots(found, c, slots.take(i)),
        record_in(slots[i]) is None,
    ensures
        lists_slots(found, c, slots.take(i + 1)),
{
    let before = slots.take(i);
    let after = slots.take(i + 1);
    assert forall|k: int| 0 <= k < after.len() && record_in(#[trigger] after[k]) is Some implies exists|
        p: int,
    | 0 <= p < found.len() && (#[trigger] found[p]).location.slot_index == k by {
        assert(record_in(before[k]) is Some);
    }
    assert forall|p: int| 0 <= p < found.len() implies {
        &&& (#[trigger] found[p]).location.size_class == c
        &&& found[p].location.slot_index < after.len()
        &&& record_in(after[found[p].location.slot_index as int]) == Some(found[p].record())
    } by {
        assert(before[found[p].location.slot_index as int]
            == after[found[p].location.slot_index as int]);
    }
}

proof fn lemma_found_grows(
    known: Seq<ScannedSlot>,
    found: Seq<ScannedSlot>,
    c: u32,
    slots: Seq<Seq<u8>>,
    i: int,
)
    requires
        0 <= i < slots.len(),
        lists_slots(known, c, slots.take(i)),
        found == known.push(found.last()),
        found.len() == known.len() + 1,
        found.last().location.size_class == c,
        found.last().location.slot_index == i,
        record_in(slots[i]) == Some(found.last().record()),
    ensures
        lists_slots(found, c, slots.take(i + 1)),
{
    let before = slots.take(i);
    let after = slots.take(i + 1);
    assert forall|p: int| 0 <= p < found.len() implies {
        &&& (#[trigger] found[p]).location.size_class == c
        &&& found[p].location.slot_index < after.len()
        &&& record_in(after[found[p].location.slot_index as int]) == Some(found[p].record())
    } by {
        if p < known.len() {
            assert(known[p] == found[p]);
            assert(before[found[p].location.slot_index as int]
                == after[found[p].location.slot_index as int]);
        }
    }
    assert forall|p: int, q: int|
        #![trigger found[p], found[q]]
        0 <= p < q < found.len() implies found[p].location.slot_index
        < found[q].location.slot_index by {
        assert(known[p] == found[p]);
        if q < known.len() {
            assert(known[q] == found[q]);
        }
    }
    assert forall|k: int| 0 <= k < after.len() && record_in(#[trigger] after[k]) is Some implies exists|
        p: int,
    | 0 <= p < found.len() && (#[trigger] found[p]).location.slot_index == k by {
        if k == i {
            assert(found[known.len() as int].location.slot_index == k);
        } else {
            assert(record_in(before[k]) is Some);
            let p = choose|p: int|
                0 <= p < known.len() && (#[trigger] known[p]).location.slot_index == k;
            assert(found[p].location.slot_index == k);
        }
    }
}

/// Whether these are the occupied slots of the page-files of some classes, those
/// of one file in their order.
pub open spec fn lists_disk(found: Seq<ScannedSlot>, disk: Disk, classes: Set<u32>) -> bool {
    &&& forall|p: int|
        0 <= p < found.len() ==> {
            &&& classes.contains((#[trigger] found[p]).location.size_class)
            &&& record_at(disk, found[p].location) == Some(found[p].record())
        }
    &&& forall|p: int, q: int|
        #![trigger found[p], found[q]]
        0 <= p < q < found.len() && found[p].location.size_class == found[q].location.size_class
            ==> found[p].location.slot_index < found[q].location.slot_index
    &&& forall|l: SlotLocation|
        (#[trigger] record_at(disk, l)) is Some && classes.contains(l.size_class) ==> exists|
            p: int,
        | 0 <= p < found.len() && (#[trigger] found[p]).location == l
}

/// The slots of one more page-file behind those of the others.
pub proof fn lemma_one_more_class(
    known: Seq<ScannedSlot>,
    found: Seq<ScannedSlot>,
    disk: Disk,
    classes: Set<u32>,
    c: u32,
)
    requires
        lists_disk(known, disk, classes),
        lists_slots(found, c, slots_on(disk, c)),
        !classes.contains(c),
    ensures
        lists_disk(known + found, disk, classes.insert(c)),
{
    let all = known + found;
    let n = known.len();
    assert forall|p: int| 0 <= p < all.len() implies {
        &&& classes.insert(c).contains((#[trigger] all[p]).location.size_class)
        &&& record_at(disk, all[p].location) == Some(all[p].record())
    } by {
        if p < n {
            assert(known[p] == all[p]);
        } else {
            assert(found[p - n] == all[p]);
        }
    }
    assert forall|p: int, q: int|
        #![trigger all[p], all[q]]
        0 <= p < q < all.len() && all[p].location.size_class == all[q].location.size_class implies
        all[p].location.slot_index < all[q].location.slot_index by {
        if p < n {
            assert(known[p] == all[p]);
        } else {
            assert(found[p - n] == all[p]);
        }
        if q < n {
            assert(known[q] == all[q]);
        } else {
            assert(found[q - n] == all[q]);
        }
    }
    assert forall|l: SlotLocation|
        (#[trigger] record_at(disk, l)) is Some && classes.insert(c).contains(
            l.size_class,
        ) implies exists|p: int| 0 <= p < all.len() && (#[trigger] all[p]).location == l by {
        if l.size_class == c {
            assert(record_in(slots_on(disk, c)[l.slot_index as int]) is Some);
            let p = choose|p: int|
                0 <= p < found.len() && (#[trigger] found[p]).location.slot_index == l.slot_index;
            assert(found[p].location == l);
            assert(all[n + p].location == l);
        } else {
            let p = choose|p: int| 0 <= p < known.len() && (#[trigger] known[p]).location == l;
            assert(all[p].location == l);
        }
    }
}

/// Whether a slot wins against every other slot of its partition among the first
/// so many: the highest version does, and of the same version the first one.
pub open spec fn wins(found: Seq<ScannedSlot>, n: int, p: int) -> bool {
    &&& 0 <= p < n
    &&& forall|q: int|
        0 <= q < n && (#[trigger] found[q]).name() == found[p].name() ==> {
            &&& found[q].version <= found[p].version
            &&& found[q].version == found[p].version ==> p <= q
        }
}

/// Of every partition the place of the slot which wins, and the places of the
/// slots which lost.
pub fn resolve(found: &Vec<ScannedSlot>) -> (r: (PlaceByPartition, Vec<usize>))
    ensures
        r.0.wf(),
        forall|name: PartitionName| #[trigger]
            r.0.map().contains_key(name) ==> wins(found@, found@.len() as int, r.0.map()[name] as int)
                && found@[r.0.map()[name] as int].name() == name,
        forall|q: int|
            0 <= q < found@.len() ==> r.0.map().contains_key((#[trigger] found@[q]).name()),
        r.1@.no_duplicates(),
        forall|q: usize| #[trigger]
            r.1@.contains(q) <==> q < found@.len() && r.0.map()[found@[q as int].name()] != q,
{
    let mut winners: PlaceByPartition = HashedList::new();
    let mut losers: Vec<usize> = Vec::new();
    for i in 0..found.len()
        invariant
            winners.wf(),
            forall|name: PartitionName| #[trigger]
                winners.map().contains_key(name) ==> wins(
                    found@,
                    i as int,
                    winners.map()[name] as int,
                ) && found@[winners.map()[name] as int].name() == name,
            forall|q: int|
                0 <= q < i ==> winners.map().contains_key((#[trigger] found@[q]).name()),
            losers@.no_duplicates(),
            forall|q: usize| #[trigger]
                losers@.contains(q) <==> q < i && winners.map()[found@[q as int].name()] != q,
    {
        let slot = &found[i];
        let key = (slot.key.0.clone(), slot.key.1.clone());
        let ghost name = slot.name();
        let ghost before = winners.map();
        let ghost lost = losers@;
        match winners.get(&key) {
            Some(at) => {
                let at: usize = *at;
                if slot.version > found[at].version {
                    winners.insert(key, i);
                    losers.push(at);
                    proof {
                        assert(!lost.contains(at)) by {
                            assert(found@[at as int].name() == name);
                        }
                        lemma_one_more_lost(lost, losers@, at);
                    }
                } else {
                    losers.push(i);
                    proof {
                        assert(!lost.contains(i));
                        lemma_one_more_lost(lost, losers@, i);
                    }
                }
            },
            None => {
                winners.insert(key, i);
                assert forall|q: int| 0 <= q < i implies (#[trigger] found@[q]).name() != name by {
                    assert(before.contains_key(found@[q].name()));
                }
            },
        }
        assert forall|other: PartitionName| #[trigger] winners.map().contains_key(other) implies wins(
            found@,
            i + 1,
            winners.map()[other] as int,
        ) && found@[winners.map()[other] as int].name() == other by {
            if other != name {
                assert(before.contains_key(other));
            }
        }
    }
    (winners, losers)
}

proof fn lemma_one_more_lost(before: Seq<usize>, after: Seq<usize>, at: usize)
    requires
        before.no_duplicates(),
        !before.contains(at),
        after == before.push(at),
    ensures
        after.no_duplicates(),
        forall|q: usize| #[trigger] after.contains(q) <==> before.contains(q) || q == at,
{
    assert forall|q: usize| before.contains(q) || q == at implies #[trigger] after.contains(q) by {
        if q == at {
            assert(after[before.len() as int] == q);
        } else {
            let j = choose|j: int| 0 <= j < before.len() && before[j] == q;
            assert(after[j] == q);
        }
    }
    assert forall|a: int, b: int| 0 <= a < after.len() && 0 <= b < after.len() && a != b implies
        after[a] != after[b] by {
        if a < before.len() {
            assert(before.contains(before[a]));
        }
        if b < before.len() {
            assert(before.contains(before[b]));
        }
    }
}

/// The version the next write gets: one above every version on the disk. There
/// is none where a slot has the highest version there can be.
pub fn next_version_after(found: &Vec<ScannedSlot>) -> (r: Option<u64>)
    ensures
        r is None <==> exists|p: int|
            0 <= p < found@.len() && (#[trigger] found@[p]).version == u64::MAX,
        r matches Some(version) ==> {
            &&& 1 <= version
            &&& forall|p: int| 0 <= p < found@.len() ==> (#[trigger] found@[p]).version < version
            &&& version > 1 ==> exists|p: int|
                0 <= p < found@.len() && (#[trigger] found@[p]).version + 1 == version
        },
{
    let mut max_version: u64 = 0;
    for i in 0..found.len()
        invariant
            forall|p: int| 0 <= p < i ==> (#[trigger] found@[p]).version <= max_version,
            max_version > 0 ==> exists|p: int|
                0 <= p < i && (#[trigger] found@[p]).version == max_version,
    {
        if found[i].version > max_version {
            max_version = found[i].version;
            assert(found@[i as int].version == max_version);
        }
    }
    if max_version == u64::MAX {
        None
    } else {
        Some(max_version + 1)
    }
}

/// The slots which win are those a recovery gives back.
pub proof fn lemma_winners_recover(
    found: Seq<ScannedSlot>,
    disk: Disk,
    classes: Set<u32>,
    places: Map<PartitionName, usize>,
    index: Map<PartitionName, SlotLocation>,
)
    requires
        lists_disk(found, disk, classes),
        forall|l: SlotLocation| (#[trigger] record_at(disk, l)) is Some ==> classes.contains(
            l.size_class,
        ),
        forall|name: PartitionName| #[trigger]
            places.contains_key(name) ==> wins(found, found.len() as int, places[name] as int)
                && found[places[name] as int].name() == name,
        forall|q: int| 0 <= q < found.len() ==> places.contains_key((#[trigger] found[q]).name()),
        index.dom() == places.dom(),
        forall|name: PartitionName| #[trigger]
            index.contains_key(name) ==> index[name] == found[places[name] as int].location,
    ensures
        is_recovery(disk, index),
{
    assert forall|name: PartitionName| #[trigger] index.contains_key(name) implies holds(
        disk,
        index[name],
        name,
    ) by {
        assert(places.dom().contains(name));
        let p = places[name] as int;
        assert(record_at(disk, found[p].location) == Some(found[p].record()));
    }
    assert forall|name: PartitionName, l: SlotLocation| #[trigger] holds(disk, l, name) implies {
        &&& index.contains_key(name)
        &&& record_at(disk, l)->0.version <= record_at(disk, index[name])->0.version
        &&& record_at(disk, l)->0.version == record_at(disk, index[name])->0.version
            && l.size_class == index[name].size_class ==> index[name].slot_index <= l.slot_index
    } by {
        assert(record_at(disk, l) is Some);
        let q = choose|q: int| 0 <= q < found.len() && (#[trigger] found[q]).location == l;
        assert(record_at(disk, found[q].location) == Some(found[q].record()));
        assert(found[q].name() == name);
        assert(places.contains_key(found[q].name()));
        assert(places.dom().contains(name));
        assert(index.contains_key(name));
        let p = places[name] as int;
        assert(record_at(disk, found[p].location) == Some(found[p].record()));
    }
}

}
