//! What every operation on the page-files keeps.

use super::little_endian::lemma_limits;
use super::size_class::MIN_SIZE_CLASS;
use super::slot::{a_slot_is_read_back, bytes_needed, keys_fit, slot_bytes};
use super::slot_book::{
    below, disk_deleted, disk_half_saved, disk_saved, lemma_disk_with, lemma_disk_without,
    moved_index, name_of, partition_record, record_at, Disk, PartitionName, SlotBook, SlotLocation,
    SlotMove,
};
use vstd::prelude::*;
use vstd::seq_lib::seq_to_set_is_finite;
use vstd::set_lib::{
    lemma_int_range, lemma_len_subset, lemma_set_disjoint_lens, lemma_subset_equality, set_int_range,
};

verus! {

/// A slot which is taken was nobody's, and is not free any more.
pub proof fn lemma_slot_taken(book: SlotBook, c: u32)
    requires
        book.wf(),
        MIN_SIZE_CLASS <= c,
        book.has_room(c),
    ensures
        book.with_slot_taken(c).wf(),
        !book.is_live(book.next_slot(c)),
        book.with_slot_taken(c).has_slot(book.next_slot(c)),
        !book.with_slot_taken(c).free_of(c).contains(book.next_slot(c).slot_index),
        book.next_slot(c).slot_index == (if book.free_of(c).len() > 0 {
            book.free_of(c).last() as nat
        } else {
            book.slot_count(c)
        }),
        book.is_complete() ==> forall|location: SlotLocation| #[trigger]
            book.with_slot_taken(c).has_slot(location) ==> location == book.next_slot(c)
                || book.with_slot_taken(c).is_live(location) || book.with_slot_taken(c).free_of(
                location.size_class,
            ).contains(location.slot_index),
{
    let taken = book.with_slot_taken(c);
    let slot = book.next_slot(c);
    let free = book.free_of(c);
    if book.classes.contains_key(c) {
        assert(book.class_wf(c));
    }
    if free.len() > 0 {
        assert(free[free.len() - 1] == book.classes[c].free[free.len() - 1]);
        assert forall|j: int| 0 <= j < free.drop_last().len() implies free.drop_last()[j]
            != slot.slot_index by {}
    } else {
        assert(book.slot_count(c) <= u64::MAX) by (nonlinear_arith)
            requires
                (book.slot_count(c) + 1) * c <= u64::MAX,
                512 <= c,
        ;
        if book.is_live(slot) {
            let name = choose|name: PartitionName| #[trigger]
                book.index.contains_key(name) && book.index[name] == slot;
            assert(book.has_slot(book.index[name]));
        }
    }
    assert forall|name: PartitionName| #[trigger] taken.index.contains_key(name) implies
        taken.has_slot(taken.index[name]) by {
        assert(book.has_slot(book.index[name]));
    }
    assert forall|d: u32| #[trigger] taken.classes.contains_key(d) implies taken.class_wf(d) by {
        if d != c {
            assert(book.class_wf(d));
        }
        assert forall|j: int|
            #![trigger taken.classes[d].free[j]]
            0 <= j < taken.classes[d].free.len() implies {
            &&& taken.classes[d].free[j] < taken.classes[d].slot_count
            &&& !taken.is_live(
                SlotLocation { size_class: d, slot_index: taken.classes[d].free[j] },
            )
        } by {
            let l = SlotLocation { size_class: d, slot_index: taken.classes[d].free[j] };
            assert(l.slot_index == book.classes[d].free[j]);
            if taken.is_live(l) {
                let name = choose|name: PartitionName| #[trigger]
                    taken.index.contains_key(name) && taken.index[name] == l;
                assert(book.index.contains_key(name));
                assert(book.is_live(l));
            }
        }
    }
    if book.is_complete() {
        assert forall|location: SlotLocation| #[trigger] taken.has_slot(location) implies location
            == slot || taken.is_live(location) || taken.free_of(location.size_class).contains(
            location.slot_index,
        ) by {
            if location != slot {
                assert(book.has_slot(location));
                if book.is_live(location) {
                    let name = choose|name: PartitionName| #[trigger]
                        book.index.contains_key(name) && book.index[name] == location;
                    assert(taken.index.contains_key(name));
                } else if location.size_class == c {
                    let j = choose|j: int| 0 <= j < free.len() && free[j] == location.slot_index;
                    assert(free.drop_last()[j] == location.slot_index);
                }
            }
        }
    }
}

/// Giving a partition the slot nobody has keeps everything in order.
proof fn lemma_placed(book: SlotBook, name: PartitionName, slot: SlotLocation)
    requires
        book.wf(),
        book.has_slot(slot),
        !book.free_of(slot.size_class).contains(slot.slot_index),
        forall|other: PartitionName| #[trigger]
            book.index.contains_key(other) && book.index[other] == slot ==> other == name,
    ensures
        book.with_partition_at(name, slot).wf(),
{
    let placed = book.with_partition_at(name, slot);
    assert forall|c: u32| #[trigger] placed.classes.contains_key(c) implies placed.class_wf(c) by {
        assert(book.class_wf(c));
        assert forall|j: int|
            #![trigger placed.classes[c].free[j]]
            0 <= j < placed.classes[c].free.len() implies {
            &&& placed.classes[c].free[j] < placed.classes[c].slot_count
            &&& !placed.is_live(
                SlotLocation { size_class: c, slot_index: placed.classes[c].free[j] },
            )
        } by {
            let l = SlotLocation { size_class: c, slot_index: placed.classes[c].free[j] };
            if placed.is_live(l) {
                let other = choose|other: PartitionName| #[trigger]
                    placed.index.contains_key(other) && placed.index[other] == l;
                if other == name {
                    assert(book.free_of(c).contains(l.slot_index));
                } else {
                    assert(book.index.contains_key(other));
                    assert(book.is_live(l));
                }
            }
        }
    }
    assert forall|a: PartitionName| #[trigger] placed.index.contains_key(a) implies placed.has_slot(
        placed.index[a],
    ) by {
        if a != name {
            assert(book.index.contains_key(a));
            assert(book.has_slot(book.index[a]));
        }
    }
    assert forall|a: PartitionName, b: PartitionName| #[trigger]
        placed.index.contains_key(a) && #[trigger] placed.index.contains_key(b) && placed.index[a]
            == placed.index[b] implies a == b by {
        if a != name {
            assert(book.index.contains_key(a));
        }
        if b != name {
            assert(book.index.contains_key(b));
        }
    }
}

/// A slot nobody has can be free.
pub proof fn lemma_slot_freed(book: SlotBook, slot: SlotLocation)
    requires
        book.wf(),
        book.has_slot(slot),
        !book.is_live(slot),
        !book.free_of(slot.size_class).contains(slot.slot_index),
    ensures
        book.with_slot_freed(slot).wf(),
{
    let freed = book.with_slot_freed(slot);
    assert forall|name: PartitionName| #[trigger] freed.index.contains_key(name) implies
        freed.has_slot(freed.index[name]) by {
        assert(book.has_slot(book.index[name]));
    }
    assert forall|c: u32| #[trigger] freed.classes.contains_key(c) implies freed.class_wf(c) by {
        assert(book.class_wf(c));
        assert forall|j: int|
            #![trigger freed.classes[c].free[j]]
            0 <= j < freed.classes[c].free.len() implies {
            &&& freed.classes[c].free[j] < freed.classes[c].slot_count
            &&& !freed.is_live(
                SlotLocation { size_class: c, slot_index: freed.classes[c].free[j] },
            )
        } by {
            let l = SlotLocation { size_class: c, slot_index: freed.classes[c].free[j] };
            if j < book.classes[c].free.len() {
                assert(l.slot_index == book.classes[c].free[j]);
            }
            if freed.is_live(l) {
                let name = choose|name: PartitionName| #[trigger]
                    freed.index.contains_key(name) && freed.index[name] == l;
                assert(book.index.contains_key(name));
                assert(book.is_live(l));
            }
        }
        if c == slot.size_class {
            let before = book.classes[c].free;
            let after = freed.classes[c].free;
            assert forall|i: int, j: int|
                0 <= i < after.len() && 0 <= j < after.len() && i != j implies after[i]
                != after[j] by {
                if i == before.len() {
                    assert(before.contains(before[j]));
                } else if j == before.len() {
                    assert(before.contains(before[i]));
                }
            }
        }
    }
}

/// Writing a partition keeps the bookkeeping in order, and gives the partition a
/// slot nobody else had.
pub proof fn saving_keeps_order(book: SlotBook, name: PartitionName, c: u32)
    requires
        book.wf(),
        MIN_SIZE_CLASS <= c,
        book.has_room(c),
    ensures
        book.saved(name, c).wf(),
        book.saved(name, c).index == book.index.insert(name, book.save_target(name, c)),
        book.save_target(name, c).size_class == c,
        forall|other: PartitionName| #[trigger]
            book.index.contains_key(other) && book.index[other] == book.save_target(name, c)
                ==> other == name,
        book.save_freed(name, c) != Some(book.save_target(name, c)),
        book.is_complete() ==> book.saved(name, c).is_complete(),
{
    let target = book.save_target(name, c);
    let in_place = book.index.contains_key(name) && book.index[name].size_class == c;
    let taken = if in_place {
        book
    } else {
        book.with_slot_taken(c)
    };
    if in_place {
        assert(book.has_slot(book.index[name]));
        assert(book.class_wf(c));
        if book.free_of(c).contains(target.slot_index) {
            let j = choose|j: int|
                0 <= j < book.free_of(c).len() && book.free_of(c)[j] == target.slot_index;
            assert(book.classes[c].free[j] == target.slot_index);
            assert(book.is_live(target));
        }
    } else {
        lemma_slot_taken(book, c);
    }
    assert forall|other: PartitionName| #[trigger]
        book.index.contains_key(other) && book.index[other] == target implies other == name by {
        if !in_place {
            assert(book.is_live(target));
        }
    }
    assert(taken.index == book.index);
    lemma_placed(taken, name, target);
    let placed = taken.with_partition_at(name, target);
    if let Some(old) = book.save_freed(name, c) {
        assert(book.has_slot(old));
        assert(book.class_wf(old.size_class));
        assert(book.is_live(old));
        if placed.is_live(old) {
            let other = choose|other: PartitionName| #[trigger]
                placed.index.contains_key(other) && placed.index[other] == old;
            assert(book.index.contains_key(other));
        }
        if placed.free_of(old.size_class).contains(old.slot_index) {
            let free = placed.free_of(old.size_class);
            let j = choose|j: int| 0 <= j < free.len() && free[j] == old.slot_index;
            assert(book.classes[old.size_class].free[j] == old.slot_index);
        }
        lemma_slot_freed(placed, old);
    }
    if book.is_complete() {
        let after = book.saved(name, c);
        assert forall|location: SlotLocation| #[trigger] after.has_slot(location) implies
            after.is_live(location) || after.free_of(location.size_class).contains(
            location.slot_index,
        ) by {
            if location == target {
                assert(after.index.contains_key(name));
                assert(after.is_live(location));
            } else if Some(location) == book.save_freed(name, c) {
                let free = after.free_of(location.size_class);
                assert(free[free.len() - 1] == location.slot_index);
            } else {
                assert(taken.has_slot(location));
                if in_place {
                    assert(book.has_slot(location));
                }
                if taken.is_live(location) {
                    let other = choose|other: PartitionName| #[trigger]
                        taken.index.contains_key(other) && taken.index[other] == location;
                    assert(other != name);
                    assert(after.index.contains_key(other));
                } else {
                    let free = taken.free_of(location.size_class);
                    let j = choose|j: int| 0 <= j < free.len() && free[j] == location.slot_index;
                    assert(after.free_of(location.size_class)[j] == location.slot_index);
                }
            }
        }
    }
}

/// Deleting a partition keeps the bookkeeping in order.
pub proof fn deleting_keeps_order(book: SlotBook, name: PartitionName)
    requires
        book.wf(),
    ensures
        book.deleted(name).wf(),
        book.deleted(name).index == book.index.remove(name),
        book.is_complete() ==> book.deleted(name).is_complete(),
{
    if book.index.contains_key(name) {
        let slot = book.index[name];
        let gone = SlotBook { index: book.index.remove(name), ..book };
        assert(book.has_slot(slot));
        assert(book.is_live(slot));
        assert forall|c: u32| #[trigger] gone.classes.contains_key(c) implies gone.class_wf(c) by {
            assert(book.class_wf(c));
            assert forall|j: int|
                #![trigger gone.classes[c].free[j]]
                0 <= j < gone.classes[c].free.len() implies {
                &&& gone.classes[c].free[j] < gone.classes[c].slot_count
                &&& !gone.is_live(
                    SlotLocation { size_class: c, slot_index: gone.classes[c].free[j] },
                )
            } by {
                let l = SlotLocation { size_class: c, slot_index: gone.classes[c].free[j] };
                if gone.is_live(l) {
                    let other = choose|other: PartitionName| #[trigger]
                        gone.index.contains_key(other) && gone.index[other] == l;
                    assert(book.index.contains_key(other));
                    assert(book.is_live(l));
                }
            }
        }
        assert forall|a: PartitionName| #[trigger] gone.index.contains_key(a) implies gone.has_slot(
            gone.index[a],
        ) by {
            assert(book.index.contains_key(a));
            assert(book.has_slot(book.index[a]));
        }
        assert forall|a: PartitionName, b: PartitionName| #[trigger]
            gone.index.contains_key(a) && #[trigger] gone.index.contains_key(b) && gone.index[a]
                == gone.index[b] implies a == b by {
            assert(book.index.contains_key(a) && book.index.contains_key(b));
        }
        if gone.is_live(slot) {
            let other = choose|other: PartitionName| #[trigger]
                gone.index.contains_key(other) && gone.index[other] == slot;
            assert(book.index.contains_key(other));
        }
        if gone.free_of(slot.size_class).contains(slot.slot_index) {
            let free = gone.free_of(slot.size_class);
            let j = choose|j: int| 0 <= j < free.len() && free[j] == slot.slot_index;
            assert(book.class_wf(slot.size_class));
            assert(book.classes[slot.size_class].free[j] == slot.slot_index);
        }
        lemma_slot_freed(gone, slot);
        if book.is_complete() {
            let after = book.deleted(name);
            assert forall|location: SlotLocation| #[trigger] after.has_slot(location) implies
                after.is_live(location) || after.free_of(location.size_class).contains(
                location.slot_index,
            ) by {
                let free = after.free_of(location.size_class);
                assert(book.has_slot(location));
                if location == slot {
                    assert(free[free.len() - 1] == location.slot_index);
                } else if book.is_live(location) {
                    let other = choose|other: PartitionName| #[trigger]
                        book.index.contains_key(other) && book.index[other] == location;
                    assert(after.index.contains_key(other));
                } else {
                    let before = book.free_of(location.size_class);
                    let j = choose|j: int| 0 <= j < before.len() && before[j] == location.slot_index;
                    assert(free[j] == location.slot_index);
                }
            }
        }
    } else {
        assert(book.index.remove(name) =~= book.index);
    }
}

/// Removing a page-file whose every slot is free keeps the bookkeeping in order,
/// and no partition loses its slot.
pub proof fn removing_a_free_file_keeps_order(book: SlotBook, c: u32)
    requires
        book.wf(),
        book.is_fully_free(c),
    ensures
        book.without_class(c).wf(),
        forall|name: PartitionName| #[trigger]
            book.index.contains_key(name) ==> book.index[name].size_class != c,
        book.is_complete() ==> book.without_class(c).is_complete(),
{
    let after = book.without_class(c);
    assert(book.class_wf(c));
    assert forall|name: PartitionName| #[trigger] book.index.contains_key(name) implies
        book.index[name].size_class != c && after.has_slot(after.index[name]) by {
        assert(book.has_slot(book.index[name]));
        if book.index[name].size_class == c {
            let i = book.index[name].slot_index;
            assert(book.classes[c].free.contains(i));
            let j = choose|j: int|
                0 <= j < book.classes[c].free.len() && book.classes[c].free[j] == i;
            assert(book.classes[c].free[j] == i);
            assert(book.is_live(SlotLocation { size_class: c, slot_index: i }));
        }
    }
    assert forall|d: u32| #[trigger] after.classes.contains_key(d) implies after.class_wf(d) by {
        assert(book.class_wf(d));
        lemma_same_index_same_class(book, after, d);
    }
    if book.is_complete() {
        assert forall|location: SlotLocation| #[trigger] after.has_slot(location) implies
            after.is_live(location) || after.free_of(location.size_class).contains(
            location.slot_index,
        ) by {
            assert(book.has_slot(location));
            if book.is_live(location) {
                let other = choose|other: PartitionName| #[trigger]
                    book.index.contains_key(other) && book.index[other] == location;
                assert(after.index.contains_key(other));
            }
        }
    }
}

proof fn lemma_same_index_same_class(a: SlotBook, b: SlotBook, c: u32)
    requires
        a.class_wf(c),
        a.classes[c] == b.classes[c],
        a.index == b.index,
    ensures
        b.class_wf(c),
{
    assert forall|j: int|
        #![trigger b.classes[c].free[j]]
        0 <= j < b.classes[c].free.len() implies {
        &&& b.classes[c].free[j] < b.classes[c].slot_count
        &&& !b.is_live(SlotLocation { size_class: c, slot_index: b.classes[c].free[j] })
    } by {
        let l = SlotLocation { size_class: c, slot_index: b.classes[c].free[j] };
        assert(a.classes[c].free[j] == l.slot_index);
        if b.is_live(l) {
            let name = choose|name: PartitionName| #[trigger]
                b.index.contains_key(name) && b.index[name] == l;
            assert(a.index.contains_key(name));
            assert(a.is_live(l));
        }
    }
}

/// What `below` keeps.
pub proof fn lemma_below(slots: Seq<u64>, end: nat)
    ensures
        forall|j: int|
            #![trigger below(slots, end)[j]]
            0 <= j < below(slots, end).len() ==> below(slots, end)[j] < end && slots.contains(
                below(slots, end)[j],
            ),
        forall|i: u64| #[trigger] slots.contains(i) && i < end ==> below(slots, end).contains(i),
        slots.no_duplicates() ==> below(slots, end).no_duplicates(),
    decreases slots.len(),
{
    if slots.len() > 0 {
        let fewer = slots.drop_last();
        lemma_below(fewer, end);
        let kept = below(slots, end);
        let kept_before = below(fewer, end);
        assert forall|j: int| #![trigger kept[j]] 0 <= j < kept.len() implies kept[j] < end
            && slots.contains(kept[j]) by {
            if j < kept_before.len() {
                assert(kept[j] == kept_before[j]);
                let k = choose|k: int| 0 <= k < fewer.len() && fewer[k] == kept_before[j];
                assert(slots[k] == kept[j]);
            } else {
                assert(slots[slots.len() - 1] == kept[j]);
            }
        }
        assert forall|i: u64| #[trigger] slots.contains(i) && i < end implies kept.contains(i) by {
            let k = choose|k: int| 0 <= k < slots.len() && slots[k] == i;
            if k < fewer.len() {
                assert(fewer[k] == i);
                assert(fewer.contains(i));
                let j = choose|j: int| 0 <= j < kept_before.len() && kept_before[j] == i;
                assert(kept[j] == i);
            } else {
                assert(kept[kept.len() - 1] == i);
            }
        }
        if slots.no_duplicates() {
            assert(fewer.no_duplicates());
            assert forall|i: int, j: int|
                0 <= i < kept.len() && 0 <= j < kept.len() && i != j implies kept[i] != kept[j] by {
                if i == kept_before.len() {
                    assert(fewer.contains(kept_before[j]));
                } else if j == kept_before.len() {
                    assert(fewer.contains(kept_before[i]));
                }
            }
        }
    }
}

/// What an index says once the moves are made.
pub proof fn lemma_moved_index(
    index: Map<PartitionName, SlotLocation>,
    c: u32,
    moves: Seq<SlotMove>,
)
    requires
        forall|i: int, j: int|
            #![trigger moves[i], moves[j]]
            0 <= i < j < moves.len() ==> moves[i].name != moves[j].name,
    ensures
        forall|name: PartitionName| #[trigger]
            moved_index(index, c, moves).contains_key(name) <==> index.contains_key(name) || exists|
                j: int,
            | 0 <= j < moves.len() && (#[trigger] moves[j]).name == name,
        forall|j: int|
            #![trigger moves[j]]
            0 <= j < moves.len() ==> moved_index(index, c, moves)[moves[j].name] == (SlotLocation {
                size_class: c,
                slot_index: moves[j].to,
            }),
        forall|name: PartitionName|
            (forall|j: int| 0 <= j < moves.len() ==> (#[trigger] moves[j]).name != name)
                ==> #[trigger] moved_index(index, c, moves)[name] == index[name],
    decreases moves.len(),
{
    if moves.len() > 0 {
        let fewer = moves.drop_last();
        assert forall|i: int, j: int|
            #![trigger fewer[i], fewer[j]]
            0 <= i < j < fewer.len() implies fewer[i].name != fewer[j].name by {
            assert(moves[i].name != moves[j].name);
        }
        lemma_moved_index(index, c, fewer);
        let after = moved_index(index, c, moves);
        let before = moved_index(index, c, fewer);
        let last = moves.last();
        assert forall|name: PartitionName| #[trigger] after.contains_key(name) implies
            index.contains_key(name) || exists|j: int|
            0 <= j < moves.len() && (#[trigger] moves[j]).name == name by {
            if name == last.name {
                assert(moves[moves.len() - 1].name == name);
            } else {
                assert(before.contains_key(name));
                if !index.contains_key(name) {
                    let j = choose|j: int| 0 <= j < fewer.len() && (#[trigger] fewer[j]).name == name;
                    assert(moves[j].name == name);
                }
            }
        }
        assert forall|name: PartitionName|
            index.contains_key(name) || exists|j: int|
                0 <= j < moves.len() && (#[trigger] moves[j]).name == name implies #[trigger]
            after.contains_key(name) by {
            if name != last.name {
                if !index.contains_key(name) {
                    let j = choose|j: int| 0 <= j < moves.len() && (#[trigger] moves[j]).name == name;
                    assert(fewer[j].name == name);
                }
                assert(before.contains_key(name));
            }
        }
        assert forall|j: int| #![trigger moves[j]] 0 <= j < moves.len() implies after[moves[j].name]
            == (SlotLocation { size_class: c, slot_index: moves[j].to }) by {
            if j < fewer.len() {
                assert(fewer[j] == moves[j]);
                assert(moves[j].name != moves[moves.len() - 1].name);
            }
        }
        assert forall|name: PartitionName|
            (forall|j: int| 0 <= j < moves.len() ==> (#[trigger] moves[j]).name != name) implies
            #[trigger] after[name] == index[name] by {
            assert(moves[moves.len() - 1].name != name);
            assert forall|j: int| 0 <= j < fewer.len() implies (#[trigger] fewer[j]).name != name by {
                assert(moves[j].name != name);
            }
        }
    }
}

/// Where a partition stands once its page-file is compacted: where it stood, or
/// in one of the slots which were free below the new end.
pub proof fn lemma_place_after_compaction(
    book: SlotBook,
    c: u32,
    moves: Seq<SlotMove>,
    name: PartitionName,
)
    requires
        book.wf(),
        book.classes.contains_key(c),
        book.is_compaction(c, moves),
        book.index.contains_key(name),
    ensures
        book.compacted(c, moves).index.contains_key(name),
        book.is_tail_live(c, name) ==> exists|j: int|
            0 <= j < moves.len() && (#[trigger] moves[j]).name == name && book.compacted(
                c,
                moves,
            ).index[name] == (SlotLocation { size_class: c, slot_index: moves[j].to }),
        !book.is_tail_live(c, name) ==> book.compacted(c, moves).index[name] == book.index[name],
{
    lemma_moved_index(book.index, c, moves);
    if book.is_tail_live(c, name) {
        let j = choose|j: int| 0 <= j < moves.len() && (#[trigger] moves[j]).name == name;
        assert(moves[j].name == name);
    } else {
        assert forall|j: int| 0 <= j < moves.len() implies (#[trigger] moves[j]).name != name by {
            if moves[j].name == name {
                assert(book.is_tail_live(c, name));
            }
        }
    }
}

/// The slot a partition moves into was free.
pub proof fn lemma_move_target(book: SlotBook, c: u32, moves: Seq<SlotMove>, j: int)
    requires
        book.wf(),
        book.classes.contains_key(c),
        book.is_compaction(c, moves),
        0 <= j < moves.len(),
    ensures
        moves[j].to < book.live_count(c),
        book.classes[c].free.contains(moves[j].to),
        !book.is_live((SlotLocation { size_class: c, slot_index: moves[j].to })),
        forall|i: int|
            0 <= i < moves.len() && i != j ==> (#[trigger] moves[i]).to != moves[j].to,
{
    let free = book.classes[c].free;
    assert(book.class_wf(c));
    lemma_below(free, book.live_count(c));
    let head = book.head_frees(c);
    assert(moves[j].to == head[j]);
    assert(free.contains(head[j]));
    let k = choose|k: int| 0 <= k < free.len() && free[k] == head[j];
    assert(book.classes[c].free[k] == head[j]);
    assert forall|i: int| 0 <= i < moves.len() && i != j implies (#[trigger] moves[i]).to
        != moves[j].to by {
        assert(moves[i].to == head[i]);
    }
}

/// Compacting a page-file keeps the bookkeeping in order: nothing loses its slot,
/// and no two partitions end up in the same one.
pub proof fn compacting_keeps_order(book: SlotBook, c: u32, moves: Seq<SlotMove>)
    requires
        book.wf(),
        book.classes.contains_key(c),
        book.is_compaction(c, moves),
    ensures
        book.compacted(c, moves).wf(),
        book.compacted(c, moves).index.dom() == book.index.dom(),
{
    let after = book.compacted(c, moves);
    let end = book.live_count(c);
    lemma_moved_index(book.index, c, moves);
    assert(book.class_wf(c));
    assert forall|name: PartitionName| #[trigger] after.index.contains_key(name) implies
        book.index.contains_key(name) by {
        if !book.index.contains_key(name) {
            let j = choose|j: int| 0 <= j < moves.len() && (#[trigger] moves[j]).name == name;
            assert(book.index.contains_key(moves[j].name));
        }
    }
    assert forall|name: PartitionName| #[trigger] after.index.contains_key(name) implies
        after.has_slot(after.index[name]) by {
        assert(book.has_slot(book.index[name]));
        lemma_place_after_compaction(book, c, moves, name);
        if book.is_tail_live(c, name) {
            let j = choose|j: int|
                0 <= j < moves.len() && (#[trigger] moves[j]).name == name && after.index[name] == (
                SlotLocation { size_class: c, slot_index: moves[j].to });
            lemma_move_target(book, c, moves, j);
        }
    }
    assert forall|a: PartitionName, b: PartitionName| #[trigger]
        after.index.contains_key(a) && #[trigger] after.index.contains_key(b) && after.index[a]
            == after.index[b] implies a == b by {
        lemma_place_after_compaction(book, c, moves, a);
        lemma_place_after_compaction(book, c, moves, b);
        if book.is_tail_live(c, a) {
            let i = choose|i: int|
                0 <= i < moves.len() && (#[trigger] moves[i]).name == a && after.index[a] == (
                SlotLocation { size_class: c, slot_index: moves[i].to });
            lemma_move_target(book, c, moves, i);
            if book.is_tail_live(c, b) {
                let j = choose|j: int|
                    0 <= j < moves.len() && (#[trigger] moves[j]).name == b && after.index[b] == (
                    SlotLocation { size_class: c, slot_index: moves[j].to });
                if i != j {
                    assert(moves[j].to != moves[i].to);
                }
            } else {
                assert(book.is_live(book.index[b]));
            }
        } else if book.is_tail_live(c, b) {
            let j = choose|j: int|
                0 <= j < moves.len() && (#[trigger] moves[j]).name == b && after.index[b] == (
                SlotLocation { size_class: c, slot_index: moves[j].to });
            lemma_move_target(book, c, moves, j);
            assert(book.is_live(book.index[a]));
        }
    }
    assert forall|d: u32| #[trigger] after.classes.contains_key(d) implies after.class_wf(d) by {
        if d == c {
            let count = book.classes[c].slot_count;
            assert(end * c <= count * c) by (nonlinear_arith)
                requires
                    end <= count,
            ;
        } else {
            assert(book.class_wf(d));
            assert forall|k: int|
                #![trigger after.classes[d].free[k]]
                0 <= k < after.classes[d].free.len() implies {
                &&& after.classes[d].free[k] < after.classes[d].slot_count
                &&& !after.is_live(
                    SlotLocation { size_class: d, slot_index: after.classes[d].free[k] },
                )
            } by {
                let l = SlotLocation { size_class: d, slot_index: after.classes[d].free[k] };
                assert(book.classes[d].free[k] == l.slot_index);
                if after.is_live(l) {
                    let name = choose|name: PartitionName| #[trigger]
                        after.index.contains_key(name) && after.index[name] == l;
                    lemma_place_after_compaction(book, c, moves, name);
                    assert(book.is_live(l));
                }
            }
        }
    }
    assert(after.index.dom() =~= book.index.dom());
}

/// Where every slot was free or had a partition in it, no slot is left empty by
/// compacting.
pub proof fn compacting_keeps_completeness(book: SlotBook, c: u32, moves: Seq<SlotMove>)
    requires
        book.wf(),
        book.is_complete(),
        book.classes.contains_key(c),
        book.is_compaction(c, moves),
    ensures
        book.compacted(c, moves).is_complete(),
{
    let after = book.compacted(c, moves);
    assert forall|location: SlotLocation| #[trigger] after.has_slot(location) implies after.is_live(
        location,
    ) || after.free_of(location.size_class).contains(location.slot_index) by {
        assert(book.has_slot(location));
        if book.is_live(location) {
            let name = choose|name: PartitionName| #[trigger]
                book.index.contains_key(name) && book.index[name] == location;
            lemma_place_after_compaction(book, c, moves, name);
            assert(!book.is_tail_live(c, name));
            assert(after.index.contains_key(name));
        } else if location.size_class == c {
            lemma_below(book.classes[c].free, book.live_count(c));
            assert(book.classes[c].free.contains(location.slot_index));
            let j = choose|j: int|
                0 <= j < book.head_frees(c).len() && book.head_frees(c)[j] == location.slot_index;
            assert(moves[j].to == location.slot_index);
            lemma_place_after_compaction(book, c, moves, moves[j].name);
            lemma_moved_index(book.index, c, moves);
            assert(after.index.contains_key(moves[j].name));
            assert(after.index[moves[j].name] == location);
        }
    }
}

/// The numbers of a list of slots.
spec fn as_ints(slots: Seq<u64>) -> Seq<int> {
    Seq::new(slots.len(), |i: int| slots[i] as int)
}

proof fn lemma_as_ints(slots: Seq<u64>)
    requires
        slots.no_duplicates(),
    ensures
        as_ints(slots).no_duplicates(),
        as_ints(slots).to_set().len() == slots.len(),
        as_ints(slots).to_set().finite(),
        forall|i: u64| #[trigger] slots.contains(i) <==> as_ints(slots).to_set().contains(i as int),
        forall|n: int| #[trigger]
            as_ints(slots).to_set().contains(n) ==> 0 <= n <= u64::MAX && slots.contains(n as u64),
{
    as_ints(slots).unique_seq_to_set();
    seq_to_set_is_finite(as_ints(slots));
    assert forall|i: u64| #[trigger] slots.contains(i) implies as_ints(slots).to_set().contains(
        i as int,
    ) by {
        let k = choose|k: int| 0 <= k < slots.len() && slots[k] == i;
        assert(as_ints(slots)[k] == i as int);
    }
    assert forall|n: int| #[trigger] as_ints(slots).to_set().contains(n) implies 0 <= n <= u64::MAX
        && slots.contains(n as u64) by {
        let k = choose|k: int| 0 <= k < as_ints(slots).len() && as_ints(slots)[k] == n;
        assert(slots[k] == n as u64);
    }
}

/// There are not more free slots than slots.
pub proof fn lemma_free_count(book: SlotBook, c: u32)
    requires
        book.wf(),
        book.classes.contains_key(c),
    ensures
        book.classes[c].free.len() <= book.classes[c].slot_count,
{
    let free = book.classes[c].free;
    let n = book.classes[c].slot_count as int;
    assert(book.class_wf(c));
    lemma_as_ints(free);
    lemma_int_range(0, n);
    assert forall|i: int| #[trigger] as_ints(free).to_set().contains(i) implies set_int_range(
        0,
        n,
    ).contains(i) by {
        let k = choose|k: int| 0 <= k < free.len() && free[k] == i as u64;
        assert(book.classes[c].free[k] < n);
    }
    lemma_len_subset(as_ints(free).to_set(), set_int_range(0, n));
}

/// Every slot of a page-file is free where there are as many free slots as slots.
pub proof fn lemma_fully_free_count(book: SlotBook, c: u32)
    requires
        book.wf(),
        book.classes.contains_key(c),
    ensures
        book.classes[c].free.len() <= book.classes[c].slot_count,
        book.is_fully_free(c) <==> book.classes[c].slot_count > 0 && book.classes[c].free.len()
            == book.classes[c].slot_count,
{
    let free = book.classes[c].free;
    let n = book.classes[c].slot_count as int;
    let all = set_int_range(0, n);
    assert(book.class_wf(c));
    lemma_free_count(book, c);
    lemma_as_ints(free);
    lemma_int_range(0, n);
    assert forall|i: int| #[trigger] as_ints(free).to_set().contains(i) implies all.contains(i) by {
        let k = choose|k: int| 0 <= k < free.len() && free[k] == i as u64;
        assert(book.classes[c].free[k] < n);
    }
    if free.len() == n {
        lemma_subset_equality(as_ints(free).to_set(), all);
        assert forall|i: u64| i < n implies #[trigger] free.contains(i) by {
            assert(all.contains(i as int));
            assert(as_ints(free).to_set().contains(i as int));
        }
    }
    if book.is_fully_free(c) {
        assert(n <= u64::MAX) by (nonlinear_arith)
            requires
                n * c <= u64::MAX,
                c >= 1,
                n >= 0,
        ;
        assert forall|i: int| #[trigger] all.contains(i) implies as_ints(free).to_set().contains(
            i,
        ) by {
            assert(free.contains(i as u64));
        }
        lemma_len_subset(all, as_ints(free).to_set());
    }
}

/// The partitions at or beyond the new end of a page-file and the free slots
/// below it pair up one to one: live and free slots together are all the slots
/// there are.
pub proof fn a_compaction_pairs_up(book: SlotBook, c: u32, tails: Seq<PartitionName>)
    requires
        book.wf(),
        book.is_complete(),
        book.classes.contains_key(c),
        tails.no_duplicates(),
        forall|name: PartitionName| #[trigger] tails.contains(name) <==> book.is_tail_live(c, name),
    ensures
        tails.len() == book.head_frees(c).len(),
{
    let n = book.classes[c].slot_count as int;
    let free = book.classes[c].free;
    let end = book.live_count(c) as int;
    let head = book.head_frees(c);
    assert(book.class_wf(c));
    lemma_below(free, end as nat);
    lemma_as_ints(free);
    lemma_as_ints(head);
    assert(n <= u64::MAX) by (nonlinear_arith)
        requires
            n * c <= u64::MAX,
            c >= 1,
    ;
    let all = set_int_range(0, n);
    let frees = as_ints(free).to_set();
    let lives = Set::new(
        |i: int|
            0 <= i < n && book.is_live(SlotLocation { size_class: c, slot_index: i as u64 }),
    );
    lemma_int_range(0, n);
    assert(lives.subset_of(all));
    lemma_len_subset(lives, all);
    // A free slot is below the end of the file and nobody's.
    assert forall|i: int| #[trigger] frees.contains(i) implies 0 <= i < n && !lives.contains(i) by {
        let k = choose|k: int| 0 <= k < free.len() && free[k] == i as u64;
        assert(book.classes[c].free[k] == i as u64);
    }
    assert(lives + frees =~= all) by {
        assert forall|i: int| all.contains(i) implies #[trigger] (lives + frees).contains(i) by {
            let l = SlotLocation { size_class: c, slot_index: i as u64 };
            assert(book.has_slot(l));
            if !book.is_live(l) {
                assert(free.contains(l.slot_index));
            }
        }
    }
    lemma_set_disjoint_lens(lives, frees);
    assert(frees.len() <= n);
    assert(lives.len() == end);

    let below_end = set_int_range(0, end);
    lemma_int_range(0, end);
    let head_lives = lives.intersect(below_end);
    let head_frees = as_ints(head).to_set();
    let tail_lives = lives.difference(below_end);
    assert(head_lives + head_frees =~= below_end) by {
        assert forall|i: int| below_end.contains(i) implies #[trigger] (head_lives
            + head_frees).contains(i) by {
            assert(all.contains(i));
            assert((lives + frees).contains(i));
            if !lives.contains(i) {
                assert(free.contains(i as u64));
                assert(head.contains(i as u64));
            }
        }
        assert forall|i: int| #[trigger] head_frees.contains(i) implies below_end.contains(i) by {
            let k = choose|k: int| 0 <= k < head.len() && head[k] == i as u64;
            assert(head[k] < end);
        }
    }
    assert(head_lives.disjoint(head_frees)) by {
        assert forall|i: int| #[trigger] head_frees.contains(i) implies !head_lives.contains(i) by {
            let k = choose|k: int| 0 <= k < head.len() && head[k] == i as u64;
            assert(free.contains(head[k]));
            assert(frees.contains(i));
        }
    }
    lemma_set_disjoint_lens(head_lives, head_frees);
    assert(head_lives + tail_lives =~= lives);
    lemma_set_disjoint_lens(head_lives, tail_lives);
    assert(tail_lives.len() == head.len());

    let slots = Seq::new(tails.len(), |j: int| book.index[tails[j]].slot_index);
    assert forall|i: int, j: int|
        0 <= i < slots.len() && 0 <= j < slots.len() && i != j implies slots[i] != slots[j] by {
        assert(tails.contains(tails[i]));
        assert(tails.contains(tails[j]));
        assert(book.is_tail_live(c, tails[i]) && book.is_tail_live(c, tails[j]));
        if slots[i] == slots[j] {
            assert(book.index[tails[i]] == book.index[tails[j]]);
        }
    }
    lemma_as_ints(slots);
    assert(as_ints(slots).to_set() =~= tail_lives) by {
        assert forall|i: int| #[trigger] as_ints(slots).to_set().contains(i) implies
            tail_lives.contains(i) by {
            let k = choose|k: int| 0 <= k < slots.len() && slots[k] == i as u64;
            assert(tails.contains(tails[k]));
            assert(book.is_tail_live(c, tails[k]));
            assert(book.has_slot(book.index[tails[k]]));
            assert(book.index[tails[k]] == SlotLocation { size_class: c, slot_index: i as u64 });
            assert(book.is_live(book.index[tails[k]]));
        }
        assert forall|i: int| #[trigger] tail_lives.contains(i) implies as_ints(
            slots,
        ).to_set().contains(i) by {
            let l = SlotLocation { size_class: c, slot_index: i as u64 };
            let name = choose|name: PartitionName| #[trigger]
                book.index.contains_key(name) && book.index[name] == l;
            assert(book.is_tail_live(c, name));
            assert(tails.contains(name));
            let k = choose|k: int| 0 <= k < tails.len() && tails[k] == name;
            assert(slots[k] == i as u64);
            assert(slots.contains(i as u64));
        }
    }
}

/// Once a partition is written, the disk holds it as it was given and every other
/// partition as it was.
pub proof fn a_saved_partition_is_on_the_disk(
    book: SlotBook,
    disk: Disk,
    name: PartitionName,
    c: u32,
    payload: Seq<u8>,
)
    requires
        book.wf(),
        book.matches(disk),
        book.next_version <= u64::MAX,
        MIN_SIZE_CLASS <= c,
        book.has_room(c),
        keys_fit(name.0, name.1),
        bytes_needed(name.0, name.1, payload.len()) <= c,
    ensures
        book.saved(name, c).matches(disk_saved(book, disk, name, c, payload)),
        book.saved(name, c).stored(disk_saved(book, disk, name, c, payload)) == book.stored(
            disk,
        ).insert(name, payload),
{
    let after = book.saved(name, c);
    let target = book.save_target(name, c);
    let record = partition_record(name, book.next_version, payload);
    let half = disk_half_saved(book, disk, name, c, payload);
    let done = disk_saved(book, disk, name, c, payload);
    saving_keeps_order(book, name, c);
    lemma_limits();
    a_slot_is_read_back(c as nat, record);
    lemma_disk_with(disk, target, slot_bytes(c as nat, record));
    if let Some(old) = book.save_freed(name, c) {
        lemma_disk_without(half, old);
    }
    assert(after.next_version == book.next_version + 1);
    assert forall|other: PartitionName| #[trigger] after.index.contains_key(other) implies {
        &&& record_at(done, after.index[other]) is Some
        &&& name_of(record_at(done, after.index[other])->0) == other
        &&& record_at(done, after.index[other])->0.version < after.next_version
    } by {
        if other != name {
            assert(book.index.contains_key(other));
            assert(book.index[other] != target);
            if let Some(old) = book.save_freed(name, c) {
                assert(book.index[other] != old);
            }
        }
    }
    assert forall|location: SlotLocation| (#[trigger] record_at(done, location)) is Some implies {
        &&& after.index.contains_key(name_of(record_at(done, location)->0))
        &&& after.index[name_of(record_at(done, location)->0)] == location
    } by {
        if location != target {
            assert(record_at(done, location) == record_at(disk, location));
        }
    }
    let expected = book.stored(disk).insert(name, payload);
    assert forall|other: PartitionName| #[trigger] expected.contains_key(other) implies
        after.stored(done)[other] == expected[other] by {
        if other != name {
            assert(book.index.contains_key(other));
            assert(book.index[other] != target);
            if let Some(old) = book.save_freed(name, c) {
                assert(book.index[other] != old);
            }
        }
    }
    assert(after.stored(done) =~= expected);
}

/// Once a partition is deleted, the disk holds every other partition as it was
/// and this one not.
pub proof fn a_deleted_partition_is_off_the_disk(book: SlotBook, disk: Disk, name: PartitionName)
    requires
        book.wf(),
        book.matches(disk),
    ensures
        book.deleted(name).matches(disk_deleted(book, disk, name)),
        book.deleted(name).stored(disk_deleted(book, disk, name)) == book.stored(disk).remove(name),
{
    let after = book.deleted(name);
    let done = disk_deleted(book, disk, name);
    deleting_keeps_order(book, name);
    if book.index.contains_key(name) {
        lemma_disk_without(disk, book.index[name]);
        assert forall|other: PartitionName| #[trigger] after.index.contains_key(other) implies {
            &&& record_at(done, after.index[other]) is Some
            &&& name_of(record_at(done, after.index[other])->0) == other
            &&& record_at(done, after.index[other])->0.version < after.next_version
            &&& record_at(done, after.index[other]) == record_at(disk, book.index[other])
        } by {
            assert(book.index.contains_key(other));
            assert(book.index[other] != book.index[name]);
        }
        assert forall|location: SlotLocation| (#[trigger] record_at(done, location)) is Some implies {
            &&& after.index.contains_key(name_of(record_at(done, location)->0))
            &&& after.index[name_of(record_at(done, location)->0)] == location
        } by {
            assert(location != book.index[name]);
            assert(record_at(done, location) == record_at(disk, location));
        }
    }
    assert(after.stored(done) =~= book.stored(disk).remove(name));
}

/// Removing a page-file whose every slot is free takes nothing off the disk which
/// is stored.
pub proof fn removing_a_free_file_loses_nothing(book: SlotBook, disk: Disk, c: u32)
    requires
        book.wf(),
        book.matches(disk),
        book.is_fully_free(c),
    ensures
        book.without_class(c).matches(disk.remove(c)),
        book.without_class(c).stored(disk.remove(c)) == book.stored(disk),
{
    let after = book.without_class(c);
    let done = disk.remove(c);
    removing_a_free_file_keeps_order(book, c);
    assert forall|l: SlotLocation| #[trigger] record_at(done, l) == (if l.size_class == c {
        None
    } else {
        record_at(disk, l)
    }) by {}
    assert forall|name: PartitionName| #[trigger] after.index.contains_key(name) implies record_at(
        done,
        after.index[name],
    ) == record_at(disk, book.index[name]) by {
        assert(book.index.contains_key(name));
    }
    assert(after.stored(done) =~= book.stored(disk));
}

}
