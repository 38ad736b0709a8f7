//! What a scan of the page-files gives back.

use super::little_endian::lemma_limits;
use super::size_class::MIN_SIZE_CLASS;
use super::slot::{a_slot_is_read_back, bytes_needed, keys_fit, slot_bytes};
use super::slot_book::{
    disk_cut, disk_half_compacted, disk_half_saved, disk_with, disk_without_all, fits, holds,
    is_recovered, is_recovery, lemma_disk_with, lemma_disk_without_all, name_of,
    partition_record, record_at, record_in, slots_on, Disk, PartitionName, SlotBook, SlotLocation, SlotMove,
};
use super::slot_laws::{
    compacting_keeps_order, lemma_move_target, lemma_moved_index, lemma_place_after_compaction,
    saving_keeps_order,
};
use vstd::prelude::*;

verus! {

/// A scan of a disk gives back every partition which was stored on it, in the
/// slot it was stored in, and nothing else.
pub proof fn a_restart_gives_back_what_was_stored(
    book: SlotBook,
    disk: Disk,
    index: Map<PartitionName, SlotLocation>,
)
    requires
        book.matches(disk),
        is_recovery(disk, index),
    ensures
        index == book.index,
{
    assert forall|name: PartitionName| #[trigger] book.index.contains_key(name) implies
        index.contains_key(name) && index[name] == book.index[name] by {
        assert(holds(disk, book.index[name], name));
        assert(holds(disk, index[name], name));
    }
    assert forall|name: PartitionName| #[trigger] index.contains_key(name) implies
        book.index.contains_key(name) by {
        assert(holds(disk, index[name], name));
    }
    assert(index =~= book.index);
}

/// A write which was cut off before the slot the partition had was zeroed is as
/// good as a whole one: of the two slots the new one wins.
pub proof fn a_restart_in_the_middle_of_a_save_gives_back_what_was_saved(
    book: SlotBook,
    disk: Disk,
    name: PartitionName,
    c: u32,
    payload: Seq<u8>,
    index: Map<PartitionName, SlotLocation>,
)
    requires
        book.wf(),
        book.matches(disk),
        book.next_version <= u64::MAX,
        MIN_SIZE_CLASS <= c,
        book.has_room(c),
        keys_fit(name.0, name.1),
        bytes_needed(name.0, name.1, payload.len()) <= c,
        is_recovery(disk_half_saved(book, disk, name, c, payload), index),
    ensures
        index == book.saved(name, c).index,
        record_at(disk_half_saved(book, disk, name, c, payload), index[name]) == Some(
            partition_record(name, book.next_version, payload),
        ),
{
    let half = disk_half_saved(book, disk, name, c, payload);
    let target = book.save_target(name, c);
    let record = partition_record(name, book.next_version, payload);
    let expected = book.saved(name, c).index;
    saving_keeps_order(book, name, c);
    lemma_limits();
    a_slot_is_read_back(c as nat, record);
    lemma_disk_with(disk, target, slot_bytes(c as nat, record));
    assert(holds(half, target, name));
    assert forall|other: PartitionName| #[trigger] expected.contains_key(other) implies
        index.contains_key(other) && index[other] == expected[other] by {
        if other == name {
            let found = index[name];
            assert(holds(half, found, name));
            if found != target {
                assert(record_at(disk, found) is Some);
                assert(record_at(disk, found)->0.version < book.next_version);
            }
        } else {
            assert(book.index.contains_key(other));
            assert(book.index[other] != target);
            assert(holds(half, book.index[other], other));
            assert(holds(half, index[other], other));
            assert(index[other] != target);
            assert(record_at(disk, index[other]) is Some);
        }
    }
    assert forall|other: PartitionName| #[trigger] index.contains_key(other) implies
        expected.contains_key(other) by {
        assert(holds(half, index[other], other));
        if index[other] != target {
            assert(record_at(disk, index[other]) is Some);
        }
    }
    assert(index =~= expected);
}

/// What the slots of a page-file say once the moves are copied.
proof fn lemma_half_compacted(
    book: SlotBook,
    disk: Disk,
    c: u32,
    moves: Seq<SlotMove>,
    n: int,
)
    requires
        book.wf(),
        book.matches(disk),
        book.classes.contains_key(c),
        book.is_compaction(c, moves),
        0 <= n <= moves.len(),
    ensures
        forall|j: int|
            #![trigger moves[j]]
            0 <= j < n ==> record_at(
                disk_half_compacted(disk, c, moves.take(n)),
                (SlotLocation { size_class: c, slot_index: moves[j].to }),
            ) == record_at(disk, (SlotLocation { size_class: c, slot_index: moves[j].from })),
        forall|l: SlotLocation|
            (l.size_class != c || forall|j: int|
                0 <= j < n ==> (#[trigger] moves[j]).to != l.slot_index) ==> #[trigger] record_at(
                disk_half_compacted(disk, c, moves.take(n)),
                l,
            ) == record_at(disk, l),
    decreases n,
{
    if n > 0 {
        let step = moves[n - 1];
        let before = disk_half_compacted(disk, c, moves.take(n - 1));
        let after = disk_half_compacted(disk, c, moves.take(n));
        assert(moves.take(n).drop_last() =~= moves.take(n - 1));
        assert(moves.take(n).last() == step);
        lemma_half_compacted(book, disk, c, moves, n - 1);
        assert(book.class_wf(c));
        let from = SlotLocation { size_class: c, slot_index: step.from };
        let to = SlotLocation { size_class: c, slot_index: step.to };
        assert(moves[n - 1].name == step.name);
        assert(book.index.contains_key(step.name));
        assert(record_at(disk, from) is Some);
        assert forall|j: int| 0 <= j < n - 1 implies (#[trigger] moves[j]).to != from.slot_index by {
            lemma_move_target(book, c, moves, j);
        }
        assert(record_at(before, from) == record_at(disk, from));
        lemma_disk_with(before, to, slots_on(before, c)[step.from as int]);
        lemma_move_target(book, c, moves, n - 1);
        assert forall|j: int| #![trigger moves[j]] 0 <= j < n implies record_at(
            after,
            (SlotLocation { size_class: c, slot_index: moves[j].to }),
        ) == record_at(disk, (SlotLocation { size_class: c, slot_index: moves[j].from })) by {
            if j < n - 1 {
                assert(moves[j].to != step.to);
            }
        }
        assert forall|l: SlotLocation|
            (l.size_class != c || forall|j: int|
                0 <= j < n ==> (#[trigger] moves[j]).to != l.slot_index) implies #[trigger] record_at(
            after,
            l,
        ) == record_at(disk, l) by {
            if l.size_class == c {
                assert(moves[n - 1].to != l.slot_index);
                assert forall|j: int| 0 <= j < n - 1 implies (#[trigger] moves[j]).to
                    != l.slot_index by {}
            }
        }
    } else {
        assert(moves.take(0) =~= Seq::<SlotMove>::empty());
    }
}

/// What a page-file says of a partition once the moves are copied.
proof fn lemma_found_after_copy(
    book: SlotBook,
    disk: Disk,
    c: u32,
    moves: Seq<SlotMove>,
    name: PartitionName,
)
    requires
        book.wf(),
        book.matches(disk),
        book.classes.contains_key(c),
        book.is_compaction(c, moves),
        book.index.contains_key(name),
    ensures
        record_at(disk_half_compacted(disk, c, moves), book.compacted(c, moves).index[name])
            == record_at(disk, book.index[name]),
        record_at(disk_half_compacted(disk, c, moves), book.index[name]) == record_at(
            disk,
            book.index[name],
        ),
{
    assert(moves.take(moves.len() as int) =~= moves);
    lemma_half_compacted(book, disk, c, moves, moves.len() as int);
    lemma_place_after_compaction(book, c, moves, name);
    let l = book.index[name];
    if l.size_class == c {
        assert forall|j: int| 0 <= j < moves.len() implies (#[trigger] moves[j]).to
            != l.slot_index by {
            lemma_move_target(book, c, moves, j);
            assert(book.is_live(l));
        }
    }
    if book.is_tail_live(c, name) {
        let j = choose|j: int|
            0 <= j < moves.len() && (#[trigger] moves[j]).name == name && book.compacted(
                c,
                moves,
            ).index[name] == (SlotLocation { size_class: c, slot_index: moves[j].to });
        assert(moves[j].name == name);
    }
}

/// Which slots say something once the moves are copied: those which did, and the
/// copies.
proof fn lemma_nothing_else_after_copy(
    book: SlotBook,
    disk: Disk,
    c: u32,
    moves: Seq<SlotMove>,
    location: SlotLocation,
)
    requires
        book.wf(),
        book.matches(disk),
        book.classes.contains_key(c),
        book.is_compaction(c, moves),
        record_at(disk_half_compacted(disk, c, moves), location) is Some,
    ensures
        ({
            let record = record_at(disk_half_compacted(disk, c, moves), location)->0;
            let name = name_of(record);
            &&& book.index.contains_key(name)
            &&& record_at(disk, book.index[name]) == Some(record)
            &&& location == book.index[name] || location == book.compacted(c, moves).index[name]
        }),
{
    let half = disk_half_compacted(disk, c, moves);
    assert(moves.take(moves.len() as int) =~= moves);
    lemma_half_compacted(book, disk, c, moves, moves.len() as int);
    lemma_moved_index(book.index, c, moves);
    if location.size_class == c && exists|j: int|
        0 <= j < moves.len() && (#[trigger] moves[j]).to == location.slot_index {
        let j = choose|j: int|
            0 <= j < moves.len() && (#[trigger] moves[j]).to == location.slot_index;
        assert(book.index.contains_key(moves[j].name));
        assert(record_at(half, location) == record_at(
            disk,
            SlotLocation { size_class: c, slot_index: moves[j].from },
        ));
    } else {
        assert(record_at(half, location) == record_at(disk, location));
    }
}

/// A compaction which was cut off before the tail of the file was is as good as a
/// whole one: of a partition and its copy the copy wins, and both are the same.
pub proof fn a_restart_in_the_middle_of_a_compaction_loses_nothing(
    book: SlotBook,
    disk: Disk,
    c: u32,
    moves: Seq<SlotMove>,
    index: Map<PartitionName, SlotLocation>,
)
    requires
        book.wf(),
        book.matches(disk),
        book.classes.contains_key(c),
        book.is_compaction(c, moves),
        is_recovery(disk_half_compacted(disk, c, moves), index),
    ensures
        index == book.compacted(c, moves).index,
        forall|name: PartitionName| #[trigger]
            book.index.contains_key(name) ==> record_at(
                disk_half_compacted(disk, c, moves),
                index[name],
            ) == record_at(disk, book.index[name]),
{
    let half = disk_half_compacted(disk, c, moves);
    let after = book.compacted(c, moves);
    compacting_keeps_order(book, c, moves);
    assert forall|name: PartitionName| #[trigger] book.index.contains_key(name) implies
        index.contains_key(name) && index[name] == after.index[name] && record_at(
        half,
        index[name],
    ) == record_at(disk, book.index[name]) by {
        lemma_found_after_copy(book, disk, c, moves, name);
        lemma_place_after_compaction(book, c, moves, name);
        let copy = after.index[name];
        let was = book.index[name];
        assert(holds(half, copy, name));
        assert(holds(half, index[name], name));
        lemma_nothing_else_after_copy(book, disk, c, moves, index[name]);
        if index[name] != copy {
            assert(index[name] == was);
            assert(book.is_tail_live(c, name));
            let j = choose|j: int|
                0 <= j < moves.len() && (#[trigger] moves[j]).name == name && after.index[name] == (
                SlotLocation { size_class: c, slot_index: moves[j].to });
            lemma_move_target(book, c, moves, j);
        }
    }
    assert forall|name: PartitionName| #[trigger] index.contains_key(name) implies
        after.index.contains_key(name) by {
        assert(holds(half, index[name], name));
        lemma_nothing_else_after_copy(book, disk, c, moves, index[name]);
    }
    assert forall|name: PartitionName| #[trigger] after.index.contains_key(name) implies
        index.contains_key(name) by {
        assert(book.index.dom().contains(name));
    }
    assert(index =~= after.index);
}

/// A slot which was being written when everything stopped, and which no partition
/// has, does not get in the way: what does not read as a slot is skipped, and
/// every partition is found where it was.
pub proof fn a_torn_slot_nobody_has_loses_nothing(
    book: SlotBook,
    disk: Disk,
    location: SlotLocation,
    torn: Seq<u8>,
    index: Map<PartitionName, SlotLocation>,
)
    requires
        book.matches(disk),
        location.size_class >= MIN_SIZE_CLASS,
        !book.is_live(location),
        record_in(torn) is None,
        is_recovery(disk_with(disk, location, torn), index),
    ensures
        index == book.index,
{
    let state = disk_with(disk, location, torn);
    lemma_disk_with(disk, location, torn);
    assert(record_at(disk, location) is None);
    assert forall|name: PartitionName| #[trigger] book.index.contains_key(name) implies {
        &&& record_at(state, book.index[name]) is Some
        &&& name_of(record_at(state, book.index[name])->0) == name
        &&& record_at(state, book.index[name])->0.version < book.next_version
    } by {
        assert(book.is_live(book.index[name]));
    }
    assert forall|l: SlotLocation| (#[trigger] record_at(state, l)) is Some implies {
        &&& book.index.contains_key(name_of(record_at(state, l)->0))
        &&& book.index[name_of(record_at(state, l)->0)] == l
    } by {
        assert(record_at(state, l) == record_at(disk, l));
    }
    a_restart_gives_back_what_was_stored(book, state, index);
}

/// A compaction which was cut off in the middle of a copy loses nothing: whatever
/// that copy left behind does not read as a slot, and every partition is found as
/// it was, where it was or in its copy.
pub proof fn a_restart_in_the_middle_of_a_copy_loses_nothing(
    book: SlotBook,
    disk: Disk,
    c: u32,
    moves: Seq<SlotMove>,
    n: int,
    torn: Seq<u8>,
    index: Map<PartitionName, SlotLocation>,
)
    requires
        book.wf(),
        book.matches(disk),
        book.classes.contains_key(c),
        book.is_compaction(c, moves),
        0 <= n < moves.len(),
        record_in(torn) is None,
        is_recovery(
            disk_with(
                disk_half_compacted(disk, c, moves.take(n)),
                (SlotLocation { size_class: c, slot_index: moves[n].to }),
                torn,
            ),
            index,
        ),
    ensures
        index.dom() == book.index.dom(),
        forall|name: PartitionName| #[trigger]
            book.index.contains_key(name) ==> record_at(
                disk_with(
                    disk_half_compacted(disk, c, moves.take(n)),
                    (SlotLocation { size_class: c, slot_index: moves[n].to }),
                    torn,
                ),
                index[name],
            ) == record_at(disk, book.index[name]),
{
    let half = disk_half_compacted(disk, c, moves.take(n));
    let target = SlotLocation { size_class: c, slot_index: moves[n].to };
    let state = disk_with(half, target, torn);
    assert(book.class_wf(c));
    lemma_half_compacted(book, disk, c, moves, n);
    lemma_disk_with(half, target, torn);
    assert forall|name: PartitionName| #[trigger] book.index.contains_key(name) implies record_at(
        state,
        book.index[name],
    ) == record_at(disk, book.index[name]) by {
        let was = book.index[name];
        assert(book.is_live(was));
        lemma_move_target(book, c, moves, n);
        if was.size_class == c {
            assert forall|j: int| 0 <= j < n implies (#[trigger] moves[j]).to
                != was.slot_index by {
                lemma_move_target(book, c, moves, j);
            }
        }
        assert(record_at(half, was) == record_at(disk, was));
    }
    assert forall|l: SlotLocation| (#[trigger] record_at(state, l)) is Some implies {
        &&& book.index.contains_key(name_of(record_at(state, l)->0))
        &&& record_at(disk, book.index[name_of(record_at(state, l)->0)]) == record_at(state, l)
    } by {
        assert(l != target);
        if l.size_class == c && exists|j: int|
            0 <= j < n && (#[trigger] moves[j]).to == l.slot_index {
            let j = choose|j: int| 0 <= j < n && (#[trigger] moves[j]).to == l.slot_index;
            let from = SlotLocation { size_class: c, slot_index: moves[j].from };
            assert(book.index[moves[j].name] == from);
            assert(l == (SlotLocation { size_class: c, slot_index: moves[j].to }));
            assert(record_at(half, l) == record_at(disk, from));
        } else {
            assert(record_at(half, l) == record_at(disk, l));
        }
    }
    assert forall|name: PartitionName| index.contains_key(name) <==> #[trigger]
        book.index.contains_key(name) by {
        if index.contains_key(name) {
            assert(holds(state, index[name], name));
        }
        if book.index.contains_key(name) {
            assert(holds(state, book.index[name], name));
        }
    }
    assert(index.dom() =~= book.index.dom());
    assert forall|name: PartitionName| #[trigger] book.index.contains_key(name) implies record_at(
        state,
        index[name],
    ) == record_at(disk, book.index[name]) by {
        assert(index.contains_key(name));
        assert(holds(state, index[name], name));
    }
}

/// Compacting a page-file keeps every partition on the disk as it was.
pub proof fn compacting_loses_nothing(book: SlotBook, disk: Disk, c: u32, moves: Seq<SlotMove>)
    requires
        book.wf(),
        book.matches(disk),
        book.classes.contains_key(c),
        book.is_compaction(c, moves),
    ensures
        book.compacted(c, moves).matches(
            disk_cut(disk_half_compacted(disk, c, moves), c, book.live_count(c)),
        ),
        book.compacted(c, moves).stored(
            disk_cut(disk_half_compacted(disk, c, moves), c, book.live_count(c)),
        ) == book.stored(disk),
{
    let half = disk_half_compacted(disk, c, moves);
    let end = book.live_count(c);
    let done = disk_cut(half, c, end);
    let after = book.compacted(c, moves);
    compacting_keeps_order(book, c, moves);
    assert forall|l: SlotLocation| #[trigger] record_at(done, l) == (if l.size_class == c
        && l.slot_index >= end {
        None
    } else {
        record_at(half, l)
    }) by {}
    assert forall|name: PartitionName| #[trigger] after.index.contains_key(name) implies record_at(
        done,
        after.index[name],
    ) == record_at(disk, book.index[name]) && book.index.contains_key(name) by {
        assert(book.index.dom().contains(name));
        lemma_found_after_copy(book, disk, c, moves, name);
        assert(after.has_slot(after.index[name]));
    }
    assert forall|location: SlotLocation| (#[trigger] record_at(done, location)) is Some implies {
        &&& after.index.contains_key(name_of(record_at(done, location)->0))
        &&& after.index[name_of(record_at(done, location)->0)] == location
    } by {
        lemma_nothing_else_after_copy(book, disk, c, moves, location);
        let name = name_of(record_at(done, location)->0);
        assert(after.index.dom().contains(name));
        lemma_place_after_compaction(book, c, moves, name);
    }
    assert forall|name: PartitionName| #[trigger] after.index.contains_key(name) implies {
        &&& record_at(done, after.index[name]) is Some
        &&& name_of(record_at(done, after.index[name])->0) == name
        &&& record_at(done, after.index[name])->0.version < after.next_version
    } by {
        assert(book.index.contains_key(name));
    }
    assert forall|name: PartitionName| #[trigger] book.index.contains_key(name) implies
        after.index.contains_key(name) by {
        assert(after.index.dom().contains(name));
    }
    assert(after.stored(done) =~= book.stored(disk));
}

/// What a scan makes of the page-files is in order, and the disk holds exactly
/// that once the slots which lost are zeroed.
pub proof fn a_recovered_book_matches_the_disk(
    before: SlotBook,
    disk: Disk,
    after: SlotBook,
    losers: Seq<SlotLocation>,
)
    requires
        before.wf(),
        fits(before, disk),
        is_recovered(before, disk, after, losers),
    ensures
        after.wf(),
        after.matches(disk_without_all(disk, losers)),
        (forall|c: u32| #[trigger]
            before.classes.contains_key(c) ==> slots_on(disk, c).len() == before.slot_count(c))
            ==> after.is_complete(),
{
    let done = disk_without_all(disk, losers);
    lemma_disk_without_all(disk, losers);
    assert forall|name: PartitionName| #[trigger] after.index.contains_key(name) implies {
        &&& after.is_live(after.index[name])
        &&& record_at(done, after.index[name]) == record_at(disk, after.index[name])
        &&& holds(disk, after.index[name], name)
        &&& after.has_slot(after.index[name])
    } by {
        let l = after.index[name];
        assert(holds(disk, l, name));
        assert(l.slot_index < slots_on(disk, l.size_class).len());
        assert(before.classes.dom().contains(l.size_class));
    }
    assert forall|a: PartitionName, b: PartitionName| #[trigger]
        after.index.contains_key(a) && #[trigger] after.index.contains_key(b) && after.index[a]
            == after.index[b] implies a == b by {
        assert(holds(disk, after.index[a], a) && holds(disk, after.index[b], b));
    }
    assert forall|c: u32| #[trigger] after.classes.contains_key(c) implies after.class_wf(c) by {
        assert(before.classes.dom().contains(c));
        assert(before.class_wf(c));
        assert forall|j: int|
            #![trigger after.classes[c].free[j]]
            0 <= j < after.classes[c].free.len() implies {
            &&& after.classes[c].free[j] < after.classes[c].slot_count
            &&& !after.is_live(
                SlotLocation { size_class: c, slot_index: after.classes[c].free[j] },
            )
        } by {
            assert(after.classes[c].free.contains(after.classes[c].free[j]));
            assert(slots_on(disk, c).len() <= before.slot_count(c));
        }
    }
    assert forall|location: SlotLocation| (#[trigger] record_at(done, location)) is Some implies {
        &&& after.index.contains_key(name_of(record_at(done, location)->0))
        &&& after.index[name_of(record_at(done, location)->0)] == location
    } by {
        assert(!losers.contains(location));
        assert(after.is_live(location));
        let name = choose|name: PartitionName| #[trigger]
            after.index.contains_key(name) && after.index[name] == location;
        assert(holds(disk, location, name));
    }
    if forall|c: u32| #[trigger]
        before.classes.contains_key(c) ==> slots_on(disk, c).len() == before.slot_count(c) {
        assert forall|location: SlotLocation| #[trigger] after.has_slot(location) implies
            after.is_live(location) || after.free_of(location.size_class).contains(
            location.slot_index,
        ) by {
            let c = location.size_class;
            assert(after.classes.dom().contains(c));
            assert(before.classes.contains_key(c));
            if !after.is_live(location) {
                assert(after.classes[c].free.contains(location.slot_index));
            }
        }
    }
}

}
