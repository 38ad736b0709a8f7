//! What a whole vacuum pass does to the page-files: first the files whose every
//! slot is free are removed, then those which are worth it are compacted.

use super::slot_book::{
    disk_cut, disk_half_compacted, is_recovery, slots_on, Disk, PartitionName, SlotBook,
    SlotLocation, SlotMove,
};
use super::slot_laws::{
    compacting_keeps_completeness, compacting_keeps_order, lemma_free_count,
    lemma_fully_free_count, lemma_move_target, removing_a_free_file_keeps_order,
    removing_a_free_file_loses_nothing,
};
use super::slot_recovery::{a_restart_gives_back_what_was_stored, compacting_loses_nothing};
use vstd::prelude::*;

verus! {

/// The bookkeeping once these page-files are removed, one after the other.
pub open spec fn book_without_files(book: SlotBook, free: Seq<u32>) -> SlotBook
    decreases free.len(),
{
    if free.len() == 0 {
        book
    } else {
        book_without_files(book, free.drop_last()).without_class(free.last())
    }
}

/// The disk once these page-files are removed.
pub open spec fn disk_without_files(disk: Disk, free: Seq<u32>) -> Disk
    decreases free.len(),
{
    if free.len() == 0 {
        disk
    } else {
        disk_without_files(disk, free.drop_last()).remove(free.last())
    }
}

/// The bookkeeping once these page-files are compacted, one after the other, each
/// by its plan.
pub open spec fn book_compacted(
    book: SlotBook,
    classes: Seq<u32>,
    plans: Seq<Seq<SlotMove>>,
) -> SlotBook
    decreases classes.len(),
{
    if classes.len() == 0 {
        book
    } else {
        book_compacted(book, classes.drop_last(), plans.drop_last()).compacted(
            classes.last(),
            plans.last(),
        )
    }
}

/// The disk once these page-files are compacted: the moves of each are copied,
/// and the file is cut behind its live slots.
pub open spec fn disk_compacted(
    book: SlotBook,
    disk: Disk,
    classes: Seq<u32>,
    plans: Seq<Seq<SlotMove>>,
) -> Disk
    decreases classes.len(),
{
    if classes.len() == 0 {
        disk
    } else {
        let before = disk_compacted(book, disk, classes.drop_last(), plans.drop_last());
        disk_cut(
            disk_half_compacted(before, classes.last(), plans.last()),
            classes.last(),
            book_compacted(book, classes.drop_last(), plans.drop_last()).live_count(classes.last()),
        )
    }
}

/// Whether every page-file has a plan which compacts it as the bookkeeping stands
/// when its turn comes.
pub open spec fn are_plans(book: SlotBook, classes: Seq<u32>, plans: Seq<Seq<SlotMove>>) -> bool
    decreases classes.len(),
{
    &&& plans.len() == classes.len()
    &&& classes.len() > 0 ==> {
        &&& are_plans(book, classes.drop_last(), plans.drop_last())
        &&& book_compacted(book, classes.drop_last(), plans.drop_last()).is_compaction(
            classes.last(),
            plans.last(),
        )
    }
}

/// One vacuum pass: which page-files were removed, which were compacted then, and
/// how.
pub struct VacuumPass {
    pub free: Seq<u32>,
    pub candidates: Seq<u32>,
    pub plans: Seq<Seq<SlotMove>>,
}

impl VacuumPass {
    /// Whether this is a pass: it removes page-files whose every slot is free, as far
    /// as they can be removed, and compacts, of what is left, those which are worth it.
    pub open spec fn is_pass_over(self, book: SlotBook) -> bool {
        &&& self.free.no_duplicates()
        &&& forall|c: u32| #[trigger] self.free.contains(c) ==> book.is_fully_free(c)
        &&& self.candidates.no_duplicates()
        &&& forall|c: u32| #[trigger]
            self.candidates.contains(c) <==> book_without_files(
                book,
                self.free,
            ).is_worth_compacting(c)
        &&& are_plans(book_without_files(book, self.free), self.candidates, self.plans)
    }

    /// Whether no page-file was left there because it could not be removed.
    pub open spec fn removes_all(self, book: SlotBook) -> bool {
        forall|c: u32| #[trigger] book.is_fully_free(c) ==> self.free.contains(c)
    }

    /// The bookkeeping after the pass.
    pub open spec fn book_after(self, book: SlotBook) -> SlotBook {
        book_compacted(book_without_files(book, self.free), self.candidates, self.plans)
    }

    /// The disk after the pass.
    pub open spec fn disk_after(self, book: SlotBook, disk: Disk) -> Disk {
        disk_compacted(
            book_without_files(book, self.free),
            disk_without_files(disk, self.free),
            self.candidates,
            self.plans,
        )
    }
}

/// What a list of page-files holds but for the last of them.
proof fn lemma_without_last(classes: Seq<u32>)
    requires
        classes.no_duplicates(),
        classes.len() > 0,
    ensures
        classes.drop_last().no_duplicates(),
        classes.contains(classes.last()),
        !classes.drop_last().contains(classes.last()),
        forall|c: u32|
            #![trigger classes.contains(c)]
            #![trigger classes.drop_last().contains(c)]
            classes.contains(c) <==> classes.drop_last().contains(c) || c == classes.last(),
{
    let fewer = classes.drop_last();
    let last = classes.last();
    assert(classes[classes.len() - 1] == last);
    assert forall|c: u32|
        #![trigger classes.contains(c)]
        #![trigger fewer.contains(c)]
        classes.contains(c) <==> fewer.contains(c) || c == last by {
        if fewer.contains(c) {
            let i = fewer.index_of(c);
            assert(classes[i] == c);
        }
        if classes.contains(c) && c != last {
            let i = classes.index_of(c);
            assert(fewer[i] == c);
        }
    }
    if fewer.contains(last) {
        let i = fewer.index_of(last);
        assert(classes[i] == classes[classes.len() - 1]);
    }
}

/// Removing page-files whose every slot is free loses nothing, and leaves every
/// other file as it was.
proof fn lemma_files_removed(book: SlotBook, disk: Disk, free: Seq<u32>)
    requires
        book.wf(),
        book.matches(disk),
        free.no_duplicates(),
        forall|c: u32| #[trigger] free.contains(c) ==> book.is_fully_free(c),
    ensures
        book_without_files(book, free).wf(),
        book_without_files(book, free).matches(disk_without_files(disk, free)),
        book_without_files(book, free).stored(disk_without_files(disk, free)) == book.stored(disk),
        book_without_files(book, free).index == book.index,
        book.is_complete() ==> book_without_files(book, free).is_complete(),
        forall|c: u32| #[trigger]
            book_without_files(book, free).classes.contains_key(c) <==> book.classes.contains_key(c)
                && !free.contains(c),
        forall|c: u32|
            !free.contains(c) ==> #[trigger] book_without_files(book, free).classes[c]
                == book.classes[c],
        forall|c: u32| #[trigger]
            disk_without_files(disk, free).contains_key(c) <==> disk.contains_key(c)
                && !free.contains(c),
        forall|c: u32|
            !free.contains(c) ==> #[trigger] disk_without_files(disk, free)[c] == disk[c],
    decreases free.len(),
{
    if free.len() > 0 {
        let fewer = free.drop_last();
        let last = free.last();
        lemma_without_last(free);
        lemma_files_removed(book, disk, fewer);
        let mid = book_without_files(book, fewer);
        let mid_disk = disk_without_files(disk, fewer);
        assert(book.is_fully_free(last));
        assert(mid.classes[last] == book.classes[last]);
        assert(mid.is_fully_free(last));
        removing_a_free_file_keeps_order(mid, last);
        removing_a_free_file_loses_nothing(mid, mid_disk, last);
        assert forall|c: u32| !free.contains(c) implies #[trigger] book_without_files(
            book,
            free,
        ).classes[c] == book.classes[c] by {
            assert(mid.classes[c] == book.classes[c]);
        }
        assert forall|c: u32| !free.contains(c) implies #[trigger] disk_without_files(
            disk,
            free,
        )[c] == disk[c] by {
            assert(mid_disk[c] == disk[c]);
        }
    }
}

/// Copying the moves of a page-file touches no other file, and makes the file
/// neither longer nor shorter.
proof fn lemma_copies_stay_inside(disk: Disk, c: u32, moves: Seq<SlotMove>)
    requires
        disk.contains_key(c),
        forall|j: int| 0 <= j < moves.len() ==> (#[trigger] moves[j]).to < disk[c].len(),
    ensures
        disk_half_compacted(disk, c, moves).dom() == disk.dom(),
        disk_half_compacted(disk, c, moves)[c].len() == disk[c].len(),
        forall|d: u32| d != c ==> #[trigger] disk_half_compacted(disk, c, moves)[d] == disk[d],
    decreases moves.len(),
{
    if moves.len() > 0 {
        let fewer = moves.drop_last();
        assert forall|j: int| 0 <= j < fewer.len() implies (#[trigger] fewer[j]).to
            < disk[c].len() by {
            assert(moves[j].to < disk[c].len());
        }
        lemma_copies_stay_inside(disk, c, fewer);
        assert(moves[moves.len() - 1].to < disk[c].len());
        assert(disk_half_compacted(disk, c, moves).dom() =~= disk.dom());
    }
}

/// What holds of one page-file, before it is compacted and after.
spec fn is_cut_to_its_live_slots(
    book: SlotBook,
    after: SlotBook,
    done: Disk,
    c: u32,
) -> bool {
    &&& after.classes.contains_key(c)
    &&& after.classes[c].slot_count == book.live_count(c)
    &&& after.classes[c].free.len() == 0
    &&& slots_on(done, c).len() == book.live_count(c)
}

/// Compacting page-files loses nothing, cuts each of them to its live slots, and
/// leaves every other file as it was.
proof fn lemma_files_compacted(
    book: SlotBook,
    disk: Disk,
    classes: Seq<u32>,
    plans: Seq<Seq<SlotMove>>,
)
    requires
        book.wf(),
        book.matches(disk),
        classes.no_duplicates(),
        forall|c: u32| #[trigger]
            classes.contains(c) ==> book.classes.contains_key(c) && disk.contains_key(c)
                && slots_on(disk, c).len() == book.classes[c].slot_count,
        are_plans(book, classes, plans),
    ensures
        book_compacted(book, classes, plans).wf(),
        book_compacted(book, classes, plans).matches(disk_compacted(book, disk, classes, plans)),
        book_compacted(book, classes, plans).stored(disk_compacted(book, disk, classes, plans))
            == book.stored(disk),
        book_compacted(book, classes, plans).index.dom() == book.index.dom(),
        book.is_complete() ==> book_compacted(book, classes, plans).is_complete(),
        book_compacted(book, classes, plans).classes.dom() == book.classes.dom(),
        disk_compacted(book, disk, classes, plans).dom() == disk.dom(),
        forall|c: u32| #[trigger]
            classes.contains(c) ==> is_cut_to_its_live_slots(
                book,
                book_compacted(book, classes, plans),
                disk_compacted(book, disk, classes, plans),
                c,
            ),
        forall|c: u32|
            !classes.contains(c) ==> #[trigger] book_compacted(book, classes, plans).classes[c]
                == book.classes[c],
        forall|c: u32|
            !classes.contains(c) ==> #[trigger] disk_compacted(book, disk, classes, plans)[c]
                == disk[c],
    decreases classes.len(),
{
    if classes.len() > 0 {
        let fewer = classes.drop_last();
        let fewer_plans = plans.drop_last();
        let last = classes.last();
        let moves = plans.last();
        lemma_without_last(classes);
        lemma_files_compacted(book, disk, fewer, fewer_plans);
        let mid = book_compacted(book, fewer, fewer_plans);
        let mid_disk = disk_compacted(book, disk, fewer, fewer_plans);
        let after = book_compacted(book, classes, plans);
        let done = disk_compacted(book, disk, classes, plans);
        assert(classes.contains(last));
        assert(mid.classes[last] == book.classes[last]);
        assert(mid_disk[last] == disk[last]);
        assert(mid.classes.dom().contains(last));
        assert(mid_disk.dom().contains(last));
        assert(mid.live_count(last) == book.live_count(last));
        lemma_free_count(mid, last);
        compacting_keeps_order(mid, last, moves);
        if book.is_complete() {
            compacting_keeps_completeness(mid, last, moves);
        }
        compacting_loses_nothing(mid, mid_disk, last, moves);
        assert forall|j: int| 0 <= j < moves.len() implies (#[trigger] moves[j]).to
            < mid_disk[last].len() by {
            lemma_move_target(mid, last, moves, j);
        }
        lemma_copies_stay_inside(mid_disk, last, moves);
        let half = disk_half_compacted(mid_disk, last, moves);
        assert(half.dom().contains(last));
        assert(done =~= half.insert(last, half[last].take(book.live_count(last) as int)));
        assert(done.dom() =~= disk.dom());
        assert(after.classes.dom() =~= book.classes.dom());
        assert forall|c: u32| #[trigger] classes.contains(c) implies is_cut_to_its_live_slots(
            book,
            after,
            done,
            c,
        ) by {
            if c != last {
                assert(fewer.contains(c));
                assert(is_cut_to_its_live_slots(book, mid, mid_disk, c));
                assert(half[c] == mid_disk[c]);
                assert(disk.dom().contains(c));
            }
        }
        assert forall|c: u32| !classes.contains(c) implies #[trigger] after.classes[c]
            == book.classes[c] by {
            assert(mid.classes[c] == book.classes[c]);
        }
        assert forall|c: u32| !classes.contains(c) implies #[trigger] done[c] == disk[c] by {
            assert(half[c] == mid_disk[c]);
            assert(mid_disk[c] == disk[c]);
        }
    }
}

/// What a vacuum pass makes of one page-file: it is gone where every slot of it was
/// free and it could be removed, has its live slots left where it was worth
/// compacting, and is as it was else.
pub open spec fn is_file_vacuumed(
    pass: VacuumPass,
    book: SlotBook,
    disk: Disk,
    done: Disk,
    c: u32,
) -> bool {
    let slots = book.slot_count(c);
    let free = book.free_of(c).len();
    if slots > 0 && free == slots && pass.free.contains(c) {
        !done.contains_key(c)
    } else if slots > 2 && free < slots && 2 * free >= slots {
        slots_on(done, c).len() == slots - free
    } else {
        slots_on(done, c) == slots_on(disk, c)
    }
}

/// A whole vacuum pass loses nothing: every partition is stored as it was, and a
/// fresh scan of the page-files finds every one of them where the bookkeeping says.
/// Of a page-file with so many slots and so many of them free,
/// - one whose every slot is free is gone, unless it could not be removed,
/// - one with more than two slots of which at least half, and not all, are free
///   has as many slots left as were live,
/// - any other one is as it was, byte by byte,
/// and where all could be removed there is nothing left to do for the next pass.
pub proof fn a_vacuum_pass_loses_nothing(book: SlotBook, disk: Disk, pass: VacuumPass)
    requires
        book.wf(),
        book.matches(disk),
        forall|c: u32|
            slots_on(disk, c).len() == #[trigger] book.slot_count(c),
        pass.is_pass_over(book),
    ensures
        pass.book_after(book).wf(),
        pass.book_after(book).matches(pass.disk_after(book, disk)),
        pass.book_after(book).stored(pass.disk_after(book, disk)) == book.stored(disk),
        pass.book_after(book).index.dom() == book.index.dom(),
        book.is_complete() ==> pass.book_after(book).is_complete(),
        forall|index: Map<PartitionName, SlotLocation>|
            is_recovery(pass.disk_after(book, disk), index) ==> index == pass.book_after(
                book,
            ).index,
        forall|c: u32| #[trigger]
            is_file_vacuumed(pass, book, disk, pass.disk_after(book, disk), c),
        forall|c: u32|
            slots_on(pass.disk_after(book, disk), c).len() == #[trigger] pass.book_after(
                book,
            ).slot_count(c),
        pass.removes_all(book) ==> forall|c: u32| !#[trigger]
            pass.book_after(book).is_fully_free(c),
        forall|c: u32| !#[trigger] pass.book_after(book).is_worth_compacting(c),
{
    let mid = book_without_files(book, pass.free);
    let mid_disk = disk_without_files(disk, pass.free);
    let after = pass.book_after(book);
    let done = pass.disk_after(book, disk);
    lemma_files_removed(book, disk, pass.free);
    assert forall|c: u32| #[trigger] pass.candidates.contains(c) implies mid.classes.contains_key(c)
        && mid_disk.contains_key(c) && slots_on(mid_disk, c).len() == mid.classes[c].slot_count by {
        assert(mid.is_worth_compacting(c));
        assert(!pass.free.contains(c));
        assert(mid.classes[c] == book.classes[c]);
        assert(book.slot_count(c) > 0);
        assert(mid_disk[c] == disk[c]);
    }
    lemma_files_compacted(mid, mid_disk, pass.candidates, pass.plans);
    assert forall|index: Map<PartitionName, SlotLocation>| is_recovery(done, index) implies index
        == after.index by {
        a_restart_gives_back_what_was_stored(after, done, index);
    }
    assert forall|c: u32| {
        let slots = book.slot_count(c);
        let free = book.free_of(c).len();
        &&& if slots > 0 && free == slots && pass.free.contains(c) {
            !done.contains_key(c) && !after.classes.contains_key(c)
        } else if slots > 2 && free < slots && 2 * free >= slots {
            is_cut_to_its_live_slots(book, after, done, c)
        } else {
            &&& #[trigger] slots_on(done, c) == slots_on(disk, c)
            &&& after.classes.contains_key(c) <==> book.classes.contains_key(c)
            &&& book.classes.contains_key(c) ==> after.classes[c] == book.classes[c]
        }
    } by {
        assert(pass.free.contains(c) ==> book.is_fully_free(c));
        assert(pass.candidates.contains(c) <==> mid.is_worth_compacting(c));
        assert(mid.classes.contains_key(c) <==> book.classes.contains_key(c)
            && !pass.free.contains(c));
        assert(after.classes.dom().contains(c) <==> mid.classes.dom().contains(c));
        assert(done.dom().contains(c) <==> mid_disk.dom().contains(c));
        assert(mid_disk.contains_key(c) <==> disk.contains_key(c) && !pass.free.contains(c));
        if book.classes.contains_key(c) {
            lemma_fully_free_count(book, c);
        }
        if !pass.free.contains(c) {
            assert(mid.classes[c] == book.classes[c]);
            assert(mid_disk[c] == disk[c]);
            if !pass.candidates.contains(c) {
                assert(after.classes[c] == mid.classes[c]);
                assert(done[c] == mid_disk[c]);
            } else {
                assert(is_cut_to_its_live_slots(mid, after, done, c));
            }
        }
    }
    assert forall|c: u32| #[trigger] is_file_vacuumed(pass, book, disk, done, c) by {
        let same = slots_on(done, c);
    }
    assert forall|c: u32| slots_on(done, c).len() == #[trigger] after.slot_count(c) by {
        let same = slots_on(done, c);
        assert(slots_on(disk, c).len() == book.slot_count(c));
    }
    if pass.removes_all(book) {
        assert forall|c: u32| !#[trigger] after.is_fully_free(c) by {
            let same = slots_on(done, c);
            assert(book.is_fully_free(c) ==> pass.free.contains(c));
            if after.classes.contains_key(c) {
                lemma_fully_free_count(after, c);
            }
        }
    }
    assert forall|c: u32| !#[trigger] after.is_worth_compacting(c) by {
        let same = slots_on(done, c);
    }
}

}
