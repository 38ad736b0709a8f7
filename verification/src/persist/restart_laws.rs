//! What a start finds in the page-files it is given.

use super::files_repo_inner::{
    all_digits, are_partitions, class_of_file, digits_value, found_classes, is_corrupt_on,
    named_tables, scanned_disk, unsigned_digits, FoundFile,
};
use super::loaded_from_disk::LoadedPartition;
use super::page_file::slots_of;
use super::page_scan::{file_bytes, scanned_slots, PageFile};
use super::slot_book::{
    holds, is_recovered, name_of, record_at, slots_on, Disk, SlotBook,
    SlotLocation,
};
use super::slot::{slot_content, SlotRecord};
use super::table_metadata_contract::TableMetadataFileContract;
use crate::text::decimal;
use vstd::prelude::*;

verus! {

/// A number which is written in decimal is read as that number.
pub proof fn a_decimal_is_read_back(n: nat)
    ensures
        digits_value(decimal(n)) == n,
        all_digits(decimal(n)),
        unsigned_digits(decimal(n)) == decimal(n),
    decreases n,
{
    let text = decimal(n);
    if n < 10 {
        assert(text.drop_last() =~= Seq::<char>::empty());
        assert(digits_value(Seq::empty()) == 0);
    } else {
        a_decimal_is_read_back(n / 10);
        assert(text.drop_last() =~= decimal(n / 10));
        assert forall|i: int| 0 <= i < text.len() implies '0' <= #[trigger] text[i] && text[i]
            <= '9' by {
            if i < text.len() - 1 {
                assert(text[i] == decimal(n / 10)[i]);
            }
        }
    }
}

/// A page-file is found under the name it was written under: the length of its slots, in
/// decimal. A file called anything but a number is not one.
pub proof fn a_page_file_is_found_under_its_name(c: u32, name: Seq<char>)
    ensures
        512 <= c ==> class_of_file(decimal(c as nat)) == Some(c),
        c < 512 ==> class_of_file(decimal(c as nat)) is None,
        (exists|i: int|
            0 <= i < name.len() && !('0' <= (#[trigger] name[i]) <= '9') && name[i] != '+')
            ==> class_of_file(name) is None,
{
    a_decimal_is_read_back(c as nat);
    if exists|i: int|
        0 <= i < name.len() && !('0' <= (#[trigger] name[i]) <= '9') && name[i] != '+' {
        let i = choose|i: int|
            0 <= i < name.len() && !('0' <= (#[trigger] name[i]) <= '9') && name[i] != '+';
        let digits = unsigned_digits(name);
        if name[0] == '+' {
            assert(digits[i - 1] == name[i]);
        }
    }
}

/// A page-file which is found holds as many slots as fit into it.
pub proof fn a_found_file_holds_its_slots(files: Seq<FoundFile>, i: int, c: u32)
    requires
        0 <= i < files.len(),
        c >= 512,
        files[i].name@ == decimal(c as nat),
        forall|j: int| i < j < files.len() ==> class_of_file((#[trigger] files[j]).name@) != Some(c),
    ensures
        found_classes(files).contains_key(c),
        found_classes(files)[c] * c <= files[i].len < (found_classes(files)[c] + 1) * c,
    decreases files.len(),
{
    if i < files.len() - 1 {
        let fewer = files.drop_last();
        assert forall|j: int| i < j < fewer.len() implies class_of_file((#[trigger] fewer[j]).name@)
            != Some(c) by {
            assert(class_of_file(files[j].name@) != Some(c));
        }
        a_found_file_holds_its_slots(fewer, i, c);
        assert(files[files.len() - 1] == files.last());
        assert(class_of_file(files.last().name@) != Some(c));
    } else {
        a_page_file_is_found_under_its_name(c, files[i].name@);
        let len = files[i].len as int;
        let n = c as int;
        assert(len / n * n <= len < (len / n + 1) * n) by (nonlinear_arith)
            requires
                n > 0,
                len >= 0,
        ;
    }
}

/// No page-file comes from nowhere.
pub proof fn no_page_file_comes_from_nowhere(files: Seq<FoundFile>, c: u32)
    requires
        forall|j: int| 0 <= j < files.len() ==> class_of_file((#[trigger] files[j]).name@) != Some(c),
    ensures
        !found_classes(files).contains_key(c),
    decreases files.len(),
{
    if files.len() > 0 {
        let fewer = files.drop_last();
        assert forall|j: int| 0 <= j < fewer.len() implies class_of_file((#[trigger] fewer[j]).name@)
            != Some(c) by {
            assert(class_of_file(files[j].name@) != Some(c));
        }
        no_page_file_comes_from_nowhere(fewer, c);
        assert(files[files.len() - 1] == files.last());
    }
}

proof fn lemma_file_bytes(files: Seq<PageFile>, i: int)
    requires
        0 <= i < files.len(),
        forall|j: int| 0 <= j < i ==> (#[trigger] files[j]).size_class != files[i].size_class,
    ensures
        file_bytes(files, files[i].size_class) == files[i].bytes@,
    decreases files.len(),
{
    if i > 0 {
        let rest = files.drop_first();
        assert(files[0].size_class != files[i].size_class);
        assert forall|j: int| 0 <= j < i - 1 implies (#[trigger] rest[j]).size_class != rest[i
            - 1].size_class by {
            assert(files[j + 1].size_class != files[i].size_class);
        }
        lemma_file_bytes(rest, i - 1);
    }
}

/// A start looks at every slot of every page-file which is as long as it was found: slot
/// after slot, each as long as its class says.
pub proof fn every_slot_is_looked_at(book: SlotBook, files: Seq<PageFile>, i: int)
    requires
        0 <= i < files.len(),
        files[i].size_class >= 512,
        book.classes.contains_key(files[i].size_class),
        forall|j: int| 0 <= j < i ==> (#[trigger] files[j]).size_class != files[i].size_class,
        book.classes[files[i].size_class].slot_count * files[i].size_class <= files[i].bytes@.len()
            < (book.classes[files[i].size_class].slot_count + 1) * files[i].size_class,
    ensures
        ({
            let c = files[i].size_class;
            let slots = scanned_disk(book, files)[c];
            &&& scanned_disk(book, files).contains_key(c)
            &&& slots.len() == book.classes[c].slot_count
            &&& forall|k: int|
                0 <= k < slots.len() ==> #[trigger] slots[k] == files[i].bytes@.subrange(
                    k * c,
                    k * c + c,
                )
        }),
{
    let c = files[i].size_class;
    let count = book.classes[c].slot_count as int;
    let len = files[i].bytes@.len() as int;
    let n = c as int;
    lemma_file_bytes(files, i);
    assert(len / n == count) by (nonlinear_arith)
        requires
            n > 0,
            count * n <= len,
            len < (count + 1) * n,
    ;
    assert(slots_of(files[i].bytes@, c as nat).len() == count);
    assert(scanned_disk(book, files)[c] == scanned_slots(files[i].bytes@, c, count as nat));
}

/// Whether what a start gives back of a partition is what the slot says.
pub open spec fn gives_back(partition: LoadedPartition, record: SlotRecord) -> bool {
    &&& partition.table_name@ == record.table_name
    &&& partition.partition_key@ == record.partition_key
    &&& partition.payload@ == record.payload
}

/// Whether a slot of the disk says this, and no slot says anything newer of the partition.
pub open spec fn is_newest(disk: Disk, location: SlotLocation, record: SlotRecord) -> bool {
    &&& record_at(disk, location) == Some(record)
    &&& forall|other: SlotLocation|
        (#[trigger] record_at(disk, other)) is Some && record_at(disk, other)->0.table_name
            == record.table_name && record_at(disk, other)->0.partition_key
            == record.partition_key ==> record_at(disk, other)->0.version <= record.version
}

/// Whether some slot of the disk is the newest of its partition and says what was given
/// back.
pub open spec fn is_on_disk(disk: Disk, partition: LoadedPartition) -> bool {
    exists|location: SlotLocation| #[trigger]
        record_at(disk, location) is Some && is_newest(
            disk,
            location,
            record_at(disk, location)->0,
        ) && gives_back(partition, record_at(disk, location)->0)
}

/// Whether a partition is among those which were given back.
pub open spec fn is_given_back(
    partitions: Seq<LoadedPartition>,
    table_name: Seq<char>,
    partition_key: Seq<char>,
) -> bool {
    exists|j: int|
        0 <= j < partitions.len() && (#[trigger] partitions[j]).table_name@ == table_name
            && partitions[j].partition_key@ == partition_key
}

/// A start gives back every partition any slot speaks of, once, with what its newest slot
/// says, and nothing else; and what is written from then on is newer than all of it.
pub proof fn a_start_gives_back_the_newest_of_every_partition(
    before: SlotBook,
    disk: Disk,
    after: SlotBook,
    losers: Seq<SlotLocation>,
    partitions: Seq<LoadedPartition>,
)
    requires
        is_recovered(before, disk, after, losers),
        are_partitions(partitions, disk, after.index),
    ensures
        forall|location: SlotLocation|
            (#[trigger] record_at(disk, location)) is Some ==> is_given_back(
                partitions,
                record_at(disk, location)->0.table_name,
                record_at(disk, location)->0.partition_key,
            ),
        forall|j: int| 0 <= j < partitions.len() ==> is_on_disk(disk, #[trigger] partitions[j]),
        forall|i: int, j: int|
            #![trigger partitions[i], partitions[j]]
            0 <= i < j < partitions.len() ==> partitions[i].table_name@ != partitions[j].table_name@
                || partitions[i].partition_key@ != partitions[j].partition_key@,
        forall|location: SlotLocation|
            (#[trigger] record_at(disk, location)) is Some ==> record_at(disk, location)->0.version
                < after.next_version,
{
    assert forall|location: SlotLocation|
        (#[trigger] record_at(disk, location)) is Some implies is_given_back(
        partitions,
        record_at(disk, location)->0.table_name,
        record_at(disk, location)->0.partition_key,
    ) by {
        let name = name_of(record_at(disk, location)->0);
        assert(holds(disk, location, name));
        assert(after.index.contains_key(name));
        let j = choose|j: int|
            0 <= j < partitions.len() && (#[trigger] partitions[j]).table_name@ == name.0
                && partitions[j].partition_key@ == name.1;
        assert(partitions[j].table_name@ == name.0);
    }
    assert forall|j: int| 0 <= j < partitions.len() implies is_on_disk(
        disk,
        #[trigger] partitions[j],
    ) by {
        let name = (partitions[j].table_name@, partitions[j].partition_key@);
        let location = after.index[name];
        assert(holds(disk, location, name));
        let record = record_at(disk, location)->0;
        assert forall|other: SlotLocation|
            (#[trigger] record_at(disk, other)) is Some && record_at(disk, other)->0.table_name
                == record.table_name && record_at(disk, other)->0.partition_key
                == record.partition_key implies record_at(disk, other)->0.version
            <= record.version by {
            assert(holds(disk, other, name));
        }
        assert(is_newest(disk, location, record));
    }
}

/// What `tables.meta` says last of a table is what it says of it.
pub proof fn the_last_entry_of_a_table_counts(
    tables: Seq<(String, TableMetadataFileContract)>,
    i: int,
)
    requires
        0 <= i < tables.len(),
        forall|j: int| i < j < tables.len() ==> (#[trigger] tables[j]).0@ != tables[i].0@,
    ensures
        named_tables(tables).contains_key(tables[i].0@),
        named_tables(tables)[tables[i].0@] == tables[i].1,
    decreases tables.len(),
{
    if i < tables.len() - 1 {
        let fewer = tables.drop_last();
        assert forall|j: int| i < j < fewer.len() implies (#[trigger] fewer[j]).0@
            != fewer[i].0@ by {
            assert(tables[j].0@ != tables[i].0@);
        }
        the_last_entry_of_a_table_counts(fewer, i);
        assert(tables[tables.len() - 1] == tables.last());
        assert(tables.last().0@ != tables[i].0@);
    }
}

/// `tables.meta` says nothing of a table which has no entry in it.
pub proof fn no_entry_comes_from_nowhere(
    tables: Seq<(String, TableMetadataFileContract)>,
    name: Seq<char>,
)
    requires
        forall|j: int| 0 <= j < tables.len() ==> (#[trigger] tables[j]).0@ != name,
    ensures
        !named_tables(tables).contains_key(name),
    decreases tables.len(),
{
    if tables.len() > 0 {
        let fewer = tables.drop_last();
        assert forall|j: int| 0 <= j < fewer.len() implies (#[trigger] fewer[j]).0@ != name by {
            assert(tables[j].0@ != name);
        }
        no_entry_comes_from_nowhere(fewer, name);
        assert(tables[tables.len() - 1] == tables.last());
    }
}

/// A slot which was written is not broken, and neither is one which was zeroed: what makes a
/// start give up is a slot which is there and reads as neither.
pub proof fn what_makes_a_start_give_up(disk: Disk, location: SlotLocation)
    ensures
        is_corrupt_on(disk, location) <==> {
            let slots = slots_on(disk, location.size_class);
            &&& location.slot_index < slots.len()
            &&& slot_content(slots[location.slot_index as int]) !is Free
            &&& slot_content(slots[location.slot_index as int]) !is Occupied
        },
        record_at(disk, location) is Some ==> !is_corrupt_on(disk, location),
{
}

}
