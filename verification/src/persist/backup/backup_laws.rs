//! What comes back out of a backup, told by what went into it.

use super::archive::{
    can_be_found_again, has_entry, holds_entries, holds_locator, zip_content, zip_count, zip_name,
};
use super::backup_zip::{
    a_backup_is_read_back, backup_tables, can_be_path_segment, close_error, item_entries,
    item_entry, item_tables, lemma_item_is_read, metadata_entry, partition_entry, start_error,
    table_entry, table_place, tables_in, with_entry, with_table, write_error, BackupItem,
    BackupZipBuilder, TableBackup,
};
use crate::persist::base64url::{encoded, no_path_in_what_is_encoded, symbol_value};
use crate::text::mentions;
use vstd::prelude::*;
use vstd::utf8::encode_utf8;

verus! {

/// Whether this is the attributes of the table.
pub open spec fn is_table_item(item: BackupItem, table_name: Seq<char>) -> bool {
    item is Table && item->Table_table_name == table_name
}

/// Whether this is a partition of the table.
pub open spec fn is_partition_item(item: BackupItem, table_name: Seq<char>) -> bool {
    item is Partition && item->Partition_table_name == table_name
}

/// The partitions of a table which went into a backup, in their order.
pub open spec fn partitions_added(items: Seq<BackupItem>, table_name: Seq<char>) -> Seq<
    (Seq<char>, Seq<u8>),
> {
    items.filter(|item: BackupItem| is_partition_item(item, table_name)).map_values(
        |item: BackupItem| (item->partition_key, item->blob),
    )
}

/// What went into a backup as the attributes of a table, in their order.
pub open spec fn attributes_added(items: Seq<BackupItem>, table_name: Seq<char>) -> Seq<Seq<u8>> {
    items.filter(|item: BackupItem| is_table_item(item, table_name)).map_values(
        |item: BackupItem| item->metadata,
    )
}

/// Whether anything of the table went into a backup.
pub open spec fn is_added(items: Seq<BackupItem>, table_name: Seq<char>) -> bool {
    exists|i: int|
        0 <= i < items.len() && (is_table_item(#[trigger] items[i], table_name)
            || is_partition_item(items[i], table_name))
}

/// Whether a table is among some.
pub open spec fn is_table_in(tables: Seq<TableBackup>, table_name: Seq<char>) -> bool {
    exists|k: int| 0 <= k < tables.len() && (#[trigger] tables[k]).table_name == table_name
}

/// Whether every table of which anything went into a backup is there once, with the
/// attributes which were added for it last and with all of its partitions.
pub open spec fn is_what_was_added(tables: Seq<TableBackup>, items: Seq<BackupItem>) -> bool {
    &&& forall|i: int, j: int|
        #![trigger tables[i], tables[j]]
        0 <= i < j < tables.len() ==> tables[i].table_name != tables[j].table_name
    &&& forall|table_name: Seq<char>| #[trigger]
        is_table_in(tables, table_name) <==> is_added(items, table_name)
    &&& forall|k: int|
        #![trigger tables[k]]
        0 <= k < tables.len() ==> {
            let table_name = tables[k].table_name;
            &&& tables[k].partitions == partitions_added(items, table_name)
            &&& tables[k].metadata == (if attributes_added(items, table_name).len() == 0 {
                None
            } else {
                Some(attributes_added(items, table_name).last())
            })
        }
}

/// The table stands where it is looked for.
proof fn lemma_place(tables: Seq<TableBackup>, table_name: Seq<char>)
    ensures
        0 <= table_place(tables, table_name) <= tables.len(),
        table_place(tables, table_name) < tables.len() ==> tables[table_place(
            tables,
            table_name,
        )].table_name == table_name,
        table_place(tables, table_name) == tables.len() ==> !is_table_in(tables, table_name),
    decreases tables.len(),
{
    if tables.len() > 0 && tables[0].table_name != table_name {
        let rest = tables.drop_first();
        lemma_place(rest, table_name);
        if is_table_in(tables, table_name) {
            let k = choose|k: int| 0 <= k < tables.len() && (#[trigger] tables[k]).table_name == table_name;
            assert(rest[k - 1].table_name == table_name);
            assert(is_table_in(rest, table_name));
        }
    }
}

/// One thing more changes the table it is about, and no other.
proof fn lemma_one_more_item(items: Seq<BackupItem>, table_name: Seq<char>)
    requires
        items.len() > 0,
    ensures
        partitions_added(items, table_name) == (if is_partition_item(items.last(), table_name) {
            partitions_added(items.drop_last(), table_name).push(
                (items.last()->partition_key, items.last()->blob),
            )
        } else {
            partitions_added(items.drop_last(), table_name)
        }),
        attributes_added(items, table_name) == (if is_table_item(items.last(), table_name) {
            attributes_added(items.drop_last(), table_name).push(items.last()->metadata)
        } else {
            attributes_added(items.drop_last(), table_name)
        }),
        is_added(items, table_name) <==> is_added(items.drop_last(), table_name) || is_table_item(
            items.last(),
            table_name,
        ) || is_partition_item(items.last(), table_name),
{
    reveal(Seq::filter);
    assert(partitions_added(items, table_name) =~= (if is_partition_item(items.last(), table_name) {
        partitions_added(items.drop_last(), table_name).push(
            (items.last()->partition_key, items.last()->blob),
        )
    } else {
        partitions_added(items.drop_last(), table_name)
    }));
    assert(attributes_added(items, table_name) =~= (if is_table_item(items.last(), table_name) {
        attributes_added(items.drop_last(), table_name).push(items.last()->metadata)
    } else {
        attributes_added(items.drop_last(), table_name)
    }));
    let fewer = items.drop_last();
    if is_added(fewer, table_name) {
        let i = choose|i: int|
            0 <= i < fewer.len() && (is_table_item(#[trigger] fewer[i], table_name)
                || is_partition_item(fewer[i], table_name));
        assert(items[i] == fewer[i]);
    }
    if is_added(items, table_name) && !is_table_item(items.last(), table_name)
        && !is_partition_item(items.last(), table_name) {
        let i = choose|i: int|
            0 <= i < items.len() && (is_table_item(#[trigger] items[i], table_name)
                || is_partition_item(items[i], table_name));
        assert(fewer[i] == items[i]);
    }
    assert(items[items.len() - 1] == items.last());
}

/// Nothing was added for a table of which there is nothing.
proof fn lemma_nothing_added(items: Seq<BackupItem>, table_name: Seq<char>)
    requires
        !is_added(items, table_name),
    ensures
        partitions_added(items, table_name).len() == 0,
        attributes_added(items, table_name).len() == 0,
    decreases items.len(),
{
    reveal(Seq::filter);
    if items.len() > 0 {
        lemma_one_more_item(items, table_name);
        lemma_nothing_added(items.drop_last(), table_name);
    }
}

proof fn lemma_tables_are_what_was_added(items: Seq<BackupItem>)
    ensures
        is_what_was_added(item_tables(items), items),
    decreases items.len(),
{
    let tables = item_tables(items);
    if items.len() == 0 {
        assert forall|table_name: Seq<char>| #[trigger]
            is_table_in(tables, table_name) <==> is_added(items, table_name) by {}
    } else {
        let fewer = items.drop_last();
        let before = item_tables(fewer);
        lemma_tables_are_what_was_added(fewer);
        let name = match items.last() {
            BackupItem::Table { table_name, metadata } => table_name,
            BackupItem::Partition { table_name, partition_key, blob } => table_name,
        };
        let all = with_table(before, name);
        let at = table_place(before, name);
        lemma_place(before, name);
        assert forall|k: int| 0 <= k < tables.len() && k != at implies #[trigger] tables[k]
            == before[k] by {}
        assert(tables[at].table_name == name);
        if at == before.len() {
            assert(!is_table_in(before, name));
            assert(!is_added(fewer, name));
            lemma_nothing_added(fewer, name);
            assert forall|k: int| 0 <= k < before.len() implies (#[trigger] before[k]).table_name
                != name by {
                if before[k].table_name == name {
                    assert(is_table_in(before, name));
                }
            }
        } else {
            assert(is_table_in(before, name)) by {
                assert(before[at].table_name == name);
            }
        }
        assert forall|i: int, j: int|
            #![trigger tables[i], tables[j]]
            0 <= i < j < tables.len() implies tables[i].table_name != tables[j].table_name by {
            if j < before.len() {
                assert(before[i].table_name != before[j].table_name);
            }
        }
        assert forall|table_name: Seq<char>| #[trigger]
            is_table_in(tables, table_name) <==> is_added(items, table_name) by {
            lemma_one_more_item(items, table_name);
            assert(is_table_in(before, table_name) <==> is_added(fewer, table_name));
            if is_table_in(tables, table_name) && table_name != name {
                let k = choose|k: int|
                    0 <= k < tables.len() && (#[trigger] tables[k]).table_name == table_name;
                assert(before[k].table_name == table_name);
            }
            if is_table_in(before, table_name) {
                let k = choose|k: int|
                    0 <= k < before.len() && (#[trigger] before[k]).table_name == table_name;
                assert(tables[k].table_name == table_name);
            }
        }
        assert forall|k: int| #![trigger tables[k]] 0 <= k < tables.len() implies {
            let table_name = tables[k].table_name;
            &&& tables[k].partitions == partitions_added(items, table_name)
            &&& tables[k].metadata == (if attributes_added(items, table_name).len() == 0 {
                None
            } else {
                Some(attributes_added(items, table_name).last())
            })
        } by {
            lemma_one_more_item(items, tables[k].table_name);
            if k != at {
                assert(tables[k] == before[k]);
                assert(before[k].table_name != name);
            } else if at < before.len() {
                assert(before[at].partitions == partitions_added(fewer, name));
            } else {
                assert(partitions_added(fewer, name) =~= Seq::empty());
            }
        }
    }
}

/// Everything which went into a backup comes out of it, whatever the tables and the
/// partitions are called: every table is there once, with the attributes which were added
/// for it and with every one of its partitions, in the order they were added. There is
/// nothing else in it, and reading it does not fail.
pub proof fn a_backup_holds_everything_which_went_in(bytes: Seq<u8>, items: Seq<BackupItem>)
    requires
        holds_entries(bytes, item_entries(items)),
    ensures
        backup_tables(bytes) matches Ok(tables) && is_what_was_added(tables, items),
        backup_tables(bytes) matches Ok(tables) && forall|i: int|
            0 <= i < items.len() && (#[trigger] items[i]) is Partition ==> has_partition(
                tables,
                items[i]->Partition_table_name,
                items[i]->partition_key,
                items[i]->blob,
            ),
{
    a_backup_is_read_back(bytes, items);
    lemma_tables_are_what_was_added(items);
    let tables = item_tables(items);
    assert forall|i: int| 0 <= i < items.len() && (#[trigger] items[i]) is Partition implies has_partition(
        tables,
        items[i]->Partition_table_name,
        items[i]->partition_key,
        items[i]->blob,
    ) by {
        let name = items[i]->Partition_table_name;
        assert(is_partition_item(items[i], name));
        assert(is_added(items, name));
        assert(is_table_in(tables, name));
        let k = choose|k: int| 0 <= k < tables.len() && (#[trigger] tables[k]).table_name == name;
        let wanted = |item: BackupItem| is_partition_item(item, name);
        items.lemma_filter_contains(wanted, i);
        let kept = items.filter(wanted);
        let j = choose|j: int| 0 <= j < kept.len() && kept[j] == items[i];
        assert(partitions_added(items, name)[j] == (items[i]->partition_key, items[i]->blob));
        assert(tables[k].partitions.contains((items[i]->partition_key, items[i]->blob)));
    }
}

/// Whether a table among some has a partition with this in it.
pub open spec fn has_partition(
    tables: Seq<TableBackup>,
    table_name: Seq<char>,
    partition_key: Seq<char>,
    blob: Seq<u8>,
) -> bool {
    exists|k: int|
        0 <= k < tables.len() && (#[trigger] tables[k]).table_name == table_name
            && tables[k].partitions.contains((partition_key, blob))
}

/// A table whose name can stand in a path is found in the archive under that very name, with
/// its attributes beside its partitions, so that an operator who opens it sees which table
/// is which.
pub proof fn a_plain_table_name_is_shown_as_it_is(name: Seq<char>, partition_key: Seq<char>)
    requires
        name.len() > 0,
        name[0] != '~',
        forall|i: int|
            0 <= i < name.len() ==> (#[trigger] name[i]) != '/' && name[i] != '\\' && name[i]
                != '\0',
        name != "."@,
        name != ".."@,
    ensures
        table_entry(name) == name,
        metadata_entry(name) == name + "/.metadata"@,
        partition_entry(name, partition_key) == name + "/"@ + encoded(encode_utf8(partition_key)),
{
    assert(!name.contains('/') && !name.contains('\\') && !name.contains('\0'));
    reveal_strlit("/");
    reveal_strlit(".metadata");
    reveal_strlit("/.metadata");
    assert(metadata_entry(name) =~= name + "/.metadata"@);
}

/// Different things have different entries, so none stands in the way of another.
pub proof fn different_things_have_different_entries(a: BackupItem, b: BackupItem)
    requires
        item_entry(a).0 == item_entry(b).0,
    ensures
        a is Table <==> b is Table,
        a is Table ==> a->Table_table_name == b->Table_table_name,
        a is Partition ==> a->Partition_table_name == b->Partition_table_name && a->partition_key
            == b->partition_key,
{
    let nothing = Seq::<TableBackup>::empty();
    lemma_item_is_read(nothing, a);
    let same = match b {
        BackupItem::Table { table_name, metadata } => BackupItem::Table {
            table_name,
            metadata: item_entry(a).1,
        },
        BackupItem::Partition { table_name, partition_key, blob } => BackupItem::Partition {
            table_name,
            partition_key,
            blob: item_entry(a).1,
        },
    };
    lemma_item_is_read(nothing, same);
    assert(item_entry(same) == item_entry(a));
    let x = with_entry(nothing, item_entry(a).0, item_entry(a).1);
    let name_a = match a {
        BackupItem::Table { table_name, metadata } => table_name,
        BackupItem::Partition { table_name, partition_key, blob } => table_name,
    };
    let name_b = match b {
        BackupItem::Table { table_name, metadata } => table_name,
        BackupItem::Partition { table_name, partition_key, blob } => table_name,
    };
    assert(with_table(nothing, name_a)[0].table_name == name_a);
    assert(with_table(nothing, name_b)[0].table_name == name_b);
    assert(x[0].table_name == name_a);
    assert(x[0].table_name == name_b);
    if a is Partition {
        assert(x[0].partitions[0] == (a->partition_key, a->blob));
        assert(x[0].metadata is None);
    } else {
        assert(x[0].metadata is Some);
        assert(x[0].partitions.len() == 0);
    }
    if b is Partition {
        assert(x[0].partitions[0] == (same->partition_key, same->blob));
        assert(x[0].metadata is None);
    } else {
        assert(x[0].metadata is Some);
    }
}

/// Whether every entry has at most two gigabytes.
pub open spec fn are_below_two_gigabytes(entries: Seq<(Seq<char>, Seq<u8>)>) -> bool {
    forall|i: int| 0 <= i < entries.len() ==> (#[trigger] entries[i]).1.len() < 0x8000_0000
}

/// A builder takes in whatever is not there yet, as long as no entry of it reaches two
/// gigabytes.
pub proof fn what_a_builder_takes(builder: BackupZipBuilder, name: Seq<char>, len: nat)
    requires
        !builder.is_cut_off(),
        are_below_two_gigabytes(builder.entries()),
        len < 0x8000_0000,
        forall|i: int|
            0 <= i < builder.entries().len() ==> (#[trigger] builder.entries()[i]).0 != name,
    ensures
        builder.takes(name, len),
        !has_entry(builder.entries(), name),
{
}

/// An archive is found again where its entries are below two gigabytes, there are not exactly
/// 65,535 of them, and no name has the mark of a large archive in it.
pub proof fn which_archives_are_found_again(entries: Seq<(Seq<char>, Seq<u8>)>)
    requires
        are_below_two_gigabytes(entries),
        entries.len() != 65_535,
        forall|i: int, k: int|
            0 <= i < entries.len() && 0 <= k && k + 4 <= entries[i].0.len() ==> !(
            #[trigger] entries[i].0[k] == 'P' && entries[i].0[k + 1] == 'K' && entries[i].0[k + 2]
                == '\u{6}' && entries[i].0[k + 3] == '\u{7}'),
    ensures
        can_be_found_again(entries),
{
    assert forall|i: int| 0 <= i < entries.len() implies !holds_locator(
        (#[trigger] entries[i]).0,
    ) by {
        let name = entries[i].0;
        if holds_locator(name) {
            let k = choose|k: int|
                0 <= k && k + 4 <= name.len() && (#[trigger] name[k]) == 'P' && name[k + 1] == 'K'
                    && name[k + 2] == '\u{6}' && name[k + 3] == '\u{7}';
            assert(entries[i].0[k] == 'P');
        }
    }
}

/// Whether an entry of the archive in some bytes can be had.
pub open spec fn is_entry_readable(bytes: Seq<u8>, i: nat) -> bool {
    zip_name(bytes, i) is Ok && zip_content(bytes, i) is Ok
}

/// A backup is read where all of its entries can be, and refused where one can not: nothing
/// is left out in silence.
pub proof fn a_backup_is_read_whole_or_not_at_all(bytes: Seq<u8>)
    ensures
        backup_tables(bytes) is Ok <==> zip_count(bytes) is Ok && forall|i: nat|
            i < zip_count(bytes)->Ok_0 ==> #[trigger] is_entry_readable(bytes, i),
        zip_count(bytes) matches Err(reason) ==> backup_tables(bytes) is Err && mentions(
            backup_tables(bytes)->Err_0,
            reason,
        ),
{
    if let Ok(n) = zip_count(bytes) {
        lemma_entries_readable(bytes, n);
    }
    if let Err(reason) = zip_count(bytes) {
        let front = "this is not a backup of this server: "@;
        assert(front + reason =~= front + reason + Seq::<char>::empty());
    }
}

proof fn lemma_entries_readable(bytes: Seq<u8>, n: nat)
    ensures
        tables_in(bytes, n) is Ok <==> forall|i: nat|
            i < n ==> #[trigger] is_entry_readable(bytes, i),
    decreases n,
{
    if n > 0 {
        let last = (n - 1) as nat;
        lemma_entries_readable(bytes, last);
        if tables_in(bytes, n) is Ok {
            assert forall|i: nat| i < n implies #[trigger] is_entry_readable(bytes, i) by {
                assert(i < last || i == last);
            }
        } else if forall|i: nat| i < n ==> #[trigger] is_entry_readable(bytes, i) {
            assert(is_entry_readable(bytes, last));
            assert(forall|i: nat| i < last ==> #[trigger] is_entry_readable(bytes, i));
        }
    }
}

/// What a table is called inside the archive is one plain step of a path, whatever the table
/// is called: neither the folder it is in nor the one above, and with nothing in it a tool
/// would trip over. A name which can not stand there is encoded, behind a mark.
pub proof fn no_table_steps_out_of_the_archive(name: Seq<char>)
    ensures
        table_entry(name) != "."@,
        table_entry(name) != ".."@,
        !table_entry(name).contains('\0'),
        table_entry(name) == name || table_entry(name) == seq!['~'] + encoded(encode_utf8(name)),
{
    reveal_strlit(".");
    reveal_strlit("..");
    let entry = table_entry(name);
    if entry != name {
        let code = encoded(encode_utf8(name));
        assert(entry =~= seq!['~'] + code);
        no_path_in_what_is_encoded(encode_utf8(name));
        assert(entry[0] == '~');
        if entry.contains('\0') {
            let i = entry.index_of('\0');
            assert(code[i - 1] == '\0');
            assert(symbol_value(code[i - 1]) is Some);
        }
    } else if !can_be_path_segment(name) {
        assert(entry[0] == '~');
        no_path_in_what_is_encoded(encode_utf8(name));
        let code = encoded(encode_utf8(name));
        assert(entry =~= seq!['~'] + code);
        if entry.contains('\0') {
            let i = entry.index_of('\0');
            assert(code[i - 1] == '\0');
            assert(symbol_value(code[i - 1]) is Some);
        }
    }
}

/// What could not be written into an archive is named, with the reason.
pub proof fn what_could_not_be_added_is_named(name: Seq<char>, reason: Seq<char>)
    ensures
        mentions(start_error(name, reason), name),
        mentions(start_error(name, reason), reason),
        mentions(write_error(name, reason), name),
        mentions(write_error(name, reason), reason),
        mentions(close_error(reason), reason),
{
    let none = Seq::<char>::empty();
    let inside = " inside the backup: "@;
    assert(start_error(name, reason) =~= "can not start "@ + name + (inside + reason));
    assert(start_error(name, reason) =~= ("can not start "@ + name + inside) + reason + none);
    assert(write_error(name, reason) =~= "can not write "@ + name + (inside + reason));
    assert(write_error(name, reason) =~= ("can not write "@ + name + inside) + reason + none);
    assert(close_error(reason) =~= "can not close the backup: "@ + reason + none);
}

}
