//! When a tool does what it is asked for, and what it answers then.

use super::backups::{
    is_first_partition, is_first_table, listed_names, no_backup_partition, no_backup_table,
    unreadable_backup,
};
use super::context::{
    answers, has_name, has_table, id_list, is_table_of, listed_ids, meant_namespace,
    namespace_refusal, never_written, no_namespace, no_schema, no_table, read_refusal,
    schema_refusal, unreadable_schema, which_schema, write_refusal, writes_are_shut,
};
use super::reads::{
    is_answer_of_backup, is_backup_partition, lists_tables, namespace_is_listed, page_limit,
    rows_asked, table_is_listed, GetListOfTablesResponse, NamespaceModel, TableModel,
};
use super::rows_to_delete::{
    bad_body_text, body_keys, item_key, keys_views, member_keys, row_keys_of, texts, JsonItem,
    JsonMember, JsonValue, KeysToDelete,
};
use super::writes::{
    batch_refusal, bulk_delete_refusal, delete_partitions_refusal, different_names,
    is_first_refused, item_refusal, move_refusal, restore_refusal, BuiltRow,
};
use crate::app::{AppContext, DbNamespace, DbTable};
use crate::db::{DateTimeAsMicroseconds, EntitySchema, PartitionRowKeys};
use crate::names::Named;
use crate::persist::backup::backup_zip::BackupContent;
use crate::persist::partition_blob::{blob_rows, StoredRow};
use crate::text::{decimal, mentions, text_before};
use vstd::prelude::*;

verus! {

/// Whether the namespace is there.
pub open spec fn is_namespace<P, A>(app: AppContext<P, A>, name_space: Seq<char>) -> bool {
    exists|k: int| 0 <= k < app.namespaces@.len() && (#[trigger] app.namespaces@[k]).name@ == name_space
}

/// Whether the table is there.
pub open spec fn is_table<P, A>(
    app: AppContext<P, A>,
    name_space: Seq<char>,
    table_name: Seq<char>,
) -> bool {
    exists|k: int, m: int|
        0 <= k < app.namespaces@.len() && 0 <= m < app.namespaces@[k].tables@.len()
            && app.namespaces@[k].name@ == name_space
            && (#[trigger] app.namespaces@[k].tables@[m]).name@ == table_name
}

/// Whether the write tools are open: somebody opened them, less than ten minutes ago.
pub open spec fn are_open<P, A>(app: AppContext<P, A>, now: DateTimeAsMicroseconds) -> bool {
    app.mcp_writes_opened matches Some(opened) && now.unix_microseconds
        < opened.unix_microseconds + 600_000_000
}

/// A caller who names a namespace means that one; one who does not, or leaves the name
/// empty, means `default`.
pub proof fn which_namespace_is_meant(name: Option<&str>)
    ensures
        name is None ==> meant_namespace(name) == "default"@,
        name matches Some(text) ==> meant_namespace(name) == (if text@.len() == 0 {
            "default"@
        } else {
            text@
        }),
{
}

/// A call is answered exactly where nothing stands against it, and else it hears what does.
pub proof fn a_refusal_is_what_is_answered<T>(r: Result<T, String>, refusal: Option<Seq<char>>)
    requires
        answers(r, refusal),
    ensures
        r is Ok <==> refusal is None,
        r matches Err(err) ==> refusal == Some(err@),
{
}

proof fn lemma_there<P, A>(
    app: AppContext<P, A>,
    name_space: Seq<char>,
    table_name: Seq<char>,
)
    ensures
        has_name(app.namespaces@, name_space) <==> is_namespace(app, name_space),
        has_table(app, name_space, table_name) <==> is_table(app, name_space, table_name),
        is_table(app, name_space, table_name) ==> is_namespace(app, name_space),
{
    let namespaces = app.namespaces@;
    if has_name(namespaces, name_space) {
        let k = choose|k: int|
            0 <= k < namespaces.len() && (#[trigger] namespaces[k]).called() == name_space;
        assert(namespaces[k].name@ == name_space);
    }
    if is_namespace(app, name_space) {
        let k = choose|k: int|
            0 <= k < namespaces.len() && (#[trigger] app.namespaces@[k]).name@ == name_space;
        assert(namespaces[k].called() == name_space);
    }
    if has_table(app, name_space, table_name) {
        let k = choose|k: int|
            0 <= k < namespaces.len() && (#[trigger] app.namespaces@[k]).name@ == name_space
                && has_name(app.namespaces@[k].tables@, table_name);
        let tables = namespaces[k].tables@;
        let m = choose|m: int|
            0 <= m < tables.len() && (#[trigger] tables[m]).called() == table_name;
        assert(app.namespaces@[k].tables@[m].name@ == table_name);
    }
    if is_table(app, name_space, table_name) {
        let (k, m) = choose|k: int, m: int|
            0 <= k < app.namespaces@.len() && 0 <= m < app.namespaces@[k].tables@.len()
                && app.namespaces@[k].name@ == name_space
                && (#[trigger] app.namespaces@[k].tables@[m]).name@ == table_name;
        assert(namespaces[k].tables@[m].called() == table_name);
        assert(has_name(namespaces[k].tables@, table_name));
        assert(app.namespaces@[k].name@ == name_space);
    }
}

/// A table can be read whenever the server is loaded and the table is there, and written
/// whenever the write tools are open as well. Nothing else stands against either.
pub proof fn what_is_there_can_be_read_and_written<P, A>(
    app: AppContext<P, A>,
    namespace: Option<&str>,
    table_name: Seq<char>,
    missing_table: Seq<char>,
    now: DateTimeAsMicroseconds,
)
    ensures
        namespace_refusal(app, namespace) is None <==> app.initialized && is_namespace(
            app,
            meant_namespace(namespace),
        ),
        read_refusal(app, namespace, table_name, missing_table) is None <==> app.initialized
            && is_table(app, meant_namespace(namespace), table_name),
        write_refusal(app, namespace, table_name, missing_table, now) is None
            <==> app.initialized && is_table(app, meant_namespace(namespace), table_name)
            && are_open(app, now),
{
    lemma_there(app, meant_namespace(namespace), table_name);
}

/// Partitions are deleted where the table can be written and some are named; a table is
/// moved out of a namespace which is there, and a backup restored, whole or one partition of
/// it, while the write tools are open.
pub proof fn when_something_is_deleted_moved_or_restored<P, A>(
    app: AppContext<P, A>,
    namespace: Option<&str>,
    table_name: Seq<char>,
    missing_table: Seq<char>,
    partition_keys: Seq<String>,
    one_table: Option<String>,
    one_partition: Option<String>,
    now: DateTimeAsMicroseconds,
)
    ensures
        delete_partitions_refusal(
            app,
            namespace,
            table_name,
            missing_table,
            partition_keys,
            now,
        ) is None <==> app.initialized && is_table(app, meant_namespace(namespace), table_name)
            && are_open(app, now) && partition_keys.len() > 0,
        move_refusal(app, namespace, now) is None <==> app.initialized && is_namespace(
            app,
            meant_namespace(namespace),
        ) && are_open(app, now),
        restore_refusal(app, one_table, one_partition, now) is None <==> app.initialized && are_open(
            app,
            now,
        ) && (one_table is Some <==> one_partition is Some),
{
    lemma_there(app, meant_namespace(namespace), table_name);
}

/// What was found is the table of that name, in the namespace of that name, and both are
/// the server's.
pub proof fn the_table_which_is_found_is_the_one_which_was_named<P, A>(
    app: AppContext<P, A>,
    name_space: Seq<char>,
    table_name: Seq<char>,
    db_namespace: DbNamespace,
    db_table: DbTable,
)
    requires
        is_table_of(app, name_space, table_name, db_namespace, db_table),
    ensures
        db_namespace.name@ == name_space,
        db_table.name@ == table_name,
        exists|k: int| 0 <= k < app.namespaces@.len() && app.namespaces@[k] == db_namespace,
        exists|m: int| 0 <= m < db_namespace.tables@.len() && db_namespace.tables@[m] == db_table,
{
}

/// Rows are written through the schema which is named, if the table has it, and through the
/// only one it has, if none is named.
pub proof fn when_a_schema_is_picked(table: DbTable, schema_id: Option<u64>)
    ensures
        schema_refusal(table, schema_id) is None <==> match schema_id {
            Some(id) => exists|i: int|
                0 <= i < table.attributes.schemas@.len() && (
                #[trigger] table.attributes.schemas@[i]).id == id,
            None => table.attributes.schemas@.len() == 1,
        },
{
}

/// A batch is written exactly where it has rows and every one of them could be built; else
/// it hears what is wrong with the first one which could not.
pub proof fn when_a_batch_is_written<E>(items: Seq<BuiltRow<E>>)
    ensures
        batch_refusal(items) is None <==> items.len() > 0 && forall|i: int|
            0 <= i < items.len() ==> (#[trigger] items[i]) is Row,
        forall|i: int|
            #![trigger items[i]]
            0 <= i < items.len() && items[i] !is Row && (forall|k: int|
                0 <= k < i ==> (#[trigger] items[k]) is Row) ==> batch_refusal(items)
                == item_refusal(items[i]),
        forall|i: int|
            0 <= i < items.len() && (#[trigger] items[i]) is Refused ==> item_refusal(items[i])
                == Some(items[i]->Refused_0@),
{
    assert forall|i: int| 0 <= i < items.len() implies ((#[trigger] items[i]) is Row
        <==> item_refusal(items[i]) is None) by {}
    if exists|i: int| 0 <= i < items.len() && (#[trigger] items[i]) !is Row {
        let i = choose|i: int| 0 <= i < items.len() && (#[trigger] items[i]) !is Row;
        lemma_first_refused(items, i);
    }
    assert forall|i: int|
        #![trigger items[i]]
        0 <= i < items.len() && items[i] !is Row && (forall|k: int|
            0 <= k < i ==> (#[trigger] items[k]) is Row) implies batch_refusal(items)
        == item_refusal(items[i]) by {
        assert(is_first_refused(items, i));
        let j = choose|j: int| is_first_refused(items, j);
        assert(is_first_refused(items, j));
        if j < i {
            assert(items[j] is Row);
        } else if i < j {
            assert(item_refusal(items[i]) is None);
        }
    }
}

proof fn lemma_first_refused<E>(items: Seq<BuiltRow<E>>, i: int)
    requires
        0 <= i < items.len(),
        item_refusal(items[i]) is Some,
    ensures
        exists|j: int| is_first_refused(items, j),
    decreases i,
{
    if exists|k: int| 0 <= k < i && item_refusal(#[trigger] items[k]) is Some {
        let k = choose|k: int| 0 <= k < i && item_refusal(#[trigger] items[k]) is Some;
        lemma_first_refused(items, k);
    } else {
        assert(is_first_refused(items, i));
    }
}

/// Whether the items are row keys, all of them texts.
pub open spec fn are_texts(items: Seq<JsonItem>, keys: Seq<Seq<char>>) -> bool {
    &&& keys.len() == items.len()
    &&& forall|i: int|
        0 <= i < items.len() ==> (#[trigger] items[i]) is Text && items[i]->Text_0@ == keys[i]
}

/// Whether the member names these keys of its partition.
pub open spec fn is_member_of(member: JsonMember, keys: KeysToDelete) -> bool {
    &&& member matches JsonMember::Member(partition_key, JsonValue::Array(items))
    &&& partition_key@ == keys.partition_key
    &&& are_texts(items@, keys.row_keys)
}

proof fn lemma_row_keys(partition_key: Seq<char>, items: Seq<JsonItem>)
    ensures
        row_keys_of(partition_key, items) matches Ok(keys) ==> are_texts(items, keys),
        (forall|i: int| 0 <= i < items.len() ==> (#[trigger] items[i]) is Text) ==> row_keys_of(
            partition_key,
            items,
        ) is Ok,
    decreases items.len(),
{
    if items.len() > 0 {
        let fewer = items.drop_last();
        lemma_row_keys(partition_key, fewer);
        assert(items[items.len() - 1] == items.last());
        if let Ok(keys) = row_keys_of(partition_key, items) {
            let before = row_keys_of(partition_key, fewer)->Ok_0;
            assert forall|i: int| 0 <= i < items.len() implies (#[trigger] items[i]) is Text
                && items[i]->Text_0@ == keys[i] by {
                if i < fewer.len() {
                    assert(fewer[i] == items[i]);
                    assert(before[i] == keys[i]);
                }
            }
        }
        if forall|i: int| 0 <= i < items.len() ==> (#[trigger] items[i]) is Text {
            assert forall|i: int| 0 <= i < fewer.len() implies (#[trigger] fewer[i]) is Text by {
                assert(items[i] is Text);
            }
            assert(items[items.len() - 1] is Text);
        }
    }
}

/// Whether a member is an array of texts.
pub open spec fn is_readable(member: JsonMember) -> bool {
    member matches JsonMember::Member(_, JsonValue::Array(items)) && forall|i: int|
        0 <= i < items@.len() ==> (#[trigger] items@[i]) is Text
}

/// A body which names the rows to delete is read where all of it can be: then every
/// partition and every row key of it is there, as it was written and in its order. A body
/// of which anything can not be read names nothing at all.
pub proof fn rows_to_delete_are_read_whole(members: Seq<JsonMember>)
    ensures
        body_keys(members) is Ok <==> forall|i: int|
            0 <= i < members.len() ==> is_readable(#[trigger] members[i]),
        body_keys(members) matches Ok(keys) ==> keys.len() == members.len() && forall|i: int|
            0 <= i < members.len() ==> is_member_of(#[trigger] members[i], keys[i]),
    decreases members.len(),
{
    if members.len() > 0 {
        let fewer = members.drop_last();
        rows_to_delete_are_read_whole(fewer);
        let last = members.last();
        assert(members[members.len() - 1] == last);
        lemma_member(last);
        if forall|i: int| 0 <= i < members.len() ==> is_readable(#[trigger] members[i]) {
            assert forall|i: int| 0 <= i < fewer.len() implies is_readable(
                #[trigger] fewer[i],
            ) by {
                assert(is_readable(members[i]));
            }
            assert(is_readable(members[members.len() - 1]));
        }
        if body_keys(members) is Ok {
            assert forall|i: int| 0 <= i < members.len() implies is_readable(
                #[trigger] members[i],
            ) by {
                if i < fewer.len() {
                    assert(is_readable(fewer[i]));
                }
            }
            let keys = body_keys(members)->Ok_0;
            let before = body_keys(fewer)->Ok_0;
            assert forall|i: int| 0 <= i < members.len() implies is_member_of(
                #[trigger] members[i],
                keys[i],
            ) by {
                if i < fewer.len() {
                    assert(is_member_of(fewer[i], before[i]));
                    assert(keys[i] == before[i]);
                }
            }
        }
    }
}

proof fn lemma_member(member: JsonMember)
    ensures
        member_keys(member) is Ok <==> is_readable(member),
        member_keys(member) matches Ok(keys) ==> is_member_of(member, keys),
{
    if let JsonMember::Member(partition_key, JsonValue::Array(items)) = member {
        lemma_row_keys(partition_key@, items@);
    }
}

/// Rows are deleted where the table can be written, and the body can be read and names
/// something; and what is deleted is what the body names.
pub proof fn when_rows_are_deleted<P, A>(
    app: AppContext<P, A>,
    namespace: Option<&str>,
    table_name: Seq<char>,
    missing_table: Seq<char>,
    members: Seq<JsonMember>,
    partitions: Seq<PartitionRowKeys>,
    now: DateTimeAsMicroseconds,
)
    ensures
        bulk_delete_refusal(app, namespace, table_name, missing_table, members, now) is None <==> {
            &&& app.initialized
            &&& is_table(app, meant_namespace(namespace), table_name)
            &&& are_open(app, now)
            &&& members.len() > 0
            &&& forall|i: int| 0 <= i < members.len() ==> is_readable(#[trigger] members[i])
        },
        body_keys(members) == Ok::<Seq<KeysToDelete>, Seq<char>>(keys_views(partitions)) ==> {
            &&& partitions.len() == members.len()
            &&& forall|i: int|
                0 <= i < members.len() ==> is_member_of(
                    #[trigger] members[i],
                    KeysToDelete {
                        partition_key: partitions[i].partition_key@,
                        row_keys: partitions[i].row_keys@.map_values(|key: String| key@),
                    },
                )
        },
{
    lemma_there(app, meant_namespace(namespace), table_name);
    rows_to_delete_are_read_whole(members);
    if body_keys(members) == Ok::<Seq<KeysToDelete>, Seq<char>>(keys_views(partitions)) {
        assert forall|i: int| 0 <= i < members.len() implies is_member_of(
            #[trigger] members[i],
            KeysToDelete {
                partition_key: partitions[i].partition_key@,
                row_keys: partitions[i].row_keys@.map_values(|key: String| key@),
            },
        ) by {
            assert(is_member_of(members[i], keys_views(partitions)[i]));
            assert(partitions[i].row_keys@.map_values(|key: String| key@) =~= texts(
                partitions[i].row_keys@,
            ));
        }
    }
}

/// How many partitions a batch touches is how many different keys its rows have.
pub proof fn partitions_are_counted_once(names: Seq<String>)
    ensures
        different_names(names) == names.map_values(|name: String| name@).to_set(),
    decreases names.len(),
{
    let all = names.map_values(|name: String| name@);
    if names.len() > 0 {
        let fewer = names.drop_last();
        partitions_are_counted_once(fewer);
        let before = fewer.map_values(|name: String| name@);
        assert forall|name: Seq<char>| different_names(names).contains(name)
            == #[trigger] all.to_set().contains(name) by {
            if before.contains(name) {
                let i = before.index_of(name);
                assert(all[i] == name);
            }
            if all.contains(name) {
                let i = all.index_of(name);
                if i < fewer.len() {
                    assert(before[i] == name);
                }
            }
            assert(all[names.len() - 1] == names.last()@);
        }
    }
    assert(different_names(names) =~= all.to_set());
}

/// Whether the model of a table is what the table holds.
pub open spec fn is_model_of(model: TableModel, table: DbTable) -> bool {
    &&& model.name@ == table.name@
    &&& model.partitions_count == table.metrics.partitions_amount
    &&& model.rows_count == table.metrics.rows_amount
    &&& model.schemas_count == table.attributes.schemas@.len()
}

/// Whether some model is that of the table.
pub open spec fn has_model(models: Seq<TableModel>, table: DbTable) -> bool {
    exists|i: int| 0 <= i < models.len() && is_model_of(#[trigger] models[i], table)
}

/// The list of tables has every table of the namespace once, with what it holds, in the
/// order of their names.
pub proof fn every_table_is_listed(list: GetListOfTablesResponse, namespace: DbNamespace)
    requires
        lists_tables(list, namespace),
    ensures
        list.count == namespace.tables@.len(),
        list.tables@.len() == namespace.tables@.len(),
        forall|j: int|
            0 <= j < namespace.tables@.len() ==> has_model(
                list.tables@,
                #[trigger] namespace.tables@[j],
            ),
        forall|i: int, j: int|
            #![trigger list.tables@[i], list.tables@[j]]
            0 <= i < j < list.tables@.len() ==> text_before(
                list.tables@[i].name@,
                list.tables@[j].name@,
            ),
{
    let models = list.tables@;
    assert forall|j: int| 0 <= j < namespace.tables@.len() implies has_model(
        models,
        #[trigger] namespace.tables@[j],
    ) by {
        assert(table_is_listed(models, namespace.tables@[j]));
        let i = choose|i: int|
            0 <= i < models.len() && (#[trigger] models[i]).shows(namespace.tables@[j]);
        assert(is_model_of(models[i], namespace.tables@[j]));
    }
    assert forall|i: int, j: int|
        #![trigger models[i], models[j]]
        0 <= i < j < models.len() implies text_before(models[i].name@, models[j].name@) by {
        assert(text_before(models[i].called(), models[j].called()));
    }
}

/// A namespace which is listed is listed by its name and with as many tables as it has.
pub proof fn every_namespace_is_listed(models: Seq<NamespaceModel>, namespace: DbNamespace)
    requires
        namespace_is_listed(models, namespace),
    ensures
        exists|i: int|
            0 <= i < models.len() && (#[trigger] models[i]).name@ == namespace.name@
                && models[i].tables_count == namespace.tables@.len(),
{
    let i = choose|i: int| 0 <= i < models.len() && (#[trigger] models[i]).shows(namespace);
    assert(models[i].name@ == namespace.name@);
}

/// A page has a hundred rows where the caller does not say, and as many as the caller says
/// where they do; one row more is asked for, to see whether there is more.
pub proof fn how_many_rows_a_page_has(limit: usize)
    ensures
        page_limit(None) == 100,
        page_limit(Some(limit)) == limit,
        limit < usize::MAX ==> rows_asked(limit) == limit + 1,
        rows_asked(usize::MAX) == usize::MAX,
{
}

/// A partition which a backup has is read out of it, and one which it has not is not: the
/// answer is what the payload of the first such partition, of the first table of that name,
/// reads as.
pub proof fn a_partition_of_a_backup_is_read(
    r: Result<Seq<StoredRow>, Seq<char>>,
    content: BackupContent,
    file_name: Seq<char>,
    table_name: Seq<char>,
    partition_key: Seq<char>,
    at: int,
    place: int,
)
    requires
        is_answer_of_backup(r, content, file_name, table_name, partition_key),
        0 <= at < content.tables@.len(),
        content.tables@[at].table_name@ == table_name,
        forall|k: int|
            0 <= k < at ==> (#[trigger] content.tables@[k]).table_name@ != table_name,
    ensures
        0 <= place < content.tables@[at].partitions@.len()
            && content.tables@[at].partitions@[place].partition_key@ == partition_key && (forall|
            k: int,
        |
            0 <= k < place ==> (#[trigger] content.tables@[at].partitions@[k]).partition_key@
                != partition_key) ==> r == blob_rows(
            content.tables@[at].partitions@[place].blob@,
        ),
        (forall|k: int|
            0 <= k < content.tables@[at].partitions@.len() ==> (
            #[trigger] content.tables@[at].partitions@[k]).partition_key@ != partition_key)
            ==> r is Err,
{
    let tables = content.tables@;
    assert(!(forall|k: int| 0 <= k < tables.len() ==> (#[trigger] tables[k]).table_name@
        != table_name)) by {
        assert(tables[at].table_name@ == table_name);
    }
    assert forall|other: int| #[trigger] is_first_table(tables, other, table_name) implies other
        == at by {
        if other < at {
            assert(tables[other].table_name@ != table_name);
        } else if at < other {
            assert(tables[at].table_name@ != table_name);
        }
    }
    let partitions = tables[at].partitions@;
    if exists|a: int, p: int| #[trigger]
        is_backup_partition(content, table_name, partition_key, a, p) && r == blob_rows(
            content.tables@[a].partitions@[p].blob@,
        ) {
        let (a, p) = choose|a: int, p: int| #[trigger]
            is_backup_partition(content, table_name, partition_key, a, p) && r == blob_rows(
                content.tables@[a].partitions@[p].blob@,
            );
        assert(is_first_table(tables, a, table_name));
        assert(a == at);
        assert(is_first_partition(partitions, p, partition_key));
        assert(partitions[p].partition_key@ == partition_key);
        if 0 <= place < partitions.len() && partitions[place].partition_key@ == partition_key && (
        forall|k: int|
            0 <= k < place ==> (#[trigger] partitions[k]).partition_key@ != partition_key) {
            if p < place {
                assert(partitions[p].partition_key@ != partition_key);
            } else if place < p {
                assert(partitions[place].partition_key@ != partition_key);
            }
        }
    } else {
        let a = choose|a: int|
            {
                &&& #[trigger] is_first_table(content.tables@, a, table_name)
                &&& forall|k: int|
                    0 <= k < content.tables@[a].partitions@.len() ==> (
                    #[trigger] content.tables@[a].partitions@[k]).partition_key@ != partition_key
                &&& r is Err
            };
        assert(a == at);
    }
}

/// A refusal says what stands against the call: that the server is loading, which namespace
/// is not there, that the write tools are shut, or what the registry says of a table which is
/// not there - the first of them in this order.
pub proof fn a_refusal_names_what_stands_against<P, A>(
    app: AppContext<P, A>,
    namespace: Option<&str>,
    table_name: Seq<char>,
    missing_table: Seq<char>,
    now: DateTimeAsMicroseconds,
)
    requires
        app.initialized,
    ensures
        !is_namespace(app, meant_namespace(namespace)) ==> {
            &&& write_refusal(app, namespace, table_name, missing_table, now) == read_refusal(
                app,
                namespace,
                table_name,
                missing_table,
            )
            &&& read_refusal(app, namespace, table_name, missing_table) matches Some(said)
                && mentions(said, "'"@ + meant_namespace(namespace) + "'"@)
        },
        is_namespace(app, meant_namespace(namespace)) && !are_open(app, now) ==> write_refusal(
            app,
            namespace,
            table_name,
            missing_table,
            now,
        ) == Some(writes_are_shut()),
        is_namespace(app, meant_namespace(namespace)) && !is_table(
            app,
            meant_namespace(namespace),
            table_name,
        ) ==> {
            &&& read_refusal(app, namespace, table_name, missing_table) matches Some(said)
                && mentions(said, missing_table)
            &&& are_open(app, now) ==> write_refusal(
                app,
                namespace,
                table_name,
                missing_table,
                now,
            ) == read_refusal(app, namespace, table_name, missing_table)
        },
{
    lemma_there(app, meant_namespace(namespace), table_name);
    reveal_strlit("'");
    reveal_strlit("There is no namespace '");
    reveal_strlit("There is no namespace ");
    reveal_strlit("'. Call get_namespaces to see which there are.");
    reveal_strlit(". Call get_namespaces to see which there are.");
    let name = meant_namespace(namespace);
    assert(no_namespace(name) =~= "There is no namespace "@ + ("'"@ + name + "'"@)
        + ". Call get_namespaces to see which there are."@);
    let tail = ". Call get_list_of_tables to see which tables the namespace has."@;
    assert(no_table(missing_table) =~= Seq::<char>::empty() + missing_table + tail);
}

/// What stands between quotes is mentioned with them.
proof fn lemma_quoted(front: Seq<char>, name: Seq<char>, back: Seq<char>)
    requires
        front.len() > 0,
        front.last() == '\'',
        back.len() > 0,
        back[0] == '\'',
    ensures
        mentions(front + name + back, "'"@ + name + "'"@),
{
    reveal_strlit("'");
    assert(front + name + back =~= front.drop_last() + ("'"@ + name + "'"@) + back.drop_first());
}

/// What is mentioned stays mentioned when more is said in front or behind.
proof fn lemma_mentions_more(front: Seq<char>, text: Seq<char>, back: Seq<char>, what: Seq<char>)
    requires
        mentions(text, what),
    ensures
        mentions(front + text + back, what),
{
    let (before, after) = choose|before: Seq<char>, after: Seq<char>|
        text == #[trigger] (before + what + after);
    assert(front + text + back =~= (front + before) + what + (after + back));
}

/// Every schema is among the ids which are listed.
proof fn lemma_id_listed(schemas: Seq<EntitySchema>, i: int)
    requires
        0 <= i < schemas.len(),
    ensures
        mentions(id_list(schemas), decimal(schemas[i].id as nat)),
    decreases schemas.len(),
{
    let none = Seq::<char>::empty();
    let id = decimal(schemas[i].id as nat);
    if schemas.len() == 1 {
        assert(id_list(schemas) =~= none + id + none);
    } else if i == schemas.len() - 1 {
        assert(id_list(schemas) =~= (id_list(schemas.drop_last()) + ", "@) + id + none);
    } else {
        lemma_id_listed(schemas.drop_last(), i);
        let tail = ", "@ + decimal(schemas.last().id as nat);
        lemma_mentions_more(none, id_list(schemas.drop_last()), tail, id);
        assert(id_list(schemas) =~= none + id_list(schemas.drop_last()) + tail);
    }
}

/// A caller who names a schema a table does not have hears which table and schema that is;
/// one who has to name a schema hears which there are.
pub proof fn a_caller_hears_which_schemas_there_are(table: DbTable, schema_id: u64)
    ensures
        mentions(no_schema(table, schema_id), "'"@ + table.name@ + "'"@),
        mentions(no_schema(table, schema_id), decimal(schema_id as nat)),
        mentions(never_written(table), "'"@ + table.name@ + "'"@),
        mentions(which_schema(table), "'"@ + table.name@ + "'"@),
        forall|i: int|
            #![trigger table.attributes.schemas@[i]]
            0 <= i < table.attributes.schemas@.len() ==> mentions(
                which_schema(table),
                decimal(table.attributes.schemas@[i].id as nat),
            ) && mentions(
                no_schema(table, schema_id),
                decimal(table.attributes.schemas@[i].id as nat),
            ),
{
    reveal_strlit("Table '");
    reveal_strlit("' has no schema ");
    reveal_strlit(
        "' has never been written to, so this server does not know the shape of its rows and can not turn JSON into one. The service which owns this entity has to write a row first - the shape travels with the write.",
    );
    reveal_strlit(
        "' holds rows of more than one entity version. Name the one to write through in `schema_id`: ",
    );
    let schemas = table.attributes.schemas@;
    let none = Seq::<char>::empty();
    let name = table.name@;
    let front = "Table '"@;
    let ids = listed_ids(schemas);
    let no = "' has no schema "@ + decimal(schema_id as nat) + ". It has: "@ + ids;
    lemma_quoted(front, name, no);
    assert(no_schema(table, schema_id) =~= front + name + no);
    assert(no_schema(table, schema_id) =~= (front + name + "' has no schema "@) + decimal(
        schema_id as nat,
    ) + (". It has: "@ + ids));
    let never =
        "' has never been written to, so this server does not know the shape of its rows and can not turn JSON into one. The service which owns this entity has to write a row first - the shape travels with the write."@;
    lemma_quoted(front, name, never);
    let which =
        "' holds rows of more than one entity version. Name the one to write through in `schema_id`: "@;
    lemma_quoted(front, name, which + ids);
    assert(which_schema(table) =~= front + name + (which + ids));
    assert forall|i: int|
        #![trigger table.attributes.schemas@[i]]
        0 <= i < schemas.len() implies mentions(
        which_schema(table),
        decimal(table.attributes.schemas@[i].id as nat),
    ) && mentions(
        no_schema(table, schema_id),
        decimal(table.attributes.schemas@[i].id as nat),
    ) by {
        let id = decimal(schemas[i].id as nat);
        lemma_id_listed(schemas, i);
        let before = front + name + which;
        lemma_mentions_more(before, ids, none, id);
        assert(which_schema(table) =~= before + ids + none);
        let before = front + name + "' has no schema "@ + decimal(schema_id as nat)
            + ". It has: "@;
        lemma_mentions_more(before, ids, none, id);
        assert(no_schema(table, schema_id) =~= before + ids + none);
    }
}

/// A caller who asks for what a backup does not have hears which backup, table and partition
/// that is.
pub proof fn a_caller_hears_what_a_backup_does_not_have(
    content: BackupContent,
    file_name: Seq<char>,
    table_name: Seq<char>,
    partition_key: Seq<char>,
)
    ensures
        mentions(no_backup_table(content, file_name, table_name), "'"@ + file_name + "'"@),
        mentions(no_backup_table(content, file_name, table_name), "'"@ + table_name + "'"@),
        mentions(
            no_backup_partition(file_name, partition_key, table_name),
            "'"@ + partition_key + "'"@,
        ),
        mentions(no_backup_partition(file_name, partition_key, table_name), "'"@ + file_name + "'"@),
        mentions(
            no_backup_partition(file_name, partition_key, table_name),
            "'"@ + table_name + "'"@,
        ),
{
    reveal_strlit("The backup '");
    reveal_strlit("' has no table '");
    reveal_strlit("'. It has: ");
    reveal_strlit("' has no partition '");
    reveal_strlit("' of table '");
    reveal_strlit("'.");
    let front = "The backup '"@;
    let names = listed_names(content);
    let said = no_backup_table(content, file_name, table_name);
    let rest = "' has no table '"@ + table_name + "'. It has: "@ + names;
    lemma_quoted(front, file_name, rest);
    assert(said =~= front + file_name + rest);
    let before = front + file_name + "' has no table '"@;
    lemma_quoted(before, table_name, "'. It has: "@ + names);
    assert(said =~= before + table_name + ("'. It has: "@ + names));
    let said = no_backup_partition(file_name, partition_key, table_name);
    let rest = "' has no partition '"@ + partition_key + "' of table '"@ + table_name + "'."@;
    lemma_quoted(front, file_name, rest);
    assert(said =~= front + file_name + rest);
    let before = front + file_name + "' has no partition '"@;
    let rest = "' of table '"@ + table_name + "'."@;
    lemma_quoted(before, partition_key, rest);
    assert(said =~= before + partition_key + rest);
    let before = front + file_name + "' has no partition '"@ + partition_key + "' of table '"@;
    lemma_quoted(before, table_name, "'."@);
    assert(said =~= before + table_name + "'."@);
}

/// A body which can not be read is answered with which partition it is, or with what broke.
pub proof fn a_caller_hears_what_can_not_be_read(
    partition_key: Seq<char>,
    reason: String,
    member: JsonMember,
)
    ensures
        mentions(
            item_key(partition_key, JsonItem::NotText)->Err_0,
            "'"@ + partition_key + "'"@,
        ),
        mentions(
            item_key(partition_key, JsonItem::UnreadableText)->Err_0,
            "'"@ + partition_key + "'"@,
        ),
        mentions(item_key(partition_key, JsonItem::Broken(reason))->Err_0, reason@),
        mentions(member_keys(JsonMember::Broken(reason))->Err_0, reason@),
        member matches JsonMember::Member(key, JsonValue::NotAnArray) ==> mentions(
            member_keys(member)->Err_0,
            "'"@ + key@ + "'"@,
        ),
{
    reveal_strlit("a row key of partition '");
    reveal_strlit("' is not a string");
    reveal_strlit("' can not be read");
    reveal_strlit("the row keys of partition '");
    reveal_strlit("' are not an array");
    lemma_quoted("a row key of partition '"@, partition_key, "' is not a string"@);
    lemma_quoted("a row key of partition '"@, partition_key, "' can not be read"@);
    let front = "`rows_json` is not a JSON object of partition key -> row keys: "@;
    assert(bad_body_text(reason@) =~= front + reason@ + Seq::<char>::empty());
    if let JsonMember::Member(key, JsonValue::NotAnArray) = member {
        lemma_quoted("the row keys of partition '"@, key@, "' are not an array"@);
    }
}

/// A caller whose backup can not be read hears why, and whose backups to look at; one whose
/// schema can not be used hears which it is.
pub proof fn a_caller_hears_why_a_backup_is_not_read(
    reason: Seq<char>,
    name_space: Seq<char>,
    schema_id: u64,
)
    ensures
        mentions(unreadable_backup(reason, name_space), reason),
        mentions(unreadable_backup(reason, name_space), "'"@ + name_space + "'"@),
        mentions(unreadable_schema(schema_id), decimal(schema_id as nat)),
{
    reveal_strlit(". Call get_list_of_backups to see which snapshots '");
    reveal_strlit("' has.");
    let middle = ". Call get_list_of_backups to see which snapshots '"@;
    let said = unreadable_backup(reason, name_space);
    assert(said =~= Seq::<char>::empty() + reason + (middle + name_space + "' has."@));
    lemma_quoted(reason + middle, name_space, "' has."@);
}

}
