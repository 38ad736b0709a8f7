//! Loading every namespace back from disk.
//!
//! Requests are let in only after that - a table served half-loaded would look
//! like a table that lost its data.

use crate::app::DEFAULT_NAMESPACE;
use crate::db::{DateTimeAsMicroseconds, DbTableAttributes};
use crate::hashed_list::HashedList;
use crate::names::is_listed;
use crate::persist::loaded_from_disk::LoadedPartition;
use crate::persist::partition_blob::{
    blob_rows, deserialize, restored_rows, PersistedRow, StoredRow,
};
use crate::text::{mentions, same_text};
use ahash::AHashMap;
use vstd::prelude::*;

verus! {

/// The namespaces to load: those found on disk and the default one, which always
/// exists, even on a first ever start - a client which names no namespace has to
/// land somewhere.
pub fn namespaces_to_load(found: Vec<String>) -> (r: Vec<String>)
    ensures
        is_listed(r@, DEFAULT_NAMESPACE@),
        is_listed(found@, DEFAULT_NAMESPACE@) ==> r@ == found@,
        !is_listed(found@, DEFAULT_NAMESPACE@) ==> r@.len() == found@.len() + 1 && r@.drop_last()
            == found@ && r@.last()@ == DEFAULT_NAMESPACE@,
{
    for i in 0..found.len()
        invariant
            forall|k: int| 0 <= k < i ==> (#[trigger] found@[k])@ != DEFAULT_NAMESPACE@,
    {
        if same_text(found[i].as_str(), DEFAULT_NAMESPACE) {
            assert(found@[i as int]@ == DEFAULT_NAMESPACE@);
            return found;
        }
    }
    let ghost given = found@;
    let mut r = found;
    r.push(DEFAULT_NAMESPACE.to_owned());
    proof {
        assert(r@.drop_last() =~= given);
        assert(r@[given.len() as int]@ == DEFAULT_NAMESPACE@);
    }
    r
}

/// What became of a partition which was found on disk.
pub enum PartitionRead {
    Rows(Vec<PersistedRow>),
    /// It can not be read, and broken partitions are skipped. Says why.
    Skipped(String),
    /// It can not be read, and that stops the start. Says why.
    Broken(String),
}

/// Where something was found: a partition, its table and its namespace.
pub open spec fn found_at(partition_key: Seq<char>, table_name: Seq<char>, name_space: Seq<char>) -> Seq<
    char,
> {
    "partition '"@ + partition_key + "' of table '"@ + table_name + "' in namespace '"@ + name_space
        + "': "@
}

/// What is said of a partition which can not be read.
pub open spec fn unreadable_partition(
    partition_key: Seq<char>,
    table_name: Seq<char>,
    name_space: Seq<char>,
    err: Seq<char>,
) -> Seq<char> {
    "Can not read "@ + found_at(partition_key, table_name, name_space) + err
}

/// What is said of a row which can not be parsed.
pub open spec fn unreadable_row(
    partition_key: Seq<char>,
    table_name: Seq<char>,
    name_space: Seq<char>,
    err: Seq<char>,
) -> Seq<char> {
    "Can not parse a row of "@ + found_at(partition_key, table_name, name_space) + err
}

fn message(what: &str, partition_key: &str, table_name: &str, namespace: &str, err: &str) -> (r:
    String)
    ensures
        r@ == what@ + found_at(partition_key@, table_name@, namespace@) + err@,
{
    let mut msg = what.to_owned();
    msg.append("partition '");
    msg.append(partition_key);
    msg.append("' of table '");
    msg.append(table_name);
    msg.append("' in namespace '");
    msg.append(namespace);
    msg.append("': ");
    msg.append(err);
    assert(msg@ =~= what@ + found_at(partition_key@, table_name@, namespace@) + err@);
    msg
}

/// What becomes of a partition, of which this is the payload's reading.
pub open spec fn is_read_as(
    r: PartitionRead,
    reading: Result<Seq<StoredRow>, Seq<char>>,
    loaded: LoadedPartition,
    name_space: Seq<char>,
    skip_errors: bool,
) -> bool {
    match reading {
        Ok(rows) => r matches PartitionRead::Rows(read) && restored_rows(read@) == rows,
        Err(err) => {
            let msg = unreadable_partition(
                loaded.partition_key@,
                loaded.table_name@,
                name_space,
                err,
            );
            if skip_errors {
                r matches PartitionRead::Skipped(said) && said@ == msg
            } else {
                r matches PartitionRead::Broken(said) && said@ == msg
            }
        },
    }
}

/// What a reading of a payload says.
pub open spec fn reading_of(reading: Result<Vec<PersistedRow>, String>) -> Result<
    Seq<StoredRow>,
    Seq<char>,
> {
    match reading {
        Ok(rows) => Ok(restored_rows(rows@)),
        Err(err) => Err(err@),
    }
}

/// What becomes of a partition, given what its payload was read as.
pub fn judge_partition(
    reading: Result<Vec<PersistedRow>, String>,
    loaded: &LoadedPartition,
    namespace: &str,
    skip_errors: bool,
) -> (r: PartitionRead)
    ensures
        is_read_as(r, reading_of(reading), *loaded, namespace@, skip_errors),
{
    match reading {
        Ok(rows) => PartitionRead::Rows(rows),
        Err(err) => {
            let msg = message(
                "Can not read ",
                loaded.partition_key.as_str(),
                loaded.table_name.as_str(),
                namespace,
                err.as_str(),
            );
            if skip_errors {
                PartitionRead::Skipped(msg)
            } else {
                PartitionRead::Broken(msg)
            }
        },
    }
}

/// Reads the rows of a partition which was found on disk.
pub fn read_partition(loaded: &LoadedPartition, namespace: &str, skip_errors: bool) -> (r:
    PartitionRead)
    ensures
        is_read_as(r, blob_rows(loaded.payload@), *loaded, namespace@, skip_errors),
{
    let reading = deserialize(loaded.payload.as_slice());
    judge_partition(reading, loaded, namespace, skip_errors)
}

/// An entity as it was parsed.
pub struct ParsedRow<E> {
    pub entity: E,
    pub time_stamp: Option<i64>,
}

/// A stored row and what parsing it gave.
pub struct RowToRestore<E> {
    pub schema_id: u64,
    pub parsed: Result<ParsedRow<E>, String>,
}

/// A row which goes back into its table.
pub struct RestoredRow<E> {
    pub entity: E,
    pub schema_id: u64,
    pub time_stamp: DateTimeAsMicroseconds,
}

/// What goes back into the table of a row. A stored row is in emit form, so it
/// always carries its time stamp; one that somehow does not gets the present
/// moment, which keeps the row rather than losing it.
pub open spec fn restored_row<E>(row: RowToRestore<E>, now: DateTimeAsMicroseconds) -> RestoredRow<
    E,
> {
    RestoredRow {
        entity: row.parsed->Ok_0.entity,
        schema_id: row.schema_id,
        time_stamp: match row.parsed->Ok_0.time_stamp {
            Some(time_stamp) => DateTimeAsMicroseconds { unix_microseconds: time_stamp },
            None => now,
        },
    }
}

/// What goes back into the table: every row which was parsed, in their order.
pub open spec fn rows_back<E>(rows: Seq<RowToRestore<E>>, now: DateTimeAsMicroseconds) -> Seq<
    RestoredRow<E>,
>
    decreases rows.len(),
{
    if rows.len() == 0 {
        Seq::empty()
    } else if rows.last().parsed is Ok {
        rows_back(rows.drop_last(), now).push(restored_row(rows.last(), now))
    } else {
        rows_back(rows.drop_last(), now)
    }
}

/// Why the other rows were not parsed, in their order.
pub open spec fn reasons<E>(rows: Seq<RowToRestore<E>>) -> Seq<Seq<char>>
    decreases rows.len(),
{
    if rows.len() == 0 {
        Seq::empty()
    } else if rows.last().parsed is Ok {
        reasons(rows.drop_last())
    } else {
        reasons(rows.drop_last()).push(rows.last().parsed->Err_0@)
    }
}

/// The rows of a partition which were parsed, in their order.
pub open spec fn parsed_rows<E>(rows: Seq<RowToRestore<E>>) -> Seq<RowToRestore<E>> {
    rows.filter(|row: RowToRestore<E>| row.parsed is Ok)
}

/// The rows of a partition which were not parsed, in their order.
pub open spec fn unparsed_rows<E>(rows: Seq<RowToRestore<E>>) -> Seq<RowToRestore<E>> {
    rows.filter(|row: RowToRestore<E>| row.parsed is Err)
}

/// Every row which was parsed goes back as it was stored, and in its place: with its
/// entity, the schema it was written through and the time stamp it carries, whatever the
/// moment is. Only a row without a time stamp gets the moment of the start. Of every other
/// row there is the reason why it was not parsed.
pub proof fn rows_go_back_as_they_were_stored<E>(
    rows: Seq<RowToRestore<E>>,
    now: DateTimeAsMicroseconds,
)
    ensures
        rows_back(rows, now).len() == parsed_rows(rows).len(),
        forall|j: int|
            #![trigger rows_back(rows, now)[j]]
            0 <= j < parsed_rows(rows).len() ==> {
                let row = parsed_rows(rows)[j];
                let back = rows_back(rows, now)[j];
                &&& back.entity == row.parsed->Ok_0.entity
                &&& back.schema_id == row.schema_id
                &&& row.parsed->Ok_0.time_stamp matches Some(t)
                    ==> back.time_stamp.unix_microseconds == t
                &&& row.parsed->Ok_0.time_stamp is None ==> back.time_stamp == now
            },
        reasons(rows).len() == unparsed_rows(rows).len(),
        forall|j: int|
            #![trigger reasons(rows)[j]]
            0 <= j < unparsed_rows(rows).len() ==> reasons(rows)[j]
                == unparsed_rows(rows)[j].parsed->Err_0@,
        reasons(rows).len() + rows_back(rows, now).len() == rows.len(),
    decreases rows.len(),
{
    reveal(Seq::filter);
    if rows.len() > 0 {
        rows_go_back_as_they_were_stored(rows.drop_last(), now);
        let ok = |row: RowToRestore<E>| row.parsed is Ok;
        let bad = |row: RowToRestore<E>| row.parsed is Err;
        assert(parsed_rows(rows) == if ok(rows.last()) {
            parsed_rows(rows.drop_last()).push(rows.last())
        } else {
            parsed_rows(rows.drop_last())
        });
        assert(unparsed_rows(rows) == if bad(rows.last()) {
            unparsed_rows(rows.drop_last()).push(rows.last())
        } else {
            unparsed_rows(rows.drop_last())
        });
        let before = rows_back(rows.drop_last(), now);
        assert forall|j: int| 0 <= j < parsed_rows(rows).len() implies {
            let row = parsed_rows(rows)[j];
            let back = #[trigger] rows_back(rows, now)[j];
            &&& back.entity == row.parsed->Ok_0.entity
            &&& back.schema_id == row.schema_id
            &&& row.parsed->Ok_0.time_stamp matches Some(t)
                ==> back.time_stamp.unix_microseconds == t
            &&& row.parsed->Ok_0.time_stamp is None ==> back.time_stamp == now
        } by {
            if j < before.len() {
                assert(rows_back(rows, now)[j] == before[j]);
            }
        }
        let reasons_before = reasons(rows.drop_last());
        assert forall|j: int| 0 <= j < unparsed_rows(rows).len() implies #[trigger] reasons(
            rows,
        )[j] == unparsed_rows(rows)[j].parsed->Err_0@ by {
            if j < reasons_before.len() {
                assert(reasons(rows)[j] == reasons_before[j]);
            }
        }
    }
}

/// When the server starts does not show in what it loads: rows which carry their time
/// stamps go back the same at any two moments.
pub proof fn the_moment_of_a_start_does_not_show<E>(
    rows: Seq<RowToRestore<E>>,
    now: DateTimeAsMicroseconds,
    later: DateTimeAsMicroseconds,
)
    requires
        forall|i: int|
            0 <= i < rows.len() ==> ((#[trigger] rows[i]).parsed matches Ok(parsed)
                ==> parsed.time_stamp is Some),
    ensures
        rows_back(rows, now) == rows_back(rows, later),
    decreases rows.len(),
{
    if rows.len() > 0 {
        assert forall|i: int| 0 <= i < rows.drop_last().len() implies ((
        #[trigger] rows.drop_last()[i]).parsed matches Ok(parsed) ==> parsed.time_stamp is Some) by {
            assert(rows[i].parsed matches Ok(parsed) ==> parsed.time_stamp is Some);
        }
        assert(rows[rows.len() - 1] == rows.last());
        the_moment_of_a_start_does_not_show(rows.drop_last(), now, later);
    }
}

proof fn lemma_reasons_go_on<E>(rows: Seq<RowToRestore<E>>, n: int)
    requires
        0 <= n <= rows.len(),
    ensures
        reasons(rows.take(n)).len() <= reasons(rows).len(),
        forall|i: int|
            0 <= i < reasons(rows.take(n)).len() ==> reasons(rows.take(n))[i] == #[trigger] reasons(
                rows,
            )[i],
    decreases rows.len() - n,
{
    if n == rows.len() {
        assert(rows.take(n) =~= rows);
    } else {
        lemma_reasons_go_on(rows, n + 1);
        assert(rows.take(n + 1).drop_last() =~= rows.take(n));
        assert forall|i: int| 0 <= i < reasons(rows.take(n)).len() implies reasons(rows.take(n))[i]
            == #[trigger] reasons(rows)[i] by {
            assert(reasons(rows.take(n + 1))[i] == reasons(rows)[i]);
        }
    }
}

/// The rows which go back into their table, and what is said of those which do
/// not. Where broken data is not skipped, the first row which can not be parsed
/// stops the start, and what is said of it is returned instead.
pub fn restore_rows<E>(
    rows: Vec<RowToRestore<E>>,
    partition_key: &str,
    table_name: &str,
    namespace: &str,
    skip_errors: bool,
    now: DateTimeAsMicroseconds,
) -> (r: Result<(Vec<RestoredRow<E>>, Vec<String>), String>)
    ensures
        r is Err <==> !skip_errors && reasons(rows@).len() > 0,
        match r {
            Ok((back, skipped)) => {
                &&& back@ == rows_back(rows@, now)
                &&& back@.len() == parsed_rows(rows@).len()
                &&& forall|j: int|
                    #![trigger back@[j]]
                    0 <= j < back@.len() ==> {
                        let row = parsed_rows(rows@)[j];
                        &&& back@[j].entity == row.parsed->Ok_0.entity
                        &&& back@[j].schema_id == row.schema_id
                        &&& row.parsed->Ok_0.time_stamp matches Some(t)
                            ==> back@[j].time_stamp.unix_microseconds == t
                        &&& row.parsed->Ok_0.time_stamp is None ==> back@[j].time_stamp == now
                    }
                &&& skipped@.len() == reasons(rows@).len()
                &&& forall|i: int|
                    0 <= i < skipped@.len() ==> (#[trigger] skipped@[i])@ == unreadable_row(
                        partition_key@,
                        table_name@,
                        namespace@,
                        reasons(rows@)[i],
                    )
            },
            Err(msg) => msg@ == unreadable_row(
                partition_key@,
                table_name@,
                namespace@,
                reasons(rows@)[0],
            ),
        },
{
    let ghost given = rows@;
    let total: usize = rows.len();
    let mut back: Vec<RestoredRow<E>> = Vec::new();
    let mut skipped: Vec<String> = Vec::new();
    let mut i: usize = 0;
    assert(given.take(0) =~= Seq::<RowToRestore<E>>::empty());
    for row in it: rows
        invariant
            it.seq() == given,
            it.index() == i,
            i <= total,
            total == given.len(),
            back@ == rows_back(given.take(i as int), now),
            skipped@.len() == reasons(given.take(i as int)).len(),
            !skip_errors ==> skipped@.len() == 0,
            forall|k: int|
                0 <= k < skipped@.len() ==> (#[trigger] skipped@[k])@ == unreadable_row(
                    partition_key@,
                    table_name@,
                    namespace@,
                    reasons(given.take(i as int))[k],
                ),
    {
        proof {
            assert(given.take(i + 1).drop_last() =~= given.take(i as int));
            assert(given.take(i + 1).last() == row);
        }
        match row.parsed {
            Ok(parsed) => {
                let time_stamp = match parsed.time_stamp {
                    Some(time_stamp) => DateTimeAsMicroseconds::new(time_stamp),
                    None => now,
                };
                back.push(
                    RestoredRow { entity: parsed.entity, schema_id: row.schema_id, time_stamp },
                );
            },
            Err(err) => {
                let msg = message(
                    "Can not parse a row of ",
                    partition_key,
                    table_name,
                    namespace,
                    err.as_str(),
                );
                if !skip_errors {
                    proof {
                        lemma_reasons_go_on(given, i + 1);
                        assert(reasons(given.take(i + 1))[0] == err@);
                        assert(reasons(given)[0] == err@);
                    }
                    return Err(msg);
                }
                skipped.push(msg);
            },
        }
        i = i + 1;
    }
    proof {
        assert(given.take(given.len() as int) =~= given);
        rows_go_back_as_they_were_stored(given, now);
    }
    Ok((back, skipped))
}

/// A partition which goes back into its table.
pub struct PartitionLoad<E> {
    pub partition_key: String,
    pub rows: Vec<RestoredRow<E>>,
}

/// A table and what goes back into it, in the order it was found in.
pub struct TableLoad<E> {
    pub attributes: DbTableAttributes,
    pub partitions: Vec<PartitionLoad<E>>,
}

/// A namespace while it is loaded.
pub struct NamespaceLoad<E> {
    tables: HashedList<AHashMap<String, usize>, TableLoad<E>>,
    partitions_loaded: u64,
    rows_loaded: u64,
}

/// The attributes `tables.meta` gives to tables. Where it names a table twice,
/// the first time counts.
pub open spec fn first_attributes(tables: Seq<(String, DbTableAttributes)>) -> Map<
    Seq<char>,
    DbTableAttributes,
>
    decreases tables.len(),
{
    if tables.len() == 0 {
        Map::empty()
    } else {
        let before = first_attributes(tables.drop_last());
        if before.contains_key(tables.last().0@) {
            before
        } else {
            before.insert(tables.last().0@, tables.last().1)
        }
    }
}

/// Whether these are the attributes a table has when nothing is said about it.
pub open spec fn is_default(attributes: DbTableAttributes, now: DateTimeAsMicroseconds) -> bool {
    &&& attributes.persist
    &&& attributes.max_partitions_amount is None
    &&& attributes.max_rows_per_partition_amount is None
    &&& attributes.created == now
    &&& attributes.schemas@.len() == 0
}

impl<E> NamespaceLoad<E> {
    /// The tables, by their names.
    pub closed spec fn tables(&self) -> Map<Seq<char>, TableLoad<E>> {
        self.tables.map()
    }

    pub closed spec fn wf(&self) -> bool {
        self.tables.wf()
    }

    /// How many partitions went back.
    pub closed spec fn partitions_loaded(&self) -> nat {
        self.partitions_loaded as nat
    }

    /// How many rows went back.
    pub closed spec fn rows_loaded(&self) -> nat {
        self.rows_loaded as nat
    }

    /// A namespace with the tables of its `tables.meta`, and nothing in them.
    pub fn start(tables: Vec<(String, DbTableAttributes)>) -> (r: Self)
        ensures
            r.wf(),
            r.partitions_loaded() == 0,
            r.rows_loaded() == 0,
            r.tables().dom() == first_attributes(tables@).dom(),
            forall|name: Seq<char>| #[trigger]
                r.tables().contains_key(name) ==> r.tables()[name].attributes == first_attributes(
                    tables@,
                )[name] && r.tables()[name].partitions@.len() == 0,
    {
        let ghost given = tables@;
        let total: usize = tables.len();
        let mut list: HashedList<AHashMap<String, usize>, TableLoad<E>> = HashedList::new();
        let mut i: usize = 0;
        assert(given.take(0) =~= Seq::<(String, DbTableAttributes)>::empty());
        assert(list.map().dom() =~= first_attributes(given.take(0)).dom());
        for table in it: tables
            invariant
                it.seq() == given,
                it.index() == i,
                i <= total,
                total == given.len(),
                list.wf(),
                list.map().dom() == first_attributes(given.take(i as int)).dom(),
                forall|name: Seq<char>| #[trigger]
                    list.map().contains_key(name) ==> list.map()[name].attributes
                        == first_attributes(given.take(i as int))[name]
                        && list.map()[name].partitions@.len() == 0,
        {
            proof {
                assert(given.take(i + 1).drop_last() =~= given.take(i as int));
                assert(given.take(i + 1).last() == table);
                assert(list.map().contains_key(table.0@) <==> list.map().dom().contains(table.0@));
                assert(first_attributes(given.take(i as int)).contains_key(table.0@)
                    <==> first_attributes(given.take(i as int)).dom().contains(table.0@));
            }
            if list.find(&table.0).is_none() {
                list.insert(
                    table.0,
                    TableLoad { attributes: table.1, partitions: Vec::new() },
                );
            }
            assert(list.map().dom() =~= first_attributes(given.take(i + 1)).dom());
            i = i + 1;
        }
        assert(given.take(given.len() as int) =~= given);
        NamespaceLoad { tables: list, partitions_loaded: 0, rows_loaded: 0 }
    }

    /// Puts a partition back. Its table may be missing from `tables.meta` - the
    /// partition is still data, so it goes into a table with default attributes
    /// rather than being dropped. Returns whether that was so.
    pub fn restore_partition(
        &mut self,
        table_name: String,
        partition_key: String,
        rows: Vec<RestoredRow<E>>,
        now: DateTimeAsMicroseconds,
    ) -> (r: bool)
        requires
            old(self).wf(),
            old(self).partitions_loaded() < u64::MAX,
            old(self).rows_loaded() + rows@.len() <= u64::MAX,
        ensures
            final(self).wf(),
            r == !old(self).tables().contains_key(table_name@),
            final(self).partitions_loaded() == old(self).partitions_loaded() + 1,
            final(self).rows_loaded() == old(self).rows_loaded() + rows@.len(),
            final(self).tables().contains_key(table_name@),
            final(self).tables() == old(self).tables().insert(
                table_name@,
                final(self).tables()[table_name@],
            ),
            ({
                let table = final(self).tables()[table_name@];
                let back = PartitionLoad { partition_key, rows };
                if r {
                    is_default(table.attributes, now) && table.partitions@ == seq![back]
                } else {
                    let before = old(self).tables()[table_name@];
                    table.attributes == before.attributes && table.partitions@
                        == before.partitions@.push(back)
                }
            }),
    {
        let amount: u64 = rows.len() as u64;
        let back = PartitionLoad { partition_key, rows };
        let is_new = match self.tables.get_mut(&table_name) {
            Some(table) => {
                table.partitions.push(back);
                false
            },
            None => {
                let mut partitions: Vec<PartitionLoad<E>> = Vec::new();
                partitions.push(back);
                assert(partitions@ =~= seq![back]);
                let attributes = DbTableAttributes::create_default(now);
                self.tables.insert(table_name, TableLoad { attributes, partitions });
                true
            },
        };
        self.partitions_loaded = self.partitions_loaded + 1;
        self.rows_loaded = self.rows_loaded + amount;
        is_new
    }

    pub fn get_partitions_loaded(&self) -> (r: u64)
        ensures
            r == self.partitions_loaded(),
    {
        self.partitions_loaded
    }

    pub fn get_rows_loaded(&self) -> (r: u64)
        ensures
            r == self.rows_loaded(),
    {
        self.rows_loaded
    }

    /// A table of the namespace.
    pub fn get_table(&self, table_name: &str) -> (r: Option<&TableLoad<E>>)
        requires
            self.wf(),
        ensures
            r is Some <==> self.tables().contains_key(table_name@),
            r matches Some(table) ==> *table == self.tables()[table_name@],
    {
        self.tables.get(&table_name.to_owned())
    }

    /// The tables with what goes back into them.
    pub fn into_tables(self) -> (r: Vec<(String, TableLoad<E>)>)
        requires
            self.wf(),
        ensures
            forall|name: Seq<char>| #[trigger]
                self.tables().contains_key(name) ==> exists|i: int|
                    0 <= i < r@.len() && (#[trigger] r@[i]).0@ == name,
            forall|i: int|
                0 <= i < r@.len() ==> self.tables().contains_key((#[trigger] r@[i]).0@)
                    && self.tables()[r@[i].0@] == r@[i].1,
            forall|i: int, j: int|
                #![trigger r@[i], r@[j]]
                0 <= i < j < r@.len() ==> r@[i].0@ != r@[j].0@,
    {
        proof {
            self.tables.keys_differ();
            assert forall|i: int| 0 <= i < self.tables.entries().len() implies self.tables().contains_key(
                (#[trigger] self.tables.entries()[i]).0@,
            ) && self.tables()[self.tables.entries()[i].0@] == self.tables.entries()[i].1 by {
                self.tables.entry_is_in_map(i);
            }
            assert forall|i: int, j: int|
                #![trigger self.tables.entries()[i], self.tables.entries()[j]]
                0 <= i < j < self.tables.entries().len() implies self.tables.entries()[i].0@
                != self.tables.entries()[j].0@ by {
                assert(self.tables.name_at(i) != self.tables.name_at(j));
            }
            assert forall|name: Seq<char>| #[trigger] self.tables().contains_key(name) implies exists|
                i: int,
            | 0 <= i < self.tables.entries().len() && (#[trigger] self.tables.entries()[i]).0@ == name by {
                let i = self.tables.place_of(name);
                assert(self.tables.has(name));
                assert(self.tables.name_at(i) == name);
                assert(self.tables.entries()[i].0@ == name);
            }
        }
        self.tables.into_entries()
    }
}

/// A table gets the attributes `tables.meta` gives to it first.
pub proof fn the_first_attributes_count(tables: Seq<(String, DbTableAttributes)>, i: int)
    requires
        0 <= i < tables.len(),
        forall|j: int| 0 <= j < i ==> (#[trigger] tables[j]).0@ != tables[i].0@,
    ensures
        first_attributes(tables).contains_key(tables[i].0@),
        first_attributes(tables)[tables[i].0@] == tables[i].1,
    decreases tables.len(),
{
    let fewer = tables.drop_last();
    if i < fewer.len() {
        assert forall|j: int| 0 <= j < i implies (#[trigger] fewer[j]).0@ != fewer[i].0@ by {
            assert(tables[j].0@ != tables[i].0@);
        }
        the_first_attributes_count(fewer, i);
    } else {
        assert forall|j: int| 0 <= j < fewer.len() implies (#[trigger] fewer[j]).0@
            != tables[i].0@ by {
            assert(tables[j].0@ != tables[i].0@);
        }
        no_table_comes_from_nowhere(fewer, tables[i].0@);
    }
}

/// No table is there which `tables.meta` does not name.
pub proof fn no_table_comes_from_nowhere(
    tables: Seq<(String, DbTableAttributes)>,
    name: Seq<char>,
)
    requires
        forall|j: int| 0 <= j < tables.len() ==> (#[trigger] tables[j]).0@ != name,
    ensures
        !first_attributes(tables).contains_key(name),
    decreases tables.len(),
{
    if tables.len() > 0 {
        let fewer = tables.drop_last();
        assert forall|j: int| 0 <= j < fewer.len() implies (#[trigger] fewer[j]).0@ != name by {
            assert(tables[j].0@ != name);
        }
        no_table_comes_from_nowhere(fewer, name);
        assert(tables[tables.len() - 1] == tables.last());
    }
}

/// What is read of a partition goes on to its table with every row of it; what is not stops
/// the start, unless broken data is skipped, and it is said which partition it is, of which
/// table and namespace, and why.
pub proof fn no_partition_is_dropped_in_silence(
    r: PartitionRead,
    reading: Result<Seq<StoredRow>, Seq<char>>,
    loaded: LoadedPartition,
    name_space: Seq<char>,
    skip_errors: bool,
)
    requires
        is_read_as(r, reading, loaded, name_space, skip_errors),
    ensures
        r is Rows <==> reading is Ok,
        r is Broken <==> reading is Err && !skip_errors,
        r is Skipped <==> reading is Err && skip_errors,
        r matches PartitionRead::Rows(rows) ==> rows@.len() == reading->Ok_0.len() && forall|i: int|
            0 <= i < rows@.len() ==> (#[trigger] rows@[i]).schema_id == reading->Ok_0[i].schema_id
                && rows@[i].row@ == reading->Ok_0[i].row,
        reading matches Err(reason) ==> {
            let said = match r {
                PartitionRead::Skipped(said) => said@,
                PartitionRead::Broken(said) => said@,
                PartitionRead::Rows(_) => Seq::empty(),
            };
            &&& mentions(said, "'"@ + loaded.partition_key@ + "'"@)
            &&& mentions(said, "'"@ + loaded.table_name@ + "'"@)
            &&& mentions(said, "'"@ + name_space + "'"@)
            &&& mentions(said, reason)
        },
{
    if let PartitionRead::Rows(rows) = r {
        assert forall|i: int| 0 <= i < rows@.len() implies (#[trigger] rows@[i]).schema_id
            == reading->Ok_0[i].schema_id && rows@[i].row@ == reading->Ok_0[i].row by {
            assert(restored_rows(rows@)[i] == rows@[i]@);
        }
    }
    if let Err(reason) = reading {
        reveal_strlit("'");
        reveal_strlit("Can not read ");
        reveal_strlit("partition '");
        reveal_strlit("' of table '");
        reveal_strlit("' in namespace '");
        reveal_strlit("': ");
        reveal_strlit("partition ");
        reveal_strlit(" of table ");
        reveal_strlit(" in namespace ");
        reveal_strlit(": ");
        let key = "'"@ + loaded.partition_key@ + "'"@;
        let table = "'"@ + loaded.table_name@ + "'"@;
        let space = "'"@ + name_space + "'"@;
        let said = unreadable_partition(
            loaded.partition_key@,
            loaded.table_name@,
            name_space,
            reason,
        );
        let front = "Can not read "@ + "partition "@;
        assert(said =~= front + key + (" of table "@ + table + " in namespace "@ + space + ": "@
            + reason));
        assert(said =~= (front + key + " of table "@) + table + (" in namespace "@ + space + ": "@
            + reason));
        assert(said =~= (front + key + " of table "@ + table + " in namespace "@) + space + (": "@
            + reason));
        assert(said =~= (front + key + " of table "@ + table + " in namespace "@ + space + ": "@)
            + reason + Seq::<char>::empty());
    }
}

/// What is said of a row which can not be parsed names its partition, table and namespace,
/// and says why.
pub proof fn a_skipped_row_is_named(
    partition_key: Seq<char>,
    table_name: Seq<char>,
    name_space: Seq<char>,
    reason: Seq<char>,
)
    ensures
        ({
            let said = unreadable_row(partition_key, table_name, name_space, reason);
            &&& mentions(said, "'"@ + partition_key + "'"@)
            &&& mentions(said, "'"@ + table_name + "'"@)
            &&& mentions(said, "'"@ + name_space + "'"@)
            &&& mentions(said, reason)
        }),
{
    reveal_strlit("'");
    reveal_strlit("partition '");
    reveal_strlit("' of table '");
    reveal_strlit("' in namespace '");
    reveal_strlit("': ");
    reveal_strlit("partition ");
    reveal_strlit(" of table ");
    reveal_strlit(" in namespace ");
    reveal_strlit(": ");
    let key = "'"@ + partition_key + "'"@;
    let table = "'"@ + table_name + "'"@;
    let space = "'"@ + name_space + "'"@;
    let said = unreadable_row(partition_key, table_name, name_space, reason);
    let front = "Can not parse a row of "@ + "partition "@;
    assert(said =~= front + key + (" of table "@ + table + " in namespace "@ + space + ": "@
        + reason));
    assert(said =~= (front + key + " of table "@) + table + (" in namespace "@ + space + ": "@
        + reason));
    assert(said =~= (front + key + " of table "@ + table + " in namespace "@) + space + (": "@
        + reason));
    assert(said =~= (front + key + " of table "@ + table + " in namespace "@ + space + ": "@)
        + reason + Seq::<char>::empty());
}

}
