//! What `tables.meta` says of one table.

use super::base64url::{bytes_survive_encoding, decode_bytes, decoded, encode_bytes, encoded};
use crate::db::{
    lemma_same_schemas, lemma_schema_at, put_schema, schema_map, schemas_in_order,
    DateTimeAsMicroseconds, DbTableAttributes, EntitySchema,
};
use vstd::prelude::*;

verus! {

/// One entry of `tables.meta`. An `Option` which is empty is not written, and
/// what is not written reads back as empty.
#[derive(Debug)]
pub struct TableMetadataFileContract {
    pub persist: bool,
    pub max_partitions_amount: Option<usize>,
    pub max_rows_per_partition_amount: Option<usize>,
    pub created: Option<String>,
    /// The schemas the table's rows were written under.
    ///
    /// They live in this file and not in one of their own because a file about
    /// exactly this table already exists, and because the queue hands the
    /// metadata of a table out before any of its partitions: the shape and the
    /// data are restored by one act, so a row whose schema is not on disk is not
    /// a state this server can reach.
    pub schemas: Vec<TableSchemaFileContract>,
}

/// One schema of one table. The bytes are base64url rather than a YAML list of
/// numbers: this file is opened by operators.
#[derive(Debug)]
pub struct TableSchemaFileContract {
    pub id: u64,
    pub schema: String,
}

/// What a file which does not say whether the table persists means.
pub fn default_persist() -> (r: bool)
    ensures
        r,
{
    true
}

/// A limit of a table as the file has it, where a stored 0 means "no limit".
pub open spec fn optional_limit(src: Option<usize>) -> Option<usize> {
    match src {
        Some(value) => if value == 0 {
            None
        } else {
            Some(value)
        },
        None => None,
    }
}

/// A stored 0 means "no limit" - that is what the write side turns an absent
/// limit into, and a table capped at zero partitions would delete itself on the
/// first GC pass.
pub fn to_optional_limit(src: Option<usize>) -> (r: Option<usize>)
    ensures
        r == optional_limit(src),
{
    match src {
        Some(value) => if value == 0 {
            None
        } else {
            Some(value)
        },
        None => None,
    }
}

/// The schemas a file names, by their ids. One which does not decode is not
/// there; of two with the same id the later one is.
pub open spec fn named_schemas(schemas: Seq<TableSchemaFileContract>) -> Map<u64, Seq<u8>>
    decreases schemas.len(),
{
    if schemas.len() == 0 {
        Map::empty()
    } else {
        let before = named_schemas(schemas.drop_last());
        match decoded(schemas.last().schema@) {
            Some(bytes) => before.insert(schemas.last().id, bytes),
            None => before,
        }
    }
}

/// Whether the file names these schemas, in their order.
pub open spec fn names_schemas(
    written: Seq<TableSchemaFileContract>,
    schemas: Seq<EntitySchema>,
) -> bool {
    &&& written.len() == schemas.len()
    &&& forall|i: int|
        0 <= i < schemas.len() ==> (#[trigger] written[i]).id == schemas[i].id
            && written[i].schema@ == encoded(schemas[i].schema@)
}

impl TableMetadataFileContract {
    /// What the file says of a table with these attributes. The schemas are
    /// written in the order of their ids, so that a table whose schemas did not
    /// change writes the same file twice rather than two spellings of it. The
    /// moment the table was created comes as the text it is written as.
    pub fn from_attributes(src: &DbTableAttributes, created: String) -> (r: Self)
        ensures
            r.persist == src.persist,
            r.max_partitions_amount == src.max_partitions_amount,
            r.max_rows_per_partition_amount == src.max_rows_per_partition_amount,
            r.created == Some(created),
            names_schemas(r.schemas@, src.schemas@),
    {
        let mut schemas: Vec<TableSchemaFileContract> = Vec::new();
        for i in 0..src.schemas.len()
            invariant
                schemas@.len() == i,
                forall|j: int|
                    0 <= j < i ==> (#[trigger] schemas@[j]).id == src.schemas@[j].id
                        && schemas@[j].schema@ == encoded(src.schemas@[j].schema@),
        {
            let schema = &src.schemas[i];
            schemas.push(
                TableSchemaFileContract {
                    id: schema.id,
                    schema: encode_bytes(schema.schema.as_slice()),
                },
            );
        }
        TableMetadataFileContract {
            persist: src.persist,
            max_partitions_amount: src.max_partitions_amount,
            max_rows_per_partition_amount: src.max_rows_per_partition_amount,
            created: Some(created),
            schemas,
        }
    }

    /// Whether another entry says the same.
    pub open spec fn same_as(&self, other: &Self) -> bool {
        &&& self.persist == other.persist
        &&& self.max_partitions_amount == other.max_partitions_amount
        &&& self.max_rows_per_partition_amount == other.max_rows_per_partition_amount
        &&& self.created is Some <==> other.created is Some
        &&& self.created is Some ==> self.created->0@ == other.created->0@
        &&& self.schemas@.len() == other.schemas@.len()
        &&& forall|i: int|
            0 <= i < self.schemas@.len() ==> (#[trigger] self.schemas@[i]).id
                == other.schemas@[i].id && self.schemas@[i].schema@ == other.schemas@[i].schema@
    }

    /// Another entry which says the same.
    pub fn copy(&self) -> (r: Self)
        ensures
            r.same_as(self),
    {
        let created = match &self.created {
            Some(created) => Some(created.clone()),
            None => None,
        };
        let mut schemas: Vec<TableSchemaFileContract> = Vec::new();
        for i in 0..self.schemas.len()
            invariant
                schemas@.len() == i,
                forall|j: int|
                    0 <= j < i ==> (#[trigger] schemas@[j]).id == self.schemas@[j].id
                        && schemas@[j].schema@ == self.schemas@[j].schema@,
        {
            let schema = &self.schemas[i];
            schemas.push(
                TableSchemaFileContract { id: schema.id, schema: schema.schema.clone() },
            );
        }
        TableMetadataFileContract {
            persist: self.persist,
            max_partitions_amount: self.max_partitions_amount,
            max_rows_per_partition_amount: self.max_rows_per_partition_amount,
            created,
            schemas,
        }
    }
}

impl DbTableAttributes {
    /// A schema is there once, in the order of the ids.
    pub open spec fn wf(&self) -> bool {
        schemas_in_order(self.schemas@)
    }

    /// The attributes a table has when nothing is said about it.
    pub fn create_default(now: DateTimeAsMicroseconds) -> (r: Self)
        ensures
            r.wf(),
            r.persist,
            r.max_partitions_amount is None,
            r.max_rows_per_partition_amount is None,
            r.created == now,
            r.schemas@.len() == 0,
    {
        DbTableAttributes {
            persist: true,
            max_partitions_amount: None,
            max_rows_per_partition_amount: None,
            created: now,
            schemas: Vec::new(),
        }
    }

    /// The attributes of a table out of what the file says. What the text of the
    /// creation moment reads as is given; where there is none, the table is as
    /// old as now.
    ///
    /// A schema which does not decode is dropped rather than fatal: what it costs
    /// is the ability to show the rows written under it, and losing the table
    /// because one line of its metadata is unreadable costs the rows themselves.
    pub fn from_contract(
        src: &TableMetadataFileContract,
        created: Option<DateTimeAsMicroseconds>,
        now: DateTimeAsMicroseconds,
    ) -> (r: Self)
        ensures
            r.wf(),
            r.persist == src.persist,
            r.max_partitions_amount == optional_limit(src.max_partitions_amount),
            r.max_rows_per_partition_amount == optional_limit(src.max_rows_per_partition_amount),
            r.created == (if created is Some {
                created->0
            } else {
                now
            }),
            schema_map(r.schemas@) == named_schemas(src.schemas@),
    {
        let mut schemas: Vec<EntitySchema> = Vec::new();
        assert(schema_map(schemas@) =~= Map::<u64, Seq<u8>>::empty());
        assert(src.schemas@.take(0) =~= Seq::<TableSchemaFileContract>::empty());
        for i in 0..src.schemas.len()
            invariant
                schemas_in_order(schemas@),
                schema_map(schemas@) == named_schemas(src.schemas@.take(i as int)),
        {
            assert(src.schemas@.take(i + 1).drop_last() =~= src.schemas@.take(i as int));
            let schema = &src.schemas[i];
            if let Ok(bytes) = decode_bytes(schema.schema.as_str()) {
                put_schema(&mut schemas, EntitySchema { id: schema.id, schema: bytes });
            }
        }
        assert(src.schemas@.take(src.schemas@.len() as int) =~= src.schemas@);
        DbTableAttributes {
            persist: src.persist,
            max_partitions_amount: to_optional_limit(src.max_partitions_amount),
            max_rows_per_partition_amount: to_optional_limit(src.max_rows_per_partition_amount),
            created: match created {
                Some(created) => created,
                None => now,
            },
            schemas,
        }
    }
}

proof fn lemma_named_back(
    written: Seq<TableSchemaFileContract>,
    schemas: Seq<EntitySchema>,
    n: int,
)
    requires
        schemas_in_order(schemas),
        names_schemas(written, schemas),
        0 <= n <= schemas.len(),
    ensures
        named_schemas(written.take(n)) == schema_map(schemas.take(n)),
        schemas_in_order(schemas.take(n)),
    decreases n,
{
    assert forall|i: int, j: int|
        #![trigger schemas.take(n)[i], schemas.take(n)[j]]
        0 <= i < j < n implies schemas.take(n)[i].id < schemas.take(n)[j].id by {
        assert(schemas[i].id < schemas[j].id);
    }
    if n == 0 {
        assert(schema_map(schemas.take(0)) =~= Map::<u64, Seq<u8>>::empty());
    } else {
        lemma_named_back(written, schemas, n - 1);
        assert(written.take(n).drop_last() =~= written.take(n - 1));
        let fewer = schemas.take(n - 1);
        let more = schemas.take(n);
        let last = schemas[n - 1];
        assert(written[n - 1].id == last.id);
        bytes_survive_encoding(last.schema@);
        let want = schema_map(fewer).insert(last.id, last.schema@);
        assert forall|id: u64| schema_map(more).contains_key(id) == #[trigger] want.contains_key(
            id,
        ) by {
            if crate::db::has_schema(more, id) && id != last.id {
                let i = crate::db::schema_place(more, id);
                assert(fewer[i].id == id);
            }
            if crate::db::has_schema(fewer, id) {
                let i = crate::db::schema_place(fewer, id);
                assert(more[i].id == id);
            }
            assert(more[n - 1].id == last.id);
        }
        assert forall|id: u64| #[trigger] schema_map(more).contains_key(id) implies schema_map(
            more,
        )[id] == want[id] by {
            let i = crate::db::schema_place(more, id);
            lemma_schema_at(more, i);
            if i < n - 1 {
                lemma_schema_at(fewer, i);
                assert(schemas[i].id < schemas[n - 1].id);
            }
        }
        assert(schema_map(more) =~= want);
    }
}

/// The schemas of a table come back out of the file as they were written into it.
pub proof fn the_schemas_survive_the_file(
    schemas: Seq<EntitySchema>,
    written: Seq<TableSchemaFileContract>,
    restored: Seq<EntitySchema>,
)
    requires
        schemas_in_order(schemas),
        names_schemas(written, schemas),
        schemas_in_order(restored),
        schema_map(restored) == named_schemas(written),
    ensures
        restored.len() == schemas.len(),
        forall|i: int|
            0 <= i < schemas.len() ==> (#[trigger] restored[i]).id == schemas[i].id
                && restored[i].schema@ == schemas[i].schema@,
{
    assert(written.take(written.len() as int) =~= written);
    assert(schemas.take(schemas.len() as int) =~= schemas);
    lemma_named_back(written, schemas, schemas.len() as int);
    lemma_same_schemas(restored, schemas);
}

/// A limit of a table survives the file, and one of zero is none: a table capped at zero
/// would delete itself.
pub proof fn a_limit_survives_the_file(limit: Option<usize>)
    ensures
        limit matches Some(n) ==> (n > 0 ==> optional_limit(limit) == Some(n)),
        optional_limit(Some(0usize)) is None,
        optional_limit(None) is None,
{
}

/// Whether a file has the schema with the id in a form which decodes into these bytes.
pub open spec fn is_entry_for(entry: TableSchemaFileContract, id: u64, bytes: Seq<u8>) -> bool {
    entry.id == id && decoded(entry.schema@) == Some(bytes)
}

/// A schema of a file is what its last readable entry says, and one which does not decode
/// costs none of the others.
pub proof fn a_broken_schema_costs_no_other(
    schemas: Seq<TableSchemaFileContract>,
    i: int,
    id: u64,
    bytes: Seq<u8>,
)
    requires
        0 <= i < schemas.len(),
        is_entry_for(schemas[i], id, bytes),
        forall|j: int|
            i < j < schemas.len() ==> (#[trigger] schemas[j]).id != id || decoded(
                schemas[j].schema@,
            ) is None,
    ensures
        named_schemas(schemas).contains_key(id),
        named_schemas(schemas)[id] == bytes,
    decreases schemas.len(),
{
    if i < schemas.len() - 1 {
        let fewer = schemas.drop_last();
        assert forall|j: int| i < j < fewer.len() implies (#[trigger] fewer[j]).id != id || decoded(
            fewer[j].schema@,
        ) is None by {
            assert(schemas[j].id != id || decoded(schemas[j].schema@) is None);
        }
        a_broken_schema_costs_no_other(fewer, i, id, bytes);
        assert(schemas[schemas.len() - 1] == schemas.last());
    }
}

/// A schema no readable entry of a file is about is not there.
pub proof fn no_schema_comes_from_nowhere(schemas: Seq<TableSchemaFileContract>, id: u64)
    requires
        forall|j: int|
            0 <= j < schemas.len() ==> (#[trigger] schemas[j]).id != id || decoded(
                schemas[j].schema@,
            ) is None,
    ensures
        !named_schemas(schemas).contains_key(id),
    decreases schemas.len(),
{
    if schemas.len() > 0 {
        let fewer = schemas.drop_last();
        assert forall|j: int| 0 <= j < fewer.len() implies (#[trigger] fewer[j]).id != id || decoded(
            fewer[j].schema@,
        ) is None by {
            assert(schemas[j].id != id || decoded(schemas[j].schema@) is None);
        }
        no_schema_comes_from_nowhere(fewer, id);
        assert(schemas[schemas.len() - 1] == schemas.last());
    }
}

/// Two entries which say the same say the same in everything.
pub proof fn entries_which_say_the_same(
    a: TableMetadataFileContract,
    b: TableMetadataFileContract,
)
    requires
        a.same_as(&b),
    ensures
        a.persist == b.persist,
        a.max_partitions_amount == b.max_partitions_amount,
        a.max_rows_per_partition_amount == b.max_rows_per_partition_amount,
        a.created is Some <==> b.created is Some,
        a.created matches Some(text) ==> b.created matches Some(same) && text@ == same@,
        a.schemas@.len() == b.schemas@.len(),
        named_schemas(a.schemas@) == named_schemas(b.schemas@),
{
    assert forall|i: int| 0 <= i < a.schemas@.len() implies (#[trigger] a.schemas@[i]).id
        == b.schemas@[i].id && a.schemas@[i].schema@ == b.schemas@[i].schema@ by {}
    lemma_same_entries(a.schemas@, b.schemas@);
}

proof fn lemma_same_entries(a: Seq<TableSchemaFileContract>, b: Seq<TableSchemaFileContract>)
    requires
        a.len() == b.len(),
        forall|i: int|
            0 <= i < a.len() ==> (#[trigger] a[i]).id == b[i].id && a[i].schema@ == b[i].schema@,
    ensures
        named_schemas(a) == named_schemas(b),
    decreases a.len(),
{
    if a.len() > 0 {
        let (x, y) = (a.drop_last(), b.drop_last());
        assert forall|i: int| 0 <= i < x.len() implies (#[trigger] x[i]).id == y[i].id
            && x[i].schema@ == y[i].schema@ by {
            assert(a[i].id == b[i].id);
        }
        lemma_same_entries(x, y);
        assert(a[a.len() - 1].id == b[b.len() - 1].id);
    }
}

}
