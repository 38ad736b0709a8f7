//! What tables are made of.

use vstd::prelude::*;

verus! {

/// A moment, in microseconds since the epoch.
#[derive(Clone, Copy, PartialEq, Eq, Structural)]
pub struct DateTimeAsMicroseconds {
    pub unix_microseconds: i64,
}

impl DateTimeAsMicroseconds {
    pub fn new(unix_microseconds: i64) -> (r: Self)
        ensures
            r.unix_microseconds == unix_microseconds,
    {
        DateTimeAsMicroseconds { unix_microseconds }
    }
}

/// One row of a table.
pub struct DbRow {
    pub partition_key: String,
    pub row_key: String,
    /// The schema the row was written under.
    pub schema_id: u64,
    /// How much of the size limits the row takes.
    pub content_size: usize,
    /// The entity in its emit form.
    pub content: Vec<u8>,
}

/// Keys of rows of one partition.
pub struct PartitionRowKeys {
    pub partition_key: String,
    pub row_keys: Vec<String>,
}

/// The shape rows of a table were written under.
pub struct EntitySchema {
    pub id: u64,
    pub schema: Vec<u8>,
}

/// What a table does with itself, and the schemas its rows were written under,
/// each once and in the order of their ids.
pub struct DbTableAttributes {
    pub persist: bool,
    pub max_partitions_amount: Option<usize>,
    pub max_rows_per_partition_amount: Option<usize>,
    pub created: DateTimeAsMicroseconds,
    pub schemas: Vec<EntitySchema>,
}

/// Whether each schema is there once, in the order of their ids.
pub open spec fn schemas_in_order(schemas: Seq<EntitySchema>) -> bool {
    forall|i: int, j: int|
        #![trigger schemas[i], schemas[j]]
        0 <= i < j < schemas.len() ==> schemas[i].id < schemas[j].id
}

/// Whether each schema is there once, in the order of their ids.
pub fn are_schemas_in_order(schemas: &Vec<EntitySchema>) -> (r: bool)
    ensures
        r == schemas_in_order(schemas@),
{
    for k in 0..schemas.len()
        invariant
            forall|i: int, j: int|
                #![trigger schemas@[i], schemas@[j]]
                0 <= i < j < k ==> schemas@[i].id < schemas@[j].id,
    {
        if k > 0 && schemas[k - 1].id >= schemas[k].id {
            assert(!(schemas@[k - 1].id < schemas@[k as int].id));
            return false;
        }
        assert forall|i: int, j: int|
            #![trigger schemas@[i], schemas@[j]]
            0 <= i < j < k + 1 implies schemas@[i].id < schemas@[j].id by {
            assert(k > 0 ==> schemas@[k - 1].id < schemas@[k as int].id);
        }
    }
    true
}

/// Whether a schema with the id is there.
pub open spec fn has_schema(schemas: Seq<EntitySchema>, id: u64) -> bool {
    exists|i: int| 0 <= i < schemas.len() && (#[trigger] schemas[i]).id == id
}

/// The schema a row was written through: the one which has the id.
pub fn find_schema(schemas: &Vec<EntitySchema>, id: u64) -> (r: Option<&EntitySchema>)
    ensures
        r is Some <==> has_schema(schemas@, id),
        r matches Some(schema) ==> schema.id == id && schemas@.contains(*schema),
{
    for i in 0..schemas.len()
        invariant
            forall|j: int| 0 <= j < i ==> (#[trigger] schemas@[j]).id != id,
    {
        if schemas[i].id == id {
            return Some(&schemas[i]);
        }
    }
    None
}

/// Where the schema with the id stands.
pub open spec fn schema_place(schemas: Seq<EntitySchema>, id: u64) -> int {
    choose|i: int| 0 <= i < schemas.len() && (#[trigger] schemas[i]).id == id
}

/// What the schemas say, by their ids.
pub open spec fn schema_map(schemas: Seq<EntitySchema>) -> Map<u64, Seq<u8>> {
    Map::new(
        |id: u64| has_schema(schemas, id),
        |id: u64| schemas[schema_place(schemas, id)].schema@,
    )
}

/// What stands at a place is what the schemas say of its id.
pub proof fn lemma_schema_at(schemas: Seq<EntitySchema>, i: int)
    requires
        schemas_in_order(schemas),
        0 <= i < schemas.len(),
    ensures
        schema_map(schemas).contains_key(schemas[i].id),
        schema_map(schemas)[schemas[i].id] == schemas[i].schema@,
        schema_place(schemas, schemas[i].id) == i,
{
    let j = schema_place(schemas, schemas[i].id);
    assert(schemas[j].id == schemas[i].id);
}

/// Schemas which say the same are the same: the order of their ids leaves
/// nothing open.
pub proof fn lemma_same_schemas(a: Seq<EntitySchema>, b: Seq<EntitySchema>)
    requires
        schemas_in_order(a),
        schemas_in_order(b),
        schema_map(a) == schema_map(b),
    ensures
        a.len() == b.len(),
        forall|i: int|
            0 <= i < a.len() ==> (#[trigger] a[i]).id == b[i].id && a[i].schema@ == b[i].schema@,
    decreases a.len(),
{
    if a.len() == 0 {
        if b.len() > 0 {
            lemma_schema_at(b, 0);
            assert(has_schema(a, b[0].id));
        }
    } else if b.len() == 0 {
        lemma_schema_at(a, 0);
        assert(has_schema(b, a[0].id));
    } else {
        let last_a = a.last();
        let last_b = b.last();
        lemma_schema_at(a, a.len() - 1);
        lemma_schema_at(b, b.len() - 1);
        assert(has_schema(b, last_a.id));
        assert(has_schema(a, last_b.id));
        let in_b = schema_place(b, last_a.id);
        let in_a = schema_place(a, last_b.id);
        assert(b[in_b].id == last_a.id && a[in_a].id == last_b.id);
        assert(last_a.id == last_b.id) by {
            if in_b < b.len() - 1 {
                assert(b[in_b].id < b[b.len() - 1].id);
            }
            if in_a < a.len() - 1 {
                assert(a[in_a].id < a[a.len() - 1].id);
            }
        }
        lemma_without_last(a);
        lemma_without_last(b);
        lemma_same_schemas(a.drop_last(), b.drop_last());
        assert forall|i: int| 0 <= i < a.len() implies (#[trigger] a[i]).id == b[i].id
            && a[i].schema@ == b[i].schema@ by {
            if i < a.len() - 1 {
                assert(a.drop_last()[i] == a[i] && b.drop_last()[i] == b[i]);
            }
        }
    }
}

proof fn lemma_without_last(a: Seq<EntitySchema>)
    requires
        schemas_in_order(a),
        a.len() > 0,
    ensures
        schemas_in_order(a.drop_last()),
        schema_map(a.drop_last()) == schema_map(a).remove(a.last().id),
{
    let fewer = a.drop_last();
    assert forall|i: int, j: int|
        #![trigger fewer[i], fewer[j]]
        0 <= i < j < fewer.len() implies fewer[i].id < fewer[j].id by {
        assert(a[i].id < a[j].id);
    }
    let want = schema_map(a).remove(a.last().id);
    assert forall|id: u64| schema_map(fewer).contains_key(id) == #[trigger] want.contains_key(
        id,
    ) by {
        if has_schema(fewer, id) {
            let i = schema_place(fewer, id);
            assert(a[i].id == id);
            assert(a[i].id < a[a.len() - 1].id);
        }
        if has_schema(a, id) && id != a.last().id {
            let i = schema_place(a, id);
            assert(fewer[i].id == id);
        }
    }
    assert forall|id: u64| #[trigger] schema_map(fewer).contains_key(id) implies schema_map(fewer)[id]
        == want[id] by {
        let i = schema_place(fewer, id);
        assert(a[i].id == id);
        lemma_schema_at(a, i);
        lemma_schema_at(fewer, i);
    }
    assert(schema_map(fewer) =~= want);
}

/// Where the schema with the id stands, or where it would.
fn find_schema_place(schemas: &Vec<EntitySchema>, id: u64) -> (r: usize)
    requires
        schemas_in_order(schemas@),
    ensures
        r <= schemas@.len(),
        forall|i: int| 0 <= i < r ==> (#[trigger] schemas@[i]).id < id,
        forall|i: int| r <= i < schemas@.len() ==> id <= (#[trigger] schemas@[i]).id,
{
    let mut r: usize = 0;
    while r < schemas.len() && schemas[r].id < id
        invariant
            r <= schemas@.len(),
            forall|i: int| 0 <= i < r ==> (#[trigger] schemas@[i]).id < id,
        decreases schemas.len() - r,
    {
        r = r + 1;
    }
    assert forall|i: int| r <= i < schemas@.len() implies id <= (#[trigger] schemas@[i]).id by {
        if r < i {
            assert(schemas@[r as int].id < schemas@[i].id);
        }
    }
    r
}

/// Puts a schema in, in the place of the one with its id if there is one.
pub fn put_schema(schemas: &mut Vec<EntitySchema>, schema: EntitySchema)
    requires
        schemas_in_order(old(schemas)@),
    ensures
        schemas_in_order(final(schemas)@),
        schema_map(final(schemas)@) == schema_map(old(schemas)@).insert(schema.id, schema.schema@),
{
    let ghost before = schemas@;
    let at: usize = find_schema_place(schemas, schema.id);
    let ghost there = at < before.len() && before[at as int].id == schema.id;
    if at < schemas.len() && schemas[at].id == schema.id {
        schemas.remove(at);
        schemas.insert(at, schema);
        assert(schemas@ =~= before.update(at as int, schema));
    } else {
        schemas.insert(at, schema);
    }
    proof {
        let after = schemas@;
        let shift: int = if there { 0 } else { 1 };
        assert(after.len() == before.len() + shift);
        assert forall|i: int| 0 <= i < after.len() implies #[trigger] after[i] == (if i < at {
            before[i]
        } else if i == at {
            schema
        } else {
            before[i - shift]
        }) by {}
        assert forall|i: int, j: int|
            #![trigger after[i], after[j]]
            0 <= i < j < after.len() implies after[i].id < after[j].id by {
            if i < at && j > at {
                assert(before[i].id < before[j - shift].id);
            } else if i > at {
                assert(before[i - shift].id < before[j - shift].id);
            } else if i == at {
                if there {
                    assert(before[i].id < before[j].id);
                } else {
                    assert(schema.id <= before[j - 1].id);
                    if before[j - 1].id == schema.id {
                        assert(before[at as int].id <= before[j - 1].id);
                    }
                }
            }
        }
        let want = schema_map(before).insert(schema.id, schema.schema@);
        assert forall|id: u64| schema_map(after).contains_key(id) == #[trigger] want.contains_key(
            id,
        ) by {
            if has_schema(after, id) && id != schema.id {
                let i = schema_place(after, id);
                assert(before[if i < at { i } else { i - shift }].id == id);
            }
            if id == schema.id {
                assert(after[at as int].id == id);
            } else if has_schema(before, id) {
                let i = schema_place(before, id);
                assert(after[if i < at { i } else { i + shift }].id == id);
            }
        }
        assert forall|id: u64| #[trigger] schema_map(after).contains_key(id) implies schema_map(
            after,
        )[id] == want[id] by {
            let i = schema_place(after, id);
            lemma_schema_at(after, i);
            if i != at {
                lemma_schema_at(before, if i < at { i } else { i - shift });
            }
        }
        assert(schema_map(after) =~= want);
    }
}

}
