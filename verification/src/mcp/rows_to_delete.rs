//! Which rows a bulk delete names.

use crate::db::PartitionRowKeys;
use vstd::prelude::*;

verus! {

/// An item of an array, as a JSON reader hands it out.
pub enum JsonItem {
    Text(String),
    /// A text which can not be read.
    UnreadableText,
    /// Something else than a text. A row key which arrived as `1` is a caller
    /// bug, not a key called "1".
    NotText,
    /// The body is broken here, and this is why.
    Broken(String),
}

/// A value of an object, as a JSON reader hands it out.
pub enum JsonValue {
    Array(Vec<JsonItem>),
    NotAnArray,
}

/// A member of an object, as a JSON reader hands it out.
pub enum JsonMember {
    Member(String, JsonValue),
    /// The body is broken here, and this is why.
    Broken(String),
}

/// What is said of a body which is broken.
pub open spec fn bad_body_text(reason: Seq<char>) -> Seq<char> {
    "`rows_json` is not a JSON object of partition key -> row keys: "@ + reason
}

fn bad_body(reason: &str) -> (r: String)
    ensures
        r@ == bad_body_text(reason@),
{
    let mut err = "`rows_json` is not a JSON object of partition key -> row keys: ".to_owned();
    err.append(reason);
    err
}

/// The row key an item is, or what is wrong with it.
pub open spec fn item_key(partition_key: Seq<char>, item: JsonItem) -> Result<
    Seq<char>,
    Seq<char>,
> {
    match item {
        JsonItem::Text(key) => Ok(key@),
        JsonItem::UnreadableText => Err(
            "a row key of partition '"@ + partition_key + "' can not be read"@,
        ),
        JsonItem::NotText => Err(
            "a row key of partition '"@ + partition_key + "' is not a string"@,
        ),
        JsonItem::Broken(reason) => Err(bad_body_text(reason@)),
    }
}

/// The row keys of a partition, or what is wrong with them.
pub open spec fn row_keys_of(partition_key: Seq<char>, items: Seq<JsonItem>) -> Result<
    Seq<Seq<char>>,
    Seq<char>,
>
    decreases items.len(),
{
    if items.len() == 0 {
        Ok(Seq::empty())
    } else {
        match row_keys_of(partition_key, items.drop_last()) {
            Err(err) => Err(err),
            Ok(keys) => match item_key(partition_key, items.last()) {
                Err(err) => Err(err),
                Ok(key) => Ok(keys.push(key)),
            },
        }
    }
}

/// The keys of a partition to delete.
#[verifier::ext_equal]
pub struct KeysToDelete {
    pub partition_key: Seq<char>,
    pub row_keys: Seq<Seq<char>>,
}

/// What a member of the body names, or what is wrong with it.
pub open spec fn member_keys(member: JsonMember) -> Result<KeysToDelete, Seq<char>> {
    match member {
        JsonMember::Broken(reason) => Err(bad_body_text(reason@)),
        JsonMember::Member(partition_key, JsonValue::NotAnArray) => Err(
            "the row keys of partition '"@ + partition_key@ + "' are not an array"@,
        ),
        JsonMember::Member(partition_key, JsonValue::Array(items)) => match row_keys_of(
            partition_key@,
            items@,
        ) {
            Err(err) => Err(err),
            Ok(row_keys) => Ok(KeysToDelete { partition_key: partition_key@, row_keys }),
        },
    }
}

/// What a body names, or the first thing which is wrong with it.
pub open spec fn body_keys(members: Seq<JsonMember>) -> Result<Seq<KeysToDelete>, Seq<char>>
    decreases members.len(),
{
    if members.len() == 0 {
        Ok(Seq::empty())
    } else {
        match body_keys(members.drop_last()) {
            Err(err) => Err(err),
            Ok(partitions) => match member_keys(members.last()) {
                Err(err) => Err(err),
                Ok(keys) => Ok(partitions.push(keys)),
            },
        }
    }
}

/// What some keys say.
pub open spec fn texts(keys: Seq<String>) -> Seq<Seq<char>> {
    Seq::new(keys.len(), |i: int| keys[i]@)
}

/// What the keys of a partition say.
pub open spec fn keys_view(keys: PartitionRowKeys) -> KeysToDelete {
    KeysToDelete { partition_key: keys.partition_key@, row_keys: texts(keys.row_keys@) }
}

/// What the keys of partitions say.
pub open spec fn keys_views(partitions: Seq<PartitionRowKeys>) -> Seq<KeysToDelete> {
    Seq::new(partitions.len(), |i: int| keys_view(partitions[i]))
}

proof fn lemma_row_keys_fail_once(partition_key: Seq<char>, items: Seq<JsonItem>, n: int)
    requires
        0 <= n <= items.len(),
        row_keys_of(partition_key, items.take(n)) is Err,
    ensures
        row_keys_of(partition_key, items) == row_keys_of(partition_key, items.take(n)),
    decreases items.len() - n,
{
    if n == items.len() {
        assert(items.take(n) =~= items);
    } else {
        assert(items.take(n + 1).drop_last() =~= items.take(n));
        lemma_row_keys_fail_once(partition_key, items, n + 1);
    }
}

proof fn lemma_body_fails_once(members: Seq<JsonMember>, n: int)
    requires
        0 <= n <= members.len(),
        body_keys(members.take(n)) is Err,
    ensures
        body_keys(members) == body_keys(members.take(n)),
    decreases members.len() - n,
{
    if n == members.len() {
        assert(members.take(n) =~= members);
    } else {
        assert(members.take(n + 1).drop_last() =~= members.take(n));
        lemma_body_fails_once(members, n + 1);
    }
}

fn read_row_key(partition_key: &str, item: JsonItem) -> (r: Result<String, String>)
    ensures
        match r {
            Ok(key) => item_key(partition_key@, item) == Ok::<Seq<char>, Seq<char>>(key@),
            Err(err) => item_key(partition_key@, item) == Err::<Seq<char>, Seq<char>>(err@),
        },
{
    match item {
        JsonItem::Text(key) => Ok(key),
        JsonItem::UnreadableText => {
            let mut err = "a row key of partition '".to_owned();
            err.append(partition_key);
            err.append("' can not be read");
            Err(err)
        },
        JsonItem::NotText => {
            let mut err = "a row key of partition '".to_owned();
            err.append(partition_key);
            err.append("' is not a string");
            Err(err)
        },
        JsonItem::Broken(reason) => Err(bad_body(reason.as_str())),
    }
}

fn read_row_keys(partition_key: &str, items: Vec<JsonItem>) -> (r: Result<Vec<String>, String>)
    ensures
        match r {
            Ok(keys) => row_keys_of(partition_key@, items@) == Ok::<Seq<Seq<char>>, Seq<char>>(
                texts(keys@),
            ),
            Err(err) => row_keys_of(partition_key@, items@) == Err::<Seq<Seq<char>>, Seq<char>>(
                err@,
            ),
        },
{
    let ghost given = items@;
    let total: usize = items.len();
    let mut keys: Vec<String> = Vec::new();
    let mut i: usize = 0;
    assert(given.take(0) =~= Seq::<JsonItem>::empty());
    assert(texts(keys@) =~= Seq::<Seq<char>>::empty());
    for item in it: items
        invariant
            it.seq() == given,
            it.index() == i,
            i <= total,
            total == given.len(),
            row_keys_of(partition_key@, given.take(i as int)) == Ok::<Seq<Seq<char>>, Seq<char>>(
                texts(keys@),
            ),
    {
        let ghost before = texts(keys@);
        proof {
            assert(given.take(i + 1).drop_last() =~= given.take(i as int));
            assert(given.take(i + 1).last() == item);
        }
        match read_row_key(partition_key, item) {
            Ok(key) => {
                keys.push(key);
                assert(texts(keys@) =~= before.push(key@));
            },
            Err(err) => {
                proof {
                    lemma_row_keys_fail_once(partition_key@, given, i + 1);
                }
                return Err(err);
            },
        }
        i = i + 1;
    }
    assert(given.take(given.len() as int) =~= given);
    Ok(keys)
}

fn read_member(member: JsonMember) -> (r: Result<PartitionRowKeys, String>)
    ensures
        match r {
            Ok(keys) => member_keys(member) == Ok::<KeysToDelete, Seq<char>>(keys_view(keys)),
            Err(err) => member_keys(member) == Err::<KeysToDelete, Seq<char>>(err@),
        },
{
    match member {
        JsonMember::Broken(reason) => Err(bad_body(reason.as_str())),
        JsonMember::Member(partition_key, value) => match value {
            JsonValue::NotAnArray => {
                let mut err = "the row keys of partition '".to_owned();
                err.append(partition_key.as_str());
                err.append("' are not an array");
                Err(err)
            },
            JsonValue::Array(items) => match read_row_keys(partition_key.as_str(), items) {
                Ok(row_keys) => Ok(PartitionRowKeys { partition_key, row_keys }),
                Err(err) => Err(err),
            },
        },
    }
}

/// The keys of the rows to delete: an object rather than a list of pairs, because
/// the keys of a map do not repeat and the shape should say so. It is read whole
/// before anything is touched: a body the server can not read leaves the table as
/// it was.
pub fn parse(members: Vec<JsonMember>) -> (r: Result<Vec<PartitionRowKeys>, String>)
    ensures
        match r {
            Ok(partitions) => body_keys(members@) == Ok::<Seq<KeysToDelete>, Seq<char>>(
                keys_views(partitions@),
            ),
            Err(err) => body_keys(members@) == Err::<Seq<KeysToDelete>, Seq<char>>(err@),
        },
{
    let ghost given = members@;
    let total: usize = members.len();
    let mut partitions: Vec<PartitionRowKeys> = Vec::new();
    let mut i: usize = 0;
    assert(given.take(0) =~= Seq::<JsonMember>::empty());
    assert(keys_views(partitions@) =~= Seq::<KeysToDelete>::empty());
    for member in it: members
        invariant
            it.seq() == given,
            it.index() == i,
            i <= total,
            total == given.len(),
            body_keys(given.take(i as int)) == Ok::<Seq<KeysToDelete>, Seq<char>>(
                keys_views(partitions@),
            ),
    {
        let ghost before = keys_views(partitions@);
        proof {
            assert(given.take(i + 1).drop_last() =~= given.take(i as int));
            assert(given.take(i + 1).last() == member);
        }
        match read_member(member) {
            Ok(keys) => {
                partitions.push(keys);
                assert(keys_views(partitions@) =~= before.push(keys_view(keys)));
            },
            Err(err) => {
                proof {
                    lemma_body_fails_once(given, i + 1);
                }
                return Err(err);
            },
        }
        i = i + 1;
    }
    assert(given.take(given.len() as int) =~= given);
    Ok(partitions)
}

}
