//! Cutting a batch into chunks which fit into one message each.

use super::sync_chunk::PartitionRows;
use crate::db::{DbRow, PartitionRowKeys};
use crate::hash_index::PositionIndex;
use crate::text::same_text;
use ahash::AHashMap;
use std::sync::Arc;
use vstd::prelude::*;

verus! {

/// A batch is cut by record count, with a ceiling on bytes as well: rows differ
/// in size by orders of magnitude between tables, so a chunk of "only a thousand
/// records" can still be too large to put into one message.
pub const MAX_ROWS_PER_CHUNK: usize = 1000;

pub const MAX_CHUNK_SIZE: usize = 1_048_576;

/// How much some rows take together.
pub open spec fn total_size(rows: Seq<Arc<DbRow>>) -> nat
    decreases rows.len(),
{
    if rows.len() == 0 {
        0
    } else {
        total_size(rows.drop_last()) + rows.last().content_size as nat
    }
}

/// Whether a chunk with these rows takes no more.
pub open spec fn is_full(rows: Seq<Arc<DbRow>>) -> bool {
    rows.len() >= MAX_ROWS_PER_CHUNK || total_size(rows) >= MAX_CHUNK_SIZE
}

/// Whether a chunk was cut where it had to be: it has something in it, and it was
/// not full before its last row.
pub open spec fn is_cut_in_time(rows: Seq<Arc<DbRow>>) -> bool {
    rows.len() > 0 && !is_full(rows.drop_last())
}

/// The rows of some chunks, one after the other.
pub open spec fn joined(chunks: Seq<Seq<Arc<DbRow>>>) -> Seq<Arc<DbRow>>
    decreases chunks.len(),
{
    if chunks.len() == 0 {
        Seq::empty()
    } else {
        joined(chunks.drop_last()) + chunks.last()
    }
}

/// Whether these chunks are the rows, cut wherever a chunk is full and nowhere
/// else.
pub open spec fn is_split(chunks: Seq<Seq<Arc<DbRow>>>, rows: Seq<Arc<DbRow>>) -> bool {
    &&& joined(chunks) == rows
    &&& forall|i: int| 0 <= i < chunks.len() ==> is_cut_in_time(#[trigger] chunks[i])
    &&& forall|i: int| 0 <= i < chunks.len() - 1 ==> is_full(#[trigger] chunks[i])
}

/// The rows of the chunks.
pub open spec fn chunk_rows(chunks: Seq<Vec<Arc<DbRow>>>) -> Seq<Seq<Arc<DbRow>>> {
    Seq::new(chunks.len(), |i: int| chunks[i]@)
}

/// One row more in a chunk which is not full.
proof fn lemma_row_added(rows: Seq<Arc<DbRow>>, row: Arc<DbRow>)
    ensures
        rows.push(row).drop_last() == rows,
        total_size(rows.push(row)) == total_size(rows) + row.content_size,
{
    assert(rows.push(row).drop_last() =~= rows);
}

/// One chunk more.
proof fn lemma_chunk_added(chunks: Seq<Seq<Arc<DbRow>>>, chunk: Seq<Arc<DbRow>>)
    ensures
        joined(chunks.push(chunk)) == joined(chunks) + chunk,
{
    assert(chunks.push(chunk).drop_last() =~= chunks);
}

fn added_size(size: usize, more: usize) -> (r: usize)
    ensures
        r >= MAX_CHUNK_SIZE <==> size + more >= MAX_CHUNK_SIZE,
        r < MAX_CHUNK_SIZE ==> r == size + more,
{
    if more >= MAX_CHUNK_SIZE || size >= MAX_CHUNK_SIZE - more {
        MAX_CHUNK_SIZE
    } else {
        size + more
    }
}

/// Cuts rows into chunks.
pub fn split_rows(rows: Vec<Arc<DbRow>>) -> (r: Vec<Vec<Arc<DbRow>>>)
    ensures
        is_split(chunk_rows(r@), rows@),
{
    let mut result: Vec<Vec<Arc<DbRow>>> = Vec::new();
    let mut chunk: Vec<Arc<DbRow>> = Vec::new();
    let mut chunk_size: usize = 0;
    assert(chunk_rows(result@) =~= Seq::<Seq<Arc<DbRow>>>::empty());
    assert(rows@.take(0) =~= Seq::<Arc<DbRow>>::empty());
    for db_row in it: rows
        invariant
            it.seq() == rows@,
            it.index() <= rows@.len(),
            joined(chunk_rows(result@)) + chunk@ == rows@.take(it.index() as int),
            chunk_size == total_size(chunk@),
            !is_full(chunk@),
            forall|i: int|
                0 <= i < result@.len() ==> is_cut_in_time((#[trigger] result@[i])@) && is_full(
                    result@[i]@,
                ),
    {
        let ghost before = chunk@;
        let ghost known = result@;
        chunk_size = added_size(chunk_size, db_row.content_size);
        chunk.push(db_row);
        proof {
            lemma_row_added(before, db_row);
            assert(rows@.take(it.index() + 1) =~= rows@.take(it.index() as int).push(db_row));
            assert(joined(chunk_rows(known)) + chunk@ =~= rows@.take(it.index() + 1));
        }
        if chunk.len() >= MAX_ROWS_PER_CHUNK || chunk_size >= MAX_CHUNK_SIZE {
            let ghost full = chunk@;
            let mut done: Vec<Arc<DbRow>> = Vec::new();
            core::mem::swap(&mut chunk, &mut done);
            result.push(done);
            chunk_size = 0;
            proof {
                assert(chunk_rows(result@) =~= chunk_rows(known).push(full));
                lemma_chunk_added(chunk_rows(known), full);
                assert(joined(chunk_rows(result@)) + chunk@ =~= rows@.take(it.index() + 1));
            }
        }
    }
    assert(rows@.take(rows@.len() as int) =~= rows@);
    let ghost known = result@;
    let ghost last = chunk@;
    if chunk.len() > 0 {
        result.push(chunk);
        proof {
            assert(chunk_rows(result@) =~= chunk_rows(known).push(last));
            lemma_chunk_added(chunk_rows(known), last);
            lemma_shorter_is_not_full(last);
        }
    } else {
        assert(joined(chunk_rows(result@)) + last =~= joined(chunk_rows(result@)));
    }
    proof {
        let chunks = chunk_rows(result@);
        assert forall|i: int| 0 <= i < chunks.len() implies is_cut_in_time(#[trigger] chunks[i]) by {
            if i < known.len() {
                assert(result@[i] == known[i]);
            }
        }
        assert forall|i: int| 0 <= i < chunks.len() - 1 implies is_full(#[trigger] chunks[i]) by {
            assert(result@[i] == known[i]);
        }
    }
    result
}

proof fn lemma_shorter_is_not_full(rows: Seq<Arc<DbRow>>)
    requires
        rows.len() > 0,
        !is_full(rows),
    ensures
        is_cut_in_time(rows),
{
}

/// The rows of one partition.
pub open spec fn rows_of(rows: Seq<Arc<DbRow>>, partition_key: Seq<char>) -> Seq<Arc<DbRow>>
    decreases rows.len(),
{
    if rows.len() == 0 {
        Seq::empty()
    } else if rows.last().partition_key@ == partition_key {
        rows_of(rows.drop_last(), partition_key).push(rows.last())
    } else {
        rows_of(rows.drop_last(), partition_key)
    }
}

/// The partitions some rows belong to, in the order they are first seen in.
pub open spec fn partitions_seen(rows: Seq<Arc<DbRow>>) -> Seq<Seq<char>>
    decreases rows.len(),
{
    if rows.len() == 0 {
        Seq::empty()
    } else {
        let before = partitions_seen(rows.drop_last());
        let key = rows.last().partition_key@;
        if before.contains(key) {
            before
        } else {
            before.push(key)
        }
    }
}

/// Whether these are the rows, grouped by partition in the order the partitions
/// are first seen in.
pub open spec fn is_grouped(groups: Seq<PartitionRows>, rows: Seq<Arc<DbRow>>) -> bool {
    &&& groups.len() == partitions_seen(rows).len()
    &&& forall|i: int|
        0 <= i < groups.len() ==> (#[trigger] groups[i]).partition_key@ == partitions_seen(rows)[i]
            && groups[i].rows@ == rows_of(rows, groups[i].partition_key@)
}

/// Groups rows by partition, keeping both the order the partitions were first
/// seen in and the order of the rows inside each of them - a batch which wrote
/// the same key twice has to reach the reader in the order it was written.
pub fn group_by_partition(rows: Vec<Arc<DbRow>>) -> (r: Vec<PartitionRows>)
    ensures
        is_grouped(r@, rows@),
{
    let mut result: Vec<PartitionRows> = Vec::new();
    let mut at: AHashMap<String, usize> = PositionIndex::empty();
    assert(rows@.take(0) =~= Seq::<Arc<DbRow>>::empty());
    for db_row in it: rows
        invariant
            it.seq() == rows@,
            it.index() <= rows@.len(),
            is_grouped(result@, rows@.take(it.index() as int)),
            forall|key: Seq<char>| #[trigger]
                at.positions().contains_key(key) <==> partitions_seen(
                    rows@.take(it.index() as int),
                ).contains(key),
            forall|key: Seq<char>| #[trigger]
                at.positions().contains_key(key) ==> at.positions()[key] < result@.len()
                    && partitions_seen(rows@.take(it.index() as int))[at.positions()[key] as int]
                    == key,
    {
        let ghost seen_rows = rows@.take(it.index() as int);
        let ghost now_rows = rows@.take(it.index() + 1);
        let ghost key = db_row.partition_key@;
        let ghost before = result@;
        let ghost seen = partitions_seen(seen_rows);
        proof {
            assert(now_rows.drop_last() =~= seen_rows);
            assert(now_rows.last() == db_row);
            lemma_seen_once(seen_rows);
        }
        match at.lookup(&db_row.partition_key) {
            Some(index) => {
                let index: usize = index;
                result[index].rows.push(db_row);
                proof {
                    assert(partitions_seen(now_rows) == seen);
                    assert forall|i: int| 0 <= i < result@.len() implies (
                    #[trigger] result@[i]).partition_key@ == seen[i] && result@[i].rows@ == rows_of(
                        now_rows,
                        result@[i].partition_key@,
                    ) by {
                        assert(before[i].partition_key@ == seen[i]);
                        if i != index {
                            assert(seen[i] != seen[index as int]);
                        }
                    }
                }
            },
            None => {
                let partition_key = db_row.partition_key.clone();
                at.put(&partition_key, result.len());
                let mut only: Vec<Arc<DbRow>> = Vec::new();
                only.push(db_row);
                result.push(PartitionRows { partition_key, rows: only });
                proof {
                    let now = seen.push(key);
                    assert(partitions_seen(now_rows) == now);
                    lemma_rows_of_unseen(seen_rows, key);
                    assert(rows_of(now_rows, key) =~= seq![db_row]);
                    assert forall|i: int| 0 <= i < result@.len() implies (
                    #[trigger] result@[i]).partition_key@ == now[i] && result@[i].rows@ == rows_of(
                        now_rows,
                        result@[i].partition_key@,
                    ) by {
                        if i < before.len() {
                            assert(before[i].partition_key@ == seen[i]);
                            assert(seen.contains(seen[i]));
                        }
                    }
                    assert forall|k: Seq<char>| #[trigger] at.positions().contains_key(
                        k,
                    ) <==> now.contains(k) by {
                        if seen.contains(k) {
                            let j = choose|j: int| 0 <= j < seen.len() && seen[j] == k;
                            assert(now[j] == k);
                        }
                        if k == key {
                            assert(now[seen.len() as int] == k);
                        }
                        if now.contains(k) && k != key {
                            let j = choose|j: int| 0 <= j < now.len() && now[j] == k;
                            assert(seen[j] == k);
                        }
                    }
                }
            },
        }
    }
    assert(rows@.take(rows@.len() as int) =~= rows@);
    result
}

/// A partition is seen once, and has rows.
pub proof fn lemma_seen_once(rows: Seq<Arc<DbRow>>)
    ensures
        partitions_seen(rows).no_duplicates(),
        forall|key: Seq<char>| #[trigger]
            partitions_seen(rows).contains(key) <==> rows_of(rows, key).len() > 0,
    decreases rows.len(),
{
    if rows.len() > 0 {
        let before = partitions_seen(rows.drop_last());
        let now = partitions_seen(rows);
        let key = rows.last().partition_key@;
        lemma_seen_once(rows.drop_last());
        assert forall|k: Seq<char>| #[trigger] now.contains(k) <==> rows_of(rows, k).len() > 0 by {
            if before.contains(k) {
                let j = choose|j: int| 0 <= j < before.len() && before[j] == k;
                assert(now[j] == k);
            }
            if k == key && !before.contains(key) {
                assert(now[before.len() as int] == k);
            }
            if now.contains(k) && k != key {
                let j = choose|j: int| 0 <= j < now.len() && now[j] == k;
                assert(before[j] == k);
            }
        }
        if !before.contains(key) {
            assert forall|i: int, j: int|
                0 <= i < now.len() && 0 <= j < now.len() && i != j implies now[i] != now[j] by {
                if i < before.len() {
                    assert(before.contains(before[i]));
                }
                if j < before.len() {
                    assert(before.contains(before[j]));
                }
            }
        }
    }
}

proof fn lemma_rows_of_unseen(rows: Seq<Arc<DbRow>>, key: Seq<char>)
    requires
        !partitions_seen(rows).contains(key),
    ensures
        rows_of(rows, key) == Seq::<Arc<DbRow>>::empty(),
{
    lemma_seen_once(rows);
    assert(rows_of(rows, key) =~= Seq::<Arc<DbRow>>::empty());
}

proof fn lemma_push_behind<A>(a: Seq<A>, b: Seq<A>, x: A)
    ensures
        a + b.push(x) == (a + b).push(x),
{
    assert(a + b.push(x) =~= (a + b).push(x));
}

/// The rows of some groups, one group after the other.
pub open spec fn rows_in(groups: Seq<PartitionRows>) -> Seq<Arc<DbRow>>
    decreases groups.len(),
{
    if groups.len() == 0 {
        Seq::empty()
    } else {
        rows_in(groups.drop_last()) + groups.last().rows@
    }
}

/// The rows of the first partitions, one partition after the other.
pub open spec fn rows_of_first(rows: Seq<Arc<DbRow>>, n: nat) -> Seq<Arc<DbRow>>
    decreases n,
{
    if n == 0 {
        Seq::empty()
    } else {
        rows_of_first(rows, (n - 1) as nat) + rows_of(rows, partitions_seen(rows)[n - 1])
    }
}

/// The rows one partition after the other, in the order the partitions are first
/// seen in.
pub open spec fn rows_by_partition(rows: Seq<Arc<DbRow>>) -> Seq<Arc<DbRow>> {
    rows_of_first(rows, partitions_seen(rows).len())
}

/// The rows of every chunk.
pub open spec fn partition_chunk_rows(chunks: Seq<Vec<PartitionRows>>) -> Seq<Seq<Arc<DbRow>>> {
    Seq::new(chunks.len(), |i: int| rows_in(chunks[i]@))
}

/// Whether every piece of a chunk has rows, is named after their partition, and is
/// not followed by another piece of the same partition.
pub open spec fn is_named(chunk: Seq<PartitionRows>) -> bool {
    &&& forall|i: int|
        0 <= i < chunk.len() ==> {
            &&& (#[trigger] chunk[i]).rows@.len() > 0
            &&& forall|j: int|
                0 <= j < chunk[i].rows@.len() ==> (#[trigger] chunk[i].rows@[j]).partition_key@
                    == chunk[i].partition_key@
        }
    &&& forall|i: int, j: int|
        #![trigger chunk[i], chunk[j]]
        0 <= i && j == i + 1 && j < chunk.len() ==> chunk[i].partition_key@
            != chunk[j].partition_key@
}

proof fn lemma_group_added(chunk: Seq<PartitionRows>, group: PartitionRows)
    ensures
        rows_in(chunk.push(group)) == rows_in(chunk) + group.rows@,
{
    assert(chunk.push(group).drop_last() =~= chunk);
}

proof fn lemma_rows_of_key(rows: Seq<Arc<DbRow>>, key: Seq<char>)
    ensures
        forall|i: int|
            0 <= i < rows_of(rows, key).len() ==> (#[trigger] rows_of(rows, key)[i]).partition_key@
                == key,
    decreases rows.len(),
{
    if rows.len() > 0 {
        let before = rows_of(rows.drop_last(), key);
        lemma_rows_of_key(rows.drop_last(), key);
        assert forall|i: int| 0 <= i < rows_of(rows, key).len() implies (
        #[trigger] rows_of(rows, key)[i]).partition_key@ == key by {
            if i < before.len() {
                assert(rows_of(rows, key)[i] == before[i]);
            }
        }
    }
}

proof fn lemma_groups_are_rows(groups: Seq<PartitionRows>, rows: Seq<Arc<DbRow>>, n: nat)
    requires
        is_grouped(groups, rows),
        n <= groups.len(),
    ensures
        rows_in(groups.take(n as int)) == rows_of_first(rows, n),
    decreases n,
{
    if n > 0 {
        lemma_groups_are_rows(groups, rows, (n - 1) as nat);
        assert(groups.take(n as int).drop_last() =~= groups.take(n - 1));
        assert(groups.take(n as int).last() == groups[n - 1]);
    } else {
        assert(groups.take(0) =~= Seq::<PartitionRows>::empty());
    }
}

/// Adds a row to a chunk: to its last piece if that is of the row's partition, as
/// a piece of its own if not.
fn add_row(chunk: &mut Vec<PartitionRows>, partition_key: &String, db_row: Arc<DbRow>)
    requires
        is_named(old(chunk)@),
        db_row.partition_key@ == partition_key@,
    ensures
        is_named(final(chunk)@),
        rows_in(final(chunk)@) == rows_in(old(chunk)@).push(db_row),
        final(chunk)@.len() > 0,
{
    let ghost before = chunk@;
    let count: usize = chunk.len();
    if count > 0 && same_text(chunk[count - 1].partition_key.as_str(), partition_key.as_str()) {
        chunk[count - 1].rows.push(db_row);
        proof {
            let last = count - 1;
            assert(chunk@.drop_last() =~= before.drop_last());
            assert(chunk@[last].rows@ == before[last].rows@.push(db_row));
            assert(rows_in(chunk@) =~= rows_in(before).push(db_row));
            assert forall|i: int| 0 <= i < chunk@.len() implies {
                &&& (#[trigger] chunk@[i]).rows@.len() > 0
                &&& forall|j: int|
                    0 <= j < chunk@[i].rows@.len() ==> (
                    #[trigger] chunk@[i].rows@[j]).partition_key@ == chunk@[i].partition_key@
            } by {
                assert(before[i].rows@.len() > 0);
                assert forall|j: int| 0 <= j < chunk@[i].rows@.len() implies (
                #[trigger] chunk@[i].rows@[j]).partition_key@ == chunk@[i].partition_key@ by {
                    if i < last || j < before[last].rows@.len() {
                        assert(before[i].rows@[j] == chunk@[i].rows@[j]);
                    }
                }
            }
            assert forall|i: int, j: int|
                #![trigger chunk@[i], chunk@[j]]
                0 <= i && j == i + 1 && j < chunk@.len() implies chunk@[i].partition_key@
                != chunk@[j].partition_key@ by {
                assert(before[i].partition_key@ != before[j].partition_key@);
            }
        }
    } else {
        let mut only: Vec<Arc<DbRow>> = Vec::new();
        only.push(db_row);
        chunk.push(PartitionRows { partition_key: partition_key.clone(), rows: only });
        proof {
            lemma_group_added(before, chunk@.last());
            assert(chunk@ =~= before.push(chunk@.last()));
            assert(rows_in(chunk@) =~= rows_in(before).push(db_row));
            assert forall|i: int| 0 <= i < chunk@.len() implies {
                &&& (#[trigger] chunk@[i]).rows@.len() > 0
                &&& forall|j: int|
                    0 <= j < chunk@[i].rows@.len() ==> (
                    #[trigger] chunk@[i].rows@[j]).partition_key@ == chunk@[i].partition_key@
            } by {
                if i < before.len() {
                    assert(chunk@[i] == before[i]);
                }
            }
            assert forall|i: int, j: int|
                #![trigger chunk@[i], chunk@[j]]
                0 <= i && j == i + 1 && j < chunk@.len() implies chunk@[i].partition_key@
                != chunk@[j].partition_key@ by {
                assert(chunk@[i] == before[i]);
                if j < before.len() {
                    assert(chunk@[j] == before[j]);
                }
            }
        }
    }
}

/// The same cut, for the rows of `InitPartitions`: they are grouped by partition
/// first, and the cut is then made wherever the limits say - inside a partition
/// too, if one partition alone is bigger than a chunk. That is safe because the
/// reader accumulates the whole batch until its `End` before applying anything,
/// so a partition split across two chunks arrives whole all the same.
pub fn split_partition_rows(rows: Vec<Arc<DbRow>>) -> (r: Vec<Vec<PartitionRows>>)
    ensures
        is_split(partition_chunk_rows(r@), rows_by_partition(rows@)),
        forall|i: int| 0 <= i < r@.len() ==> is_named((#[trigger] r@[i])@),
{
    let mut result: Vec<Vec<PartitionRows>> = Vec::new();
    let mut chunk: Vec<PartitionRows> = Vec::new();
    let mut chunk_len: usize = 0;
    let mut chunk_size: usize = 0;
    let groups = group_by_partition(rows);
    assert(partition_chunk_rows(result@) =~= Seq::<Seq<Arc<DbRow>>>::empty());
    assert(groups@.take(0) =~= Seq::<PartitionRows>::empty());
    let ghost all_groups = groups@;
    for group in it: groups
        invariant
            it.seq() == groups@,
            all_groups == groups@,
            it.index() <= groups@.len(),
            is_grouped(all_groups, rows@),
            joined(partition_chunk_rows(result@)) + rows_in(chunk@) == rows_in(
                all_groups.take(it.index() as int),
            ),
            chunk_len == rows_in(chunk@).len(),
            chunk_size == total_size(rows_in(chunk@)),
            !is_full(rows_in(chunk@)),
            is_named(chunk@),
            all_cut(result@),
    {
        let ghost done = all_groups.take(it.index() as int);
        let ghost group_rows = group.rows@;
        let partition_key = group.partition_key;
        let group_items = group.rows;
        proof {
            assert(all_groups[it.index() as int] == group);
            lemma_rows_of_key(rows@, partition_key@);
            assert(group_rows.take(0) =~= Seq::<Arc<DbRow>>::empty());
            assert(rows_in(done) + group_rows.take(0) =~= rows_in(done));
        }
        for db_row in rows_it: group_items
            invariant
                rows_it.seq() == group_items@,
                group_rows == group_items@,
                rows_it.index() <= group_items@.len(),
                forall|i: int|
                    0 <= i < group_rows.len() ==> (#[trigger] group_rows[i]).partition_key@
                        == partition_key@,
                joined(partition_chunk_rows(result@)) + rows_in(chunk@) == rows_in(done)
                    + group_rows.take(rows_it.index() as int),
                chunk_len == rows_in(chunk@).len(),
                chunk_size == total_size(rows_in(chunk@)),
                !is_full(rows_in(chunk@)),
                is_named(chunk@),
                all_cut(result@),
        {
            let ghost before = rows_in(chunk@);
            let ghost known = result@;
            let ghost at = rows_it.index() as int;
            assert(group_rows[at] == db_row);
            chunk_len = chunk_len + 1;
            chunk_size = added_size(chunk_size, db_row.content_size);
            add_row(&mut chunk, &partition_key, db_row);
            proof {
                lemma_row_added(before, db_row);
                assert(group_rows.take(at + 1) =~= group_rows.take(at).push(db_row));
                lemma_push_behind(joined(partition_chunk_rows(known)), before, db_row);
                lemma_push_behind(rows_in(done), group_rows.take(at), db_row);
                assert(joined(partition_chunk_rows(known)) + rows_in(chunk@) =~= rows_in(done)
                    + group_rows.take(at + 1));
            }
            if chunk_len >= MAX_ROWS_PER_CHUNK || chunk_size >= MAX_CHUNK_SIZE {
                let ghost full = chunk@;
                let mut filled: Vec<PartitionRows> = Vec::new();
                core::mem::swap(&mut chunk, &mut filled);
                result.push(filled);
                chunk_len = 0;
                chunk_size = 0;
                proof {
                    assert(partition_chunk_rows(result@) =~= partition_chunk_rows(known).push(
                        rows_in(full),
                    ));
                    lemma_chunk_added(partition_chunk_rows(known), rows_in(full));
                    assert(joined(partition_chunk_rows(result@)) + rows_in(chunk@) =~= rows_in(done)
                        + group_rows.take(at + 1));
                    assert forall|i: int| 0 <= i < result@.len() implies {
                        &&& is_cut_in_time(rows_in((#[trigger] result@[i])@))
                        &&& is_full(rows_in(result@[i]@))
                        &&& is_named(result@[i]@)
                    } by {
                        if i < known.len() {
                            assert(result@[i] == known[i]);
                        }
                    }
                }
            }
        }
        proof {
            assert(group_rows.take(group_rows.len() as int) =~= group_rows);
            lemma_group_added(done, all_groups[it.index() as int]);
            assert(all_groups.take(it.index() + 1) =~= done.push(all_groups[it.index() as int]));
        }
    }
    proof {
        assert(all_groups.take(all_groups.len() as int) =~= all_groups);
        lemma_groups_are_rows(all_groups, rows@, all_groups.len());
    }
    let ghost known = result@;
    let ghost last = rows_in(chunk@);
    let ghost last_chunk = chunk@;
    if chunk.len() > 0 {
        result.push(chunk);
        proof {
            assert(last.len() > 0) by {
                assert(last_chunk[last_chunk.len() - 1].rows@.len() > 0);
            }
            assert(partition_chunk_rows(result@) =~= partition_chunk_rows(known).push(last));
            lemma_chunk_added(partition_chunk_rows(known), last);
            lemma_shorter_is_not_full(last);
        }
    } else {
        assert(joined(partition_chunk_rows(result@)) + last =~= joined(
            partition_chunk_rows(result@),
        ));
    }
    proof {
        let chunks = partition_chunk_rows(result@);
        assert forall|i: int| 0 <= i < chunks.len() implies is_cut_in_time(#[trigger] chunks[i]) by {
            if i < known.len() {
                assert(result@[i] == known[i]);
            }
        }
        assert forall|i: int| 0 <= i < chunks.len() - 1 implies is_full(#[trigger] chunks[i]) by {
            assert(result@[i] == known[i]);
        }
        assert forall|i: int| 0 <= i < result@.len() implies is_named((#[trigger] result@[i])@) by {
            if i < known.len() {
                assert(result@[i] == known[i]);
            }
        }
    }
    result
}

/// Whether every chunk is full, was cut in time, and names its pieces.
spec fn all_cut(chunks: Seq<Vec<PartitionRows>>) -> bool {
    forall|i: int|
        0 <= i < chunks.len() ==> {
            &&& is_cut_in_time(rows_in((#[trigger] chunks[i])@))
            &&& is_full(rows_in(chunks[i]@))
            &&& is_named(chunks[i]@)
        }
}

/// The keys of some partitions, one after the other, each with its partition.
pub open spec fn keys_in(partitions: Seq<PartitionRowKeys>) -> Seq<(Seq<char>, Seq<char>)>
    decreases partitions.len(),
{
    if partitions.len() == 0 {
        Seq::empty()
    } else {
        keys_in(partitions.drop_last()) + keys_of(partitions.last())
    }
}

/// The keys of a partition.
pub open spec fn keys_of(partition: PartitionRowKeys) -> Seq<(Seq<char>, Seq<char>)> {
    Seq::new(
        partition.row_keys@.len(),
        |i: int| (partition.partition_key@, partition.row_keys@[i]@),
    )
}

/// The keys of some chunks, one after the other.
pub open spec fn keys_joined(chunks: Seq<Vec<PartitionRowKeys>>) -> Seq<(Seq<char>, Seq<char>)>
    decreases chunks.len(),
{
    if chunks.len() == 0 {
        Seq::empty()
    } else {
        keys_joined(chunks.drop_last()) + keys_in(chunks.last()@)
    }
}

/// Whether every piece of a chunk has keys and is not followed by another piece of
/// the same partition.
pub open spec fn is_keyed(chunk: Seq<PartitionRowKeys>) -> bool {
    &&& forall|i: int| 0 <= i < chunk.len() ==> (#[trigger] chunk[i]).row_keys@.len() > 0
    &&& forall|i: int, j: int|
        #![trigger chunk[i], chunk[j]]
        0 <= i && j == i + 1 && j < chunk.len() ==> chunk[i].partition_key@
            != chunk[j].partition_key@
}

/// Adds a key to a chunk: to its last piece if that is of the key's partition, as
/// a piece of its own if not.
fn add_row_key(chunk: &mut Vec<PartitionRowKeys>, partition_key: &String, row_key: String)
    requires
        is_keyed(old(chunk)@),
    ensures
        is_keyed(final(chunk)@),
        keys_in(final(chunk)@) == keys_in(old(chunk)@).push((partition_key@, row_key@)),
        final(chunk)@.len() > 0,
{
    let ghost before = chunk@;
    let count: usize = chunk.len();
    if count > 0 && same_text(chunk[count - 1].partition_key.as_str(), partition_key.as_str()) {
        let ghost pair = (partition_key@, row_key@);
        chunk[count - 1].row_keys.push(row_key);
        proof {
            let last = count - 1;
            assert(chunk@.drop_last() =~= before.drop_last());
            assert(keys_of(chunk@[last]) =~= keys_of(before[last]).push(pair));
            assert(keys_in(chunk@) =~= keys_in(before).push(pair));
            assert forall|i: int| 0 <= i < chunk@.len() implies (
            #[trigger] chunk@[i]).row_keys@.len() > 0 by {
                assert(before[i].row_keys@.len() > 0);
            }
            assert forall|i: int, j: int|
                #![trigger chunk@[i], chunk@[j]]
                0 <= i && j == i + 1 && j < chunk@.len() implies chunk@[i].partition_key@
                != chunk@[j].partition_key@ by {
                assert(before[i].partition_key@ != before[j].partition_key@);
            }
        }
    } else {
        let ghost pair = (partition_key@, row_key@);
        let mut only: Vec<String> = Vec::new();
        only.push(row_key);
        chunk.push(PartitionRowKeys { partition_key: partition_key.clone(), row_keys: only });
        proof {
            assert(chunk@.drop_last() =~= before);
            assert(keys_of(chunk@.last()) =~= seq![pair]);
            assert(keys_in(chunk@) =~= keys_in(before).push(pair));
            assert forall|i: int| 0 <= i < chunk@.len() implies (
            #[trigger] chunk@[i]).row_keys@.len() > 0 by {
                if i < before.len() {
                    assert(chunk@[i] == before[i]);
                }
            }
            assert forall|i: int, j: int|
                #![trigger chunk@[i], chunk@[j]]
                0 <= i && j == i + 1 && j < chunk@.len() implies chunk@[i].partition_key@
                != chunk@[j].partition_key@ by {
                assert(chunk@[i] == before[i]);
                if j < before.len() {
                    assert(chunk@[j] == before[j]);
                }
            }
        }
    }
}

/// Whether every chunk has as many keys as it can have.
spec fn all_keyed(chunks: Seq<Vec<PartitionRowKeys>>) -> bool {
    forall|i: int|
        0 <= i < chunks.len() ==> is_keyed((#[trigger] chunks[i])@) && keys_in(chunks[i]@).len()
            == MAX_ROWS_PER_CHUNK
}

/// The same cut for a delete: what travels are keys rather than rows, so only
/// their count is worth counting. Splitting one partition's keys across two
/// chunks is safe for the same reason - the reader glues the batch back together
/// at its `End`.
pub fn split_partition_row_keys(partitions: Vec<PartitionRowKeys>) -> (r: Vec<
    Vec<PartitionRowKeys>,
>)
    ensures
        keys_joined(r@) == keys_in(partitions@),
        forall|i: int| 0 <= i < r@.len() ==> is_keyed((#[trigger] r@[i])@),
        forall|i: int|
            0 <= i < r@.len() - 1 ==> keys_in((#[trigger] r@[i])@).len() == MAX_ROWS_PER_CHUNK,
        r@.len() > 0 ==> 1 <= keys_in(r@.last()@).len() <= MAX_ROWS_PER_CHUNK,
{
    let mut result: Vec<Vec<PartitionRowKeys>> = Vec::new();
    let mut chunk: Vec<PartitionRowKeys> = Vec::new();
    let mut chunk_len: usize = 0;
    let ghost all = partitions@;
    assert(all.take(0) =~= Seq::<PartitionRowKeys>::empty());
    for partition in it: partitions
        invariant
            it.seq() == partitions@,
            all == partitions@,
            it.index() <= partitions@.len(),
            keys_joined(result@) + keys_in(chunk@) == keys_in(all.take(it.index() as int)),
            chunk_len == keys_in(chunk@).len(),
            chunk_len < MAX_ROWS_PER_CHUNK,
            is_keyed(chunk@),
            all_keyed(result@),
    {
        let ghost done = keys_in(all.take(it.index() as int));
        let ghost new_keys = keys_of(partition);
        let partition_key = partition.partition_key;
        let row_keys = partition.row_keys;
        proof {
            assert(all[it.index() as int] == partition);
            assert(new_keys.take(0) =~= Seq::<(Seq<char>, Seq<char>)>::empty());
            assert(done + new_keys.take(0) =~= done);
        }
        for row_key in keys_it: row_keys
            invariant
                keys_it.seq() == row_keys@,
                keys_it.index() <= row_keys@.len(),
                new_keys.len() == row_keys@.len(),
                forall|i: int|
                    0 <= i < new_keys.len() ==> #[trigger] new_keys[i] == (
                        partition_key@,
                        row_keys@[i]@,
                    ),
                keys_joined(result@) + keys_in(chunk@) == done + new_keys.take(
                    keys_it.index() as int,
                ),
                chunk_len == keys_in(chunk@).len(),
                chunk_len < MAX_ROWS_PER_CHUNK,
                is_keyed(chunk@),
                all_keyed(result@),
        {
            let ghost at = keys_it.index() as int;
            let ghost known = result@;
            let ghost pair = (partition_key@, row_key@);
            let ghost before = keys_in(chunk@);
            assert(new_keys[at] == pair);
            chunk_len = chunk_len + 1;
            add_row_key(&mut chunk, &partition_key, row_key);
            proof {
                assert(new_keys.take(at + 1) =~= new_keys.take(at).push(pair));
                lemma_push_behind(keys_joined(known), before, pair);
                lemma_push_behind(done, new_keys.take(at), pair);
                assert(keys_joined(known) + keys_in(chunk@) =~= done + new_keys.take(at + 1));
            }
            if chunk_len >= MAX_ROWS_PER_CHUNK {
                let ghost full = chunk@;
                let mut filled: Vec<PartitionRowKeys> = Vec::new();
                core::mem::swap(&mut chunk, &mut filled);
                result.push(filled);
                chunk_len = 0;
                proof {
                    assert(result@.drop_last() =~= known);
                    assert(keys_joined(result@) + keys_in(chunk@) =~= done + new_keys.take(at + 1));
                    assert forall|i: int| 0 <= i < result@.len() implies is_keyed(
                        (#[trigger] result@[i])@,
                    ) && keys_in(result@[i]@).len() == MAX_ROWS_PER_CHUNK by {
                        if i < known.len() {
                            assert(result@[i] == known[i]);
                        }
                    }
                }
            }
        }
        proof {
            assert(new_keys.take(new_keys.len() as int) =~= new_keys);
            assert(all.take(it.index() + 1).drop_last() =~= all.take(it.index() as int));
            assert(all.take(it.index() + 1).last() == all[it.index() as int]);
        }
    }
    assert(all.take(all.len() as int) =~= all);
    let ghost known = result@;
    let ghost last = chunk@;
    if chunk.len() > 0 {
        result.push(chunk);
        proof {
            assert(result@.drop_last() =~= known);
            assert(keys_in(last).len() > 0) by {
                assert(last[last.len() - 1].row_keys@.len() > 0);
            }
        }
    } else {
        proof {
            assert(keys_joined(result@) + keys_in(last) =~= keys_joined(result@));
            if result@.len() > 0 {
                assert(keys_in(result@[result@.len() - 1]@).len() == MAX_ROWS_PER_CHUNK);
            }
        }
    }
    proof {
        assert forall|i: int| 0 <= i < result@.len() implies is_keyed((#[trigger] result@[i])@) by {
            if i < known.len() {
                assert(result@[i] == known[i]);
            }
        }
        assert forall|i: int| 0 <= i < result@.len() - 1 implies keys_in(
            (#[trigger] result@[i])@,
        ).len() == MAX_ROWS_PER_CHUNK by {
            assert(result@[i] == known[i]);
        }
    }
    result
}

}
