//! Who is told what, and in which pieces.

use super::chunker::{
    chunk_rows, is_cut_in_time, is_full, is_grouped, is_keyed, is_named, is_split, joined, keys_in,
    keys_joined, keys_of, lemma_seen_once, partition_chunk_rows, partitions_seen,
    rows_by_partition, rows_in, rows_of, rows_of_first, total_size, MAX_ROWS_PER_CHUNK,
};
use super::reader_session::{Backlog, ReaderSession};
use super::reader_sessions::{are_the_sessions, is_notified, is_session_in, SESSION_TTL_SECS};
use super::sync_chunk::{PartitionRows, SyncChunk};
use crate::db::{DbRow, PartitionRowKeys};
use crate::leases::is_expired;
use crate::transactions::registry::TRANSACTION_TTL_SECS;
use std::sync::Arc;
use vstd::prelude::*;

verus! {

/// A write is told to exactly the sessions of its namespace which are subscribed to its
/// table, each of them once, whatever they still have to be told.
pub proof fn a_write_is_told_to_every_subscriber(
    sessions: Map<Seq<char>, ReaderSession>,
    listed: Seq<&ReaderSession>,
    name_space: Seq<char>,
    table_name: Seq<char>,
)
    requires
        forall|id: Seq<char>| #[trigger] sessions.contains_key(id) ==> sessions[id].id@ == id,
        are_the_sessions(
            listed,
            sessions.restrict(
                Set::new(
                    |id: Seq<char>|
                        sessions.contains_key(id) && is_notified(
                            sessions[id],
                            name_space,
                            table_name,
                        ),
                ),
            ),
        ),
    ensures
        forall|id: Seq<char>| #[trigger]
            sessions.contains_key(id) ==> (listed.contains(&sessions[id])
                <==> sessions[id].namespace@ == name_space && sessions[id].tables().contains(
                table_name,
            )),
        forall|k: int|
            0 <= k < listed.len() ==> sessions.contains_key((#[trigger] listed[k]).id@)
                && sessions[listed[k].id@] == *listed[k],
        listed.no_duplicates(),
{
    let wanted = sessions.restrict(
        Set::new(
            |id: Seq<char>|
                sessions.contains_key(id) && is_notified(sessions[id], name_space, table_name),
        ),
    );
    assert forall|id: Seq<char>| #[trigger] sessions.contains_key(id) implies (listed.contains(
        &sessions[id],
    ) <==> sessions[id].namespace@ == name_space && sessions[id].tables().contains(table_name)) by {
        if listed.contains(&sessions[id]) {
            let k = choose|k: int| 0 <= k < listed.len() && listed[k] == &sessions[id];
            assert(wanted.contains_key(listed[k].id@));
        }
        if sessions[id].namespace@ == name_space && sessions[id].tables().contains(table_name) {
            assert(wanted.contains_key(id));
            assert(is_session_in(listed, id));
            let k = choose|k: int| 0 <= k < listed.len() && (#[trigger] listed[k]).id@ == id;
            assert(wanted[listed[k].id@] == *listed[k]);
            assert(listed[k] == &sessions[id]);
        }
    }
    assert forall|k: int| 0 <= k < listed.len() implies sessions.contains_key(
        (#[trigger] listed[k]).id@,
    ) && sessions[listed[k].id@] == *listed[k] by {
        assert(wanted.contains_key(listed[k].id@));
    }
    assert forall|i: int, j: int| 0 <= i < listed.len() && 0 <= j < listed.len() && i != j implies
        listed[i] != listed[j] by {
        if i < j {
            assert(listed[i].id@ != listed[j].id@);
        } else {
            assert(listed[j].id@ != listed[i].id@);
        }
    }
}

/// Whether a session is told of a write depends on its namespace and on what it is
/// subscribed to alone: not on its backlog, nor on when it last asked. Subscribing to a
/// table is all it takes.
pub proof fn a_backlog_does_not_unsubscribe(
    before: ReaderSession,
    after: ReaderSession,
    name_space: Seq<char>,
    table_name: Seq<char>,
)
    requires
        before.namespace@ == after.namespace@,
    ensures
        before.tables() == after.tables() ==> is_notified(before, name_space, table_name)
            == is_notified(after, name_space, table_name),
        after.tables() == before.tables().insert(table_name) ==> is_notified(
            after,
            after.namespace@,
            table_name,
        ),
        name_space != after.namespace@ ==> !is_notified(after, name_space, table_name),
{
}

/// A session stays the same session through everything which happens to it: what it said
/// in its greeting does not change.
pub proof fn a_session_stays_what_it_is(session: ReaderSession, other: ReaderSession)
    requires
        session.is_reader_of(&other),
    ensures
        session.id == other.id,
        session.namespace == other.namespace,
        session.app_name == other.app_name,
        session.version == other.version,
        session.ip == other.ip,
        session.connected == other.connected,
{
}

/// A backlog of up to a thousand chunks is kept whole and in order; one chunk more, and
/// nothing of it is kept. What is told first is what was queued first, and telling it
/// takes away nothing else.
pub proof fn a_backlog_is_kept_up_to_a_thousand(backlog: Backlog, chunks: Seq<SyncChunk>)
    ensures
        !backlog.overflowed && backlog.chunks.len() + chunks.len() <= 1000 ==> backlog.followed_by(
            chunks,
        ).chunks == backlog.chunks + chunks && !backlog.followed_by(chunks).overflowed,
        !backlog.overflowed && backlog.chunks.len() + chunks.len() > 1000 ==> backlog.followed_by(
            chunks,
        ).chunks.len() == 0 && backlog.followed_by(chunks).overflowed,
        backlog.overflowed ==> backlog.followed_by(chunks) == backlog,
        backlog.chunks.len() > 0 ==> backlog.chunks == seq![backlog.chunks[0]]
            + backlog.without_first().chunks,
        backlog.chunks.len() == 0 ==> backlog.without_first().chunks.len() == 0,
        backlog.without_first().overflowed == backlog.overflowed,
{
    if backlog.chunks.len() > 0 {
        assert(backlog.chunks =~= seq![backlog.chunks[0]] + backlog.without_first().chunks);
    }
}

/// What was asked for within its time stays, and what was not is forgotten. A session has
/// half a minute, a transaction a whole one.
pub proof fn what_is_asked_for_is_not_forgotten(last_seen: i64, now: i64, ttl_secs: i64)
    ensures
        is_expired(last_seen as int, now as int, ttl_secs as int) <==> now
            > last_seen + ttl_secs * 1_000_000,
        is_expired(last_seen as int, now as int, SESSION_TTL_SECS as int) <==> now - last_seen
            > 30_000_000,
        is_expired(last_seen as int, now as int, TRANSACTION_TTL_SECS as int) <==> now - last_seen
            > 60_000_000,
{
}

/// What some rows take together.
pub open spec fn bytes_of_rows(rows: Seq<Arc<DbRow>>) -> int {
    rows.fold_left(0int, |n: int, row: Arc<DbRow>| n + row.content_size as int)
}

proof fn lemma_bytes_of_rows(rows: Seq<Arc<DbRow>>)
    ensures
        total_size(rows) == bytes_of_rows(rows),
    decreases rows.len(),
{
    if rows.len() > 0 {
        lemma_bytes_of_rows(rows.drop_last());
    }
}

proof fn lemma_joined(chunks: Seq<Seq<Arc<DbRow>>>)
    ensures
        joined(chunks) == chunks.flatten(),
    decreases chunks.len(),
{
    chunks.lemma_flatten_and_flatten_alt_are_equivalent();
    if chunks.len() > 0 {
        lemma_joined(chunks.drop_last());
        chunks.drop_last().lemma_flatten_and_flatten_alt_are_equivalent();
    }
}

/// Whether a chunk is as large as a chunk has to be: a thousand rows, or a megabyte.
pub open spec fn is_large(rows: Seq<Arc<DbRow>>) -> bool {
    rows.len() >= 1000 || bytes_of_rows(rows) >= 1_048_576
}

/// Whether these chunks are the rows, one after the other, none lost, none twice and none
/// out of its place; every chunk has a row, is closed with the row which makes it large,
/// and only the last one may be smaller.
pub open spec fn is_whole_batch(chunks: Seq<Seq<Arc<DbRow>>>, rows: Seq<Arc<DbRow>>) -> bool {
    &&& chunks.flatten() == rows
    &&& forall|i: int|
        0 <= i < chunks.len() ==> {
            &&& 0 < (#[trigger] chunks[i]).len() <= 1000
            &&& !is_large(chunks[i].drop_last())
            &&& i < chunks.len() - 1 ==> is_large(chunks[i])
        }
}

proof fn lemma_whole_batch(chunks: Seq<Seq<Arc<DbRow>>>, rows: Seq<Arc<DbRow>>)
    requires
        is_split(chunks, rows),
    ensures
        is_whole_batch(chunks, rows),
{
    lemma_joined(chunks);
    assert forall|i: int| 0 <= i < chunks.len() implies {
        &&& 0 < (#[trigger] chunks[i]).len() <= 1000
        &&& !is_large(chunks[i].drop_last())
        &&& i < chunks.len() - 1 ==> is_large(chunks[i])
    } by {
        assert(is_cut_in_time(chunks[i]));
        lemma_bytes_of_rows(chunks[i]);
        lemma_bytes_of_rows(chunks[i].drop_last());
        if i < chunks.len() - 1 {
            assert(is_full(chunks[i]));
        }
    }
}

/// A batch of rows reaches a reader whole and in its order, in pieces of up to a thousand
/// rows and about a megabyte.
pub proof fn a_batch_arrives_whole(chunks: Seq<Vec<Arc<DbRow>>>, rows: Seq<Arc<DbRow>>)
    requires
        is_split(chunk_rows(chunks), rows),
    ensures
        is_whole_batch(Seq::new(chunks.len(), |i: int| chunks[i]@), rows),
{
    assert(chunk_rows(chunks) =~= Seq::new(chunks.len(), |i: int| chunks[i]@));
    lemma_whole_batch(chunk_rows(chunks), rows);
}

/// The rows of one partition among some, in their order.
pub open spec fn rows_with_key(rows: Seq<Arc<DbRow>>, key: Seq<char>) -> Seq<Arc<DbRow>> {
    rows.filter(|row: Arc<DbRow>| row.partition_key@ == key)
}

proof fn lemma_rows_with_key(rows: Seq<Arc<DbRow>>, key: Seq<char>)
    ensures
        rows_of(rows, key) == rows_with_key(rows, key),
    decreases rows.len(),
{
    reveal(Seq::filter);
    if rows.len() > 0 {
        lemma_rows_with_key(rows.drop_last(), key);
    }
}

/// Whether a partition is first seen before another one.
pub open spec fn is_seen_before(rows: Seq<Arc<DbRow>>, a: Seq<char>, b: Seq<char>) -> bool {
    exists|k: int| 0 <= k < rows.len() && #[trigger] is_first_look(rows, k, a, b)
}

/// Whether the row at a place is of the one partition, and none up to it is of the other.
pub open spec fn is_first_look(
    rows: Seq<Arc<DbRow>>,
    k: int,
    a: Seq<char>,
    b: Seq<char>,
) -> bool {
    &&& rows[k].partition_key@ == a
    &&& forall|i: int| 0 <= i <= k ==> (#[trigger] rows[i]).partition_key@ != b
}

proof fn lemma_seen_in_order(rows: Seq<Arc<DbRow>>)
    ensures
        forall|i: int, j: int|
            #![trigger partitions_seen(rows)[i], partitions_seen(rows)[j]]
            0 <= i < j < partitions_seen(rows).len() ==> is_seen_before(
                rows,
                partitions_seen(rows)[i],
                partitions_seen(rows)[j],
            ),
        forall|i: int| 0 <= i < rows.len() ==> partitions_seen(rows).contains(
            (#[trigger] rows[i]).partition_key@,
        ),
        forall|i: int| 0 <= i < partitions_seen(rows).len() ==> is_seen(
            rows,
            #[trigger] partitions_seen(rows)[i],
        ),
    decreases rows.len(),
{
    if rows.len() > 0 {
        let fewer = rows.drop_last();
        let before = partitions_seen(fewer);
        let seen = partitions_seen(rows);
        lemma_seen_in_order(fewer);
        let key = rows.last().partition_key@;
        assert(rows[rows.len() - 1] == rows.last());
        assert forall|i: int| 0 <= i < rows.len() implies seen.contains(
            (#[trigger] rows[i]).partition_key@,
        ) by {
            if i < fewer.len() {
                assert(fewer[i] == rows[i]);
                let k = choose|k: int| 0 <= k < before.len() && before[k] == fewer[i].partition_key@;
                assert(seen[k] == before[k]);
            } else if !before.contains(key) {
                assert(seen[before.len() as int] == key);
            }
        }
        assert forall|i: int| 0 <= i < seen.len() implies is_seen(rows, #[trigger] seen[i]) by {
            if i < before.len() {
                assert(is_seen(fewer, before[i]));
                let k = choose|k: int|
                    0 <= k < fewer.len() && (#[trigger] fewer[k]).partition_key@ == before[i];
                assert(rows[k].partition_key@ == seen[i]);
            }
        }
        assert forall|i: int, j: int|
            #![trigger seen[i], seen[j]]
            0 <= i < j < seen.len() implies is_seen_before(rows, seen[i], seen[j]) by {
            if j < before.len() {
                assert(is_seen_before(fewer, before[i], before[j]));
                let k = choose|k: int|
                    0 <= k < fewer.len() && #[trigger] is_first_look(fewer, k, before[i], before[j]);
                assert forall|m: int| 0 <= m <= k implies (#[trigger] rows[m]).partition_key@
                    != seen[j] by {
                    assert(fewer[m] == rows[m]);
                }
                assert(is_first_look(rows, k, seen[i], seen[j]));
            } else {
                assert(is_seen(fewer, before[i]));
                let k = choose|k: int|
                    0 <= k < fewer.len() && (#[trigger] fewer[k]).partition_key@ == before[i];
                assert forall|m: int| 0 <= m <= k implies (#[trigger] rows[m]).partition_key@
                    != seen[j] by {
                    assert(fewer[m] == rows[m]);
                    assert(before.contains(fewer[m].partition_key@));
                }
                assert(is_first_look(rows, k, seen[i], seen[j]));
            }
        }
    }
}

/// Whether a row is of the partition.
pub open spec fn is_seen(rows: Seq<Arc<DbRow>>, key: Seq<char>) -> bool {
    exists|k: int| 0 <= k < rows.len() && (#[trigger] rows[k]).partition_key@ == key
}

/// Grouping rows by partition loses none of them: every partition is there once, with all
/// of its rows in their order, and the partitions stand in the order they are first seen
/// in.
pub proof fn grouping_loses_nothing(groups: Seq<PartitionRows>, rows: Seq<Arc<DbRow>>)
    requires
        is_grouped(groups, rows),
    ensures
        forall|i: int|
            0 <= i < groups.len() ==> (#[trigger] groups[i]).rows@ == rows_with_key(
                rows,
                groups[i].partition_key@,
            ) && groups[i].rows@.len() > 0,
        forall|k: int|
            0 <= k < rows.len() ==> is_group_of(groups, (#[trigger] rows[k]).partition_key@),
        forall|i: int, j: int|
            #![trigger groups[i], groups[j]]
            0 <= i < j < groups.len() ==> groups[i].partition_key@ != groups[j].partition_key@
                && is_seen_before(rows, groups[i].partition_key@, groups[j].partition_key@),
{
    let seen = partitions_seen(rows);
    lemma_seen_once(rows);
    lemma_seen_in_order(rows);
    assert forall|i: int| 0 <= i < groups.len() implies (#[trigger] groups[i]).rows@
        == rows_with_key(rows, groups[i].partition_key@) && groups[i].rows@.len() > 0 by {
        lemma_rows_with_key(rows, groups[i].partition_key@);
        assert(seen.contains(seen[i]));
    }
    assert forall|k: int| 0 <= k < rows.len() implies is_group_of(
        groups,
        (#[trigger] rows[k]).partition_key@,
    ) by {
        let key = rows[k].partition_key@;
        assert(seen.contains(key));
        let i = choose|i: int| 0 <= i < seen.len() && seen[i] == key;
        assert(groups[i].partition_key@ == key);
    }
    assert forall|i: int, j: int|
        #![trigger groups[i], groups[j]]
        0 <= i < j < groups.len() implies groups[i].partition_key@ != groups[j].partition_key@
        && is_seen_before(rows, groups[i].partition_key@, groups[j].partition_key@) by {
        assert(groups[i].partition_key@ == seen[i] && groups[j].partition_key@ == seen[j]);
    }
}

/// Whether some group is of the partition.
pub open spec fn is_group_of(groups: Seq<PartitionRows>, key: Seq<char>) -> bool {
    exists|i: int| 0 <= i < groups.len() && (#[trigger] groups[i]).partition_key@ == key
}

/// The rows of some pieces, one piece after the other.
pub open spec fn rows_of_pieces(pieces: Seq<PartitionRows>) -> Seq<Arc<DbRow>> {
    Seq::new(pieces.len(), |i: int| pieces[i].rows@).flatten()
}

proof fn lemma_rows_in(pieces: Seq<PartitionRows>)
    ensures
        rows_in(pieces) == rows_of_pieces(pieces),
    decreases pieces.len(),
{
    let rows = Seq::new(pieces.len(), |i: int| pieces[i].rows@);
    rows.lemma_flatten_and_flatten_alt_are_equivalent();
    if pieces.len() > 0 {
        lemma_rows_in(pieces.drop_last());
        let fewer = Seq::new(pieces.drop_last().len(), |i: int| pieces.drop_last()[i].rows@);
        assert(rows.drop_last() =~= fewer);
        fewer.lemma_flatten_and_flatten_alt_are_equivalent();
    }
}

/// The rows of a partition among those of the first partitions.
proof fn lemma_rows_of_first(rows: Seq<Arc<DbRow>>, n: nat, key: Seq<char>)
    requires
        n <= partitions_seen(rows).len(),
    ensures
        rows_with_key(rows_of_first(rows, n), key) == (if partitions_seen(rows).take(
            n as int,
        ).contains(key) {
            rows_with_key(rows, key)
        } else {
            Seq::empty()
        }),
    decreases n,
{
    reveal(Seq::filter);
    let seen = partitions_seen(rows);
    let wanted = |row: Arc<DbRow>| row.partition_key@ == key;
    if n > 0 {
        lemma_rows_of_first(rows, (n - 1) as nat, key);
        lemma_seen_once(rows);
        let front = rows_of_first(rows, (n - 1) as nat);
        let back = rows_of(rows, seen[n - 1]);
        Seq::filter_distributes_over_add(front, back, wanted);
        lemma_rows_with_key(rows, seen[n - 1]);
        lemma_filter_twice(rows, seen[n - 1], key);
        assert(seen.take(n as int).contains(key) <==> seen.take(n - 1).contains(key) || seen[n - 1]
            == key) by {
            if seen.take(n - 1).contains(key) {
                let k = seen.take(n - 1).index_of(key);
                assert(seen.take(n as int)[k] == key);
            }
            if seen.take(n as int).contains(key) {
                let k = seen.take(n as int).index_of(key);
                if k < n - 1 {
                    assert(seen.take(n - 1)[k] == key);
                }
            }
            assert(seen.take(n as int)[n - 1] == seen[n - 1]);
        }
        if seen.take(n - 1).contains(key) {
            let k = seen.take(n - 1).index_of(key);
            assert(seen[k] == key);
            assert(seen[n - 1] != key);
        }
        assert(rows_with_key(rows_of_first(rows, n), key) =~= rows_with_key(front, key)
            + rows_with_key(back, key));
    }
}

/// Of the rows of a partition all are of it, and none is of another one.
proof fn lemma_filter_twice(rows: Seq<Arc<DbRow>>, key: Seq<char>, other: Seq<char>)
    ensures
        rows_with_key(rows_with_key(rows, key), other) == (if key == other {
            rows_with_key(rows, key)
        } else {
            Seq::empty()
        }),
    decreases rows.len(),
{
    reveal(Seq::filter);
    if rows.len() > 0 {
        lemma_filter_twice(rows.drop_last(), key, other);
        let fewer = rows_with_key(rows.drop_last(), key);
        if rows.last().partition_key@ == key {
            assert(rows_with_key(rows, key) == fewer.push(rows.last()));
            assert(fewer.push(rows.last()).drop_last() =~= fewer);
        }
    }
}

/// The rows of `InitPartitions` arrive whole: of every partition all of its rows, in their
/// order, cut like any other batch; every piece is named after the partition its rows are
/// of.
pub proof fn partitions_arrive_whole(chunks: Seq<Vec<PartitionRows>>, rows: Seq<Arc<DbRow>>)
    requires
        is_split(partition_chunk_rows(chunks), rows_by_partition(rows)),
        forall|i: int| 0 <= i < chunks.len() ==> is_named((#[trigger] chunks[i])@),
    ensures
        is_whole_batch(
            Seq::new(chunks.len(), |i: int| rows_of_pieces(chunks[i]@)),
            rows_by_partition(rows),
        ),
        forall|key: Seq<char>| #[trigger]
            rows_with_key(rows_by_partition(rows), key) == rows_with_key(rows, key),
        forall|i: int, k: int, j: int|
            0 <= i < chunks.len() && 0 <= k < chunks[i]@.len() && 0 <= j
                < chunks[i]@[k].rows@.len() ==> (#[trigger] chunks[i]@[k].rows@[j]).partition_key@
                == chunks[i]@[k].partition_key@,
        forall|i: int, k: int|
            0 <= i < chunks.len() && 0 <= k < chunks[i]@.len() ==> (
            #[trigger] chunks[i]@[k]).rows@.len() > 0 && (k + 1 < chunks[i]@.len()
                ==> chunks[i]@[k].partition_key@ != chunks[i]@[k + 1].partition_key@),
{
    let pieces = Seq::new(chunks.len(), |i: int| rows_of_pieces(chunks[i]@));
    assert forall|i: int| 0 <= i < chunks.len() implies #[trigger] partition_chunk_rows(chunks)[i]
        == pieces[i] by {
        lemma_rows_in(chunks[i]@);
    }
    assert(partition_chunk_rows(chunks) =~= pieces);
    lemma_whole_batch(pieces, rows_by_partition(rows));
    let seen = partitions_seen(rows);
    assert forall|key: Seq<char>| #[trigger]
        rows_with_key(rows_by_partition(rows), key) == rows_with_key(rows, key) by {
        lemma_rows_of_first(rows, seen.len(), key);
        lemma_seen_once(rows);
        lemma_rows_with_key(rows, key);
        assert(seen.take(seen.len() as int) =~= seen);
        if !seen.contains(key) {
            assert(rows_with_key(rows, key) =~= Seq::empty());
        }
    }
    assert forall|i: int, k: int, j: int|
        0 <= i < chunks.len() && 0 <= k < chunks[i]@.len() && 0 <= j
            < chunks[i]@[k].rows@.len() implies (#[trigger] chunks[i]@[k].rows@[j]).partition_key@
        == chunks[i]@[k].partition_key@ by {
        assert(is_named(chunks[i]@));
    }
    assert forall|i: int, k: int| 0 <= i < chunks.len() && 0 <= k < chunks[i]@.len() implies (
    #[trigger] chunks[i]@[k]).rows@.len() > 0 && (k + 1 < chunks[i]@.len()
        ==> chunks[i]@[k].partition_key@ != chunks[i]@[k + 1].partition_key@) by {
        assert(is_named(chunks[i]@));
        if k + 1 < chunks[i]@.len() {
            let next = chunks[i]@[k + 1];
        }
    }
}

/// The keys of some partitions, one after the other, each with its partition.
pub open spec fn keys_of_pieces(pieces: Seq<PartitionRowKeys>) -> Seq<(Seq<char>, Seq<char>)> {
    Seq::new(
        pieces.len(),
        |i: int|
            pieces[i].row_keys@.map_values(
                |key: String| (pieces[i].partition_key@, key@),
            ),
    ).flatten()
}

proof fn lemma_keys_in(pieces: Seq<PartitionRowKeys>)
    ensures
        keys_in(pieces) == keys_of_pieces(pieces),
    decreases pieces.len(),
{
    let keys = Seq::new(
        pieces.len(),
        |i: int|
            pieces[i].row_keys@.map_values(|key: String| (pieces[i].partition_key@, key@)),
    );
    keys.lemma_flatten_and_flatten_alt_are_equivalent();
    if pieces.len() > 0 {
        let front = pieces.drop_last();
        lemma_keys_in(front);
        let fewer = Seq::new(
            front.len(),
            |i: int|
                front[i].row_keys@.map_values(|key: String| (front[i].partition_key@, key@)),
        );
        assert forall|i: int| 0 <= i < fewer.len() implies #[trigger] fewer[i] == keys[i] by {
            assert(front[i] == pieces[i]);
            assert(fewer[i] =~= keys[i]);
        }
        assert(keys.drop_last() =~= fewer);
        fewer.lemma_flatten_and_flatten_alt_are_equivalent();
        assert(keys_of(pieces.last()) =~= keys.last());
    }
}

/// The keys of a delete arrive whole and in their order, each with the partition it is of,
/// a thousand at a time.
pub proof fn deleted_keys_arrive_whole(
    chunks: Seq<Vec<PartitionRowKeys>>,
    partitions: Seq<PartitionRowKeys>,
)
    requires
        keys_joined(chunks) == keys_in(partitions),
        forall|i: int| 0 <= i < chunks.len() ==> is_keyed((#[trigger] chunks[i])@),
        forall|i: int|
            0 <= i < chunks.len() - 1 ==> keys_in((#[trigger] chunks[i])@).len()
                == MAX_ROWS_PER_CHUNK,
        chunks.len() > 0 ==> 1 <= keys_in(chunks.last()@).len() <= MAX_ROWS_PER_CHUNK,
    ensures
        Seq::new(chunks.len(), |i: int| keys_of_pieces(chunks[i]@)).flatten() == keys_of_pieces(
            partitions,
        ),
        forall|i: int|
            0 <= i < chunks.len() - 1 ==> keys_of_pieces((#[trigger] chunks[i])@).len() == 1000,
        chunks.len() > 0 ==> 1 <= keys_of_pieces(chunks.last()@).len() <= 1000,
        forall|i: int, k: int|
            0 <= i < chunks.len() && 0 <= k < chunks[i]@.len() ==> (
            #[trigger] chunks[i]@[k]).row_keys@.len() > 0 && (k + 1 < chunks[i]@.len()
                ==> chunks[i]@[k].partition_key@ != chunks[i]@[k + 1].partition_key@),
{
    assert forall|i: int, k: int| 0 <= i < chunks.len() && 0 <= k < chunks[i]@.len() implies (
    #[trigger] chunks[i]@[k]).row_keys@.len() > 0 && (k + 1 < chunks[i]@.len()
        ==> chunks[i]@[k].partition_key@ != chunks[i]@[k + 1].partition_key@) by {
        assert(is_keyed(chunks[i]@));
        if k + 1 < chunks[i]@.len() {
            let next = chunks[i]@[k + 1];
        }
    }
    lemma_keys_in(partitions);
    lemma_keys_joined(chunks);
    assert forall|i: int| 0 <= i < chunks.len() implies keys_of_pieces((#[trigger] chunks[i])@)
        == keys_in(chunks[i]@) by {
        lemma_keys_in(chunks[i]@);
    }
}

proof fn lemma_keys_joined(chunks: Seq<Vec<PartitionRowKeys>>)
    ensures
        keys_joined(chunks) == Seq::new(
            chunks.len(),
            |i: int| keys_of_pieces(chunks[i]@),
        ).flatten(),
    decreases chunks.len(),
{
    let keys = Seq::new(chunks.len(), |i: int| keys_of_pieces(chunks[i]@));
    keys.lemma_flatten_and_flatten_alt_are_equivalent();
    if chunks.len() > 0 {
        let front = chunks.drop_last();
        lemma_keys_joined(front);
        lemma_keys_in(chunks.last()@);
        let fewer = Seq::new(front.len(), |i: int| keys_of_pieces(front[i]@));
        assert(keys.drop_last() =~= fewer);
        fewer.lemma_flatten_and_flatten_alt_are_equivalent();
    }
}

}
