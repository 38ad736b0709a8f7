//! The body of one slot - everything the server keeps about a single partition.
//!
//! ```text
//!   [0]     format   (u8)   1 = body as it is, 2 = body zstd-compressed
//!   [1..]   body
//!
//! body:
//!   rows_count (u32 LE)
//!   per row:  schema_id (u64 LE)  row_len (u32 LE)  row
//! ```
//!
//! `row` is the entity in its emit form - the client's bytes with TimeStamp and
//! Expires appended - so a restored row needs no fixing up and re-parses into
//! exactly what was stored. `schema_id` is per row on purpose: after a client
//! changes its entity, old and new rows live in the same partition and each
//! still names the schema it was written with.
//!
//! The format byte sits OUTSIDE the compressed area, so reading never has to
//! guess whether the body was compressed.

use super::binary_reader::{
    a_number_is_read_back, can_take, number_at, prefixed_at, prefixed_bytes,
    prefixed_bytes_are_read_back, take_error, write_u32_prefixed_bytes, BinaryReader,
};
use super::little_endian::{le_bytes, lemma_le_bytes_len, lemma_limits, write_le};
use crate::db::DbRow;
use crate::text::{append_decimal, decimal};
use std::sync::Arc;
use vstd::prelude::*;

verus! {

/// The body as it is.
pub const FORMAT_RAW: u8 = 1;

/// The body compressed.
pub const FORMAT_ZSTD: u8 = 2;

/// zstd level 3 is the library default - the usual balance of ratio and speed.
pub const ZSTD_LEVEL: i32 = 3;

/// What bytes are compressed into at a level, or why they are not.
pub uninterp spec fn zstd_encoded(bytes: Seq<u8>, level: i32) -> Result<Seq<u8>, Seq<char>>;

/// What bytes are decompressed into, or why they are not.
pub uninterp spec fn zstd_decoded(bytes: Seq<u8>) -> Result<Seq<u8>, Seq<char>>;

/// `zstd::encode_all`: a zstd frame of the bytes, made at the given level. What
/// it made decompresses into the bytes it was made of.
#[verifier::external_body]
fn zstd_encode(bytes: &[u8], level: i32) -> (r: Result<Vec<u8>, String>)
    requires
        1 <= level <= 19,
    ensures
        (match r {
            Ok(frame) => zstd_encoded(bytes@, level) == Ok::<Seq<u8>, Seq<char>>(frame@),
            Err(err) => zstd_encoded(bytes@, level) == Err::<Seq<u8>, Seq<char>>(err@),
        }),
        (r matches Ok(frame) ==> zstd_decoded(frame@) == Ok::<Seq<u8>, Seq<char>>(bytes@)),
{
    zstd::encode_all(bytes, level).map_err(|err| err.to_string())
}

/// `zstd::decode_all`: what the zstd frames in the bytes were made of, or why
/// there are none.
#[verifier::external_body]
fn zstd_decode(bytes: &[u8]) -> (r: Result<Vec<u8>, String>)
    ensures
        (match r {
            Ok(body) => zstd_decoded(bytes@) == Ok::<Seq<u8>, Seq<char>>(body@),
            Err(err) => zstd_decoded(bytes@) == Err::<Seq<u8>, Seq<char>>(err@),
        }),
{
    zstd::decode_all(bytes).map_err(|err| err.to_string())
}

/// A row as it came out of a partition's payload.
pub struct PersistedRow {
    pub schema_id: u64,
    pub row: Vec<u8>,
}

/// What a row is stored as.
#[verifier::ext_equal]
pub struct StoredRow {
    pub schema_id: nat,
    pub row: Seq<u8>,
}

impl View for PersistedRow {
    type V = StoredRow;

    open spec fn view(&self) -> StoredRow {
        StoredRow { schema_id: self.schema_id as nat, row: self.row@ }
    }
}

/// What is stored of a row.
pub open spec fn stored_row(db_row: DbRow) -> StoredRow {
    StoredRow { schema_id: db_row.schema_id as nat, row: db_row.content@ }
}

/// What is stored of some rows.
pub open spec fn stored_rows(db_rows: Seq<Arc<DbRow>>) -> Seq<StoredRow> {
    Seq::new(db_rows.len(), |i: int| stored_row(*db_rows[i]))
}

/// What came out of a payload.
pub open spec fn restored_rows(rows: Seq<PersistedRow>) -> Seq<StoredRow> {
    Seq::new(rows.len(), |i: int| rows[i]@)
}

/// The bytes of one row.
pub open spec fn row_bytes(row: StoredRow) -> Seq<u8> {
    le_bytes(row.schema_id, 8) + prefixed_bytes(row.row)
}

/// The bytes of some rows, one after the other.
pub open spec fn rows_bytes(rows: Seq<StoredRow>) -> Seq<u8>
    decreases rows.len(),
{
    if rows.len() == 0 {
        Seq::empty()
    } else {
        rows_bytes(rows.drop_last()) + row_bytes(rows.last())
    }
}

/// The body some rows are stored as.
pub open spec fn blob_body(rows: Seq<StoredRow>) -> Seq<u8> {
    le_bytes(rows.len(), 4) + rows_bytes(rows)
}

/// The payload some rows are stored as, or why there is none.
pub open spec fn blob(rows: Seq<StoredRow>, compress: bool) -> Result<Seq<u8>, Seq<char>> {
    if compress {
        match zstd_encoded(blob_body(rows), ZSTD_LEVEL) {
            Ok(frame) => Ok(seq![FORMAT_ZSTD] + frame),
            Err(err) => Err(err),
        }
    } else {
        Ok(seq![FORMAT_RAW] + blob_body(rows))
    }
}

/// The rows which stand in a body from an offset on, and where they end; or why
/// they can not be read.
pub open spec fn rows_at(body: Seq<u8>, pos: nat, count: nat) -> Result<
    (Seq<StoredRow>, nat),
    Seq<char>,
>
    decreases count,
{
    if count == 0 {
        Ok((Seq::empty(), pos))
    } else {
        match rows_at(body, pos, (count - 1) as nat) {
            Err(err) => Err(err),
            Ok((rows, at)) => if !can_take(body, at, 8) {
                Err(take_error(8, at, body.len()))
            } else {
                match prefixed_at(body, at + 8) {
                    (Ok(row), end) => Ok(
                        (rows.push(StoredRow { schema_id: number_at(body, at, 8), row }), end),
                    ),
                    (Err(err), _) => Err(err),
                }
            },
        }
    }
}

/// The rows of a body, or why they can not be read.
pub open spec fn body_rows(body: Seq<u8>) -> Result<Seq<StoredRow>, Seq<char>> {
    if !can_take(body, 0, 4) {
        Err(take_error(4, 0, body.len()))
    } else {
        match rows_at(body, 4, number_at(body, 0, 4)) {
            Err(err) => Err(err),
            Ok((rows, end)) => if end < body.len() {
                Err("partition payload has trailing bytes after its rows"@)
            } else {
                Ok(rows)
            },
        }
    }
}

/// The rows of a payload, or why they can not be read. What the compressed bytes
/// decompress into is given.
pub open spec fn blob_rows_of(
    payload: Seq<u8>,
    decompressed: Result<Seq<u8>, Seq<char>>,
) -> Result<Seq<StoredRow>, Seq<char>> {
    if payload.len() == 0 {
        Err("partition payload is empty"@)
    } else if payload[0] == FORMAT_RAW {
        body_rows(payload.skip(1))
    } else if payload[0] == FORMAT_ZSTD {
        match decompressed {
            Ok(body) => body_rows(body),
            Err(err) => Err("can not zstd-decompress the partition: "@ + err),
        }
    } else {
        Err("unknown partition payload format "@ + decimal(payload[0] as nat))
    }
}

/// The rows of a payload, or why they can not be read.
pub open spec fn blob_rows(payload: Seq<u8>) -> Result<Seq<StoredRow>, Seq<char>> {
    blob_rows_of(payload, zstd_decoded(payload.skip(1)))
}

fn write_body(db_rows: &[Arc<DbRow>]) -> (body: Vec<u8>)
    ensures
        body@ == blob_body(stored_rows(db_rows@)),
{
    let ghost stored = stored_rows(db_rows@);
    let mut body: Vec<u8> = Vec::new();
    write_le(&mut body, db_rows.len() as u64, 4);
    assert(stored.take(0) =~= Seq::<StoredRow>::empty());
    assert(body@ =~= le_bytes(stored.len(), 4) + rows_bytes(stored.take(0)));
    for i in 0..db_rows.len()
        invariant
            stored == stored_rows(db_rows@),
            body@ == le_bytes(stored.len(), 4) + rows_bytes(stored.take(i as int)),
    {
        let ghost before = body@;
        let db_row = &db_rows[i];
        write_le(&mut body, db_row.schema_id, 8);
        write_u32_prefixed_bytes(&mut body, db_row.content.as_slice());
        proof {
            assert(stored.take(i + 1).drop_last() =~= stored.take(i as int));
            assert(stored.take(i + 1).last() == stored_row(*db_rows@[i as int]));
            assert(body@ =~= before + row_bytes(stored[i as int]));
            assert(body@ =~= le_bytes(stored.len(), 4) + rows_bytes(stored.take(i + 1)));
        }
    }
    assert(stored.take(stored.len() as int) =~= stored);
    body
}

/// The payload of a partition with these rows. It fails only where the
/// compression does.
pub fn serialize(db_rows: &[Arc<DbRow>], compress: bool) -> (r: Result<Vec<u8>, String>)
    ensures
        match r {
            Ok(payload) => blob(stored_rows(db_rows@), compress) == Ok::<Seq<u8>, Seq<char>>(
                payload@,
            ),
            Err(err) => compress && blob(stored_rows(db_rows@), compress) == Err::<
                Seq<u8>,
                Seq<char>,
            >(err@),
        },
        r matches Ok(payload) ==> (stored_rows_fit(stored_rows(db_rows@)) ==> blob_rows(payload@)
            == Ok::<Seq<StoredRow>, Seq<char>>(stored_rows(db_rows@))),
{
    let body = write_body(db_rows);
    let ghost stored = stored_rows(db_rows@);
    if !compress {
        let mut result: Vec<u8> = Vec::new();
        result.push(FORMAT_RAW);
        result.extend_from_slice(body.as_slice());
        proof {
            assert(result@ =~= seq![FORMAT_RAW] + body@);
            if stored_rows_fit(stored) {
                a_raw_blob_is_read_back(stored);
            }
        }
        return Ok(result);
    }
    match zstd_encode(body.as_slice(), ZSTD_LEVEL) {
        Ok(compressed) => {
            let mut result: Vec<u8> = Vec::new();
            result.push(FORMAT_ZSTD);
            result.extend_from_slice(compressed.as_slice());
            proof {
                assert(result@ =~= seq![FORMAT_ZSTD] + compressed@);
                assert(result@.skip(1) =~= compressed@);
                if stored_rows_fit(stored) {
                    a_body_is_read_back(stored);
                }
            }
            Ok(result)
        },
        Err(err) => Err(err),
    }
}

fn read_body(body: &[u8]) -> (r: Result<Vec<PersistedRow>, String>)
    ensures
        match r {
            Ok(rows) => body_rows(body@) == Ok::<Seq<StoredRow>, Seq<char>>(restored_rows(rows@)),
            Err(err) => body_rows(body@) == Err::<Seq<StoredRow>, Seq<char>>(err@),
        },
{
    let mut reader = BinaryReader::new(body);
    let rows_count: u32 = match reader.read_u32() {
        Ok(rows_count) => rows_count,
        Err(err) => return Err(err),
    };
    // The count comes out of the payload, and a payload can be one an operator
    // uploaded as a backup, so it does not get to size an allocation: a failed
    // allocation is an abort nobody can catch, while a loop over a body which is
    // not there stops on the first read with nothing behind it.
    let mut result: Vec<PersistedRow> = Vec::new();
    assert(restored_rows(result@) =~= Seq::<StoredRow>::empty());
    for i in 0..rows_count
        invariant
            reader.wf(),
            reader.source() == body@,
            rows_count == number_at(body@, 0, 4),
            can_take(body@, 0, 4),
            rows_at(body@, 4, i as nat) == Ok::<(Seq<StoredRow>, nat), Seq<char>>(
                (restored_rows(result@), reader.position()),
            ),
    {
        let ghost before = restored_rows(result@);
        let schema_id: u64 = match reader.read_u64() {
            Ok(schema_id) => schema_id,
            Err(err) => {
                proof {
                    lemma_error_stays(body@, 4, (i + 1) as nat, rows_count as nat);
                }
                return Err(err);
            },
        };
        let row = match reader.read_u32_prefixed_bytes() {
            Ok(row) => row,
            Err(err) => {
                proof {
                    lemma_error_stays(body@, 4, (i + 1) as nat, rows_count as nat);
                }
                return Err(err);
            },
        };
        result.push(PersistedRow { schema_id, row });
        assert(restored_rows(result@) =~= before.push(
            StoredRow { schema_id: schema_id as nat, row: row@ },
        ));
    }
    if !reader.is_eof() {
        return Err("partition payload has trailing bytes after its rows".to_owned());
    }
    Ok(result)
}

/// The rows of a partition, out of its payload.
pub fn deserialize(payload: &[u8]) -> (r: Result<Vec<PersistedRow>, String>)
    ensures
        match r {
            Ok(rows) => blob_rows(payload@) == Ok::<Seq<StoredRow>, Seq<char>>(
                restored_rows(rows@),
            ),
            Err(err) => blob_rows(payload@) == Err::<Seq<StoredRow>, Seq<char>>(err@),
        },
{
    if payload.len() == 0 {
        return Err("partition payload is empty".to_owned());
    }
    let rest = &payload[1..payload.len()];
    assert(rest@ =~= payload@.skip(1));
    if payload[0] == FORMAT_ZSTD {
        let decompressed = zstd_decode(rest);
        return deserialize_with(payload, decompressed);
    }
    deserialize_with(payload, Ok(Vec::new()))
}

/// The rows of a partition, out of its payload and what the compressed part of
/// it decompresses into. A payload which is not compressed does not look at
/// that.
pub fn deserialize_with(payload: &[u8], decompressed: Result<Vec<u8>, String>) -> (r: Result<
    Vec<PersistedRow>,
    String,
>)
    ensures
        match r {
            Ok(rows) => blob_rows_of(payload@, texts_of(decompressed)) == Ok::<
                Seq<StoredRow>,
                Seq<char>,
            >(restored_rows(rows@)),
            Err(err) => blob_rows_of(payload@, texts_of(decompressed)) == Err::<
                Seq<StoredRow>,
                Seq<char>,
            >(err@),
        },
{
    if payload.len() == 0 {
        return Err("partition payload is empty".to_owned());
    }
    let format: u8 = payload[0];
    if format == FORMAT_RAW {
        let rest = &payload[1..payload.len()];
        assert(rest@ =~= payload@.skip(1));
        read_body(rest)
    } else if format == FORMAT_ZSTD {
        match decompressed {
            Ok(body) => read_body(body.as_slice()),
            Err(reason) => {
                let mut err = "can not zstd-decompress the partition: ".to_owned();
                err.append(reason.as_str());
                Err(err)
            },
        }
    } else {
        let mut err = "unknown partition payload format ".to_owned();
        append_decimal(&mut err, format as u128);
        Err(err)
    }
}

/// What a result of bytes or of a reason says.
pub open spec fn texts_of(r: Result<Vec<u8>, String>) -> Result<Seq<u8>, Seq<char>> {
    match r {
        Ok(bytes) => Ok(bytes@),
        Err(err) => Err(err@),
    }
}

proof fn lemma_error_stays(body: Seq<u8>, pos: nat, a: nat, b: nat)
    requires
        a <= b,
        rows_at(body, pos, a) is Err,
    ensures
        rows_at(body, pos, b) == rows_at(body, pos, a),
    decreases b,
{
    if a < b {
        lemma_error_stays(body, pos, a, (b - 1) as nat);
    }
}

/// Whether the lengths which are written in front of rows can hold them.
pub open spec fn stored_rows_fit(rows: Seq<StoredRow>) -> bool {
    &&& rows.len() < 0x1_0000_0000
    &&& forall|i: int|
        0 <= i < rows.len() ==> (#[trigger] rows[i]).row.len() < 0x1_0000_0000
            && rows[i].schema_id < 0x1_0000_0000_0000_0000
}

proof fn lemma_rows_are_read_back(front: Seq<u8>, rows: Seq<StoredRow>, after: Seq<u8>)
    requires
        stored_rows_fit(rows),
    ensures
        rows_at(front + rows_bytes(rows) + after, front.len(), rows.len()) == Ok::<
            (Seq<StoredRow>, nat),
            Seq<char>,
        >((rows, front.len() + rows_bytes(rows).len())),
    decreases rows.len(),
{
    let all = front + rows_bytes(rows) + after;
    if rows.len() == 0 {
        assert(rows =~= Seq::<StoredRow>::empty());
    } else {
        let earlier = rows.drop_last();
        let last = rows.last();
        let tail = row_bytes(last) + after;
        assert(all =~= front + rows_bytes(earlier) + tail);
        lemma_rows_are_read_back(front, earlier, tail);
        let before = front + rows_bytes(earlier);
        lemma_limits();
        assert(all =~= before + le_bytes(last.schema_id, 8) + (prefixed_bytes(last.row) + after));
        a_number_is_read_back(
            before,
            last.schema_id,
            8,
            prefixed_bytes(last.row) + after,
        );
        lemma_le_bytes_len(last.schema_id, 8);
        let further = before + le_bytes(last.schema_id, 8);
        assert(all =~= further + prefixed_bytes(last.row) + after);
        prefixed_bytes_are_read_back(further, last.row, after);
        assert(earlier.push(last) =~= rows);
    }
}

/// The rows of a body are read back as they were written.
pub proof fn a_body_is_read_back(rows: Seq<StoredRow>)
    requires
        stored_rows_fit(rows),
    ensures
        body_rows(blob_body(rows)) == Ok::<Seq<StoredRow>, Seq<char>>(rows),
{
    let body = blob_body(rows);
    let front = le_bytes(rows.len(), 4);
    lemma_limits();
    assert(body =~= Seq::<u8>::empty() + front + rows_bytes(rows));
    a_number_is_read_back(Seq::empty(), rows.len(), 4, rows_bytes(rows));
    lemma_le_bytes_len(rows.len(), 4);
    assert(body =~= front + rows_bytes(rows) + Seq::<u8>::empty());
    lemma_rows_are_read_back(front, rows, Seq::empty());
}

/// The rows of a partition stored as it is are read back as they were written.
/// For a compressed one `serialize` says so itself.
pub proof fn a_raw_blob_is_read_back(rows: Seq<StoredRow>)
    requires
        stored_rows_fit(rows),
    ensures
        blob(rows, false) is Ok,
        blob_rows(blob(rows, false)->Ok_0) == Ok::<Seq<StoredRow>, Seq<char>>(rows),
{
    a_body_is_read_back(rows);
    assert((seq![FORMAT_RAW] + blob_body(rows)).skip(1) =~= blob_body(rows));
}

}
