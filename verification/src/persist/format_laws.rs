//! How everything is written, byte by byte: what another build, or another tool, has to
//! expect of the files.

use super::base64url::{
    all_symbols, decoded, encoded, symbol, symbol_value, triple,
};
use super::binary_reader::number_at;
use super::little_endian::{le_bytes, le_value, lemma_le_bytes_len};
use super::partition_blob::{
    a_body_is_read_back, blob, blob_rows_of, body_rows, row_bytes, rows_at, rows_bytes,
    stored_rows, stored_rows_fit, StoredRow,
};
use super::slot::{crc32, keys_fit, slot_body, slot_bytes, slot_covered, SlotRecord};
use crate::db::DbRow;
use crate::text::{decimal, mentions, signed_decimal};
use std::sync::Arc;
use vstd::arithmetic::div_mod::lemma_div_denominator;
use vstd::arithmetic::power::{lemma_pow0, lemma_pow_positive, pow};
use vstd::prelude::*;
use vstd::utf8::encode_utf8;

verus! {

/// A digit of a number to the base of 256, the lowest one first.
pub open spec fn digit(value: nat, i: nat) -> u8 {
    (value as int / pow(256, i) % 256) as u8
}

/// Whether some bytes are a number of so many bytes, the lowest byte first.
pub open spec fn is_number(bytes: Seq<u8>, value: nat, width: nat) -> bool {
    &&& bytes.len() == width
    &&& forall|i: int| 0 <= i < width ==> #[trigger] bytes[i] == digit(value, i as nat)
}

/// Numbers are written with their lowest byte first.
pub proof fn numbers_are_little_endian(value: nat, width: nat)
    ensures
        is_number(le_bytes(value, width), value, width),
    decreases width,
{
    lemma_le_bytes_len(value, width);
    if width > 0 {
        let rest = le_bytes(value / 256, (width - 1) as nat);
        numbers_are_little_endian(value / 256, (width - 1) as nat);
        assert forall|i: int| 0 <= i < width implies #[trigger] le_bytes(value, width)[i] == digit(
            value,
            i as nat,
        ) by {
            if i == 0 {
                lemma_pow0(256);
            } else {
                let below = pow(256, (i - 1) as nat);
                assert(le_bytes(value, width)[i] == rest[i - 1]);
                assert(pow(256, i as nat) == 256 * below) by {
                    reveal(pow);
                }
                lemma_pow_positive(256, (i - 1) as nat);
                lemma_div_denominator(value as int, 256, below);
            }
        }
    }
}

/// A slot is laid out as: the checksum of what follows, the version, the length of the
/// body, then the body - the lengths of the two keys, the keys and the payload - and zeros
/// up to its end.
pub proof fn a_slot_is_laid_out(size_class: u32, record: SlotRecord)
    requires
        keys_fit(record.table_name, record.partition_key),
        20 + encode_utf8(record.table_name).len() + encode_utf8(record.partition_key).len()
            + record.payload.len() <= size_class,
    ensures
        ({
            let bytes = slot_bytes(size_class as nat, record);
            let table = encode_utf8(record.table_name);
            let key = encode_utf8(record.partition_key);
            let body_len = 4int + table.len() + key.len() + record.payload.len();
            let keys_end = 20int + table.len() + key.len();
            &&& bytes.len() == size_class
            &&& is_number(
                bytes.subrange(0, 4),
                crc32(bytes.subrange(4, 16 + body_len)) as nat,
                4,
            )
            &&& is_number(bytes.subrange(4, 12), record.version, 8)
            &&& is_number(bytes.subrange(12, 16), body_len as nat, 4)
            &&& is_number(bytes.subrange(16, 18), table.len(), 2)
            &&& is_number(bytes.subrange(18, 20), key.len(), 2)
            &&& bytes.subrange(20, 20 + table.len() as int) == table
            &&& bytes.subrange(20 + table.len() as int, keys_end) == key
            &&& bytes.subrange(keys_end, 16 + body_len) == record.payload
            &&& forall|i: int| 16 + body_len <= i < size_class ==> #[trigger] bytes[i] == 0
        }),
{
    let bytes = slot_bytes(size_class as nat, record);
    let table = encode_utf8(record.table_name);
    let key = encode_utf8(record.partition_key);
    let body = slot_body(record.table_name, record.partition_key, record.payload);
    let covered = slot_covered(record);
    numbers_are_little_endian(table.len(), 2);
    numbers_are_little_endian(key.len(), 2);
    numbers_are_little_endian(record.version, 8);
    numbers_are_little_endian(body.len(), 4);
    numbers_are_little_endian(crc32(covered) as nat, 4);
    assert(bytes.subrange(0, 4) =~= le_bytes(crc32(covered) as nat, 4));
    assert(bytes.subrange(4, 16 + body.len() as int) =~= covered);
    assert(bytes.subrange(4, 12) =~= le_bytes(record.version, 8));
    assert(bytes.subrange(12, 16) =~= le_bytes(body.len(), 4));
    assert(bytes.subrange(16, 18) =~= le_bytes(table.len(), 2));
    assert(bytes.subrange(18, 20) =~= le_bytes(key.len(), 2));
    assert(bytes.subrange(20, 20 + table.len() as int) =~= table);
    assert(bytes.subrange(20 + table.len() as int, 20 + table.len() + key.len() as int) =~= key);
    assert(bytes.subrange(20 + table.len() + key.len() as int, 16 + body.len() as int)
        =~= record.payload);
}

/// Whether some bytes are a row: its schema, the length of its content, and its content.
pub open spec fn is_row(bytes: Seq<u8>, row: StoredRow) -> bool {
    &&& bytes.len() == 12 + row.row.len()
    &&& is_number(bytes.subrange(0, 8), row.schema_id, 8)
    &&& is_number(bytes.subrange(8, 12), row.row.len(), 4)
    &&& bytes.skip(12) == row.row
}

/// A payload which is not compressed is a one, the number of its rows, and the rows, one
/// after the other. Every row of the partition is in it, with its schema and its content.
pub proof fn a_payload_is_laid_out(rows: Seq<Arc<DbRow>>, pieces: Seq<Seq<u8>>)
    requires
        pieces.len() == rows.len(),
        forall|i: int|
            0 <= i < rows.len() ==> is_row(
                #[trigger] pieces[i],
                (StoredRow { schema_id: rows[i].schema_id as nat, row: rows[i].content@ }),
            ),
    ensures
        ({
            &&& blob(stored_rows(rows), false) matches Ok(payload)
            &&& payload.len() >= 5
            &&& payload[0] == 1
            &&& is_number(payload.subrange(1, 5), rows.len(), 4)
            &&& payload.skip(5) == pieces.flatten()
        }),
{
    let stored = stored_rows(rows);
    let payload = blob(stored, false)->Ok_0;
    numbers_are_little_endian(rows.len(), 4);
    assert(payload.subrange(1, 5) =~= le_bytes(rows.len(), 4));
    assert forall|i: int| 0 <= i < stored.len() implies is_row(
        #[trigger] pieces[i],
        stored[i],
    ) by {}
    lemma_rows_laid_out(stored, pieces);
    assert(payload.skip(5) =~= rows_bytes(stored));
}

proof fn lemma_rows_laid_out(rows: Seq<StoredRow>, pieces: Seq<Seq<u8>>)
    requires
        pieces.len() == rows.len(),
        forall|i: int| 0 <= i < rows.len() ==> is_row(#[trigger] pieces[i], rows[i]),
    ensures
        rows_bytes(rows) == pieces.flatten(),
    decreases rows.len(),
{
    pieces.lemma_flatten_and_flatten_alt_are_equivalent();
    if rows.len() > 0 {
        let fewer = pieces.drop_last();
        assert forall|i: int| 0 <= i < rows.drop_last().len() implies is_row(
            #[trigger] fewer[i],
            rows.drop_last()[i],
        ) by {
            assert(is_row(pieces[i], rows[i]));
        }
        lemma_rows_laid_out(rows.drop_last(), fewer);
        fewer.lemma_flatten_and_flatten_alt_are_equivalent();
        let last = rows.last();
        let piece = pieces[pieces.len() - 1];
        numbers_are_little_endian(last.schema_id, 8);
        numbers_are_little_endian(last.row.len(), 4);
        assert(is_row(piece, last));
        assert forall|i: int| 0 <= i < piece.len() implies #[trigger] row_bytes(last)[i]
            == piece[i] by {
            if i < 8 {
                assert(piece.subrange(0, 8)[i] == piece[i]);
            } else if i < 12 {
                assert(piece.subrange(8, 12)[i - 8] == piece[i]);
                assert(row_bytes(last)[i] == le_bytes(last.row.len(), 4)[i - 8]);
            } else {
                assert(piece.skip(12)[i - 12] == piece[i]);
            }
        }
        assert(row_bytes(last) =~= piece);
    }
}

/// The alphabet names and schemas are encoded with.
pub open spec fn alphabet() -> Seq<char> {
    "ABCDEFGHIJKLMNOPQRSTUVWXYZabcdefghijklmnopqrstuvwxyz0123456789-_"@
}

/// A symbol stands in the alphabet at its value.
proof fn lemma_alphabet()
    ensures
        alphabet().len() == 64,
        forall|v: int| 0 <= v < 64 ==> symbol(v) == #[trigger] alphabet()[v],
{
    reveal_strlit("ABCDEFGHIJKLMNOPQRSTUVWXYZabcdefghijklmnopqrstuvwxyz0123456789-_");
}

/// The six bits the symbol at a place stands for. What is beyond the end counts as zero.
pub open spec fn six_bits(src: Seq<u8>, i: int) -> int {
    let group = i / 4;
    let byte = |k: int|
        if 3 * group + k < src.len() {
            src[3 * group + k] as int
        } else {
            0
        };
    if i % 4 == 0 {
        byte(0) / 4
    } else if i % 4 == 1 {
        byte(0) % 4 * 16 + byte(1) / 16
    } else if i % 4 == 2 {
        byte(1) % 16 * 4 + byte(2) / 64
    } else {
        byte(2) % 64
    }
}

/// The bits of one group of bytes.
proof fn lemma_group_bits(b0: u8, b1: u8, b2: u8)
    ensures
        triple(b0, b1, b2) / 0x4_0000 == b0 as int / 4,
        triple(b0, b1, b2) / 0x1000 % 64 == b0 as int % 4 * 16 + b1 as int / 16,
        triple(b0, b1, b2) / 64 % 64 == b1 as int % 16 * 4 + b2 as int / 64,
        triple(b0, b1, b2) % 64 == b2 as int % 64,
{
    let n = triple(b0, b1, b2);
    let p = b0 as int / 4;
    let x = b0 as int % 4 * 16 + b1 as int / 16;
    let y = b1 as int % 16 * 4 + b2 as int / 64;
    let u = b2 as int % 64;
    assert(0 <= p < 64 && 0 <= x < 64 && 0 <= y < 64 && 0 <= u < 64);
    assert(b0 == 4 * p + b0 as int % 4);
    assert(b1 == 16 * (b1 as int / 16) + b1 as int % 16);
    assert(b2 == 64 * (b2 as int / 64) + u);
    assert(n == p * 0x4_0000 + x * 0x1000 + y * 64 + u);
    lemma_sextets(p, x, y, u);
}

/// Four groups of six bits are found again in the number they make up.
proof fn lemma_sextets(p: int, x: int, y: int, u: int)
    requires
        0 <= p < 64,
        0 <= x < 64,
        0 <= y < 64,
        0 <= u < 64,
    ensures
        (p * 0x4_0000 + x * 0x1000 + y * 64 + u) / 0x4_0000 == p,
        (p * 0x4_0000 + x * 0x1000 + y * 64 + u) / 0x1000 % 64 == x,
        (p * 0x4_0000 + x * 0x1000 + y * 64 + u) / 64 % 64 == y,
        (p * 0x4_0000 + x * 0x1000 + y * 64 + u) % 64 == u,
{
    let n = p * 0x4_0000 + x * 0x1000 + y * 64 + u;
    assert(n / 0x1000 == p * 64 + x);
    assert(n / 64 == p * 0x1000 + x * 64 + y);
}

/// What is encoded is encoded six bits at a time, with the alphabet of base64url and
/// without padding, so that any tool can read it.
pub proof fn encoding_is_base64url(src: Seq<u8>)
    ensures
        3 * encoded(src).len() - 4 * src.len() >= 0,
        3 * encoded(src).len() - 4 * src.len() <= 2,
        forall|i: int|
            0 <= i < encoded(src).len() ==> 0 <= six_bits(src, i) < 64 && #[trigger] encoded(src)[i]
                == alphabet()[six_bits(src, i)],
    decreases src.len(),
{
    lemma_alphabet();
    if src.len() == 0 {
    } else if src.len() == 1 {
        lemma_group_bits(src[0], 0, 0);
    } else if src.len() == 2 {
        lemma_group_bits(src[0], src[1], 0);
    } else {
        let rest = src.skip(3);
        lemma_group_bits(src[0], src[1], src[2]);
        encoding_is_base64url(rest);
        assert forall|i: int| 0 <= i < encoded(src).len() implies 0 <= six_bits(src, i) < 64
            && #[trigger] encoded(src)[i] == alphabet()[six_bits(src, i)] by {
            if i >= 4 {
                assert(encoded(src)[i] == encoded(rest)[i - 4]);
                assert((i - 4) / 4 == i / 4 - 1);
                assert((i - 4) % 4 == i % 4);
                assert(six_bits(rest, i - 4) == six_bits(src, i));
            }
        }
    }
}

/// A text decodes where it is made of the alphabet and its length is one an encoding can
/// have; anything else is refused.
pub proof fn what_decodes(src: Seq<char>)
    ensures
        decoded(src) is Some <==> src.len() % 4 != 1 && forall|i: int|
            0 <= i < src.len() ==> #[trigger] alphabet().contains(src[i]),
    decreases src.len(),
{
    lemma_alphabet();
    assert forall|c: char| #[trigger] alphabet().contains(c) <==> symbol_value(c) is Some by {
        if alphabet().contains(c) {
            let v = alphabet().index_of(c);
            assert(symbol(v) == c);
        }
        if symbol_value(c) is Some {
            let v = symbol_value(c)->0;
            assert(alphabet()[v] == symbol(v));
            assert(symbol(v) == c);
        }
    }
    if src.len() >= 4 {
        let rest = src.skip(4);
        let group = src.take(4);
        what_decodes(rest);
        assert(rest.len() % 4 == src.len() % 4);
        if forall|i: int| 0 <= i < src.len() ==> #[trigger] alphabet().contains(src[i]) {
            assert forall|i: int| 0 <= i < rest.len() implies #[trigger] alphabet().contains(
                rest[i],
            ) by {
                assert(alphabet().contains(src[i + 4]));
            }
            assert forall|i: int| 0 <= i < 4 implies symbol_value(#[trigger] group[i]) is Some by {
                assert(alphabet().contains(src[i]));
            }
        }
        if decoded(src) is Some {
            assert forall|i: int| 0 <= i < src.len() implies #[trigger] alphabet().contains(
                src[i],
            ) by {
                if i < 4 {
                    assert(symbol_value(group[i]) is Some);
                } else {
                    assert(alphabet().contains(rest[i - 4]));
                }
            }
        }
    } else if decoded(src) is Some {
        assert forall|i: int| 0 <= i < src.len() implies #[trigger] alphabet().contains(
            src[i],
        ) by {
            assert(symbol_value(src[i]) is Some);
        }
    } else if src.len() % 4 != 1 {
        if forall|i: int| 0 <= i < src.len() ==> #[trigger] alphabet().contains(src[i]) {
            assert forall|i: int| 0 <= i < src.len() implies symbol_value(#[trigger] src[i]) is Some by {
                assert(alphabet().contains(src[i]));
            }
            assert(all_symbols(src));
        }
    }
}

/// What bytes stand for is written as those bytes.
proof fn lemma_read_then_write(bytes: Seq<u8>)
    ensures
        le_bytes(le_value(bytes), bytes.len()) == bytes,
    decreases bytes.len(),
{
    if bytes.len() > 0 {
        let rest = bytes.drop_first();
        lemma_read_then_write(rest);
        let value = le_value(bytes);
        assert(value % 256 == bytes[0] && value / 256 == le_value(rest));
        assert(le_bytes(value, bytes.len()) =~= bytes);
    } else {
        assert(le_bytes(0, 0) =~= bytes);
    }
}

proof fn lemma_rows_read(body: Seq<u8>, pos: nat, count: nat)
    requires
        pos <= body.len(),
    ensures
        rows_at(body, pos, count) matches Ok((rows, end)) ==> {
            &&& rows.len() == count
            &&& pos <= end <= body.len()
            &&& body.subrange(pos as int, end as int) == rows_bytes(rows)
        },
    decreases count,
{
    if count == 0 {
        assert(body.subrange(pos as int, pos as int) =~= Seq::<u8>::empty());
    } else {
        lemma_rows_read(body, pos, (count - 1) as nat);
        if let Ok((rows, end)) = rows_at(body, pos, count) {
            let (before, at) = rows_at(body, pos, (count - 1) as nat)->Ok_0;
            let id = body.subrange(at as int, (at + 8) as int);
            let len = body.subrange((at + 8) as int, (at + 12) as int);
            let row = rows.last();
            lemma_read_then_write(id);
            lemma_read_then_write(len);
            assert(rows.drop_last() =~= before);
            assert(row_bytes(row) =~= body.subrange(at as int, end as int));
            assert(body.subrange(pos as int, end as int) =~= body.subrange(pos as int, at as int)
                + body.subrange(at as int, end as int));
        }
    }
}

/// Rows are read out of a payload only where all of it is there: a payload which is cut off,
/// has something behind its rows, or is of no known format is refused, and nothing is read
/// out of one which does not decompress.
pub proof fn nothing_but_a_whole_payload_is_read(
    payload: Seq<u8>,
    decompressed: Result<Seq<u8>, Seq<char>>,
)
    ensures
        blob_rows_of(payload, decompressed) matches Ok(rows) ==> {
            &&& payload.len() > 0
            &&& payload[0] == 1 || payload[0] == 2
            &&& payload[0] == 1 ==> payload.skip(1) == le_bytes(rows.len(), 4) + rows_bytes(rows)
            &&& payload[0] == 2 ==> decompressed == Ok::<Seq<u8>, Seq<char>>(
                le_bytes(rows.len(), 4) + rows_bytes(rows),
            )
        },
        payload.len() > 0 && payload[0] == 2 ==> (decompressed matches Err(reason)
            ==> blob_rows_of(payload, decompressed) is Err && mentions(
            blob_rows_of(payload, decompressed)->Err_0,
            reason,
        )),
{
    if payload.len() > 0 {
        lemma_body_read(payload.skip(1));
        if let Ok(body) = decompressed {
            lemma_body_read(body);
        }
    }
    if let Err(reason) = decompressed {
        let front = "can not zstd-decompress the partition: "@;
        assert(front + reason =~= front + reason + Seq::<char>::empty());
    }
}

proof fn lemma_body_read(body: Seq<u8>)
    ensures
        body_rows(body) matches Ok(rows) ==> body == le_bytes(rows.len(), 4) + rows_bytes(rows),
{
    if let Ok(rows) = body_rows(body) {
        let count = body.subrange(0, 4);
        lemma_read_then_write(count);
        lemma_rows_read(body, 4, number_at(body, 0, 4));
        assert(body =~= count + body.subrange(4, body.len() as int));
    }
}

/// A payload which does decompress is read whole.
pub proof fn a_compressed_payload_is_read_back(payload: Seq<u8>, rows: Seq<StoredRow>)
    requires
        stored_rows_fit(rows),
        payload.len() > 0,
        payload[0] == 2,
    ensures
        blob_rows_of(
            payload,
            Ok::<Seq<u8>, Seq<char>>(le_bytes(rows.len(), 4) + rows_bytes(rows)),
        ) == Ok::<Seq<StoredRow>, Seq<char>>(rows),
{
    a_body_is_read_back(rows);
}

/// A number is written in decimal, with a minus in front where it is below zero.
pub proof fn a_negative_number_has_a_minus(n: nat)
    ensures
        signed_decimal(n as int) == decimal(n),
        n > 0 ==> signed_decimal(-(n as int)) == seq!['-'] + decimal(n),
{
}

}
