//! Binary layout of one slot inside a size-class page-file. A slot is
//! self-describing (carries its table + partition key), so recovery is a pure
//! scan of the page-files - there is no separate key->location index on disk.
//!
//! ```text
//!   [0..4)    crc32      (u32 LE)  over bytes [4 .. 16 + body_len)
//!   [4..12)   version    (u64 LE)  monotonic write counter (seeded from the
//!                                  max on-disk version + 1 at scan); higher
//!                                  wins on a duplicate after a crash
//!                                  mid-relocation
//!   [12..16)  body_len   (u32 LE)  length of body; 0 => slot is free
//!   [16..)    body       table_len(u16) pk_len(u16) table pk payload
//!   [...]     padding    zeroed up to the size class
//! ```
//!
//! Both key lengths are u16, so neither key can be longer than `MAX_KEY_LEN` -
//! a longer one must not be written: stored with its length cut, it would pass
//! the crc and come back as a shorter key with the rest of itself in front of
//! the payload.
//!
//! In-place overwrite of a multi-sector slot is not power-loss atomic; the crc
//! detects a torn write on recovery so a broken slot is skipped, never loaded.

use super::little_endian::{
    le_bytes, le_limit, le_value, lemma_limits, lemma_write_then_read, lemma_zeros, read_le,
    write_le,
};
use crate::text::text_from_utf8;
use vstd::prelude::*;
use vstd::slice::slice_to_vec;
use vstd::utf8::{
    decode_utf8, encode_utf8, encode_utf8_decode_utf8, encode_utf8_valid_utf8, valid_utf8,
};

verus! {

/// crc(4) + version(8) + body_len(4).
pub const SLOT_PREFIX_LEN: usize = 16;

/// table_len(2) + pk_len(2), at the start of the body.
pub const KEY_LEN_FIELDS: usize = 4;

/// Fixed per-slot overhead before the keys and the payload.
pub const SLOT_OVERHEAD: usize = 20;

/// The longest table name and partition key a slot can carry: both lengths are
/// written as a `u16`, so this is the format's own limit and not a policy on top
/// of it.
pub const MAX_KEY_LEN: usize = 65_535;

/// One bit pushed through the checksum register: the polynomial is that of IEEE
/// 802.3, with its bits in reverse.
pub open spec fn crc_bit(register: u32) -> u32 {
    if register & 1 == 1 {
        (register >> 1) ^ 0xedb8_8320
    } else {
        register >> 1
    }
}

/// Some bits pushed through the checksum register.
pub open spec fn crc_bits(register: u32, n: nat) -> u32
    decreases n,
{
    if n == 0 {
        register
    } else {
        crc_bits(crc_bit(register), (n - 1) as nat)
    }
}

/// The checksum register after some bytes. It starts with every bit set.
pub open spec fn crc_register(bytes: Seq<u8>) -> u32
    decreases bytes.len(),
{
    if bytes.len() == 0 {
        0xffff_ffff
    } else {
        crc_bits(crc_register(bytes.drop_last()) ^ (bytes.last() as u32), 8)
    }
}

/// The checksum of some bytes: the register with every bit turned round.
pub open spec fn crc32(bytes: Seq<u8>) -> u32 {
    !crc_register(bytes)
}

/// `crc32fast::hash`: the CRC32 of the bytes.
pub assume_specification[ crc32fast::hash ](buf: &[u8]) -> (r: u32)
    ensures
        r == crc32(buf@),
;

/// What an occupied slot says.
#[verifier::ext_equal]
pub struct SlotRecord {
    pub version: nat,
    pub table_name: Seq<char>,
    pub partition_key: Seq<char>,
    pub payload: Seq<u8>,
}

/// What the bytes of a slot say.
#[verifier::ext_equal]
pub enum SlotContent {
    Free,
    Occupied(SlotRecord),
    Corrupt,
}

/// Whether the lengths of both keys can be written.
pub open spec fn keys_fit(table_name: Seq<char>, partition_key: Seq<char>) -> bool {
    encode_utf8(table_name).len() <= MAX_KEY_LEN && encode_utf8(partition_key).len() <= MAX_KEY_LEN
}

/// How many bytes a slot needs for the partition.
pub open spec fn bytes_needed(
    table_name: Seq<char>,
    partition_key: Seq<char>,
    payload_len: nat,
) -> nat {
    SLOT_OVERHEAD as nat + encode_utf8(table_name).len() + encode_utf8(partition_key).len()
        + payload_len
}

/// The body of a slot.
pub open spec fn slot_body(
    table_name: Seq<char>,
    partition_key: Seq<char>,
    payload: Seq<u8>,
) -> Seq<u8> {
    le_bytes(encode_utf8(table_name).len(), 2) + le_bytes(encode_utf8(partition_key).len(), 2)
        + encode_utf8(table_name) + encode_utf8(partition_key) + payload
}

/// What the checksum of a slot covers.
pub open spec fn slot_covered(record: SlotRecord) -> Seq<u8> {
    let body = slot_body(record.table_name, record.partition_key, record.payload);
    le_bytes(record.version, 8) + le_bytes(body.len(), 4) + body
}

/// That many zeros.
pub open spec fn zeros(n: nat) -> Seq<u8> {
    Seq::new(n, |i: int| 0u8)
}

/// The bytes of a slot.
pub open spec fn slot_bytes(size_class: nat, record: SlotRecord) -> Seq<u8> {
    let covered = slot_covered(record);
    le_bytes(crc32(covered) as nat, 4) + covered + zeros((size_class - 4 - covered.len()) as nat)
}

/// What the bytes of a slot say: nothing where no body is announced; and
/// something only where the body is all there, its checksum holds, and both keys
/// are texts inside it.
pub open spec fn slot_content(bytes: Seq<u8>) -> SlotContent {
    if bytes.len() < SLOT_PREFIX_LEN {
        SlotContent::Corrupt
    } else {
        let body_len = le_value(bytes.subrange(12, 16)) as int;
        if body_len == 0 {
            SlotContent::Free
        } else if SLOT_PREFIX_LEN + body_len > bytes.len() {
            SlotContent::Corrupt
        } else if crc32(bytes.subrange(4, 16 + body_len)) != le_value(bytes.subrange(0, 4)) {
            SlotContent::Corrupt
        } else {
            match body_content(bytes.subrange(16, 16 + body_len)) {
                Some((table_name, partition_key, payload)) => SlotContent::Occupied(
                    SlotRecord {
                        version: le_value(bytes.subrange(4, 12)),
                        table_name,
                        partition_key,
                        payload,
                    },
                ),
                None => SlotContent::Corrupt,
            }
        }
    }
}

/// The keys and the payload inside a body.
pub open spec fn body_content(body: Seq<u8>) -> Option<(Seq<char>, Seq<char>, Seq<u8>)> {
    if body.len() < KEY_LEN_FIELDS {
        None
    } else {
        let table_len = le_value(body.subrange(0, 2)) as int;
        let pk_len = le_value(body.subrange(2, 4)) as int;
        if KEY_LEN_FIELDS + table_len + pk_len > body.len() {
            None
        } else {
            let table = body.subrange(4, 4 + table_len);
            let pk = body.subrange(4 + table_len, 4 + table_len + pk_len);
            if valid_utf8(table) && valid_utf8(pk) {
                Some(
                    (
                        decode_utf8(table),
                        decode_utf8(pk),
                        body.subrange(4 + table_len + pk_len, body.len() as int),
                    ),
                )
            } else {
                None
            }
        }
    }
}

/// Total bytes a slot needs to hold this partition's payload.
pub fn slot_bytes_needed(table_name: &str, partition_key: &str, payload_len: usize) -> (r: usize)
    requires
        keys_fit(table_name@, partition_key@),
        bytes_needed(table_name@, partition_key@, payload_len as nat) <= usize::MAX,
    ensures
        r == bytes_needed(table_name@, partition_key@, payload_len as nat),
{
    SLOT_OVERHEAD + table_name.as_bytes().len() + partition_key.as_bytes().len() + payload_len
}

/// Builds a full `size_class`-byte slot buffer (zero-padded) ready to be
/// written at the slot offset.
pub fn encode_slot(
    size_class: u32,
    version: u64,
    table_name: &str,
    partition_key: &str,
    payload: &[u8],
) -> (r: Vec<u8>)
    requires
        keys_fit(table_name@, partition_key@),
        bytes_needed(table_name@, partition_key@, payload@.len()) <= size_class,
    ensures
        r@ == slot_bytes(
            size_class as nat,
            (SlotRecord {
                version: version as nat,
                table_name: table_name@,
                partition_key: partition_key@,
                payload: payload@,
            }),
        ),
        r@.len() == size_class,
{
    let ghost record = SlotRecord {
        version: version as nat,
        table_name: table_name@,
        partition_key: partition_key@,
        payload: payload@,
    };
    let table = table_name.as_bytes();
    let pk = partition_key.as_bytes();
    proof {
        lemma_lengths(record);
    }
    let body_len: usize = KEY_LEN_FIELDS + table.len() + pk.len() + payload.len();
    let mut covered: Vec<u8> = Vec::new();
    write_le(&mut covered, version, 8);
    write_le(&mut covered, body_len as u64, 4);
    write_le(&mut covered, table.len() as u64, 2);
    write_le(&mut covered, pk.len() as u64, 2);
    covered.extend_from_slice(table);
    covered.extend_from_slice(pk);
    covered.extend_from_slice(payload);
    assert(covered@ =~= slot_covered(record));

    let crc: u32 = crc32fast::hash(covered.as_slice());
    let mut buf: Vec<u8> = Vec::new();
    write_le(&mut buf, crc as u64, 4);
    buf.extend_from_slice(covered.as_slice());
    assert(buf@ =~= le_bytes(crc as nat, 4) + covered@);
    let ghost written = buf@;
    proof {
        lemma_limits();
        lemma_write_then_read(crc as nat, 4);
        assert(buf@ + zeros(0) =~= written);
    }
    while buf.len() < size_class as usize
        invariant
            written.len() <= buf.len() <= size_class,
            buf@ == written + zeros((buf.len() - written.len()) as nat),
        decreases size_class - buf.len(),
    {
        let ghost before = buf@;
        buf.push(0);
        assert(buf@ =~= written + zeros((before.len() + 1 - written.len()) as nat));
    }
    buf
}

/// A successfully decoded, occupied slot.
pub struct OccupiedSlot {
    pub version: u64,
    pub table_name: String,
    pub partition_key: String,
    pub payload: Vec<u8>,
}

impl View for OccupiedSlot {
    type V = SlotRecord;

    open spec fn view(&self) -> SlotRecord {
        SlotRecord {
            version: self.version as nat,
            table_name: self.table_name@,
            partition_key: self.partition_key@,
            payload: self.payload@,
        }
    }
}

/// Result of decoding the bytes of one slot.
pub enum SlotState {
    /// `body_len == 0` - slot is empty / freed and available for reuse.
    Free,
    Occupied(OccupiedSlot),
    /// Length or crc check failed - a torn / corrupted write.
    Corrupt,
}

impl View for SlotState {
    type V = SlotContent;

    open spec fn view(&self) -> SlotContent {
        match self {
            SlotState::Free => SlotContent::Free,
            SlotState::Occupied(slot) => SlotContent::Occupied(slot@),
            SlotState::Corrupt => SlotContent::Corrupt,
        }
    }
}

/// Decodes one slot from its full byte buffer (as long as the size class).
pub fn decode_slot(bytes: &[u8]) -> (r: SlotState)
    ensures
        r@ == slot_content(bytes@),
{
    if bytes.len() < SLOT_PREFIX_LEN {
        return SlotState::Corrupt;
    }
    let crc_stored: u64 = read_le(bytes, 0, 4);
    let version: u64 = read_le(bytes, 4, 8);
    let body_len: u64 = read_le(bytes, 12, 4);
    if body_len == 0 {
        return SlotState::Free;
    }
    if body_len > (bytes.len() - SLOT_PREFIX_LEN) as u64 {
        return SlotState::Corrupt;
    }
    let end: usize = SLOT_PREFIX_LEN + body_len as usize;
    if crc32fast::hash(&bytes[4..end]) as u64 != crc_stored {
        return SlotState::Corrupt;
    }
    let body = &bytes[SLOT_PREFIX_LEN..end];
    if body.len() < KEY_LEN_FIELDS {
        return SlotState::Corrupt;
    }
    let table_len: usize = read_le(body, 0, 2) as usize;
    let pk_len: usize = read_le(body, 2, 2) as usize;
    proof {
        lemma_limits();
    }
    if table_len + pk_len > body.len() - KEY_LEN_FIELDS {
        return SlotState::Corrupt;
    }
    let pk_from: usize = KEY_LEN_FIELDS + table_len;
    let payload_from: usize = pk_from + pk_len;
    let table_name = text_from_utf8(slice_to_vec(&body[KEY_LEN_FIELDS..pk_from]));
    let partition_key = text_from_utf8(slice_to_vec(&body[pk_from..payload_from]));
    match (table_name, partition_key) {
        (Some(table_name), Some(partition_key)) => SlotState::Occupied(
            OccupiedSlot {
                version,
                table_name,
                partition_key,
                payload: slice_to_vec(&body[payload_from..body.len()]),
            },
        ),
        _ => SlotState::Corrupt,
    }
}

/// How long the parts of a slot are.
proof fn lemma_lengths(record: SlotRecord)
    requires
        keys_fit(record.table_name, record.partition_key),
    ensures
        slot_body(record.table_name, record.partition_key, record.payload).len() + SLOT_PREFIX_LEN
            == bytes_needed(record.table_name, record.partition_key, record.payload.len()),
        slot_covered(record).len() + 4 == bytes_needed(
            record.table_name,
            record.partition_key,
            record.payload.len(),
        ),
{
    lemma_limits();
    let table = encode_utf8(record.table_name);
    let pk = encode_utf8(record.partition_key);
    lemma_write_then_read(table.len(), 2);
    lemma_write_then_read(pk.len(), 2);
    let body = slot_body(record.table_name, record.partition_key, record.payload);
    super::little_endian::lemma_le_bytes_len(record.version, 8);
    super::little_endian::lemma_le_bytes_len(body.len(), 4);
}

/// A partition is read back out of its slot as it was written into it.
pub proof fn a_slot_is_read_back(size_class: nat, record: SlotRecord)
    requires
        keys_fit(record.table_name, record.partition_key),
        record.version < le_limit(8),
        bytes_needed(record.table_name, record.partition_key, record.payload.len()) <= size_class,
        size_class <= u32::MAX,
    ensures
        slot_bytes(size_class, record).len() == size_class,
        slot_content(slot_bytes(size_class, record)) == SlotContent::Occupied(record),
{
    let bytes = slot_bytes(size_class, record);
    let covered = slot_covered(record);
    let table = encode_utf8(record.table_name);
    let pk = encode_utf8(record.partition_key);
    let body = slot_body(record.table_name, record.partition_key, record.payload);
    lemma_limits();
    lemma_lengths(record);
    lemma_write_then_read(crc32(covered) as nat, 4);
    lemma_write_then_read(record.version, 8);
    lemma_write_then_read(body.len(), 4);
    lemma_write_then_read(table.len(), 2);
    lemma_write_then_read(pk.len(), 2);
    assert(bytes.subrange(0, 4) =~= le_bytes(crc32(covered) as nat, 4));
    assert(bytes.subrange(4, 12) =~= le_bytes(record.version, 8));
    assert(bytes.subrange(12, 16) =~= le_bytes(body.len(), 4));
    assert(bytes.subrange(4, 16 + body.len() as int) =~= covered);
    assert(bytes.subrange(16, 16 + body.len() as int) =~= body);
    assert(body.subrange(0, 2) =~= le_bytes(table.len(), 2));
    assert(body.subrange(2, 4) =~= le_bytes(pk.len(), 2));
    let table_len = table.len() as int;
    let pk_len = pk.len() as int;
    assert(body.subrange(4, 4 + table_len) =~= table);
    assert(body.subrange(4 + table_len, 4 + table_len + pk_len) =~= pk);
    assert(body.subrange(4 + table_len + pk_len, body.len() as int) =~= record.payload);
    encode_utf8_valid_utf8(record.table_name);
    encode_utf8_valid_utf8(record.partition_key);
    encode_utf8_decode_utf8(record.table_name);
    encode_utf8_decode_utf8(record.partition_key);
}

/// A slot whose prefix is zeroed is free, whatever else is left in it.
pub proof fn a_zeroed_slot_is_free(bytes: Seq<u8>)
    requires
        bytes.len() >= SLOT_PREFIX_LEN,
        forall|i: int| 0 <= i < SLOT_PREFIX_LEN ==> bytes[i] == 0,
    ensures
        slot_content(bytes) == SlotContent::Free,
{
    lemma_zeros(bytes.subrange(12, 16));
}

/// Nothing is read out of a slot whose checksum does not hold.
pub proof fn a_torn_slot_is_not_read(bytes: Seq<u8>)
    requires
        bytes.len() >= SLOT_PREFIX_LEN,
        le_value(bytes.subrange(12, 16)) > 0,
        16 + le_value(bytes.subrange(12, 16)) > bytes.len() || crc32(
            bytes.subrange(4, 16 + le_value(bytes.subrange(12, 16)) as int),
        ) != le_value(bytes.subrange(0, 4)),
    ensures
        slot_content(bytes) == SlotContent::Corrupt,
{
}

}
