//! Base64 with the url alphabet and no padding.
//!
//! A partition key becomes a file name inside a backup zip, so the encoding has
//! to be one no path can be made out of. Standard base64 is not: `/` is in its
//! alphabet, and a key which encoded to one would turn `traders/<key>` into a
//! nested folder nobody meant. `-` and `_` take its place here, and the padding
//! is dropped because a file name does not need it.
//!
//! The same alphabet carries the schema bytes through `tables.meta`, which is
//! YAML: a `Vec<u8>` written as YAML is a list of three hundred numbers, and one
//! string on one line is what an operator opening that file should see.

use crate::text::text_from_utf8;
use vstd::prelude::*;
use vstd::utf8::{
    decode_utf8, encode_utf8, encode_utf8_decode_utf8, encode_utf8_valid_utf8, valid_utf8,
};

verus! {

/// The symbol of a value below 64.
pub open spec fn symbol(value: int) -> char {
    if value < 26 {
        (('A' as int) + value) as char
    } else if value < 52 {
        (('a' as int) + value - 26) as char
    } else if value < 62 {
        (('0' as int) + value - 52) as char
    } else if value == 62 {
        '-'
    } else {
        '_'
    }
}

/// The value of a symbol of the alphabet.
pub open spec fn symbol_value(c: char) -> Option<int> {
    if 'A' <= c && c <= 'Z' {
        Some(c as int - 'A' as int)
    } else if 'a' <= c && c <= 'z' {
        Some(c as int - 'a' as int + 26)
    } else if '0' <= c && c <= '9' {
        Some(c as int - '0' as int + 52)
    } else if c == '-' {
        Some(62int)
    } else if c == '_' {
        Some(63int)
    } else {
        None
    }
}

/// Three bytes read as one number.
pub open spec fn triple(b0: u8, b1: u8, b2: u8) -> int {
    b0 as int * 0x1_0000 + b1 as int * 0x100 + b2 as int
}

/// The text some bytes are written as: four symbols for every three bytes, and
/// two or three symbols for the one or two bytes which are left over.
pub open spec fn encoded(src: Seq<u8>) -> Seq<char>
    decreases src.len(),
{
    if src.len() == 0 {
        Seq::empty()
    } else if src.len() == 1 {
        let n = triple(src[0], 0, 0);
        seq![symbol(n / 0x4_0000), symbol(n / 0x1000 % 64)]
    } else if src.len() == 2 {
        let n = triple(src[0], src[1], 0);
        seq![symbol(n / 0x4_0000), symbol(n / 0x1000 % 64), symbol(n / 64 % 64)]
    } else {
        let n = triple(src[0], src[1], src[2]);
        seq![
            symbol(n / 0x4_0000),
            symbol(n / 0x1000 % 64),
            symbol(n / 64 % 64),
            symbol(n % 64),
        ] + encoded(src.skip(3))
    }
}

/// Whether every symbol is one of the alphabet.
pub open spec fn all_symbols(src: Seq<char>) -> bool {
    forall|i: int| 0 <= i < src.len() ==> symbol_value(#[trigger] src[i]) is Some
}

/// The number a run of symbols stands for, the first symbol the highest.
pub open spec fn symbols_value(src: Seq<char>) -> int
    decreases src.len(),
{
    if src.len() == 0 {
        0
    } else {
        symbols_value(src.drop_last()) * 64 + symbol_value(src.last())->0
    }
}

/// The bytes a text stands for, if it stands for any. What is left over after
/// the groups of four is the tail of a group: two symbols carry one byte, three
/// carry two, and one on its own carries nothing that can be a byte.
pub open spec fn decoded(src: Seq<char>) -> Option<Seq<u8>>
    decreases src.len(),
{
    if src.len() == 0 {
        Some(Seq::empty())
    } else if src.len() == 1 {
        None
    } else if src.len() < 4 && !all_symbols(src) {
        None
    } else if src.len() == 2 {
        Some(seq![(symbols_value(src) / 16) as u8])
    } else if src.len() == 3 {
        Some(
            seq![(symbols_value(src) / 0x400) as u8, (symbols_value(src) / 4 % 256) as u8],
        )
    } else if !all_symbols(src.take(4)) {
        None
    } else {
        match decoded(src.skip(4)) {
            Some(rest) => Some(group_bytes(src.take(4)) + rest),
            None => None,
        }
    }
}

/// The three bytes of a whole group of four symbols.
pub open spec fn group_bytes(group: Seq<char>) -> Seq<u8> {
    let n = symbols_value(group);
    seq![(n / 0x1_0000) as u8, (n / 0x100 % 256) as u8, (n % 256) as u8]
}

/// What the text of something which was not encoded here is answered with.
pub open spec fn not_written_here(src: Seq<char>) -> Seq<char> {
    "'"@ + src + "' is not something this server wrote"@
}

/// What a text is answered with whose bytes are no text.
pub open spec fn not_a_partition_key(src: Seq<char>) -> Seq<char> {
    "'"@ + src + "' does not decode into a partition key"@
}

fn symbol_of(value: u32) -> (c: char)
    requires
        value < 64,
    ensures
        c == symbol(value as int),
{
    if value < 26 {
        (65 + value as u8) as char
    } else if value < 52 {
        (97 + (value as u8 - 26)) as char
    } else if value < 62 {
        (48 + (value as u8 - 52)) as char
    } else if value == 62 {
        '-'
    } else {
        '_'
    }
}

fn value_of(c: char) -> (r: Option<u32>)
    ensures
        r is Some <==> symbol_value(c) is Some,
        r matches Some(v) ==> v == symbol_value(c)->0 && v < 64,
{
    if 'A' <= c && c <= 'Z' {
        Some(c as u32 - 65)
    } else if 'a' <= c && c <= 'z' {
        Some(c as u32 - 97 + 26)
    } else if '0' <= c && c <= '9' {
        Some(c as u32 - 48 + 52)
    } else if c == '-' {
        Some(62)
    } else if c == '_' {
        Some(63)
    } else {
        None
    }
}

/// Encodes a text.
pub fn encode(src: &str) -> (r: String)
    ensures
        r@ == encoded(encode_utf8(src@)),
{
    encode_bytes(src.as_bytes())
}

/// Encodes bytes.
pub fn encode_bytes(src: &[u8]) -> (r: String)
    ensures
        r@ == encoded(src@),
{
    let mut result = String::new();
    let mut i: usize = 0;
    assert(src@.skip(0) =~= src@);
    assert(result@ + encoded(src@.skip(0)) =~= encoded(src@));
    while i < src.len()
        invariant
            i <= src.len(),
            result@ + encoded(src@.skip(i as int)) == encoded(src@),
        decreases src.len() - i,
    {
        let ghost before = result@;
        let ghost rest = src@.skip(i as int);
        let left: usize = src.len() - i;
        let b0: u32 = src[i] as u32;
        let b1: u32 = if left > 1 { src[i + 1] as u32 } else { 0 };
        let b2: u32 = if left > 2 { src[i + 2] as u32 } else { 0 };
        let n: u32 = b0 * 0x1_0000 + b1 * 0x100 + b2;

        result.push(symbol_of(n / 0x4_0000));
        result.push(symbol_of(n / 0x1000 % 64));
        if left > 1 {
            result.push(symbol_of(n / 64 % 64));
        }
        if left > 2 {
            result.push(symbol_of(n % 64));
        }
        let step: usize = if left > 3 { 3 } else { left };
        proof {
            let after = src@.skip(i + step);
            assert(rest[0] == src@[i as int]);
            if left > 2 {
                assert(after =~= rest.skip(3));
            } else {
                assert(after =~= Seq::<u8>::empty());
            }
            assert(result@ + encoded(after) =~= before + encoded(rest));
        }
        i = i + step;
    }
    proof {
        assert(src@.skip(i as int) =~= Seq::<u8>::empty());
        assert(result@ =~= result@ + encoded(src@.skip(i as int)));
    }
    result
}

fn refuse(src: &str) -> (r: String)
    ensures
        r@ == not_written_here(src@),
{
    let mut r = "'".to_owned();
    r.append(src);
    r.append("' is not something this server wrote");
    r
}

/// Decodes a text into the text which was encoded.
pub fn decode(src: &str) -> (r: Result<String, String>)
    ensures
        match r {
            Ok(text) => decoded(src@) is Some && valid_utf8(decoded(src@)->0) && text@
                == decode_utf8(decoded(src@)->0),
            Err(err) => if decoded(src@) is Some {
                !valid_utf8(decoded(src@)->0) && err@ == not_a_partition_key(src@)
            } else {
                err@ == not_written_here(src@)
            },
        },
{
    match decode_bytes(src) {
        Ok(bytes) => match text_from_utf8(bytes) {
            Some(text) => Ok(text),
            None => {
                let mut err = "'".to_owned();
                err.append(src);
                err.append("' does not decode into a partition key");
                Err(err)
            },
        },
        Err(err) => Err(err),
    }
}

/// Decodes a text into the bytes which were encoded.
pub fn decode_bytes(src: &str) -> (r: Result<Vec<u8>, String>)
    ensures
        match r {
            Ok(bytes) => decoded(src@) == Some(bytes@),
            Err(err) => decoded(src@) is None && err@ == not_written_here(src@),
        },
{
    let mut bytes: Vec<u8> = Vec::new();
    let mut buffer: u32 = 0;
    let mut collected: usize = 0;
    let ghost mut done: int = 0;
    assert(src@.skip(0) =~= src@);
    assert(src@.subrange(0, 0) =~= Seq::<char>::empty());
    proof {
        lemma_prepend_nothing(decoded(src@));
    }
    for c in it: src.chars()
        invariant
            it.seq() == src@,
            collected < 4,
            0 <= done,
            done + collected == it.index(),
            it.index() <= src@.len(),
            all_symbols(src@.subrange(done, it.index() as int)),
            buffer == symbols_value(src@.subrange(done, it.index() as int)),
            collected == 0 ==> buffer < 1,
            collected == 1 ==> buffer < 64,
            collected == 2 ==> buffer < 0x1000,
            collected == 3 ==> buffer < 0x4_0000,
            decoded(src@) == prepend(bytes@, decoded(src@.skip(done))),
    {
        let ghost at = it.index() as int;
        let ghost pending = src@.subrange(done, at);
        let ghost wider = src@.subrange(done, at + 1);
        let ghost rest = src@.skip(done);
        assert(wider.drop_last() =~= pending);
        assert(wider.last() == c);
        match value_of(c) {
            Some(value) => {
                proof {
                    assert forall|i: int| 0 <= i < wider.len() implies symbol_value(
                        #[trigger] wider[i],
                    ) is Some by {
                        if i < pending.len() {
                            assert(wider[i] == pending[i]);
                        }
                    }
                }
                buffer = buffer * 64 + value;
                collected = collected + 1;
                if collected == 4 {
                    let ghost before = bytes@;
                    bytes.push((buffer / 0x1_0000) as u8);
                    bytes.push((buffer / 0x100 % 256) as u8);
                    bytes.push((buffer % 256) as u8);
                    proof {
                        assert(rest.take(4) =~= wider);
                        assert(rest.skip(4) =~= src@.skip(done + 4));
                        assert(bytes@ =~= before + group_bytes(wider));
                        lemma_prepend_twice(before, group_bytes(wider), decoded(rest.skip(4)));
                        done = done + 4;
                        assert(src@.subrange(done, done) =~= Seq::<char>::empty());
                    }
                    buffer = 0;
                    collected = 0;
                }
            },
            None => {
                proof {
                    assert(rest[at - done] == c);
                    if rest.len() >= 4 {
                        assert(rest.take(4)[at - done] == c);
                    }
                    assert(decoded(rest) is None);
                }
                return Err(refuse(src));
            },
        }
    }
    let ghost rest = src@.skip(done);
    assert(rest =~= src@.subrange(done, src@.len() as int));
    let ghost before = bytes@;
    if collected == 2 {
        bytes.push((buffer / 16) as u8);
    } else if collected == 3 {
        bytes.push((buffer / 0x400) as u8);
        bytes.push((buffer / 4 % 256) as u8);
    } else if collected == 1 {
        return Err(refuse(src));
    }
    proof {
        assert(bytes@ =~= before + decoded(rest)->0);
    }
    Ok(bytes)
}

/// Bytes in front of what may follow them.
spec fn prepend(front: Seq<u8>, rest: Option<Seq<u8>>) -> Option<Seq<u8>> {
    match rest {
        Some(rest) => Some(front + rest),
        None => None,
    }
}

proof fn lemma_prepend_nothing(rest: Option<Seq<u8>>)
    ensures
        prepend(Seq::empty(), rest) == rest,
{
    if let Some(r) = rest {
        assert(Seq::<u8>::empty() + r =~= r);
    }
}

proof fn lemma_prepend_twice(a: Seq<u8>, b: Seq<u8>, rest: Option<Seq<u8>>)
    ensures
        prepend(a, prepend(b, rest)) == prepend(a + b, rest),
{
    if let Some(r) = rest {
        assert(a + (b + r) =~= (a + b) + r);
    }
}

/// A symbol has the value it was made of.
proof fn lemma_symbol(value: int)
    requires
        0 <= value < 64,
    ensures
        symbol_value(symbol(value)) == Some(value),
{
}

/// What four symbols stand for.
proof fn lemma_symbols_value(src: Seq<char>)
    requires
        all_symbols(src),
    ensures
        src.len() == 2 ==> symbols_value(src) == symbol_value(src[0])->0 * 64 + symbol_value(
            src[1],
        )->0,
        src.len() == 3 ==> symbols_value(src) == symbol_value(src[0])->0 * 0x1000 + symbol_value(
            src[1],
        )->0 * 64 + symbol_value(src[2])->0,
        src.len() == 4 ==> symbols_value(src) == symbol_value(src[0])->0 * 0x4_0000 + symbol_value(
            src[1],
        )->0 * 0x1000 + symbol_value(src[2])->0 * 64 + symbol_value(src[3])->0,
{
    reveal_with_fuel(symbols_value, 5);
    if 2 <= src.len() <= 4 {
        let a = src.drop_last();
        let b = a.drop_last();
        let c = b.drop_last();
        assert(a.last() == src[src.len() - 2]);
        if src.len() >= 3 {
            assert(b.last() == src[src.len() - 3]);
        }
        if src.len() == 4 {
            assert(c.last() == src[0]);
        }
    }
}

/// A number of 24 bits cut into four symbols comes together again, whole or with
/// its tail left out.
proof fn lemma_cut(n: u32)
    by (bit_vector)
    requires
        n < 0x100_0000,
    ensures
        n / 0x4_0000 < 64,
        (n / 0x4_0000) * 0x4_0000 + (n / 0x1000 % 64) * 0x1000 + (n / 64 % 64) * 64 + n % 64 == n,
        ((n / 0x4_0000) * 64 + (n / 0x1000 % 64)) as u32 / 16 == n / 0x1_0000,
        ((n / 0x4_0000) * 0x1000 + (n / 0x1000 % 64) * 64 + (n / 64 % 64)) as u32 / 0x400 == n
            / 0x1_0000,
        ((n / 0x4_0000) * 0x1000 + (n / 0x1000 % 64) * 64 + (n / 64 % 64)) as u32 / 4 % 256 == n
            / 0x100 % 256,
{
}

/// Three bytes are found again in the number they are read as.
proof fn lemma_bytes_of_triple(b0: u8, b1: u8, b2: u8)
    ensures
        0 <= triple(b0, b1, b2) < 0x100_0000,
        triple(b0, b1, b2) / 0x1_0000 == b0,
        triple(b0, b1, b2) / 0x100 % 256 == b1,
        triple(b0, b1, b2) % 256 == b2,
{
    let n = triple(b0, b1, b2);
    assert(n / 0x100 == b0 * 256 + b1);
}

/// Three bytes cut into four symbols come together again, whole or with their
/// tail left out.
proof fn lemma_triple(b0: u8, b1: u8, b2: u8)
    ensures
        ({
            let n = triple(b0, b1, b2);
            let v0 = n / 0x4_0000;
            let v1 = n / 0x1000 % 64;
            let v2 = n / 64 % 64;
            let v3 = n % 64;
            &&& 0 <= v0 < 64 && 0 <= v1 < 64 && 0 <= v2 < 64 && 0 <= v3 < 64
            &&& v0 * 0x4_0000 + v1 * 0x1000 + v2 * 64 + v3 == n
            &&& n / 0x1_0000 == b0
            &&& n / 0x100 % 256 == b1
            &&& n % 256 == b2
            &&& (v0 * 64 + v1) / 16 == b0
            &&& (v0 * 0x1000 + v1 * 64 + v2) / 0x400 == b0
            &&& (v0 * 0x1000 + v1 * 64 + v2) / 4 % 256 == b1
        }),
{
    lemma_bytes_of_triple(b0, b1, b2);
    lemma_cut(triple(b0, b1, b2) as u32);
}

/// Whatever was encoded decodes into itself.
pub proof fn bytes_survive_encoding(src: Seq<u8>)
    ensures
        decoded(encoded(src)) == Some(src),
    decreases src.len(),
{
    if src.len() == 0 {
        assert(src =~= Seq::<u8>::empty());
    } else if src.len() < 3 {
        lemma_tail_survives(src);
    } else {
        let text = encoded(src);
        let n = triple(src[0], src[1], src[2]);
        let group = seq![
            symbol(n / 0x4_0000),
            symbol(n / 0x1000 % 64),
            symbol(n / 64 % 64),
            symbol(n % 64),
        ];
        assert(text.take(4) =~= group);
        assert(text.skip(4) =~= encoded(src.skip(3)));
        lemma_group_survives(src[0], src[1], src[2]);
        bytes_survive_encoding(src.skip(3));
        assert(seq![src[0], src[1], src[2]] + src.skip(3) =~= src);
    }
}

proof fn lemma_group_survives(b0: u8, b1: u8, b2: u8)
    ensures
        ({
            let n = triple(b0, b1, b2);
            let group = seq![
                symbol(n / 0x4_0000),
                symbol(n / 0x1000 % 64),
                symbol(n / 64 % 64),
                symbol(n % 64),
            ];
            all_symbols(group) && group_bytes(group) == seq![b0, b1, b2]
        }),
{
    let n = triple(b0, b1, b2);
    let group = seq![
        symbol(n / 0x4_0000),
        symbol(n / 0x1000 % 64),
        symbol(n / 64 % 64),
        symbol(n % 64),
    ];
    lemma_triple(b0, b1, b2);
    lemma_symbol(n / 0x4_0000);
    lemma_symbol(n / 0x1000 % 64);
    lemma_symbol(n / 64 % 64);
    lemma_symbol(n % 64);
    lemma_symbols_value(group);
    assert(symbols_value(group) == n);
    assert(group_bytes(group) =~= seq![b0, b1, b2]);
}

proof fn lemma_tail_survives(src: Seq<u8>)
    requires
        1 <= src.len() <= 2,
    ensures
        decoded(encoded(src)) == Some(src),
{
    let text = encoded(src);
    let b1 = if src.len() == 2 { src[1] } else { 0 };
    let n = triple(src[0], b1, 0);
    lemma_triple(src[0], b1, 0);
    lemma_symbol(n / 0x4_0000);
    lemma_symbol(n / 0x1000 % 64);
    lemma_symbol(n / 64 % 64);
    assert(all_symbols(text));
    lemma_symbols_value(text);
    assert(decoded(text)->0 =~= src);
}

/// A partition key which was encoded decodes into itself.
pub proof fn a_key_survives_encoding(key: Seq<char>)
    ensures
        decoded(encoded(encode_utf8(key))) is Some,
        valid_utf8(decoded(encoded(encode_utf8(key)))->0),
        decode_utf8(decoded(encoded(encode_utf8(key)))->0) == key,
{
    bytes_survive_encoding(encode_utf8(key));
    encode_utf8_valid_utf8(key);
    encode_utf8_decode_utf8(key);
}

/// Nothing encodes into something with a path in it, or with padding.
pub proof fn no_path_in_what_is_encoded(src: Seq<u8>)
    ensures
        all_symbols(encoded(src)),
        !encoded(src).contains('/'),
        !encoded(src).contains('\\'),
        !encoded(src).contains('='),
    decreases src.len(),
{
    let text = encoded(src);
    assert forall|i: int| 0 <= i < text.len() implies symbol_value(#[trigger] text[i]) is Some by {
        let n = if src.len() == 1 {
            triple(src[0], 0, 0)
        } else if src.len() == 2 {
            triple(src[0], src[1], 0)
        } else {
            triple(src[0], src[1], src[2])
        };
        lemma_symbol(n / 0x4_0000);
        lemma_symbol(n / 0x1000 % 64);
        lemma_symbol(n / 64 % 64);
        lemma_symbol(n % 64);
        if i >= 4 {
            no_path_in_what_is_encoded(src.skip(3));
            assert(text[i] == encoded(src.skip(3))[i - 4]);
        }
    }
}

/// Different bytes are written differently.
pub proof fn encoding_tells_apart(a: Seq<u8>, b: Seq<u8>)
    requires
        encoded(a) == encoded(b),
    ensures
        a == b,
{
    bytes_survive_encoding(a);
    bytes_survive_encoding(b);
}

}
