//! Cursor over the fixed-width binary layouts this module writes.

use super::little_endian::{
    le_bytes, le_limit, le_value, lemma_limits, lemma_write_then_read, read_le, write_le,
};
use crate::text::{append_decimal, decimal};
use vstd::prelude::*;
use vstd::slice::slice_to_vec;

verus! {

/// Cursor over the fixed-width binary layouts this module writes. Every read is
/// bounds-checked, so a truncated file is reported instead of panicking.
pub struct BinaryReader<'s> {
    src: &'s [u8],
    pos: usize,
}

/// Why so many bytes can not be read at an offset.
pub open spec fn take_error(len: nat, pos: nat, total: nat) -> Seq<char> {
    if pos + len > usize::MAX {
        "length overflow"@
    } else {
        "need "@ + decimal(len) + " bytes at offset "@ + decimal(pos) + " but only "@ + decimal(
            (total - pos) as nat,
        ) + " are there"@
    }
}

/// Whether so many bytes stand at an offset.
pub open spec fn can_take(src: Seq<u8>, pos: nat, len: nat) -> bool {
    pos + len <= src.len()
}

/// The number which stands in `width` bytes at an offset.
pub open spec fn number_at(src: Seq<u8>, pos: nat, width: nat) -> nat {
    le_value(src.subrange(pos as int, (pos + width) as int))
}

/// What is read of a run of bytes with its length in front, and where the
/// reading stands after that. A length which is there is read even where the
/// bytes behind it are not.
pub open spec fn prefixed_at(src: Seq<u8>, pos: nat) -> (Result<Seq<u8>, Seq<char>>, nat) {
    if !can_take(src, pos, 4) {
        (Err(take_error(4, pos, src.len())), pos)
    } else {
        let len = number_at(src, pos, 4);
        if !can_take(src, pos + 4, len) {
            (Err(take_error(len, pos + 4, src.len())), pos + 4)
        } else {
            (Ok(src.subrange((pos + 4) as int, (pos + 4 + len) as int)), pos + 4 + len)
        }
    }
}

/// A run of bytes with its length in front.
pub open spec fn prefixed_bytes(src: Seq<u8>) -> Seq<u8> {
    le_bytes(src.len(), 4) + src
}

impl<'s> BinaryReader<'s> {
    /// What is read.
    pub closed spec fn source(&self) -> Seq<u8> {
        self.src@
    }

    /// How far it has been read.
    pub closed spec fn position(&self) -> nat {
        self.pos as nat
    }

    /// The reading never stands behind the end.
    pub open spec fn wf(&self) -> bool {
        self.position() <= self.source().len() <= usize::MAX
    }

    /// Starts at the beginning.
    pub fn new(src: &'s [u8]) -> (r: Self)
        ensures
            r.wf(),
            r.source() == src@,
            r.position() == 0,
    {
        assert(src.len() <= usize::MAX);
        BinaryReader { src, pos: 0 }
    }

    /// Whether everything has been read.
    pub fn is_eof(&self) -> (r: bool)
        ensures
            r == (self.position() >= self.source().len()),
    {
        self.pos >= self.src.len()
    }

    fn take(&mut self, len: usize) -> (r: Result<&'s [u8], String>)
        requires
            old(self).wf(),
        ensures
            final(self).wf(),
            final(self).source() == old(self).source(),
            match r {
                Ok(bytes) => can_take(old(self).source(), old(self).position(), len as nat)
                    && bytes@ == old(self).source().subrange(
                    old(self).position() as int,
                    old(self).position() + len,
                ) && final(self).position() == old(self).position() + len,
                Err(err) => !can_take(old(self).source(), old(self).position(), len as nat)
                    && err@ == take_error(
                    len as nat,
                    old(self).position(),
                    old(self).source().len(),
                ) && final(self).position() == old(self).position(),
            },
    {
        if len > usize::MAX - self.pos {
            return Err("length overflow".to_owned());
        }
        let end: usize = self.pos + len;
        if end > self.src.len() {
            let mut err = "need ".to_owned();
            append_decimal(&mut err, len as u128);
            err.append(" bytes at offset ");
            append_decimal(&mut err, self.pos as u128);
            err.append(" but only ");
            append_decimal(&mut err, (self.src.len() - self.pos) as u128);
            err.append(" are there");
            return Err(err);
        }
        let result = &self.src[self.pos..end];
        self.pos = end;
        Ok(result)
    }

    /// Reads four bytes as a number.
    pub fn read_u32(&mut self) -> (r: Result<u32, String>)
        requires
            old(self).wf(),
        ensures
            final(self).wf(),
            final(self).source() == old(self).source(),
            match r {
                Ok(value) => can_take(old(self).source(), old(self).position(), 4) && value
                    == number_at(old(self).source(), old(self).position(), 4)
                    && final(self).position() == old(self).position() + 4,
                Err(err) => !can_take(old(self).source(), old(self).position(), 4) && err@
                    == take_error(4, old(self).position(), old(self).source().len())
                    && final(self).position() == old(self).position(),
            },
    {
        match self.take(4) {
            Ok(bytes) => {
                proof {
                    lemma_limits();
                    assert(bytes@.subrange(0, 4) =~= bytes@);
                }
                Ok(read_le(bytes, 0, 4) as u32)
            },
            Err(err) => Err(err),
        }
    }

    /// Reads eight bytes as a number.
    pub fn read_u64(&mut self) -> (r: Result<u64, String>)
        requires
            old(self).wf(),
        ensures
            final(self).wf(),
            final(self).source() == old(self).source(),
            match r {
                Ok(value) => can_take(old(self).source(), old(self).position(), 8) && value
                    == number_at(old(self).source(), old(self).position(), 8)
                    && final(self).position() == old(self).position() + 8,
                Err(err) => !can_take(old(self).source(), old(self).position(), 8) && err@
                    == take_error(8, old(self).position(), old(self).source().len())
                    && final(self).position() == old(self).position(),
            },
    {
        match self.take(8) {
            Ok(bytes) => {
                assert(bytes@.subrange(0, 8) =~= bytes@);
                Ok(read_le(bytes, 0, 8))
            },
            Err(err) => Err(err),
        }
    }

    /// Reads a run of bytes whose length stands in front of it.
    pub fn read_u32_prefixed_bytes(&mut self) -> (r: Result<Vec<u8>, String>)
        requires
            old(self).wf(),
        ensures
            final(self).wf(),
            final(self).source() == old(self).source(),
            final(self).position() == prefixed_at(old(self).source(), old(self).position()).1,
            match r {
                Ok(bytes) => prefixed_at(old(self).source(), old(self).position()).0 == Ok::<
                    Seq<u8>,
                    Seq<char>,
                >(bytes@),
                Err(err) => prefixed_at(old(self).source(), old(self).position()).0 == Err::<
                    Seq<u8>,
                    Seq<char>,
                >(err@),
            },
    {
        let len: u32 = match self.read_u32() {
            Ok(len) => len,
            Err(err) => return Err(err),
        };
        match self.take(len as usize) {
            Ok(bytes) => Ok(slice_to_vec(bytes)),
            Err(err) => Err(err),
        }
    }
}

/// Writes a run of bytes with its length in front of it.
pub fn write_u32_prefixed_bytes(dest: &mut Vec<u8>, src: &[u8])
    ensures
        final(dest)@ == old(dest)@ + prefixed_bytes(src@),
{
    write_le(dest, src.len() as u64, 4);
    dest.extend_from_slice(src);
    assert(dest@ =~= old(dest)@ + prefixed_bytes(src@));
}

/// A run of bytes is read back as it was written, wherever it stands.
pub proof fn prefixed_bytes_are_read_back(before: Seq<u8>, src: Seq<u8>, after: Seq<u8>)
    requires
        src.len() < 0x1_0000_0000,
    ensures
        prefixed_at(before + prefixed_bytes(src) + after, before.len()) == (
            Ok::<Seq<u8>, Seq<char>>(src),
            before.len() + prefixed_bytes(src).len(),
        ),
{
    let all = before + prefixed_bytes(src) + after;
    let pos = before.len();
    lemma_limits();
    lemma_write_then_read(src.len(), 4);
    assert(all.subrange(pos as int, (pos + 4) as int) =~= le_bytes(src.len(), 4));
    assert(all.subrange((pos + 4) as int, (pos + 4 + src.len()) as int) =~= src);
}

/// A number is read back as it was written, wherever it stands.
pub proof fn a_number_is_read_back(before: Seq<u8>, value: nat, width: nat, after: Seq<u8>)
    requires
        value < le_limit(width),
    ensures
        can_take(before + le_bytes(value, width) + after, before.len(), width),
        number_at(before + le_bytes(value, width) + after, before.len(), width) == value,
{
    let all = before + le_bytes(value, width) + after;
    lemma_write_then_read(value, width);
    assert(all.subrange(before.len() as int, (before.len() + width) as int) =~= le_bytes(
        value,
        width,
    ));
}

}
