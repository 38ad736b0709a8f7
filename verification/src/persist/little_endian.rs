//! Numbers as they stand in a file: the lowest byte first.

use vstd::prelude::*;

verus! {

/// The number a run of bytes stands for, the lowest byte first.
pub open spec fn le_value(bytes: Seq<u8>) -> nat
    decreases bytes.len(),
{
    if bytes.len() == 0 {
        0
    } else {
        bytes[0] as nat + 256 * le_value(bytes.drop_first())
    }
}

/// A number written into `width` bytes, the lowest byte first.
pub open spec fn le_bytes(value: nat, width: nat) -> Seq<u8>
    decreases width,
{
    if width == 0 {
        Seq::empty()
    } else {
        seq![(value % 256) as u8] + le_bytes(value / 256, (width - 1) as nat)
    }
}

/// How many numbers fit into `width` bytes.
pub open spec fn le_limit(width: nat) -> nat
    decreases width,
{
    if width == 0 {
        1
    } else {
        256 * le_limit((width - 1) as nat)
    }
}

/// The limits of the widths which are written.
pub proof fn lemma_limits()
    ensures
        le_limit(1) == 0x100,
        le_limit(2) == 0x1_0000,
        le_limit(4) == 0x1_0000_0000,
        le_limit(8) == 0x1_0000_0000_0000_0000,
{
    reveal_with_fuel(le_limit, 9);
}

/// A wider number has a higher limit.
proof fn lemma_limit_grows(a: nat, b: nat)
    requires
        a <= b,
    ensures
        1 <= le_limit(a) <= le_limit(b),
    decreases b,
{
    if a < b {
        lemma_limit_grows(a, (b - 1) as nat);
    } else if a > 0 {
        lemma_limit_grows((a - 1) as nat, (b - 1) as nat);
    }
}

/// What is written has the width it was asked for.
pub proof fn lemma_le_bytes_len(value: nat, width: nat)
    ensures
        le_bytes(value, width).len() == width,
    decreases width,
{
    if width > 0 {
        lemma_le_bytes_len(value / 256, (width - 1) as nat);
    }
}

/// A number is read back as it was written, if it fits.
pub proof fn lemma_write_then_read(value: nat, width: nat)
    requires
        value < le_limit(width),
    ensures
        le_bytes(value, width).len() == width,
        le_value(le_bytes(value, width)) == value,
    decreases width,
{
    if width > 0 {
        lemma_write_then_read(value / 256, (width - 1) as nat);
        assert(le_bytes(value, width).drop_first() =~= le_bytes(value / 256, (width - 1) as nat));
    }
}

/// What bytes stand for fits into as many bytes.
pub proof fn lemma_value_is_below_limit(bytes: Seq<u8>)
    ensures
        le_value(bytes) < le_limit(bytes.len()),
    decreases bytes.len(),
{
    if bytes.len() > 0 {
        lemma_value_is_below_limit(bytes.drop_first());
    }
}

/// Zeros stand for nothing else than zero.
pub proof fn lemma_zeros(bytes: Seq<u8>)
    requires
        forall|i: int| 0 <= i < bytes.len() ==> bytes[i] == 0,
    ensures
        le_value(bytes) == 0,
    decreases bytes.len(),
{
    if bytes.len() > 0 {
        lemma_zeros(bytes.drop_first());
    }
}

/// Reads the number which stands in `width` bytes at an offset.
pub fn read_le(src: &[u8], from: usize, width: usize) -> (r: u64)
    requires
        width <= 8,
        from + width <= src@.len(),
    ensures
        r == le_value(src@.subrange(from as int, from + width)),
        r < le_limit(width as nat),
{
    let mut r: u64 = 0;
    let mut left: usize = width;
    while left > 0
        invariant
            left <= width <= 8,
            from + width <= src.len(),
            r == le_value(src@.subrange(from + left, from + width)),
        decreases left,
    {
        left = left - 1;
        proof {
            let tail = src@.subrange(from + left + 1, from + width);
            let whole = src@.subrange(from + left, from + width);
            assert(whole.drop_first() =~= tail);
            lemma_value_is_below_limit(whole);
            lemma_limit_grows(whole.len(), 8);
            lemma_limits();
        }
        r = r * 256 + src[from + left] as u64;
    }
    proof {
        lemma_value_is_below_limit(src@.subrange(from as int, from + width));
    }
    r
}

/// Writes a number into `width` bytes at the end of what is there.
pub fn write_le(dest: &mut Vec<u8>, value: u64, width: usize)
    ensures
        final(dest)@ == old(dest)@ + le_bytes(value as nat, width as nat),
{
    let mut rest: u64 = value;
    let mut left: usize = width;
    proof {
        assert(dest@ + le_bytes(rest as nat, left as nat) =~= old(dest)@ + le_bytes(
            value as nat,
            width as nat,
        ));
    }
    while left > 0
        invariant
            dest@ + le_bytes(rest as nat, left as nat) == old(dest)@ + le_bytes(
                value as nat,
                width as nat,
            ),
        decreases left,
    {
        let ghost before = dest@;
        dest.push((rest % 256) as u8);
        proof {
            assert(before + le_bytes(rest as nat, left as nat) =~= dest@ + le_bytes(
                rest as nat / 256,
                (left - 1) as nat,
            ));
        }
        rest = rest / 256;
        left = left - 1;
    }
    assert(dest@ =~= dest@ + le_bytes(rest as nat, 0));
}

}
