//! A page-file byte by byte and slot by slot.

use super::slot::zeros;
use super::slot_book::{slots_with, zeroed};
use vstd::arithmetic::div_mod::{lemma_fundamental_div_mod, lemma_mod_bound};
use vstd::prelude::*;

verus! {

/// One slot of a page-file.
pub open spec fn slot_of(bytes: Seq<u8>, size: nat, i: int) -> Seq<u8> {
    bytes.subrange(i * size, i * size + size)
}

/// The slots of a page-file. What does not make up a whole slot is not one.
pub open spec fn slots_of(bytes: Seq<u8>, size: nat) -> Seq<Seq<u8>> {
    Seq::new(bytes.len() / size, |i: int| slot_of(bytes, size, i))
}

/// A file once some bytes are written at an offset.
pub open spec fn file_with(bytes: Seq<u8>, offset: nat, data: Seq<u8>) -> Seq<u8> {
    let end = offset + data.len();
    Seq::new(
        if bytes.len() < end {
            end
        } else {
            bytes.len()
        },
        |i: int|
            if offset <= i < end {
                data[i - offset]
            } else if i < bytes.len() {
                bytes[i]
            } else {
                0u8
            },
    )
}

/// Whether a slot is all there.
pub proof fn lemma_whole_slot(len: nat, size: nat, i: int)
    requires
        size > 0,
        0 <= i,
    ensures
        i < len / size <==> i * size + size <= len,
{
    lemma_fundamental_div_mod(len as int, size as int);
    lemma_mod_bound(len as int, size as int);
    let n = (len / size) as int;
    let rest = (len % size) as int;
    assert(len == size * n + rest);
    if i < n {
        assert(i * size + size <= size * n) by (nonlinear_arith)
            requires
                i < n,
                size > 0,
        ;
    } else {
        assert(size * n <= i * size) by (nonlinear_arith)
            requires
                i >= n,
                size > 0,
        ;
    }
}

/// Two different slots do not overlap.
proof fn lemma_slots_apart(size: nat, i: int, j: int)
    requires
        i < j,
    ensures
        i * size + size <= j * size,
{
    assert(i * size + size <= j * size) by (nonlinear_arith)
        requires
            i < j,
    ;
}

/// Writing a slot at its offset writes that slot.
pub proof fn writing_at_an_offset_writes_the_slot(
    bytes: Seq<u8>,
    size: nat,
    i: nat,
    data: Seq<u8>,
)
    requires
        size > 0,
        data.len() == size,
        i <= slots_of(bytes, size).len(),
    ensures
        slots_of(file_with(bytes, i * size, data), size) == slots_with(
            slots_of(bytes, size),
            i,
            data,
            size,
        ),
{
    let after = file_with(bytes, i * size, data);
    let n = bytes.len() / size;
    let got = slots_of(after, size);
    let want = slots_with(slots_of(bytes, size), i, data, size);
    lemma_whole_slot(bytes.len(), size, i as int);
    lemma_whole_slot(bytes.len(), size, n as int);
    lemma_whole_slot(after.len(), size, i as int);
    lemma_whole_slot(after.len(), size, i as int + 1);
    lemma_whole_slot(after.len(), size, n as int);
    assert((i as int + 1) * size == i * size + size) by (nonlinear_arith);
    assert(got.len() == want.len()) by {
        if i < n {
            assert(after.len() == bytes.len());
        }
    }
    assert forall|j: int| 0 <= j < want.len() implies #[trigger] got[j] == want[j] by {
        lemma_whole_slot(after.len(), size, j);
        assert(0 <= j * size) by (nonlinear_arith)
            requires
                0 <= j,
        ;
        if j < i {
            lemma_slots_apart(size, j, i as int);
            lemma_whole_slot(bytes.len(), size, j);
        } else if j > i {
            lemma_slots_apart(size, i as int, j);
            lemma_whole_slot(bytes.len(), size, j);
        }
        assert(slot_of(after, size, j) =~= want[j]);
    }
    assert(got =~= want);
}

/// Zeroing sixteen bytes at the offset of a slot zeroes the prefix of that slot.
pub proof fn zeroing_at_an_offset_zeroes_the_slot(bytes: Seq<u8>, size: nat, i: nat)
    requires
        size >= 16,
        i < slots_of(bytes, size).len(),
    ensures
        slots_of(file_with(bytes, i * size, zeros(16)), size) == slots_of(bytes, size).update(
            i as int,
            zeroed(slots_of(bytes, size)[i as int]),
        ),
{
    let after = file_with(bytes, i * size, zeros(16));
    let got = slots_of(after, size);
    let want = slots_of(bytes, size).update(i as int, zeroed(slots_of(bytes, size)[i as int]));
    lemma_whole_slot(bytes.len(), size, i as int);
    assert(after.len() == bytes.len());
    assert forall|j: int| 0 <= j < want.len() implies #[trigger] got[j] == want[j] by {
        lemma_whole_slot(bytes.len(), size, j);
        assert(0 <= j * size) by (nonlinear_arith)
            requires
                0 <= j,
        ;
        if j < i {
            lemma_slots_apart(size, j, i as int);
        } else if j > i {
            lemma_slots_apart(size, i as int, j);
        }
        assert(slot_of(after, size, j) =~= want[j]);
    }
    assert(got =~= want);
}

/// Cutting a file at the end of a slot leaves the slots before it.
pub proof fn cutting_at_an_offset_cuts_the_slots(bytes: Seq<u8>, size: nat, end: nat)
    requires
        size > 0,
        end <= slots_of(bytes, size).len(),
    ensures
        end * size <= bytes.len(),
        slots_of(bytes.take((end * size) as int), size) == slots_of(bytes, size).take(end as int),
{
    if end > 0 {
        lemma_whole_slot(bytes.len(), size, end - 1);
        assert((end - 1) * size + size == end * size) by (nonlinear_arith);
    }
    assert(0 <= end * size) by (nonlinear_arith);
    let after = bytes.take((end * size) as int);
    let got = slots_of(after, size);
    let want = slots_of(bytes, size).take(end as int);
    lemma_whole_slot(after.len(), size, end as int);
    if end > 0 {
        lemma_whole_slot(after.len(), size, end - 1);
    }
    assert(got.len() == want.len());
    assert forall|j: int| 0 <= j < want.len() implies #[trigger] got[j] == want[j] by {
        lemma_whole_slot(after.len(), size, j);
        assert(0 <= j * size) by (nonlinear_arith)
            requires
                0 <= j,
        ;
        assert(slot_of(after, size, j) =~= want[j]);
    }
    assert(got =~= want);
}

}
