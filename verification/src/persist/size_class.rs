//! How long the slot of a partition is.

use vstd::arithmetic::power2::{lemma2_to64, lemma_pow2_strictly_increases, lemma_pow2_unfold, pow2};
use vstd::prelude::*;

verus! {

/// Smallest slot size we ever allocate. 512 B == one disk sector, so an
/// in-place overwrite of a 512 B slot is atomic on virtually all drives.
pub const MIN_SIZE_CLASS: u32 = 512;

/// The largest size class a `u32` can hold.
pub const MAX_SIZE_CLASS: u32 = 0x8000_0000;

/// The smallest class doubled `doublings` times.
pub open spec fn nth_size_class(doublings: nat) -> nat {
    MIN_SIZE_CLASS as nat * pow2(doublings)
}

/// Whether slots of this size are ever allocated: a power of two, starting at
/// `MIN_SIZE_CLASS`.
pub open spec fn is_size_class(size: nat) -> bool {
    exists|doublings: nat| size == #[trigger] nth_size_class(doublings)
}

/// Whether this is the smallest class so many bytes fit into.
pub open spec fn is_smallest_for(size: nat, needed: nat) -> bool {
    &&& is_size_class(size)
    &&& needed <= size
    &&& forall|other: nat| #[trigger] is_size_class(other) && needed <= other ==> size <= other
}

/// The smallest class so many bytes fit into.
pub open spec fn smallest_class_for(needed: nat) -> nat {
    choose|size: nat| is_smallest_for(size, needed)
}

/// Picks the page-file (size class) for a slot that needs `needed` bytes total
/// (header + keys + payload): the smallest class it fits into. Worst-case
/// internal waste is < 2x.
pub fn size_class_for(needed: usize) -> (r: u32)
    requires
        needed <= MAX_SIZE_CLASS,
    ensures
        is_smallest_for(r as nat, needed as nat),
        r == smallest_class_for(needed as nat),
        MIN_SIZE_CLASS <= r <= MAX_SIZE_CLASS,
        r == MIN_SIZE_CLASS || r < 2 * needed,
{
    let mut size_class: u32 = MIN_SIZE_CLASS;
    let ghost mut doublings: nat = 0;
    proof {
        lemma2_to64();
    }
    while (size_class as usize) < needed
        invariant
            needed <= MAX_SIZE_CLASS,
            MIN_SIZE_CLASS <= size_class <= MAX_SIZE_CLASS,
            size_class == nth_size_class(doublings),
            size_class == MIN_SIZE_CLASS || size_class < 2 * needed,
            forall|fewer: nat| fewer < doublings ==> #[trigger] nth_size_class(fewer) < needed,
            doublings <= 22,
            forall|k: nat| k <= 22 ==> #[trigger] pow2(k) <= 0x40_0000,
            pow2(22) == 0x40_0000,
        decreases MAX_SIZE_CLASS - size_class,
    {
        proof {
            assert forall|fewer: nat| fewer < doublings + 1 implies #[trigger] nth_size_class(fewer)
                < needed by {
                if fewer < doublings {
                } else {
                    assert(fewer == doublings);
                }
            }
            lemma_pow2_unfold(doublings + 1);
            if doublings == 22 {
                assert(size_class == MAX_SIZE_CLASS);
            }
            assert(nth_size_class(doublings + 1) == 2 * nth_size_class(doublings));
            assert(2 * size_class <= MAX_SIZE_CLASS) by {
                assert(pow2((doublings + 1) as nat) <= 0x40_0000);
            }
            doublings = doublings + 1;
        }
        size_class = size_class * 2;
    }
    proof {
        assert forall|other: nat| #[trigger] is_size_class(other) && needed <= other implies size_class
            <= other by {
            let d = choose|d: nat| other == #[trigger] nth_size_class(d);
            if d < doublings {
                assert(nth_size_class(d) < needed);
            } else if d > doublings {
                lemma_pow2_strictly_increases(doublings, d);
                assert(nth_size_class(doublings) <= nth_size_class(d)) by (nonlinear_arith)
                    requires
                        pow2(doublings) < pow2(d),
                        nth_size_class(doublings) == 512 * pow2(doublings),
                        nth_size_class(d) == 512 * pow2(d),
                ;
            }
        }
        assert(is_smallest_for(size_class as nat, needed as nat));
    }
    size_class
}

proof fn lemma_smallest_from(needed: nat, doublings: nat)
    requires
        needed <= MAX_SIZE_CLASS,
        doublings <= 22,
        forall|fewer: nat| fewer < doublings ==> #[trigger] nth_size_class(fewer) < needed,
    ensures
        exists|size: nat|
            MIN_SIZE_CLASS <= size <= MAX_SIZE_CLASS && #[trigger] is_smallest_for(size, needed),
    decreases 22 - doublings,
{
    lemma2_to64();
    let size = nth_size_class(doublings);
    if doublings < 22 {
        lemma_pow2_strictly_increases(doublings, 22);
    }
    if needed <= size {
        if doublings > 0 {
            lemma_pow2_strictly_increases(0, doublings);
        }
        assert forall|other: nat| #[trigger] is_size_class(other) && needed <= other implies size
            <= other by {
            let d = choose|d: nat| other == #[trigger] nth_size_class(d);
            if d < doublings {
                assert(nth_size_class(d) < needed);
            } else if d > doublings {
                lemma_pow2_strictly_increases(doublings, d);
            }
        }
        assert(is_smallest_for(size, needed));
    } else {
        assert(doublings < 22);
        assert forall|fewer: nat| fewer < doublings + 1 implies #[trigger] nth_size_class(fewer)
            < needed by {
            if fewer == doublings {
                assert(nth_size_class(fewer) == size);
            }
        }
        lemma_smallest_from(needed, doublings + 1);
    }
}

/// Whatever fits into the largest class has a class it fits into best.
pub proof fn a_class_is_found(needed: nat)
    requires
        needed <= MAX_SIZE_CLASS,
    ensures
        is_smallest_for(smallest_class_for(needed), needed),
        MIN_SIZE_CLASS <= smallest_class_for(needed) <= MAX_SIZE_CLASS,
{
    lemma_smallest_from(needed, 0);
    let size = choose|size: nat|
        MIN_SIZE_CLASS <= size <= MAX_SIZE_CLASS && #[trigger] is_smallest_for(size, needed);
    assert(is_smallest_for(size, needed));
    let found = smallest_class_for(needed);
    assert(is_smallest_for(found, needed));
    assert(size <= found && found <= size);
}

}
