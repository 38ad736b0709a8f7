//! Putting a list in order.

use vstd::prelude::*;
use vstd::seq_lib::{group_to_multiset_ensures, lemma_multiset_commutative, to_multiset_len};

verus! {

/// Something a list of which can be put in order.
pub trait Ordered: Sized {
    /// Whether this may stand in front of the other one.
    spec fn may_precede(&self, other: &Self) -> bool;

    proof fn precede_either_way(a: &Self, b: &Self)
        ensures
            a.may_precede(b) || b.may_precede(a),
    ;

    proof fn precede_on_and_on(a: &Self, b: &Self, c: &Self)
        requires
            a.may_precede(b),
            b.may_precede(c),
        ensures
            a.may_precede(c),
    ;

    fn precedes(&self, other: &Self) -> (r: bool)
        ensures
            r == self.may_precede(other),
    ;
}

/// Whether everything may stand in front of everything behind it.
pub open spec fn is_sorted<T: Ordered>(s: Seq<T>) -> bool {
    forall|i: int, j: int|
        #![trigger s[i], s[j]]
        0 <= i < j < s.len() ==> s[i].may_precede(&s[j])
}

/// The same things, in order.
pub fn sort<T: Ordered>(items: Vec<T>) -> (r: Vec<T>)
    ensures
        is_sorted(r@),
        r@.to_multiset() == items@.to_multiset(),
        r@.len() == items@.len(),
    decreases items.len(),
{
    let mut left = items;
    if left.len() < 2 {
        return left;
    }
    let middle: usize = left.len() / 2;
    let right = left.split_off(middle);
    proof {
        assert(items@ =~= left@ + right@);
        lemma_multiset_commutative(left@, right@);
    }
    let sorted_left = sort(left);
    let sorted_right = sort(right);
    merge(sorted_left, sorted_right)
}

/// Two lists which are in order, as one which is.
fn merge<T: Ordered>(left: Vec<T>, right: Vec<T>) -> (r: Vec<T>)
    requires
        is_sorted(left@),
        is_sorted(right@),
    ensures
        is_sorted(r@),
        r@.to_multiset() == left@.to_multiset().add(right@.to_multiset()),
        r@.len() == left@.len() + right@.len(),
{
    broadcast use group_to_multiset_ensures;

    let mut left = left;
    let mut right = right;
    let ghost all = left@.to_multiset().add(right@.to_multiset());
    let ghost count = left@.len() + right@.len();
    // The last things first.
    let mut backwards: Vec<T> = Vec::new();
    assert(all =~= left@.to_multiset().add(right@.to_multiset()).add(backwards@.to_multiset()));
    while left.len() > 0 || right.len() > 0
        invariant
            is_sorted(left@),
            is_sorted(right@),
            is_sorted_backwards(backwards@),
            may_all_precede(left@, backwards@),
            may_all_precede(right@, backwards@),
            all == left@.to_multiset().add(right@.to_multiset()).add(backwards@.to_multiset()),
            count == left@.len() + right@.len() + backwards@.len(),
        decreases left.len() + right.len(),
    {
        let take_right = if left.len() == 0 {
            true
        } else if right.len() == 0 {
            false
        } else {
            left[left.len() - 1].precedes(&right[right.len() - 1])
        };
        let ghost was_left = left@;
        let ghost was_right = right@;
        let ghost was_backwards = backwards@;
        let next = if take_right {
            right.pop().unwrap()
        } else {
            left.pop().unwrap()
        };
        proof {
            if take_right {
                lemma_last_taken(was_right, right@, next);
                if was_left.len() > 0 {
                    lemma_last_may_follow(was_left, next);
                }
            } else {
                lemma_last_taken(was_left, left@, next);
                if was_right.len() > 0 {
                    T::precede_either_way(&was_left.last(), &was_right.last());
                    lemma_last_may_follow(was_right, next);
                }
            }
        }
        backwards.push(next);
        proof {
            broadcast use group_to_multiset_ensures;

            assert(backwards@.to_multiset() == was_backwards.to_multiset().insert(next));
            assert(all =~= left@.to_multiset().add(right@.to_multiset()).add(
                backwards@.to_multiset(),
            ));
        }
    }
    let mut result: Vec<T> = Vec::new();
    proof {
        assert(left@.to_multiset().add(right@.to_multiset()).add(backwards@.to_multiset())
            =~= backwards@.to_multiset());
        assert(all =~= backwards@.to_multiset().add(result@.to_multiset()));
    }
    while backwards.len() > 0
        invariant
            is_sorted(result@),
            is_sorted_backwards(backwards@),
            may_all_precede(result@, backwards@),
            all == backwards@.to_multiset().add(result@.to_multiset()),
            count == backwards@.len() + result@.len(),
        decreases backwards.len(),
    {
        let ghost was = backwards@;
        let ghost was_result = result@;
        let next = backwards.pop().unwrap();
        result.push(next);
        proof {
            broadcast use group_to_multiset_ensures;

            assert(was =~= backwards@.push(next));
            assert(was.to_multiset() == backwards@.to_multiset().insert(next));
            assert(result@.to_multiset() == was_result.to_multiset().insert(next));
            assert(all =~= backwards@.to_multiset().add(result@.to_multiset()));
            assert(forall|i: int| 0 <= i < backwards@.len() ==> was[i] == backwards@[i]);
        }
    }
    assert(backwards@.to_multiset().add(result@.to_multiset()) =~= result@.to_multiset());
    result
}

spec fn is_sorted_backwards<T: Ordered>(s: Seq<T>) -> bool {
    forall|i: int, j: int|
        #![trigger s[i], s[j]]
        0 <= i < j < s.len() ==> s[j].may_precede(&s[i])
}

spec fn may_all_precede<T: Ordered>(front: Seq<T>, back: Seq<T>) -> bool {
    forall|i: int, j: int|
        #![trigger front[i], back[j]]
        0 <= i < front.len() && 0 <= j < back.len() ==> front[i].may_precede(&back[j])
}

proof fn lemma_last_taken<T: Ordered>(before: Seq<T>, after: Seq<T>, last: T)
    requires
        before.len() > 0,
        after == before.drop_last(),
        last == before.last(),
        is_sorted(before),
    ensures
        is_sorted(after),
        forall|i: int| 0 <= i < after.len() ==> (#[trigger] after[i]).may_precede(&last),
        before.to_multiset() == after.to_multiset().insert(last),
{
    broadcast use group_to_multiset_ensures;

    assert(before =~= after.push(last));
    assert forall|i: int| 0 <= i < after.len() implies (#[trigger] after[i]).may_precede(
        &last,
    ) by {
        assert(after[i] == before[i]);
        assert(last == before[before.len() - 1]);
    }
    assert forall|i: int, j: int|
        #![trigger after[i], after[j]]
        0 <= i < j < after.len() implies after[i].may_precede(&after[j]) by {
        assert(after[i] == before[i] && after[j] == before[j]);
    }
}

proof fn lemma_last_may_follow<T: Ordered>(s: Seq<T>, next: T)
    requires
        s.len() > 0,
        is_sorted(s),
        s.last().may_precede(&next),
    ensures
        forall|i: int| 0 <= i < s.len() ==> (#[trigger] s[i]).may_precede(&next),
{
    assert forall|i: int| 0 <= i < s.len() implies (#[trigger] s[i]).may_precede(&next) by {
        if i < s.len() - 1 {
            assert(s[i].may_precede(&s[s.len() - 1]));
            T::precede_on_and_on(&s[i], &s.last(), &next);
        }
    }
}

/// Two lists of the same things, each as often in one as in the other.
pub proof fn lemma_same_items<T>(a: Seq<T>, b: Seq<T>)
    requires
        a.to_multiset() == b.to_multiset(),
    ensures
        a.len() == b.len(),
        forall|x: T| #[trigger] a.contains(x) <==> b.contains(x),
        a.no_duplicates() ==> b.no_duplicates(),
{
    broadcast use group_to_multiset_ensures;

    assert forall|x: T| #[trigger] a.contains(x) <==> b.contains(x) by {
        assert(a.contains(x) <==> a.to_multiset().count(x) > 0);
        assert(b.contains(x) <==> b.to_multiset().count(x) > 0);
    }
    to_multiset_len(a);
    to_multiset_len(b);
    if a.no_duplicates() {
        a.lemma_multiset_has_no_duplicates();
        b.lemma_multiset_has_no_duplicates_conv();
    }
}

}
