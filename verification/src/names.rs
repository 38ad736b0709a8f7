//! Sets of names, and lists of names without an order of their own.
//!
//! The sets are those of the `ahash` crate.

use crate::sorting::{lemma_same_items, sort, Ordered};
use crate::text::{
    comes_before, lemma_text_before_chain, lemma_text_before_once, same_text, text_before,
};
use ahash::AHashSet;
use vstd::prelude::*;

verus! {

/// `ahash::AHashSet`, of which nothing is known but what the functions below
/// say.
#[verifier::external_type_specification]
#[verifier::external_body]
#[verifier::reject_recursive_types(T)]
#[verifier::reject_recursive_types(S)]
pub struct ExAHashSet<T, S>(ahash::AHashSet<T, S>);

/// The names a set holds.
pub uninterp spec fn held_names(s: AHashSet<String>) -> Set<Seq<char>>;

/// `AHashSet::new`: a set with nothing in it.
#[verifier::external_body]
pub(crate) fn name_set_new() -> (s: AHashSet<String>)
    ensures
        (held_names(s) == Set::<Seq<char>>::empty()),
{
    AHashSet::new()
}

/// `AHashSet::insert`: the name is in the set, next to what was in it.
#[verifier::external_body]
pub(crate) fn name_set_insert(s: &mut AHashSet<String>, name: String)
    ensures
        held_names(*final(s)) == held_names(*old(s)).insert(name@),
{
    s.insert(name);
}

/// `AHashSet::contains`: whether the name is in the set.
#[verifier::external_body]
pub(crate) fn name_set_contains(s: &AHashSet<String>, name: &str) -> (r: bool)
    ensures
        r == held_names(*s).contains(name@),
{
    s.contains(name)
}

/// `AHashSet::iter`: every name of the set, once, in no order anybody can count
/// on.
#[verifier::external_body]
pub(crate) fn name_set_items(s: &AHashSet<String>) -> (r: Vec<String>)
    ensures
        all_differ(r@),
        forall|name: Seq<char>| #[trigger]
            is_listed(r@, name) <==> held_names(*s).contains(name),
{
    s.iter().cloned().collect()
}

/// Whether a name is in a list.
pub open spec fn is_listed(names: Seq<String>, name: Seq<char>) -> bool {
    exists|k: int| 0 <= k < names.len() && (#[trigger] names[k])@ == name
}

/// Whether no name is twice in a list.
pub open spec fn all_differ(names: Seq<String>) -> bool {
    forall|i: int, j: int|
        #![trigger names[i], names[j]]
        0 <= i < j < names.len() ==> names[i]@ != names[j]@
}

/// Whether every name of a list comes before those behind it.
pub open spec fn is_ascending(names: Seq<String>) -> bool {
    forall|i: int, j: int|
        #![trigger names[i], names[j]]
        0 <= i < j < names.len() ==> text_before(names[i]@, names[j]@)
}

/// Something which has a name.
pub trait Named: Sized {
    spec fn called(&self) -> Seq<char>;

    fn get_name(&self) -> (r: &str)
        ensures
            r@ == self.called(),
    ;
}

impl Named for String {
    open spec fn called(&self) -> Seq<char> {
        self@
    }

    fn get_name(&self) -> (r: &str) {
        self.as_str()
    }
}

/// Things with names go by their names.
impl<T: Named> Ordered for T {
    open spec fn may_precede(&self, other: &Self) -> bool {
        !text_before(other.called(), self.called())
    }

    proof fn precede_either_way(a: &Self, b: &Self) {
        lemma_text_before_once(a.called(), b.called());
    }

    proof fn precede_on_and_on(a: &Self, b: &Self, c: &Self) {
        lemma_text_before_chain(c.called(), a.called(), b.called());
        lemma_text_before_once(b.called(), c.called());
        lemma_text_before_once(a.called(), b.called());
        lemma_text_before_once(a.called(), c.called());
        lemma_text_before_chain(c.called(), b.called(), a.called());
    }

    fn precedes(&self, other: &Self) -> (r: bool) {
        !comes_before(other.get_name(), self.get_name())
    }
}

/// Whether no two things have the same name.
pub open spec fn names_differ<T: Named>(items: Seq<T>) -> bool {
    forall|i: int, j: int|
        #![trigger items[i], items[j]]
        0 <= i < j < items.len() ==> items[i].called() != items[j].called()
}

/// Whether no two things have the same name.
pub fn are_named_differently<T: Named>(items: &Vec<T>) -> (r: bool)
    ensures
        r == names_differ(items@),
{
    for j in 0..items.len()
        invariant
            forall|a: int, b: int|
                #![trigger items@[a], items@[b]]
                0 <= a < b < j ==> items@[a].called() != items@[b].called(),
    {
        for i in 0..j
            invariant
                j < items@.len(),
                forall|a: int| 0 <= a < i ==> (#[trigger] items@[a]).called() != items@[
                    j as int
                ].called(),
        {
            if same_text(items[i].get_name(), items[j].get_name()) {
                assert(items@[i as int].called() == items@[j as int].called());
                return false;
            }
        }
    }
    true
}

/// Whether every name comes before those behind it.
pub open spec fn names_ascend<T: Named>(items: Seq<T>) -> bool {
    forall|i: int, j: int|
        #![trigger items[i], items[j]]
        0 <= i < j < items.len() ==> text_before(items[i].called(), items[j].called())
}

/// The same things, in the order of their names.
pub fn sort_by_name<T: Named>(items: Vec<T>) -> (r: Vec<T>)
    requires
        names_differ(items@),
    ensures
        names_ascend(r@),
        r@.len() == items@.len(),
        forall|item: T| #[trigger] r@.contains(item) <==> items@.contains(item),
{
    let ghost given = items@;
    let r = sort(items);
    proof {
        assert(given.no_duplicates());
        lemma_same_items(given, r@);
        assert forall|i: int, j: int|
            #![trigger r@[i], r@[j]]
            0 <= i < j < r@.len() implies text_before(r@[i].called(), r@[j].called()) by {
            assert(r@[i].may_precede(&r@[j]));
            assert(given.contains(r@[i]) && given.contains(r@[j]));
            assert(r@[i] != r@[j]);
            lemma_text_before_once(r@[i].called(), r@[j].called());
        }
        assert forall|item: T| #[trigger] r@.contains(item) <==> given.contains(item) by {
            assert(given.contains(item) <==> r@.contains(item));
        }
    }
    r
}

/// The same names, in order.
pub fn sort_names(names: Vec<String>) -> (r: Vec<String>)
    requires
        all_differ(names@),
    ensures
        is_ascending(r@),
        r@.len() == names@.len(),
        forall|name: Seq<char>| #[trigger] is_listed(r@, name) <==> is_listed(names@, name),
{
    let ghost given = names@;
    let r = sort_by_name(names);
    proof {
        assert forall|name: Seq<char>| #[trigger] is_listed(r@, name) <==> is_listed(
            given,
            name,
        ) by {
            if is_listed(r@, name) {
                let k = choose|k: int| 0 <= k < r@.len() && (#[trigger] r@[k])@ == name;
                assert(r@.contains(r@[k]));
                assert(given.contains(r@[k]));
            }
            if is_listed(given, name) {
                let k = choose|k: int| 0 <= k < given.len() && (#[trigger] given[k])@ == name;
                assert(given.contains(given[k]));
                assert(r@.contains(given[k]));
            }
        }
    }
    r
}

}
