//! Values under names, in the order of the names.

use crate::text::{comes_before, lemma_text_before_chain, lemma_text_before_once, same_text, text_before};
use vstd::prelude::*;

verus! {

/// Values under names. Every name is there once, and they stand in their order.
pub struct TextMap<T> {
    entries: Vec<(String, T)>,
}

impl<T> TextMap<T> {
    /// The entries in their order.
    pub closed spec fn entries(&self) -> Seq<(String, T)> {
        self.entries@
    }

    /// Every name is there once, and they stand in their order.
    pub open spec fn wf(&self) -> bool {
        forall|i: int, j: int|
            #![trigger self.entries()[i], self.entries()[j]]
            0 <= i < j < self.entries().len() ==> text_before(
                self.entries()[i].0@,
                self.entries()[j].0@,
            )
    }

    /// Whether something stands under the name.
    pub open spec fn has(&self, name: Seq<char>) -> bool {
        exists|i: int| 0 <= i < self.entries().len() && (#[trigger] self.entries()[i]).0@ == name
    }

    /// Where the name stands.
    pub open spec fn place_of(&self, name: Seq<char>) -> int {
        choose|i: int| 0 <= i < self.entries().len() && (#[trigger] self.entries()[i]).0@ == name
    }

    /// What stands under each name.
    pub open spec fn map(&self) -> Map<Seq<char>, T> {
        Map::new(
            |name: Seq<char>| self.has(name),
            |name: Seq<char>| self.entries()[self.place_of(name)].1,
        )
    }

    /// What stands at a place stands under its name.
    pub proof fn entry_is_in_map(&self, i: int)
        requires
            self.wf(),
            0 <= i < self.entries().len(),
        ensures
            self.map().contains_key(self.entries()[i].0@),
            self.place_of(self.entries()[i].0@) == i,
            self.map()[self.entries()[i].0@] == self.entries()[i].1,
    {
        let name = self.entries()[i].0@;
        let j = self.place_of(name);
        assert(self.entries()[j].0@ == name);
        lemma_text_before_once(name, name);
    }

    /// Nothing under any name.
    pub fn new() -> (r: Self)
        ensures
            r.wf(),
            r.entries().len() == 0,
            r.map() == Map::<Seq<char>, T>::empty(),
    {
        let r = TextMap { entries: Vec::new() };
        assert(r.map() =~= Map::<Seq<char>, T>::empty());
        r
    }

    /// How many names there are.
    pub fn len(&self) -> (r: usize)
        ensures
            r == self.entries().len(),
    {
        self.entries.len()
    }

    /// The name at a place.
    pub fn name_at(&self, i: usize) -> (r: &String)
        requires
            i < self.entries().len(),
        ensures
            *r == self.entries()[i as int].0,
    {
        &self.entries[i].0
    }

    /// The value at a place.
    pub fn value_at(&self, i: usize) -> (r: &T)
        requires
            i < self.entries().len(),
        ensures
            *r == self.entries()[i as int].1,
    {
        &self.entries[i].1
    }

    /// Where the name stands, or where it would.
    fn find_place(&self, name: &str) -> (r: usize)
        requires
            self.wf(),
        ensures
            r <= self.entries().len(),
            forall|i: int| 0 <= i < r ==> text_before((#[trigger] self.entries()[i]).0@, name@),
            forall|i: int|
                r <= i < self.entries().len() ==> !text_before(
                    (#[trigger] self.entries()[i]).0@,
                    name@,
                ),
    {
        let mut r: usize = 0;
        while r < self.entries.len() && comes_before(self.entries[r].0.as_str(), name)
            invariant
                r <= self.entries().len(),
                forall|i: int| 0 <= i < r ==> text_before((#[trigger] self.entries()[i]).0@, name@),
            decreases self.entries.len() - r,
        {
            r = r + 1;
        }
        assert forall|i: int| r <= i < self.entries().len() implies !text_before(
            (#[trigger] self.entries()[i]).0@,
            name@,
        ) by {
            if r < i {
                assert(text_before(self.entries()[r as int].0@, self.entries()[i].0@));
                lemma_text_before_chain(
                    self.entries()[r as int].0@,
                    self.entries()[i].0@,
                    name@,
                );
            }
        }
        r
    }

    /// Puts a value under the name, in the place of the one which was there.
    pub fn insert(&mut self, name: String, value: T)
        requires
            old(self).wf(),
        ensures
            final(self).wf(),
            final(self).map() == old(self).map().insert(name@, value),
    {
        let ghost before = *self;
        let at: usize = self.find_place(name.as_str());
        if at < self.entries.len() && same_text(self.entries[at].0.as_str(), name.as_str()) {
            self.entries.remove(at);
            self.entries.insert(at, (name, value));
            proof {
                assert(self.entries() =~= before.entries().update(at as int, (name, value)));
                lemma_after_insert(before, *self, at as int, 0);
            }
        } else {
            self.entries.insert(at, (name, value));
            proof {
                lemma_after_insert(before, *self, at as int, 1);
            }
        }
    }

    /// Takes out what stands under the name, and says whether anything did.
    pub fn remove(&mut self, name: &str) -> (r: bool)
        requires
            old(self).wf(),
        ensures
            final(self).wf(),
            r == old(self).map().contains_key(name@),
            final(self).map() == old(self).map().remove(name@),
    {
        let ghost before = *self;
        let at: usize = self.find_place(name);
        if at < self.entries.len() && same_text(self.entries[at].0.as_str(), name) {
            self.entries.remove(at);
            proof {
                assert(before.entries()[at as int].0@ == name@);
                lemma_after_remove(before, *self, at as int);
            }
            true
        } else {
            proof {
                if before.has(name@) {
                    let i = before.place_of(name@);
                    assert(before.entries()[i].0@ == name@);
                    lemma_text_before_once(name@, name@);
                    if i > at {
                        assert(text_before(before.entries()[at as int].0@, name@));
                    }
                }
                assert(self.map() =~= before.map().remove(name@));
            }
            false
        }
    }
}

proof fn lemma_after_insert<T>(before: TextMap<T>, after: TextMap<T>, at: int, shift: int)
    requires
        before.wf(),
        0 <= at < after.entries().len(),
        shift == 0 || shift == 1,
        after.entries().len() == before.entries().len() + shift,
        forall|i: int| 0 <= i < at ==> after.entries()[i] == before.entries()[i],
        forall|i: int|
            at < i < after.entries().len() ==> after.entries()[i] == before.entries()[i - shift],
        forall|i: int|
            0 <= i < at ==> text_before(
                (#[trigger] before.entries()[i]).0@,
                after.entries()[at].0@,
            ),
        forall|i: int|
            at <= i < before.entries().len() ==> !text_before(
                (#[trigger] before.entries()[i]).0@,
                after.entries()[at].0@,
            ),
        shift == 0 ==> at < before.entries().len() && before.entries()[at].0@
            == after.entries()[at].0@,
        shift == 1 ==> at == before.entries().len() || before.entries()[at].0@
            != after.entries()[at].0@,
    ensures
        after.wf(),
        after.map() == before.map().insert(after.entries()[at].0@, after.entries()[at].1),
{
    let name = after.entries()[at].0@;
    let a = after.entries();
    let b = before.entries();
    assert forall|i: int| at <= i < b.len() && (shift == 1 || i > at) implies text_before(
        name,
        (#[trigger] b[i]).0@,
    ) by {
        lemma_text_before_once(name, b[i].0@);
        if i > at {
            assert(text_before(b[at].0@, b[i].0@));
            lemma_text_before_once(b[at].0@, b[i].0@);
            lemma_text_before_once(name, b[at].0@);
        }
    }
    assert forall|i: int, j: int|
        #![trigger after.entries()[i], after.entries()[j]]
        0 <= i < j < after.entries().len() implies text_before(
        after.entries()[i].0@,
        after.entries()[j].0@,
    ) by {
        if i < at && j > at {
            assert(text_before(b[i].0@, b[j - shift].0@));
        } else if j < at {
            assert(text_before(b[i].0@, b[j].0@));
        } else if i > at {
            assert(text_before(b[i - shift].0@, b[j - shift].0@));
        } else if i == at {
            assert(text_before(name, b[j - shift].0@));
        } else {
            assert(text_before(b[i].0@, name));
        }
    }
    let want = before.map().insert(name, a[at].1);
    assert forall|k: Seq<char>| after.map().contains_key(k) == #[trigger] want.contains_key(k) by {
        if after.has(k) && k != name {
            let i = after.place_of(k);
            assert(a[i].0@ == k);
            assert(b[if i < at { i } else { i - shift }].0@ == k);
        }
        if k == name {
            assert(a[at].0@ == k);
        } else if before.has(k) {
            let i = before.place_of(k);
            assert(b[i].0@ == k);
            assert(a[if i < at { i } else { i + shift }].0@ == k);
        }
    }
    assert forall|k: Seq<char>| #[trigger] after.map().contains_key(k) implies after.map()[k]
        == want[k] by {
        let i = after.place_of(k);
        assert(a[i].0@ == k);
        after.entry_is_in_map(i);
        if i != at {
            before.entry_is_in_map(if i < at { i } else { i - shift });
            assert(k != name) by {
                after.entry_is_in_map(at);
            }
        }
    }
    assert(after.map() =~= want);
}

proof fn lemma_after_remove<T>(before: TextMap<T>, after: TextMap<T>, at: int)
    requires
        before.wf(),
        0 <= at < before.entries().len(),
        after.entries() == before.entries().remove(at),
    ensures
        after.wf(),
        before.map().contains_key(before.entries()[at].0@),
        after.map() == before.map().remove(before.entries()[at].0@),
{
    let a = after.entries();
    let b = before.entries();
    let name = b[at].0@;
    before.entry_is_in_map(at);
    assert forall|i: int, j: int|
        #![trigger after.entries()[i], after.entries()[j]]
        0 <= i < j < after.entries().len() implies text_before(
        after.entries()[i].0@,
        after.entries()[j].0@,
    ) by {
        let from_i = if i < at { i } else { i + 1 };
        let from_j = if j < at { j } else { j + 1 };
        assert(text_before(b[from_i].0@, b[from_j].0@));
    }
    let want = before.map().remove(name);
    assert forall|k: Seq<char>| after.map().contains_key(k) == #[trigger] want.contains_key(k) by {
        if after.has(k) {
            let i = after.place_of(k);
            assert(a[i].0@ == k);
            let from = if i < at { i } else { i + 1 };
            assert(b[from].0@ == k);
            before.entry_is_in_map(from);
        }
        if before.has(k) && k != name {
            let i = before.place_of(k);
            assert(b[i].0@ == k);
            assert(a[if i < at { i } else { i - 1 }].0@ == k);
        }
    }
    assert forall|k: Seq<char>| #[trigger] after.map().contains_key(k) implies after.map()[k]
        == want[k] by {
        let i = after.place_of(k);
        assert(a[i].0@ == k);
        after.entry_is_in_map(i);
        before.entry_is_in_map(if i < at { i } else { i + 1 });
    }
    assert(after.map() =~= want);
}

}
