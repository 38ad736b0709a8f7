//! A list of entries, each under a key of its own, found by hash.

use crate::hash_index::PositionIndex;
use vstd::prelude::*;

verus! {

/// Entries in the order they came in, found by their key. Taking one out moves
/// the last one into its place.
pub struct HashedList<I: PositionIndex, T> {
    index: I,
    entries: Vec<(I::Key, T)>,
}

impl<I: PositionIndex, T> HashedList<I, T> {
    /// The entries in the order they stand in.
    pub closed spec fn entries(&self) -> Seq<(I::Key, T)> {
        self.entries@
    }

    /// What the key of an entry says.
    pub open spec fn name_at(&self, i: int) -> I::Name {
        I::name_of(self.entries()[i].0)
    }

    /// No two entries have the same key, and each is found under its own.
    pub closed spec fn wf(&self) -> bool {
        &&& forall|i: int|
            0 <= i < self.entries().len() ==> {
                &&& self.index.positions().contains_key(#[trigger] self.name_at(i))
                &&& self.index.positions()[self.name_at(i)] == i
            }
        &&& forall|k: I::Name| #[trigger]
            self.index.positions().contains_key(k) ==> {
                &&& 0 <= self.index.positions()[k] < self.entries().len()
                &&& self.name_at(self.index.positions()[k] as int) == k
            }
    }

    /// Whether an entry stands under the key.
    pub open spec fn has(&self, k: I::Name) -> bool {
        exists|i: int| 0 <= i < self.entries().len() && #[trigger] self.name_at(i) == k
    }

    /// Where the entry of the key stands.
    pub open spec fn place_of(&self, k: I::Name) -> int {
        choose|i: int| 0 <= i < self.entries().len() && #[trigger] self.name_at(i) == k
    }

    /// The value which stands under the key.
    pub open spec fn value_of(&self, k: I::Name) -> T {
        self.entries()[self.place_of(k)].1
    }

    /// What the list says of each key.
    pub open spec fn map(&self) -> Map<I::Name, T> {
        Map::new(|k: I::Name| self.has(k), |k: I::Name| self.value_of(k))
    }

    /// No two entries have the same key.
    pub proof fn keys_differ(&self)
        requires
            self.wf(),
        ensures
            forall|i: int, j: int|
                0 <= i < self.entries().len() && 0 <= j < self.entries().len()
                    && #[trigger] self.name_at(i) == #[trigger] self.name_at(j) ==> i == j,
    {
    }

    /// What stands at a place is what the list says of its key.
    pub proof fn entry_is_in_map(&self, i: int)
        requires
            self.wf(),
            0 <= i < self.entries().len(),
        ensures
            self.has(self.name_at(i)),
            self.place_of(self.name_at(i)) == i,
            self.map().contains_key(self.name_at(i)),
            self.map()[self.name_at(i)] == self.entries()[i].1,
    {
        self.keys_differ();
    }

    /// There are as many keys as entries.
    pub proof fn as_many_keys_as_entries(&self)
        requires
            self.wf(),
        ensures
            self.map().dom().finite(),
            self.map().dom().len() == self.entries().len(),
    {
        self.keys_differ();
        let names = Seq::new(self.entries().len(), |i: int| self.name_at(i));
        assert(names.no_duplicates());
        names.unique_seq_to_set();
        assert forall|k: I::Name| names.to_set().contains(k) <==> #[trigger] self.map().dom().contains(
            k,
        ) by {
            if self.map().dom().contains(k) {
                let i = self.place_of(k);
                assert(self.name_at(i) == k);
                assert(names[i] == k);
            }
            if names.to_set().contains(k) {
                let i = choose|i: int| 0 <= i < names.len() && names[i] == k;
                assert(self.name_at(i) == k);
            }
        }
        assert(names.to_set() =~= self.map().dom());
    }

    /// A list with nothing in it.
    pub fn new() -> (r: Self)
        ensures
            r.wf(),
            r.entries().len() == 0,
            r.map() == Map::<I::Name, T>::empty(),
    {
        let r = HashedList { index: I::empty(), entries: Vec::new() };
        assert(r.map() =~= Map::<I::Name, T>::empty());
        r
    }

    /// How many entries there are.
    pub fn len(&self) -> (r: usize)
        ensures
            r == self.entries().len(),
    {
        self.entries.len()
    }

    /// Where the entry of the key stands.
    pub fn find(&self, key: &I::Key) -> (r: Option<usize>)
        requires
            self.wf(),
        ensures
            r is Some <==> self.has(I::name_of(*key)),
            r matches Some(at) ==> at < self.entries().len() && self.name_at(at as int)
                == I::name_of(*key) && at == self.place_of(I::name_of(*key)),
    {
        let r = self.index.lookup(key);
        proof {
            let k = I::name_of(*key);
            if self.has(k) {
                let i = self.place_of(k);
                assert(self.name_at(i) == k);
                assert(self.index.positions().contains_key(self.name_at(i)));
                self.entry_is_in_map(i);
            }
            if r is Some {
                assert(self.index.positions().contains_key(k));
                assert(self.name_at(self.index.positions()[k] as int) == k);
                self.entry_is_in_map(self.index.positions()[k] as int);
            }
        }
        r
    }

    /// The entries themselves.
    pub fn into_entries(self) -> (r: Vec<(I::Key, T)>)
        ensures
            r@ == self.entries(),
    {
        self.entries
    }

    /// The value under the key.
    pub fn get(&self, key: &I::Key) -> (r: Option<&T>)
        requires
            self.wf(),
        ensures
            r is Some <==> self.map().contains_key(I::name_of(*key)),
            r matches Some(v) ==> *v == self.map()[I::name_of(*key)],
    {
        match self.find(key) {
            Some(at) => Some(&self.entries[at].1),
            None => None,
        }
    }

    /// The key which stands at a place.
    pub fn key_at(&self, i: usize) -> (r: &I::Key)
        requires
            i < self.entries().len(),
        ensures
            *r == self.entries()[i as int].0,
    {
        &self.entries[i].0
    }

    /// The value which stands at a place.
    pub fn value_at(&self, i: usize) -> (r: &T)
        requires
            i < self.entries().len(),
        ensures
            *r == self.entries()[i as int].1,
    {
        &self.entries[i].1
    }

    /// The value under the key, to be changed in its place.
    pub fn get_mut(&mut self, key: &I::Key) -> (r: Option<&mut T>)
        requires
            old(self).wf(),
        ensures
            match r {
                Some(value) => {
                    &&& old(self).has(I::name_of(*key))
                    &&& *value == old(self).map()[I::name_of(*key)]
                    &&& final(self).wf()
                    &&& final(self).map() == old(self).map().insert(
                        I::name_of(*key),
                        *final(value),
                    )
                },
                None => !old(self).has(I::name_of(*key)) && *final(self) == *old(self),
            },
    {
        match self.find(key) {
            Some(at) => {
                proof {
                    let before = *self;
                    let i = at as int;
                    assert forall|after: HashedList<I, T>|
                        after.index == before.index && #[trigger] after.entries@ == before.entries@.update(
                            i,
                            (before.entries@[i].0, after.entries@[i].1),
                        ) implies after.wf() && after.map() == before.map().insert(
                        before.name_at(i),
                        after.entries@[i].1,
                    ) by {
                        lemma_after_replace(before, after, i);
                    }
                }
                Some(&mut self.entries[at].1)
            },
            None => None,
        }
    }

    /// Puts another value at a place, and hands back the one which was there.
    pub fn replace_at(&mut self, i: usize, value: T) -> (r: T)
        requires
            old(self).wf(),
            i < old(self).entries().len(),
        ensures
            final(self).wf(),
            r == old(self).entries()[i as int].1,
            final(self).entries() == old(self).entries().update(
                i as int,
                (old(self).entries()[i as int].0, value),
            ),
            final(self).map() == old(self).map().insert(old(self).name_at(i as int), value),
    {
        let mut value = value;
        core::mem::swap(&mut self.entries[i].1, &mut value);
        assert(self.entries() =~= old(self).entries().update(
            i as int,
            (old(self).entries()[i as int].0, self.entries()[i as int].1),
        ));
        proof {
            assert forall|j: int| 0 <= j < self.entries().len() implies self.name_at(j) == old(
                self,
            ).name_at(j) by {}
            lemma_after_replace(*old(self), *self, i as int);
        }
        value
    }

    /// Puts a value under the key, and hands back the one which was there.
    pub fn insert(&mut self, key: I::Key, value: T) -> (r: Option<T>)
        requires
            old(self).wf(),
        ensures
            final(self).wf(),
            final(self).map() == old(self).map().insert(I::name_of(key), value),
            r == (if old(self).has(I::name_of(key)) {
                Some(old(self).map()[I::name_of(key)])
            } else {
                None
            }),
            old(self).has(I::name_of(key)) ==> final(self).entries() == old(self).entries().update(
                old(self).place_of(I::name_of(key)),
                (old(self).entries()[old(self).place_of(I::name_of(key))].0, value),
            ),
            !old(self).has(I::name_of(key)) ==> final(self).entries() == old(self).entries().push(
                (key, value),
            ),
    {
        match self.find(&key) {
            Some(at) => {
                let was = self.replace_at(at, value);
                Some(was)
            },
            None => {
                let at: usize = self.entries.len();
                self.index.put(&key, at);
                self.entries.push((key, value));
                proof {
                    lemma_after_push(*old(self), *self, key, value);
                }
                None
            },
        }
    }

    /// Takes the entry of the key out.
    pub fn remove(&mut self, key: &I::Key) -> (r: Option<T>)
        requires
            old(self).wf(),
        ensures
            final(self).wf(),
            final(self).map() == old(self).map().remove(I::name_of(*key)),
            r == (if old(self).has(I::name_of(*key)) {
                Some(old(self).map()[I::name_of(*key)])
            } else {
                None
            }),
            !old(self).has(I::name_of(*key)) ==> final(self).entries() == old(self).entries(),
            old(self).has(I::name_of(*key)) ==> final(self).entries() == old(self).entries().update(
                old(self).place_of(I::name_of(*key)),
                old(self).entries().last(),
            ).drop_last(),
    {
        match self.find(key) {
            Some(at) => {
                let last: usize = self.entries.len() - 1;
                self.index.forget(key);
                if at != last {
                    self.index.put(&self.entries[last].0, at);
                }
                let (_, was) = self.entries.swap_remove(at);
                proof {
                    lemma_after_remove(*old(self), *self, at as int);
                }
                Some(was)
            },
            None => {
                assert(self.map() =~= old(self).map().remove(I::name_of(*key)));
                None
            },
        }
    }
}

proof fn lemma_after_replace<I: PositionIndex, T>(
    before: HashedList<I, T>,
    after: HashedList<I, T>,
    i: int,
)
    requires
        before.wf(),
        0 <= i < before.entries().len(),
        after.entries() == before.entries().update(
            i,
            (before.entries()[i].0, after.entries()[i].1),
        ),
        after.index.positions() == before.index.positions(),
    ensures
        after.wf(),
        after.map() == before.map().insert(before.name_at(i), after.entries()[i].1),
{
    assert forall|j: int| 0 <= j < after.entries().len() implies #[trigger] after.name_at(j)
        == before.name_at(j) by {}
    assert(after.wf());
    let expected = before.map().insert(before.name_at(i), after.entries()[i].1);
    assert forall|k: I::Name| after.map().contains_key(k) == #[trigger] expected.contains_key(
        k,
    ) by {
        if after.has(k) {
            let j = after.place_of(k);
            assert(before.name_at(j) == k);
        }
        if before.has(k) {
            let j = before.place_of(k);
            assert(after.name_at(j) == k);
        }
        assert(after.name_at(i) == before.name_at(i));
    }
    assert forall|k: I::Name| #[trigger] after.map().contains_key(k) implies after.map()[k]
        == expected[k] by {
        let j = after.place_of(k);
        assert(before.name_at(j) == k);
        before.entry_is_in_map(j);
        after.entry_is_in_map(j);
    }
    assert(after.map() =~= expected);
}

proof fn lemma_after_push<I: PositionIndex, T>(
    before: HashedList<I, T>,
    after: HashedList<I, T>,
    key: I::Key,
    value: T,
)
    requires
        before.wf(),
        !before.has(I::name_of(key)),
        after.entries() == before.entries().push((key, value)),
        after.index.positions() == before.index.positions().insert(
            I::name_of(key),
            before.entries.len(),
        ),
    ensures
        after.wf(),
        after.map() == before.map().insert(I::name_of(key), value),
{
    let n = before.entries().len() as int;
    let name = I::name_of(key);
    assert forall|j: int| 0 <= j < n implies #[trigger] after.name_at(j) == before.name_at(
        j,
    ) by {}
    assert(after.name_at(n) == name);
    assert forall|i: int| 0 <= i < after.entries().len() implies {
        &&& after.index.positions().contains_key(#[trigger] after.name_at(i))
        &&& after.index.positions()[after.name_at(i)] == i
    } by {
        if i < n {
            assert(before.name_at(i) != name);
        }
    }
    assert forall|k: I::Name| #[trigger] after.index.positions().contains_key(k) implies {
        &&& 0 <= after.index.positions()[k] < after.entries().len()
        &&& after.name_at(after.index.positions()[k] as int) == k
    } by {
        if k != name {
            assert(before.index.positions().contains_key(k));
        }
    }
    assert(after.wf());
    let expected = before.map().insert(name, value);
    assert forall|k: I::Name| after.map().contains_key(k) == #[trigger] expected.contains_key(
        k,
    ) by {
        if after.has(k) && k != name {
            let j = after.place_of(k);
            assert(before.name_at(j) == k);
        }
        if before.has(k) {
            let j = before.place_of(k);
            assert(after.name_at(j) == k);
        }
    }
    assert forall|k: I::Name| #[trigger] after.map().contains_key(k) implies after.map()[k]
        == expected[k] by {
        let j = after.place_of(k);
        after.entry_is_in_map(j);
        if j < n {
            assert(before.name_at(j) == k);
            before.entry_is_in_map(j);
        }
    }
    assert(after.map() =~= expected);
}

proof fn lemma_after_remove<I: PositionIndex, T>(
    before: HashedList<I, T>,
    after: HashedList<I, T>,
    at: int,
)
    requires
        before.wf(),
        0 <= at < before.entries().len(),
        after.entries() == before.entries().update(at, before.entries().last()).drop_last(),
        after.index.positions() == (if at == before.entries().len() - 1 {
            before.index.positions().remove(before.name_at(at))
        } else {
            before.index.positions().remove(before.name_at(at)).insert(
                before.name_at(before.entries().len() - 1),
                at as usize,
            )
        }),
    ensures
        after.wf(),
        after.map() == before.map().remove(before.name_at(at)),
{
    before.keys_differ();
    assert(before.entries().len() == before.entries.len());
    let n = before.entries().len() - 1;
    let gone = before.name_at(at);
    let moved = before.name_at(n);
    assert forall|j: int| 0 <= j < n implies #[trigger] after.name_at(j) == before.name_at(
        if j == at { n } else { j },
    ) by {}
    assert forall|i: int| 0 <= i < after.entries().len() implies {
        &&& after.index.positions().contains_key(#[trigger] after.name_at(i))
        &&& after.index.positions()[after.name_at(i)] == i
    } by {
        let from = if i == at { n } else { i };
        assert(before.name_at(from) != gone);
        assert(before.index.positions()[before.name_at(from)] == from);
    }
    assert forall|k: I::Name| #[trigger] after.index.positions().contains_key(k) implies {
        &&& 0 <= after.index.positions()[k] < after.entries().len()
        &&& after.name_at(after.index.positions()[k] as int) == k
    } by {
        if at != n && k == moved {
            assert(after.name_at(at) == moved);
        } else {
            assert(before.index.positions().contains_key(k));
            let p = before.index.positions()[k] as int;
            assert(before.name_at(p) == k);
            assert(p != at && p != n);
            assert(after.name_at(p) == k);
        }
    }
    assert(after.wf());
    let expected = before.map().remove(gone);
    assert forall|k: I::Name| after.map().contains_key(k) == #[trigger] expected.contains_key(
        k,
    ) by {
        if after.has(k) {
            let j = after.place_of(k);
            assert(before.name_at(if j == at { n } else { j }) == k);
        }
        if before.has(k) && k != gone {
            let j = before.place_of(k);
            assert(before.name_at(j) == k);
            assert(after.name_at(if j == n { at } else { j }) == k);
        }
    }
    assert forall|k: I::Name| #[trigger] after.map().contains_key(k) implies after.map()[k]
        == expected[k] by {
        let j = after.place_of(k);
        after.entry_is_in_map(j);
        let from = if j == at { n } else { j };
        assert(before.name_at(from) == k);
        before.entry_is_in_map(from);
    }
    assert(after.map() =~= expected);
}

}
