//! Things which are given out under an id and forgotten when nobody asks for them
//! any more.

use crate::db::DateTimeAsMicroseconds;
use crate::hashed_list::HashedList;
use crate::names::{all_differ, is_listed};
use crate::text::{
    append_decimal, append_signed_decimal, decimal, lemma_decimal_digits,
    lemma_decimal_tells_apart, signed_decimal,
};
use ahash::AHashMap;
use vstd::prelude::*;

verus! {

/// Something which has an id and was last asked for at some moment.
pub trait Leased: Sized {
    spec fn lease_id(&self) -> Seq<char>;

    spec fn last_seen(&self) -> i64;

    fn id(&self) -> (r: &String)
        ensures
            r@ == self.lease_id(),
    ;

    fn last_incoming(&self) -> (r: DateTimeAsMicroseconds)
        ensures
            r.unix_microseconds == self.last_seen(),
    ;
}

/// Everything which is given out, by its id.
pub struct Leases<T: Leased> {
    entries: HashedList<AHashMap<String, usize>, T>,
    next_id: u64,
}

/// The id which is given out at a moment.
pub open spec fn lease_text(moment: int, no: nat) -> Seq<char> {
    signed_decimal(moment) + "-"@ + decimal(no)
}

/// Whether the id is one of the first so many.
pub open spec fn is_given(id: Seq<char>, count: nat) -> bool {
    exists|moment: int, no: nat| no < count && id == #[trigger] lease_text(moment, no)
}

/// Whether something was not asked for in a while.
pub open spec fn is_expired(last_seen: int, now: int, ttl_secs: int) -> bool {
    now - last_seen > ttl_secs * 1_000_000
}

/// Two ids with different numbers are different, whatever their moments.
pub proof fn ids_are_different(m: int, a: nat, n: int, b: nat)
    requires
        lease_text(m, a) == lease_text(n, b),
    ensures
        a == b,
{
    reveal_strlit("-");
    let x = lease_text(m, a);
    let y = lease_text(n, b);
    let (da, db) = (decimal(a), decimal(b));
    let front_a = signed_decimal(m) + "-"@;
    let front_b = signed_decimal(n) + "-"@;
    lemma_decimal_digits(a);
    lemma_decimal_digits(b);
    assert(x =~= front_a + da);
    assert(y =~= front_b + db);
    assert(x.len() == front_a.len() + da.len());
    assert(y.len() == front_b.len() + db.len());
    assert(x[front_a.len() - 1] == '-');
    assert(y[front_b.len() - 1] == '-');
    if da.len() < db.len() {
        let at = front_a.len() - 1;
        assert(y[at] == db[at - front_b.len()]);
    } else if db.len() < da.len() {
        let at = front_b.len() - 1;
        assert(x[at] == da[at - front_a.len()]);
    }
    assert(da =~= x.skip(front_a.len() as int));
    assert(db =~= y.skip(front_b.len() as int));
    lemma_decimal_tells_apart(a, b);
}

impl<T: Leased> Leases<T> {
    /// What is given out.
    pub closed spec fn map(&self) -> Map<Seq<char>, T> {
        self.entries.map()
    }

    /// How many ids were given out.
    pub closed spec fn given(&self) -> nat {
        self.next_id as nat
    }

    /// Everything is found under its own id, which was given out.
    pub closed spec fn wf(&self) -> bool {
        &&& self.entries.wf()
        &&& forall|id: Seq<char>| #[trigger]
            self.entries.map().contains_key(id) ==> self.entries.map()[id].lease_id() == id
                && is_given(id, self.next_id as nat)
    }

    /// Nothing is given out.
    pub fn new() -> (r: Self)
        ensures
            r.wf(),
            r.map() == Map::<Seq<char>, T>::empty(),
            r.given() == 0,
    {
        Leases { entries: HashedList::new(), next_id: 0 }
    }

    /// The next id. It only has to be unique among what this process is holding:
    /// nothing here outlives the process, and whoever comes back to a restarted
    /// server is told the id is unknown anyway.
    pub fn take_id(&mut self, now: DateTimeAsMicroseconds) -> (r: String)
        requires
            old(self).wf(),
            old(self).given() < u64::MAX,
        ensures
            final(self).wf(),
            r@ == lease_text(now.unix_microseconds as int, old(self).given()),
            final(self).given() == old(self).given() + 1,
            final(self).map() == old(self).map(),
            !old(self).map().contains_key(r@),
    {
        let mut id = String::new();
        append_signed_decimal(&mut id, now.unix_microseconds as i128);
        id.append("-");
        append_decimal(&mut id, self.next_id as u128);
        proof {
            assert(id@ =~= lease_text(now.unix_microseconds as int, self.next_id as nat));
            if self.map().contains_key(id@) {
                let (m, c) = choose|m: int, c: nat|
                    c < self.next_id && id@ == #[trigger] lease_text(m, c);
                ids_are_different(m, c, now.unix_microseconds as int, self.next_id as nat);
            }
            assert forall|other: Seq<char>| #[trigger] self.map().contains_key(other) implies is_given(
                other,
                self.next_id as nat + 1,
            ) by {
                let (m, c) = choose|m: int, c: nat|
                    c < self.next_id && other == #[trigger] lease_text(m, c);
                assert(other == lease_text(m, c));
            }
        }
        self.next_id = self.next_id + 1;
        id
    }

    /// Gives something out under the id it has.
    pub fn put(&mut self, item: T)
        requires
            old(self).wf(),
            is_given(item.lease_id(), old(self).given()),
        ensures
            final(self).wf(),
            final(self).map() == old(self).map().insert(item.lease_id(), item),
            final(self).given() == old(self).given(),
    {
        let id = item.id().clone();
        self.entries.insert(id, item);
    }

    /// What is given out under the id.
    pub fn get(&self, id: &str) -> (r: Option<&T>)
        requires
            self.wf(),
        ensures
            r is Some <==> self.map().contains_key(id@),
            r matches Some(item) ==> *item == self.map()[id@],
    {
        self.entries.get(&id.to_owned())
    }

    /// What is given out under the id, to be changed. It has to keep its id.
    pub fn get_mut(&mut self, id: &str) -> (r: Option<&mut T>)
        requires
            old(self).wf(),
        ensures
            final(self).given() == old(self).given(),
            match r {
                Some(item) => {
                    &&& old(self).map().contains_key(id@)
                    &&& *item == old(self).map()[id@]
                    &&& final(self).map() == old(self).map().insert(id@, *final(item))
                    &&& final(item).lease_id() == id@ ==> final(self).wf()
                },
                None => !old(self).map().contains_key(id@) && *final(self) == *old(self),
            },
    {
        self.entries.get_mut(&id.to_owned())
    }

    /// Takes back what is given out under the id.
    pub fn remove(&mut self, id: &str) -> (r: Option<T>)
        requires
            old(self).wf(),
        ensures
            final(self).wf(),
            final(self).map() == old(self).map().remove(id@),
            final(self).given() == old(self).given(),
            r == (if old(self).map().contains_key(id@) {
                Some(old(self).map()[id@])
            } else {
                None
            }),
    {
        self.entries.remove(&id.to_owned())
    }

    /// How many things are given out.
    pub fn len(&self) -> (r: usize)
        requires
            self.wf(),
        ensures
            r == self.places(),
            r == self.map().dom().len(),
    {
        proof {
            self.entries.as_many_keys_as_entries();
        }
        self.entries.len()
    }

    /// How many things are given out.
    pub closed spec fn places(&self) -> nat {
        self.entries.entries().len()
    }

    /// The thing at a place.
    pub closed spec fn item_at(&self, i: int) -> T {
        self.entries.entries()[i].1
    }

    /// Everything which is given out stands at one place.
    pub proof fn places_are_the_map(&self)
        requires
            self.wf(),
        ensures
            forall|i: int|
                0 <= i < self.places() ==> self.map().contains_key(
                    (#[trigger] self.item_at(i)).lease_id(),
                ) && self.map()[self.item_at(i).lease_id()] == self.item_at(i),
            forall|i: int, j: int|
                #![trigger self.item_at(i), self.item_at(j)]
                0 <= i < j < self.places() ==> self.item_at(i).lease_id() != self.item_at(
                    j,
                ).lease_id(),
            forall|id: Seq<char>| #[trigger]
                self.map().contains_key(id) ==> exists|i: int|
                    0 <= i < self.places() && (#[trigger] self.item_at(i)).lease_id() == id,
    {
        self.entries.keys_differ();
        assert forall|i: int| 0 <= i < self.places() implies self.map().contains_key(
            (#[trigger] self.item_at(i)).lease_id(),
        ) && self.map()[self.item_at(i).lease_id()] == self.item_at(i)
            && self.item_at(i).lease_id() == self.entries.name_at(i) by {
            self.entries.entry_is_in_map(i);
        }
        assert forall|id: Seq<char>| #[trigger] self.map().contains_key(id) implies exists|i: int|
            0 <= i < self.places() && (#[trigger] self.item_at(i)).lease_id() == id by {
            let i = self.entries.place_of(id);
            assert(self.entries.has(id));
            assert(self.entries.name_at(i) == id);
            assert(self.item_at(i).lease_id() == id);
        }
    }

    /// What is found under an id has that id.
    pub proof fn found_by_id(&self, id: Seq<char>)
        requires
            self.wf(),
            self.map().contains_key(id),
        ensures
            self.map()[id].lease_id() == id,
            is_given(id, self.given()),
    {
    }

    /// The thing at a place.
    pub fn at(&self, i: usize) -> (r: &T)
        requires
            i < self.places(),
        ensures
            *r == self.item_at(i as int),
    {
        self.entries.value_at(i)
    }

    /// Forgets what was not asked for in a while. Returns the ids.
    pub fn gc(&mut self, now: DateTimeAsMicroseconds, ttl_secs: i64) -> (r: Vec<String>)
        requires
            old(self).wf(),
        ensures
            final(self).wf(),
            final(self).given() == old(self).given(),
            forall|id: Seq<char>| #[trigger]
                final(self).map().contains_key(id) <==> old(self).map().contains_key(id)
                    && !is_expired(
                    old(self).map()[id].last_seen() as int,
                    now.unix_microseconds as int,
                    ttl_secs as int,
                ),
            forall|id: Seq<char>| #[trigger]
                final(self).map().contains_key(id) ==> final(self).map()[id] == old(self).map()[id],
            all_differ(r@),
            forall|id: Seq<char>|
                #[trigger] is_listed(r@, id) <==> old(self).map().contains_key(id) && is_expired(
                    old(self).map()[id].last_seen() as int,
                    now.unix_microseconds as int,
                    ttl_secs as int,
                ),
    {
        let ghost before = *self;
        let mut expired: Vec<String> = Vec::new();
        let count: usize = self.entries.len();
        proof {
            self.places_are_the_map();
        }
        for i in 0..count
            invariant
                *self == before,
                before.wf(),
                count == before.places(),
                forall|k: int|
                    0 <= k < expired@.len() ==> was_out(
                        before,
                        i as int,
                        now,
                        ttl_secs,
                        (#[trigger] expired@[k])@,
                    ),
                all_differ(expired@),
                forall|j: int|
                    0 <= j < i && is_expired(
                        (#[trigger] before.item_at(j)).last_seen() as int,
                        now.unix_microseconds as int,
                        ttl_secs as int,
                    ) ==> is_listed(expired@, before.item_at(j).lease_id()),
        {
            let item = self.entries.value_at(i);
            let ghost known = expired@;
            assert(*item == before.item_at(i as int));
            let quiet: i128 = now.unix_microseconds as i128
                - item.last_incoming().unix_microseconds as i128;
            if quiet > ttl_secs as i128 * 1_000_000 {
                expired.push(item.id().clone());
                proof {
                    before.places_are_the_map();
                    let new = expired@[known.len() as int]@;
                    assert(is_out(before, i as int, now, ttl_secs, new));
                    assert(was_out(before, i + 1, now, ttl_secs, new));
                    assert forall|a: int, b: int|
                        #![trigger expired@[a], expired@[b]]
                        0 <= a < b < expired@.len() implies expired@[a]@ != expired@[b]@ by {
                        assert(expired@[a] == known[a]);
                        if b < known.len() {
                            assert(expired@[b] == known[b]);
                        } else {
                            let j = choose|j: int|
                                0 <= j < i && is_out(before, j, now, ttl_secs, known[a]@);
                            assert(before.item_at(j).lease_id() != before.item_at(
                                i as int,
                            ).lease_id());
                        }
                    }
                    assert(is_listed(expired@, before.item_at(i as int).lease_id())) by {
                        assert(expired@[known.len() as int]@ == before.item_at(
                            i as int,
                        ).lease_id());
                    }
                }
            }
            proof {
                assert forall|k: int| 0 <= k < expired@.len() implies was_out(
                    before,
                    i + 1,
                    now,
                    ttl_secs,
                    (#[trigger] expired@[k])@,
                ) by {
                    if k < known.len() {
                        assert(expired@[k] == known[k]);
                        let j = choose|j: int|
                            0 <= j < i && is_out(before, j, now, ttl_secs, known[k]@);
                        assert(is_out(before, j, now, ttl_secs, expired@[k]@));
                    }
                }
                assert forall|j: int|
                    0 <= j < i + 1 && is_expired(
                        (#[trigger] before.item_at(j)).last_seen() as int,
                        now.unix_microseconds as int,
                        ttl_secs as int,
                    ) implies is_listed(expired@, before.item_at(j).lease_id()) by {
                    if j < i {
                        let id = before.item_at(j).lease_id();
                        let k = choose|k: int| 0 <= k < known.len() && (#[trigger] known[k])@ == id;
                        assert(expired@[k]@ == id);
                    }
                }
            }
        }
        proof {
            assert forall|id: Seq<char>| #[trigger] is_listed(
                expired@,
                id,
            ) <==> before.map().contains_key(id) && is_expired(
                before.map()[id].last_seen() as int,
                now.unix_microseconds as int,
                ttl_secs as int,
            ) by {
                before.places_are_the_map();
                if is_listed(expired@, id) {
                    let k = choose|k: int| 0 <= k < expired@.len() && (#[trigger] expired@[k])@ == id;
                    let j = choose|j: int|
                        0 <= j < count && is_out(before, j, now, ttl_secs, expired@[k]@);
                    assert(before.item_at(j).lease_id() == id);
                }
                if before.map().contains_key(id) {
                    let j = choose|j: int|
                        0 <= j < before.places() && (#[trigger] before.item_at(j)).lease_id() == id;
                    assert(before.map()[id] == before.item_at(j));
                }
            }
            assert(self.map() =~= before.map());
        }
        for k in 0..expired.len()
            invariant
                self.wf(),
                self.given() == before.given(),
                forall|id: Seq<char>| #[trigger]
                    self.map().contains_key(id) <==> before.map().contains_key(id) && !is_listed(
                        expired@.take(k as int),
                        id,
                    ),
                forall|id: Seq<char>| #[trigger]
                    self.map().contains_key(id) ==> self.map()[id] == before.map()[id],
        {
            self.remove(expired[k].as_str());
            proof {
                let now_listed = expired@.take(k + 1);
                let was_listed = expired@.take(k as int);
                assert forall|id: Seq<char>| #[trigger] is_listed(now_listed, id) <==> is_listed(
                    was_listed,
                    id,
                ) || id == expired@[k as int]@ by {
                    if is_listed(was_listed, id) {
                        let j = choose|j: int|
                            0 <= j < was_listed.len() && (#[trigger] was_listed[j])@ == id;
                        assert(now_listed[j]@ == id);
                    }
                    if id == expired@[k as int]@ {
                        assert(now_listed[k as int]@ == id);
                    }
                    if is_listed(now_listed, id) && id != expired@[k as int]@ {
                        let j = choose|j: int|
                            0 <= j < now_listed.len() && (#[trigger] now_listed[j])@ == id;
                        assert(was_listed[j]@ == id);
                    }
                }
            }
        }
        assert(expired@.take(expired@.len() as int) =~= expired@);
        expired
    }
}

/// Whether what has the id stands at one of the first places, and is expired.
spec fn was_out<T: Leased>(
    leases: Leases<T>,
    count: int,
    now: DateTimeAsMicroseconds,
    ttl_secs: i64,
    id: Seq<char>,
) -> bool {
    exists|j: int| 0 <= j < count && #[trigger] is_out(leases, j, now, ttl_secs, id)
}

/// Whether what stands at a place is expired and has the id.
spec fn is_out<T: Leased>(
    leases: Leases<T>,
    i: int,
    now: DateTimeAsMicroseconds,
    ttl_secs: i64,
    id: Seq<char>,
) -> bool {
    &&& leases.item_at(i).lease_id() == id
    &&& is_expired(
        leases.item_at(i).last_seen() as int,
        now.unix_microseconds as int,
        ttl_secs as int,
    )
}

}
