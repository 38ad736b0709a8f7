//! Every transaction being built.

use crate::db::DateTimeAsMicroseconds;
use crate::leases::{is_expired, is_given, lease_text, Leased, Leases};
use crate::names::{all_differ, is_listed};
use crate::transactions::transaction::Transaction;
use vstd::prelude::*;

verus! {

/// A transaction which has not been posted to, committed or cancelled in this
/// long is forgotten and its actions are dropped.
///
/// It is longer than a reader session's because it is not a lease anybody
/// renews on a timer: a transaction is touched only by its own calls, so the
/// window has to cover a client which stops to think between two of them.
pub const TRANSACTION_TTL_SECS: i64 = 60;

/// Every transaction being built, keyed by its id.
pub struct Transactions<P, A> {
    inner: Leases<Transaction<P, A>>,
}

impl<P, A> Transactions<P, A> {
    /// The transactions, by their ids.
    pub closed spec fn map(&self) -> Map<Seq<char>, Transaction<P, A>> {
        self.inner.map()
    }

    /// How many transactions there have been.
    pub closed spec fn given(&self) -> nat {
        self.inner.given()
    }

    /// Every transaction is found under its own id, which no other transaction
    /// has had.
    pub closed spec fn wf(&self) -> bool {
        self.inner.wf()
    }

    pub fn new() -> (r: Self)
        ensures
            r.wf(),
            r.map() == Map::<Seq<char>, Transaction<P, A>>::empty(),
            r.given() == 0,
    {
        Transactions { inner: Leases::new() }
    }

    /// Starts a transaction. Returns its id.
    pub fn create(
        &mut self,
        namespace: String,
        table_name: String,
        sync_period: P,
        now: DateTimeAsMicroseconds,
    ) -> (r: String)
        requires
            old(self).wf(),
            old(self).given() < u64::MAX,
        ensures
            final(self).wf(),
            final(self).given() == old(self).given() + 1,
            r@ == lease_text(now.unix_microseconds as int, old(self).given()),
            !old(self).map().contains_key(r@),
            final(self).map().contains_key(r@),
            final(self).map() == old(self).map().insert(r@, final(self).map()[r@]),
            ({
                let transaction = final(self).map()[r@];
                &&& transaction.id@ == r@
                &&& transaction.namespace == namespace
                &&& transaction.table_name == table_name
                &&& transaction.sync_period == sync_period
                &&& transaction.started == now
                &&& transaction.last_incoming == now
                &&& transaction.actions@ == Seq::<A>::empty()
            }),
    {
        let ghost given = self.given();
        let id = self.inner.take_id(now);
        assert(id@ == lease_text(now.unix_microseconds as int, given));
        assert(is_given(id@, self.inner.given()));
        let transaction = Transaction::new(id.clone(), namespace, table_name, sync_period, now);
        self.inner.put(transaction);
        id
    }

    pub fn get(&self, transaction_id: &str) -> (r: Option<&Transaction<P, A>>)
        requires
            self.wf(),
        ensures
            r is Some <==> self.map().contains_key(transaction_id@),
            r matches Some(transaction) ==> *transaction == self.map()[transaction_id@]
                && transaction.id@ == transaction_id@,
    {
        let r = self.inner.get(transaction_id);
        proof {
            if r is Some {
                self.inner.found_by_id(transaction_id@);
            }
        }
        r
    }

    /// A transaction which something is about to happen to. It has to stay the
    /// same transaction.
    pub fn get_mut(&mut self, transaction_id: &str) -> (r: Option<&mut Transaction<P, A>>)
        requires
            old(self).wf(),
        ensures
            final(self).given() == old(self).given(),
            match r {
                Some(transaction) => {
                    &&& old(self).map().contains_key(transaction_id@)
                    &&& *transaction == old(self).map()[transaction_id@]
                    &&& final(self).map() == old(self).map().insert(
                        transaction_id@,
                        *final(transaction),
                    )
                    &&& final(transaction).is_transaction_of(transaction) ==> final(self).wf()
                },
                None => !old(self).map().contains_key(transaction_id@) && *final(self)
                    == *old(self),
            },
    {
        proof {
            if self.map().contains_key(transaction_id@) {
                self.inner.found_by_id(transaction_id@);
            }
        }
        self.inner.get_mut(transaction_id)
    }

    /// Every transaction still being built - none of them has reached a table.
    pub fn get_all(&self) -> (r: Vec<&Transaction<P, A>>)
        requires
            self.wf(),
        ensures
            are_the_transactions(r@, self.map()),
    {
        let mut r: Vec<&Transaction<P, A>> = Vec::new();
        let count: usize = self.inner.len();
        proof {
            self.inner.places_are_the_map();
        }
        for i in 0..count
            invariant
                count == self.inner.places(),
                r@.len() == i,
                forall|k: int| 0 <= k < i ==> *(#[trigger] r@[k]) == self.inner.item_at(k),
        {
            r.push(self.inner.at(i));
        }
        proof {
            assert forall|i: int, j: int|
                #![trigger r@[i], r@[j]]
                0 <= i < j < r@.len() implies r@[i].id@ != r@[j].id@ by {
                assert(self.inner.item_at(i).lease_id() != self.inner.item_at(j).lease_id());
            }
            assert forall|id: Seq<char>| #[trigger] self.map().contains_key(id) implies exists|
                k: int,
            | 0 <= k < r@.len() && (#[trigger] r@[k]).id@ == id by {
                let k = choose|k: int|
                    0 <= k < self.inner.places() && (#[trigger] self.inner.item_at(k)).lease_id()
                        == id;
                assert(r@[k].id@ == id);
            }
        }
        r
    }

    /// How many transactions are being built.
    pub fn len(&self) -> (r: usize)
        requires
            self.wf(),
        ensures
            r == self.map().dom().len(),
    {
        self.inner.len()
    }

    /// Forgets a transaction. Forgetting it twice is not an error - that is what
    /// lets a client cancel without checking whether it still exists.
    pub fn remove(&mut self, transaction_id: &str) -> (r: Option<Transaction<P, A>>)
        requires
            old(self).wf(),
        ensures
            final(self).wf(),
            final(self).map() == old(self).map().remove(transaction_id@),
            final(self).given() == old(self).given(),
            r == (if old(self).map().contains_key(transaction_id@) {
                Some(old(self).map()[transaction_id@])
            } else {
                None
            }),
    {
        self.inner.remove(transaction_id)
    }

    /// Drops transactions which went quiet, together with everything they had
    /// accumulated. Returns their ids.
    pub fn gc(&mut self, now: DateTimeAsMicroseconds, ttl_secs: i64) -> (r: Vec<String>)
        requires
            old(self).wf(),
        ensures
            final(self).wf(),
            final(self).given() == old(self).given(),
            forall|id: Seq<char>| #[trigger]
                final(self).map().contains_key(id) <==> old(self).map().contains_key(id)
                    && !is_expired(
                    old(self).map()[id].last_incoming.unix_microseconds as int,
                    now.unix_microseconds as int,
                    ttl_secs as int,
                ),
            forall|id: Seq<char>| #[trigger]
                final(self).map().contains_key(id) ==> final(self).map()[id] == old(self).map()[id],
            all_differ(r@),
            forall|id: Seq<char>|
                #[trigger] is_listed(r@, id) <==> old(self).map().contains_key(id) && is_expired(
                    old(self).map()[id].last_incoming.unix_microseconds as int,
                    now.unix_microseconds as int,
                    ttl_secs as int,
                ),
    {
        self.inner.gc(now, ttl_secs)
    }
}

/// Whether a list holds every transaction of a map once, and nothing else.
pub open spec fn are_the_transactions<P, A>(
    transactions: Seq<&Transaction<P, A>>,
    map: Map<Seq<char>, Transaction<P, A>>,
) -> bool {
    &&& forall|k: int|
        0 <= k < transactions.len() ==> map.contains_key((#[trigger] transactions[k]).id@)
            && map[transactions[k].id@] == *transactions[k]
    &&& forall|i: int, j: int|
        #![trigger transactions[i], transactions[j]]
        0 <= i < j < transactions.len() ==> transactions[i].id@ != transactions[j].id@
    &&& forall|id: Seq<char>| #[trigger]
        map.contains_key(id) ==> exists|k: int|
            0 <= k < transactions.len() && (#[trigger] transactions[k]).id@ == id
}

}
