//! A transaction being built.

use crate::db::DateTimeAsMicroseconds;
use crate::leases::Leased;
use vstd::prelude::*;

verus! {

/// A transaction being built. It is bound to one table, named once when it was
/// started: the actions never name a table again, they are resolved through the
/// transaction they belong to.
///
/// `P` says how soon what it does has to be on disk, `A` is one of its actions.
pub struct Transaction<P, A> {
    pub id: String,
    pub namespace: String,
    pub table_name: String,
    pub sync_period: P,
    pub started: DateTimeAsMicroseconds,
    pub last_incoming: DateTimeAsMicroseconds,
    pub actions: Vec<A>,
}

impl<P, A> Leased for Transaction<P, A> {
    open spec fn lease_id(&self) -> Seq<char> {
        self.id@
    }

    open spec fn last_seen(&self) -> i64 {
        self.last_incoming.unix_microseconds
    }

    fn id(&self) -> (r: &String) {
        &self.id
    }

    fn last_incoming(&self) -> (r: DateTimeAsMicroseconds) {
        self.last_incoming
    }
}

impl<P, A> Transaction<P, A> {
    /// Whether the other transaction is this one, whatever became of its actions
    /// and the moment it was last heard of.
    pub open spec fn is_transaction_of(&self, other: &Transaction<P, A>) -> bool {
        &&& self.id == other.id
        &&& self.namespace == other.namespace
        &&& self.table_name == other.table_name
        &&& self.sync_period == other.sync_period
        &&& self.started == other.started
    }

    /// A transaction nothing was posted into yet.
    pub fn new(
        id: String,
        namespace: String,
        table_name: String,
        sync_period: P,
        now: DateTimeAsMicroseconds,
    ) -> (r: Self)
        ensures
            r.id == id,
            r.namespace == namespace,
            r.table_name == table_name,
            r.sync_period == sync_period,
            r.started == now,
            r.last_incoming == now,
            r.actions@ == Seq::<A>::empty(),
    {
        Transaction {
            id,
            namespace,
            table_name,
            sync_period,
            started: now,
            last_incoming: now,
            actions: Vec::new(),
        }
    }

    /// The transaction was asked for.
    pub fn touch(&mut self, now: DateTimeAsMicroseconds)
        ensures
            final(self).last_incoming == now,
            final(self).is_transaction_of(old(self)),
            final(self).actions == old(self).actions,
    {
        self.last_incoming = now;
    }

    pub fn get_last_incoming(&self) -> (r: DateTimeAsMicroseconds)
        ensures
            r == self.last_incoming,
    {
        self.last_incoming
    }

    /// Appends a whole post at once. The stream that carried it has already
    /// ended cleanly by this point, which is what makes a broken post cost
    /// nothing: the transaction never saw the half of it.
    pub fn append(&mut self, actions: Vec<A>)
        ensures
            final(self).actions@ == old(self).actions@ + actions@,
            final(self).is_transaction_of(old(self)),
            final(self).last_incoming == old(self).last_incoming,
    {
        let mut actions = actions;
        self.actions.append(&mut actions);
    }

    /// How much has been posted into it so far.
    pub fn get_actions_amount(&self) -> (r: usize)
        ensures
            r == self.actions@.len(),
    {
        self.actions.len()
    }

    /// Everything which was posted into it, in the order it was posted in. The
    /// transaction is left with nothing.
    pub fn take_actions(&mut self) -> (r: Vec<A>)
        ensures
            r@ == old(self).actions@,
            final(self).actions@ == Seq::<A>::empty(),
            final(self).is_transaction_of(old(self)),
            final(self).last_incoming == old(self).last_incoming,
    {
        let mut actions = Vec::new();
        std::mem::swap(&mut actions, &mut self.actions);
        actions
    }
}

/// A transaction stays the same transaction through everything which is posted into it: it is
/// bound to its namespace and its table once and for all.
pub proof fn a_transaction_stays_what_it_is<P, A>(
    transaction: Transaction<P, A>,
    other: Transaction<P, A>,
)
    requires
        transaction.is_transaction_of(&other),
    ensures
        transaction.id == other.id,
        transaction.namespace == other.namespace,
        transaction.table_name == other.table_name,
        transaction.sync_period == other.sync_period,
        transaction.started == other.started,
{
}

}
