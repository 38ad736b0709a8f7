//! One reader, and what it still has to be told.

use crate::db::DateTimeAsMicroseconds;
use crate::leases::Leased;
use crate::names::{
    held_names, is_ascending, is_listed, name_set_contains, name_set_insert, name_set_items,
    name_set_new, sort_names,
};
use crate::reader::sync_chunk::SyncChunk;
use ahash::AHashSet;
use std::collections::VecDeque;
use vstd::prelude::*;

verus! {

/// How far behind a reader is allowed to fall before the server stops holding
/// its backlog. `GetChange` answers with one chunk per call, so a reader which is
/// keeping up drains a thousand of them in about a second of round trips; one
/// which is a thousand behind is not catching up one round trip at a time. The
/// backlog is not only memory either - a queued `UpdateRows` holds `Arc<DbRow>`
/// handles, so it keeps rows alive which the table itself has already dropped.
pub const MAX_QUEUED_CHUNKS: usize = 1000;

/// One reader, from its `Greeting` until it stops asking or the server forgets
/// it. Everything it still has to be told sits in its queue, in the order the
/// server put it there.
pub struct ReaderSession {
    pub id: String,
    pub app_name: String,
    pub version: String,
    pub namespace: String,
    /// Where the greeting came from. Behind a proxy this is the proxy - there is
    /// no forwarded-for equivalent on this transport, and inventing one would be
    /// a header nobody sets.
    pub ip: String,
    pub connected: DateTimeAsMicroseconds,
    pub last_incoming: DateTimeAsMicroseconds,
    pub tables: AHashSet<String>,
    pub queue: VecDeque<SyncChunk>,
    /// Set when the queue passed the ceiling and was thrown away. What is left
    /// is a picture with a hole in it, and the reader is told to start over
    /// instead - the failure model has exactly one recovery, and this is it.
    pub overflowed: bool,
}

/// What a reader still has to be told.
pub struct Backlog {
    pub chunks: Seq<SyncChunk>,
    /// Whether it grew past the ceiling and was thrown away.
    pub overflowed: bool,
}

impl Backlog {
    /// The backlog with more to tell at its end.
    pub open spec fn followed_by(self, chunks: Seq<SyncChunk>) -> Backlog {
        if self.overflowed {
            self
        } else if self.chunks.len() + chunks.len() > MAX_QUEUED_CHUNKS {
            Backlog { chunks: Seq::empty(), overflowed: true }
        } else {
            Backlog { chunks: self.chunks + chunks, overflowed: false }
        }
    }

    /// The backlog without what is told first.
    pub open spec fn without_first(self) -> Backlog {
        if self.chunks.len() == 0 {
            self
        } else {
            Backlog { chunks: self.chunks.skip(1), overflowed: self.overflowed }
        }
    }

    /// Never more than the ceiling, and nothing once it was thrown away.
    pub open spec fn wf(self) -> bool {
        &&& self.chunks.len() <= MAX_QUEUED_CHUNKS
        &&& self.overflowed ==> self.chunks.len() == 0
    }
}

/// A backlog which was thrown away stays thrown away: whatever is queued after
/// it, nothing is told any more.
pub proof fn nothing_is_told_after_an_overflow(backlog: Backlog, chunks: Seq<SyncChunk>)
    requires
        backlog.wf(),
        backlog.overflowed,
    ensures
        backlog.followed_by(chunks) == backlog,
        backlog.without_first() == backlog,
        backlog.chunks.len() == 0,
{
}

/// What fits is told in the order it was queued in, whether it was queued in one
/// go or in two, and to queue nothing changes nothing.
pub proof fn the_backlog_keeps_its_order(
    backlog: Backlog,
    first: Seq<SyncChunk>,
    second: Seq<SyncChunk>,
)
    requires
        backlog.wf(),
    ensures
        backlog.followed_by(first).wf(),
        backlog.without_first().wf(),
        backlog.followed_by(first).followed_by(second) == backlog.followed_by(first + second),
        backlog.followed_by(Seq::empty()) == backlog,
{
    let both = backlog.followed_by(first).followed_by(second);
    assert(both.chunks =~= backlog.followed_by(first + second).chunks);
    assert(backlog.followed_by(Seq::empty()).chunks =~= backlog.chunks);
}

/// What a long poll does next.
pub enum PollStep {
    /// Answers with this.
    Answer(SyncChunk),
    /// Answers with nothing.
    GiveUp,
    /// Sleeps until something is queued or its time is up, and looks again.
    Wait,
}

impl Leased for ReaderSession {
    open spec fn lease_id(&self) -> Seq<char> {
        self.id@
    }

    open spec fn last_seen(&self) -> i64 {
        self.last_incoming.unix_microseconds
    }

    fn id(&self) -> (r: &String) {
        &self.id
    }

    fn last_incoming(&self) -> (r: DateTimeAsMicroseconds) {
        self.last_incoming
    }
}

impl ReaderSession {
    /// The tables the reader wants to hear about.
    pub open spec fn tables(&self) -> Set<Seq<char>> {
        held_names(self.tables)
    }

    /// What the reader still has to be told.
    pub open spec fn backlog(&self) -> Backlog {
        Backlog { chunks: self.queue@, overflowed: self.overflowed }
    }

    /// Whether the other session is this one, whatever became of its tables, its
    /// backlog and the moment it was last heard of.
    pub open spec fn is_reader_of(&self, other: &ReaderSession) -> bool {
        &&& self.id == other.id
        &&& self.app_name == other.app_name
        &&& self.version == other.version
        &&& self.namespace == other.namespace
        &&& self.ip == other.ip
        &&& self.connected == other.connected
    }

    /// A reader which has just greeted.
    pub fn new(
        id: String,
        app_name: String,
        version: String,
        namespace: String,
        ip: String,
        now: DateTimeAsMicroseconds,
    ) -> (r: Self)
        ensures
            r.id == id,
            r.app_name == app_name,
            r.version == version,
            r.namespace == namespace,
            r.ip == ip,
            r.connected == now,
            r.last_seen() == now.unix_microseconds,
            r.tables() == Set::<Seq<char>>::empty(),
            r.backlog() == (Backlog { chunks: Seq::empty(), overflowed: false }),
    {
        ReaderSession {
            id,
            app_name,
            version,
            namespace,
            ip,
            connected: now,
            last_incoming: now,
            tables: name_set_new(),
            queue: VecDeque::new(),
            overflowed: false,
        }
    }

    /// The reader asked for something.
    pub fn touch(&mut self, now: DateTimeAsMicroseconds)
        ensures
            final(self).last_seen() == now.unix_microseconds,
            final(self).is_reader_of(old(self)),
            final(self).tables() == old(self).tables(),
            final(self).backlog() == old(self).backlog(),
    {
        self.last_incoming = now;
    }

    pub fn get_last_incoming(&self) -> (r: DateTimeAsMicroseconds)
        ensures
            r.unix_microseconds == self.last_seen(),
    {
        self.last_incoming
    }

    /// Meant to run under the table's write lock, so nothing is written between
    /// the picture the reader starts with and the first change it hears about.
    pub fn subscribe(&mut self, table_name: &str)
        ensures
            final(self).tables() == old(self).tables().insert(table_name@),
            final(self).is_reader_of(old(self)),
            final(self).last_seen() == old(self).last_seen(),
            final(self).backlog() == old(self).backlog(),
    {
        name_set_insert(&mut self.tables, table_name.to_owned());
    }

    pub fn is_subscribed(&self, table_name: &str) -> (r: bool)
        ensures
            r == self.tables().contains(table_name@),
    {
        name_set_contains(&self.tables, table_name)
    }

    /// Everything the monitoring views want in one take: the tables and how much
    /// is queued.
    pub fn get_monitoring_snapshot(&self) -> (r: (Vec<String>, usize))
        ensures
            is_ascending(r.0@),
            forall|name: Seq<char>| #[trigger]
                is_listed(r.0@, name) <==> self.tables().contains(name),
            r.1 == self.backlog().chunks.len(),
    {
        // The set is a hash set, so unsorted output would reshuffle on every
        // scrape and make two samples impossible to compare.
        let tables = sort_names(name_set_items(&self.tables));
        (tables, self.queue.len())
    }

    /// Queues what the reader has to be told. Returns whether whoever waits for
    /// it is to be woken.
    ///
    /// Woken even when the queue was just thrown away: the poll finds nothing and
    /// answers, and the call after it is the one which tells the reader to start
    /// over - five seconds sooner than waiting for the long poll to give up on
    /// its own.
    pub fn enqueue(&mut self, chunks: Vec<SyncChunk>) -> (r: bool)
        requires
            old(self).backlog().wf(),
        ensures
            final(self).backlog() == old(self).backlog().followed_by(chunks@),
            final(self).backlog().wf(),
            final(self).is_reader_of(old(self)),
            final(self).last_seen() == old(self).last_seen(),
            final(self).tables() == old(self).tables(),
            r == (!old(self).backlog().overflowed && chunks@.len() > 0),
    {
        // Nothing is kept for a session which is already being thrown away: what
        // would be pushed now is the tail of a picture whose head is gone, and the
        // reader is going to ask for the whole of it again.
        if self.overflowed {
            return false;
        }
        let ghost before = *self;
        let ghost given = chunks@;
        let mut i: usize = 0;
        let total: usize = chunks.len();
        let mut queue = VecDeque::new();
        std::mem::swap(&mut queue, &mut self.queue);
        assert(queue@ =~= before.queue@ + given.take(0));
        for chunk in it: chunks
            invariant
                it.seq() == given,
                it.index() == i,
                i <= total,
                total == given.len(),
                queue@ == before.queue@ + given.take(i as int),
        {
            queue.push_back(chunk);
            proof {
                assert(given.take(i + 1) =~= given.take(i as int).push(given[i as int]));
                assert(queue@ =~= before.queue@ + given.take(i + 1));
            }
            i = i + 1;
        }
        assert(given.take(given.len() as int) =~= given);
        if queue.len() > MAX_QUEUED_CHUNKS {
            // The queue is what the backlog is made of, and a `VecDeque` keeps its
            // capacity - so does the memory this is about.
            self.queue = VecDeque::new();
            self.overflowed = true;
        } else {
            self.queue = queue;
        }
        total > 0
    }

    /// Whether this session's backlog was thrown away. The session is worth
    /// nothing after that, and whoever asks it for a change evicts it.
    pub fn has_overflowed(&self) -> (r: bool)
        ensures
            r == self.backlog().overflowed,
    {
        self.overflowed
    }

    /// Takes what the reader has to be told next.
    pub fn pop(&mut self) -> (r: Option<SyncChunk>)
        ensures
            r == (if old(self).backlog().chunks.len() == 0 {
                None
            } else {
                Some(old(self).backlog().chunks[0])
            }),
            final(self).backlog() == old(self).backlog().without_first(),
            final(self).is_reader_of(old(self)),
            final(self).last_seen() == old(self).last_seen(),
            final(self).tables() == old(self).tables(),
    {
        let r = self.queue.pop_front();
        assert(self.backlog().chunks =~= old(self).backlog().without_first().chunks);
        r
    }

    /// What the long poll does now, and again each time it was woken: whatever is
    /// queued is the answer, however late it came. With nothing queued the poll
    /// gives up once its time is up, and at once where the backlog was thrown away,
    /// because then there is nothing to wait for any more.
    pub fn poll(&mut self, time_is_up: bool) -> (r: PollStep)
        ensures
            r == (if old(self).backlog().chunks.len() > 0 {
                PollStep::Answer(old(self).backlog().chunks[0])
            } else if old(self).backlog().overflowed || time_is_up {
                PollStep::GiveUp
            } else {
                PollStep::Wait
            }),
            final(self).backlog() == old(self).backlog().without_first(),
            final(self).is_reader_of(old(self)),
            final(self).last_seen() == old(self).last_seen(),
            final(self).tables() == old(self).tables(),
    {
        match self.pop() {
            Some(chunk) => PollStep::Answer(chunk),
            None => if self.has_overflowed() || time_is_up {
                PollStep::GiveUp
            } else {
                PollStep::Wait
            },
        }
    }
}

}
