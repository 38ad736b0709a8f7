//! Every reader there is.

use crate::db::DateTimeAsMicroseconds;
use crate::leases::{is_expired, is_given, lease_text, Leased, Leases};
use crate::names::{all_differ, is_listed};
use crate::reader::reader_session::{Backlog, ReaderSession};
use crate::text::same_text;
use vstd::prelude::*;

verus! {

/// A session which has not asked for anything in this long is forgotten. The
/// reader that comes back with it is told the session is unknown and starts over
/// - the same thing a dropped TCP connection used to mean.
pub const SESSION_TTL_SECS: i64 = 30;

/// Every live reader session, keyed by its id.
pub struct ReaderSessions {
    inner: Leases<ReaderSession>,
}

/// Whether a write to a table of a namespace has to be told to a session.
pub open spec fn is_notified(
    session: ReaderSession,
    name_space: Seq<char>,
    table_name: Seq<char>,
) -> bool {
    session.namespace@ == name_space && session.tables().contains(table_name)
}

impl ReaderSessions {
    /// The sessions, by their ids.
    pub closed spec fn map(&self) -> Map<Seq<char>, ReaderSession> {
        self.inner.map()
    }

    /// How many sessions there have been.
    pub closed spec fn given(&self) -> nat {
        self.inner.given()
    }

    /// Every session is found under its own id, which no other session has had,
    /// and none of them holds more than a session may.
    pub closed spec fn wf(&self) -> bool {
        &&& self.inner.wf()
        &&& forall|id: Seq<char>| #[trigger]
            self.inner.map().contains_key(id) ==> self.inner.map()[id].backlog().wf()
    }

    pub fn new() -> (r: Self)
        ensures
            r.wf(),
            r.map() == Map::<Seq<char>, ReaderSession>::empty(),
            r.given() == 0,
    {
        ReaderSessions { inner: Leases::new() }
    }

    /// A session for a reader which has just greeted. Returns its id.
    pub fn create(
        &mut self,
        app_name: String,
        version: String,
        namespace: String,
        ip: String,
        now: DateTimeAsMicroseconds,
    ) -> (r: String)
        requires
            old(self).wf(),
            old(self).given() < u64::MAX,
        ensures
            final(self).wf(),
            final(self).given() == old(self).given() + 1,
            r@ == lease_text(now.unix_microseconds as int, old(self).given()),
            !old(self).map().contains_key(r@),
            final(self).map().contains_key(r@),
            final(self).map() == old(self).map().insert(r@, final(self).map()[r@]),
            ({
                let session = final(self).map()[r@];
                &&& session.id@ == r@
                &&& session.app_name == app_name
                &&& session.version == version
                &&& session.namespace == namespace
                &&& session.ip == ip
                &&& session.connected == now
                &&& session.last_seen() == now.unix_microseconds
                &&& session.tables() == Set::<Seq<char>>::empty()
                &&& session.backlog() == Backlog { chunks: Seq::empty(), overflowed: false }
            }),
    {
        let ghost given = self.given();
        let id = self.inner.take_id(now);
        assert(id@ == lease_text(now.unix_microseconds as int, given));
        assert(is_given(id@, self.inner.given()));
        let session = ReaderSession::new(id.clone(), app_name, version, namespace, ip, now);
        self.inner.put(session);
        id
    }

    pub fn get(&self, session_id: &str) -> (r: Option<&ReaderSession>)
        requires
            self.wf(),
        ensures
            r is Some <==> self.map().contains_key(session_id@),
            r matches Some(session) ==> *session == self.map()[session_id@] && session.id@
                == session_id@ && session.backlog().wf(),
    {
        let r = self.inner.get(session_id);
        proof {
            if r is Some {
                self.inner.found_by_id(session_id@);
            }
        }
        r
    }

    /// A session which something is about to happen to. It has to stay the same
    /// session, and within what a session may hold.
    pub fn get_mut(&mut self, session_id: &str) -> (r: Option<&mut ReaderSession>)
        requires
            old(self).wf(),
        ensures
            final(self).given() == old(self).given(),
            match r {
                Some(session) => {
                    &&& old(self).map().contains_key(session_id@)
                    &&& *session == old(self).map()[session_id@]
                    &&& session.backlog().wf()
                    &&& final(self).map() == old(self).map().insert(session_id@, *final(session))
                    &&& final(session).is_reader_of(session) && final(session).backlog().wf()
                        ==> final(self).wf()
                },
                None => !old(self).map().contains_key(session_id@) && *final(self) == *old(self),
            },
    {
        proof {
            if self.map().contains_key(session_id@) {
                self.inner.found_by_id(session_id@);
            }
        }
        self.inner.get_mut(session_id)
    }

    /// Every live session.
    pub fn get_all(&self) -> (r: Vec<&ReaderSession>)
        requires
            self.wf(),
        ensures
            are_the_sessions(r@, self.map()),
    {
        let mut r: Vec<&ReaderSession> = Vec::new();
        let count: usize = self.inner.len();
        proof {
            self.inner.places_are_the_map();
        }
        for i in 0..count
            invariant
                self.wf(),
                count == self.inner.places(),
                r@.len() == i,
                forall|k: int| 0 <= k < i ==> *(#[trigger] r@[k]) == self.inner.item_at(k),
        {
            r.push(self.inner.at(i));
        }
        proof {
            assert forall|i: int, j: int|
                #![trigger r@[i], r@[j]]
                0 <= i < j < r@.len() implies r@[i].id@ != r@[j].id@ by {
                assert(self.inner.item_at(i).lease_id() != self.inner.item_at(j).lease_id());
            }
            assert forall|id: Seq<char>| #[trigger] self.map().contains_key(id) implies is_session_in(
                r@,
                id,
            ) by {
                let k = choose|k: int|
                    0 <= k < self.inner.places() && (#[trigger] self.inner.item_at(k)).lease_id()
                        == id;
                assert(r@[k].id@ == id);
            }
        }
        r
    }

    pub fn remove(&mut self, session_id: &str) -> (r: Option<ReaderSession>)
        requires
            old(self).wf(),
        ensures
            final(self).wf(),
            final(self).map() == old(self).map().remove(session_id@),
            final(self).given() == old(self).given(),
            r == (if old(self).map().contains_key(session_id@) {
                Some(old(self).map()[session_id@])
            } else {
                None
            }),
    {
        self.inner.remove(session_id)
    }

    /// Sessions of this namespace which are subscribed to this table - the list a
    /// write has to notify.
    pub fn get_subscribed(&self, namespace: &str, table_name: &str) -> (r: Vec<&ReaderSession>)
        requires
            self.wf(),
        ensures
            are_the_sessions(
                r@,
                self.map().restrict(
                    Set::new(
                        |id: Seq<char>|
                            self.map().contains_key(id) && is_notified(
                                self.map()[id],
                                namespace@,
                                table_name@,
                            ),
                    ),
                ),
            ),
            forall|id: Seq<char>| #[trigger]
                self.map().contains_key(id) ==> (is_session_in(r@, id)
                    <==> self.map()[id].namespace@ == namespace@
                    && self.map()[id].tables().contains(table_name@)),
    {
        let all = self.get_all();
        let ghost wanted = self.map().restrict(
            Set::new(
                |id: Seq<char>|
                    self.map().contains_key(id) && is_notified(
                        self.map()[id],
                        namespace@,
                        table_name@,
                    ),
            ),
        );
        let mut r: Vec<&ReaderSession> = Vec::new();
        for i in 0..all.len()
            invariant
                are_the_sessions(all@, self.map()),
                forall|id: Seq<char>| #[trigger]
                    wanted.contains_key(id) <==> self.map().contains_key(id) && is_notified(
                        self.map()[id],
                        namespace@,
                        table_name@,
                    ),
                forall|id: Seq<char>| #[trigger]
                    wanted.contains_key(id) ==> wanted[id] == self.map()[id],
                forall|k: int|
                    0 <= k < r@.len() ==> is_session_before(all@, i as int, (#[trigger] r@[k]).id@)
                        && wanted.contains_key(r@[k].id@) && wanted[r@[k].id@] == *r@[k],
                forall|a: int, b: int|
                    #![trigger r@[a], r@[b]]
                    0 <= a < b < r@.len() ==> r@[a].id@ != r@[b].id@,
                forall|k: int|
                    0 <= k < i && is_notified(*(#[trigger] all@[k]), namespace@, table_name@)
                        ==> is_session_in(r@, all@[k].id@),
        {
            let session = all[i];
            let ghost known = r@;
            assert(self.map().contains_key(all@[i as int].id@));
            if same_text(session.namespace.as_str(), namespace) && session.is_subscribed(
                table_name,
            ) {
                r.push(session);
                proof {
                    assert(wanted.contains_key(session.id@));
                    assert forall|a: int, b: int|
                        #![trigger r@[a], r@[b]]
                        0 <= a < b < r@.len() implies r@[a].id@ != r@[b].id@ by {
                        assert(r@[a] == known[a]);
                        if b < known.len() {
                            assert(r@[b] == known[b]);
                        } else {
                            assert(is_session_before(all@, i as int, known[a].id@));
                        }
                    }
                    assert(r@[known.len() as int].id@ == session.id@);
                }
            }
            proof {
                assert forall|k: int| 0 <= k < r@.len() implies is_session_before(
                    all@,
                    i + 1,
                    (#[trigger] r@[k]).id@,
                ) by {
                    if k < known.len() {
                        assert(r@[k] == known[k]);
                        assert(is_session_before(all@, i as int, known[k].id@));
                    } else {
                        assert(all@[i as int].id@ == r@[k].id@);
                    }
                }
                assert forall|k: int|
                    0 <= k < i + 1 && is_notified(
                        *(#[trigger] all@[k]),
                        namespace@,
                        table_name@,
                    ) implies is_session_in(r@, all@[k].id@) by {
                    if k < i {
                        let id = all@[k].id@;
                        let j = choose|j: int| 0 <= j < known.len() && (#[trigger] known[j]).id@ == id;
                        assert(r@[j].id@ == id);
                    }
                }
            }
        }
        proof {
            assert forall|id: Seq<char>| #[trigger] wanted.contains_key(id) implies is_session_in(
                r@,
                id,
            ) by {
                assert(self.map().contains_key(id));
                assert(is_session_in(all@, id));
                let k = choose|k: int| 0 <= k < all@.len() && (#[trigger] all@[k]).id@ == id;
                assert(is_notified(*all@[k], namespace@, table_name@));
            }
        }
        r
    }

    /// Drops sessions which went quiet. Returns their ids.
    pub fn gc(&mut self, now: DateTimeAsMicroseconds, ttl_secs: i64) -> (r: Vec<String>)
        requires
            old(self).wf(),
        ensures
            final(self).wf(),
            final(self).given() == old(self).given(),
            forall|id: Seq<char>| #[trigger]
                final(self).map().contains_key(id) <==> old(self).map().contains_key(id)
                    && !is_expired(
                    old(self).map()[id].last_seen() as int,
                    now.unix_microseconds as int,
                    ttl_secs as int,
                ),
            forall|id: Seq<char>| #[trigger]
                final(self).map().contains_key(id) ==> final(self).map()[id] == old(self).map()[id],
            all_differ(r@),
            forall|id: Seq<char>|
                #[trigger] is_listed(r@, id) <==> old(self).map().contains_key(id) && is_expired(
                    old(self).map()[id].last_seen() as int,
                    now.unix_microseconds as int,
                    ttl_secs as int,
                ),
    {
        self.inner.gc(now, ttl_secs)
    }
}

/// Whether a session with the id is in a list.
pub open spec fn is_session_in(sessions: Seq<&ReaderSession>, id: Seq<char>) -> bool {
    exists|k: int| 0 <= k < sessions.len() && (#[trigger] sessions[k]).id@ == id
}

/// Whether a session with the id is among the first of a list.
spec fn is_session_before(sessions: Seq<&ReaderSession>, count: int, id: Seq<char>) -> bool {
    exists|k: int| 0 <= k < count && (#[trigger] sessions[k]).id@ == id
}

/// Whether a list holds every session of a map once, and nothing else.
pub open spec fn are_the_sessions(
    sessions: Seq<&ReaderSession>,
    map: Map<Seq<char>, ReaderSession>,
) -> bool {
    &&& forall|k: int|
        0 <= k < sessions.len() ==> map.contains_key((#[trigger] sessions[k]).id@)
            && map[sessions[k].id@] == *sessions[k]
    &&& forall|i: int, j: int|
        #![trigger sessions[i], sessions[j]]
        0 <= i < j < sessions.len() ==> sessions[i].id@ != sessions[j].id@
    &&& forall|id: Seq<char>| #[trigger] map.contains_key(id) ==> is_session_in(sessions, id)
}

}
