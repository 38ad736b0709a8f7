//! The readers, as they are shown.

use crate::app::AppContext;
use crate::db::DateTimeAsMicroseconds;
use crate::names::{is_ascending, is_listed};
use crate::reader::reader_session::ReaderSession;
use crate::reader::reader_sessions::are_the_sessions;
use crate::sorting::{is_sorted, lemma_same_items, sort, Ordered};
use crate::triples::{
    lemma_triple_before_once, lemma_triple_not_before_chain, triple_before, triple_comes_before,
    TextTriple,
};
use vstd::prelude::*;

verus! {

/// One reader session, flattened out of the registry.
pub struct ReaderView {
    pub id: String,
    pub app_name: String,
    pub version: String,
    pub namespace: String,
    pub ip: String,
    pub connected: DateTimeAsMicroseconds,
    pub last_incoming: DateTimeAsMicroseconds,
    pub tables: Vec<String>,
    pub pending_chunks: usize,
}

impl ReaderView {
    /// What a reader is shown by.
    pub open spec fn place(&self) -> TextTriple {
        (self.namespace@, self.app_name@, self.id@)
    }

    /// Whether the session is shown as it is.
    pub open spec fn shows(&self, session: ReaderSession) -> bool {
        &&& self.id@ == session.id@
        &&& self.app_name@ == session.app_name@
        &&& self.version@ == session.version@
        &&& self.namespace@ == session.namespace@
        &&& self.ip@ == session.ip@
        &&& self.connected == session.connected
        &&& self.last_incoming == session.last_incoming
        &&& is_ascending(self.tables@)
        &&& forall|name: Seq<char>| #[trigger]
            is_listed(self.tables@, name) <==> session.tables().contains(name)
        &&& self.pending_chunks == session.backlog().chunks.len()
    }
}

impl Ordered for ReaderView {
    open spec fn may_precede(&self, other: &Self) -> bool {
        !triple_before(other.place(), self.place())
    }

    proof fn precede_either_way(a: &Self, b: &Self) {
        lemma_triple_before_once(a.place(), b.place());
    }

    proof fn precede_on_and_on(a: &Self, b: &Self, c: &Self) {
        lemma_triple_not_before_chain(a.place(), b.place(), c.place());
    }

    fn precedes(&self, other: &Self) -> (r: bool) {
        !triple_comes_before(
            (other.namespace.as_str(), other.app_name.as_str(), other.id.as_str()),
            (self.namespace.as_str(), self.app_name.as_str(), self.id.as_str()),
        )
    }
}

/// Whether a reader with the id is shown.
pub open spec fn is_shown(readers: Seq<ReaderView>, id: Seq<char>) -> bool {
    exists|i: int| 0 <= i < readers.len() && (#[trigger] readers[i]).id@ == id
}

/// Whether every session is shown once as it is, and nothing else.
pub open spec fn show_all(
    readers: Seq<ReaderView>,
    sessions: Map<Seq<char>, ReaderSession>,
) -> bool {
    &&& forall|i: int|
        0 <= i < readers.len() ==> sessions.contains_key((#[trigger] readers[i]).id@)
            && readers[i].shows(sessions[readers[i].id@])
    &&& forall|i: int, j: int|
        #![trigger readers[i], readers[j]]
        0 <= i < j < readers.len() ==> readers[i].id@ != readers[j].id@
    &&& forall|id: Seq<char>| #[trigger] sessions.contains_key(id) ==> is_shown(readers, id)
}

/// Whether readers are shown by namespace, then by application, then by session.
pub open spec fn readers_in_order(readers: Seq<ReaderView>) -> bool {
    forall|i: int, j: int|
        #![trigger readers[i], readers[j]]
        0 <= i < j < readers.len() ==> triple_before(readers[i].place(), readers[j].place())
}

/// What a session is shown as.
pub fn show(session: &ReaderSession) -> (r: ReaderView)
    ensures
        r.shows(*session),
{
    let (tables, pending_chunks) = session.get_monitoring_snapshot();
    ReaderView {
        id: session.id.clone(),
        app_name: session.app_name.clone(),
        version: session.version.clone(),
        namespace: session.namespace.clone(),
        ip: session.ip.clone(),
        connected: session.connected,
        last_incoming: session.get_last_incoming(),
        tables,
        pending_chunks,
    }
}

/// Every live reader session, in a stable order.
pub fn collect<P, A>(app: &AppContext<P, A>) -> (r: Vec<ReaderView>)
    requires
        app.wf(),
    ensures
        show_all(r@, app.reader_sessions.map()),
        readers_in_order(r@),
{
    let sessions = app.reader_sessions.get_all();
    let ghost map = app.reader_sessions.map();
    let mut result: Vec<ReaderView> = Vec::new();
    for i in 0..sessions.len()
        invariant
            are_the_sessions(sessions@, map),
            result@.len() == i,
            forall|k: int| 0 <= k < i ==> (#[trigger] result@[k]).shows(*sessions@[k]),
    {
        result.push(show(sessions[i]));
    }
    let ghost unsorted = result@;
    proof {
        assert forall|i: int, j: int|
            #![trigger unsorted[i], unsorted[j]]
            0 <= i < j < unsorted.len() implies unsorted[i].id@ != unsorted[j].id@ by {
            assert(sessions@[i].id@ != sessions@[j].id@);
        }
        assert forall|i: int| 0 <= i < unsorted.len() implies map.contains_key(
            (#[trigger] unsorted[i]).id@,
        ) && unsorted[i].shows(map[unsorted[i].id@]) by {
            assert(map[sessions@[i].id@] == *sessions@[i]);
        }
        assert forall|id: Seq<char>| #[trigger] map.contains_key(id) implies is_shown(
            unsorted,
            id,
        ) by {
            let k = choose|k: int| 0 <= k < sessions@.len() && (#[trigger] sessions@[k]).id@ == id;
            assert(unsorted[k].id@ == id);
        }
    }
    // The registry is a hash map, so without this two samples taken a second
    // apart would be in different orders and impossible to compare.
    let r = sort(result);
    proof {
        lemma_still_shown(unsorted, r@, map);
    }
    r
}

proof fn lemma_still_shown(
    unsorted: Seq<ReaderView>,
    sorted: Seq<ReaderView>,
    sessions: Map<Seq<char>, ReaderSession>,
)
    requires
        show_all(unsorted, sessions),
        is_sorted(sorted),
        unsorted.to_multiset() == sorted.to_multiset(),
    ensures
        show_all(sorted, sessions),
        readers_in_order(sorted),
{
    assert(unsorted.no_duplicates());
    lemma_same_items(unsorted, sorted);
    assert forall|i: int| 0 <= i < sorted.len() implies unsorted.contains(#[trigger] sorted[i]) by {
        assert(sorted.contains(sorted[i]));
        assert(unsorted.contains(sorted[i]) <==> sorted.contains(sorted[i]));
    }
    assert forall|i: int, j: int|
        #![trigger sorted[i], sorted[j]]
        0 <= i < j < sorted.len() implies sorted[i].id@ != sorted[j].id@ by {
        assert(unsorted.contains(sorted[i]) && unsorted.contains(sorted[j]));
        assert(sorted[i] != sorted[j]);
    }
    assert forall|i: int, j: int|
        #![trigger sorted[i], sorted[j]]
        0 <= i < j < sorted.len() implies triple_before(sorted[i].place(), sorted[j].place()) by {
        assert(sorted[i].may_precede(&sorted[j]));
        lemma_triple_before_once(sorted[i].place(), sorted[j].place());
    }
    assert forall|id: Seq<char>| #[trigger] sessions.contains_key(id) implies is_shown(
        sorted,
        id,
    ) by {
        assert(is_shown(unsorted, id));
        let k = choose|k: int| 0 <= k < unsorted.len() && (#[trigger] unsorted[k]).id@ == id;
        assert(unsorted.contains(unsorted[k]));
        assert(sorted.contains(unsorted[k]));
    }
}

}
