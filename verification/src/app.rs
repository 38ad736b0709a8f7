//! What the server as a whole is made of.

use crate::db::{are_schemas_in_order, DateTimeAsMicroseconds, DbTableAttributes};
use crate::names::{are_named_differently, names_differ, Named};
use crate::persist::markers::persist_markers::PersistMarkers;
use crate::reader::reader_session::ReaderSession;
use crate::reader::reader_sessions::ReaderSessions;
use crate::settings_reader::SettingsModel;
use crate::transactions::registry::Transactions;
use crate::transactions::transaction::Transaction;
use vstd::prelude::*;

verus! {

/// The namespace a caller means who does not name one.
pub const DEFAULT_NAMESPACE: &'static str = "default";

/// The namespace a caller means.
pub open spec fn namespace_name(name: Seq<char>) -> Seq<char> {
    if name.len() == 0 {
        DEFAULT_NAMESPACE@
    } else {
        name
    }
}

/// The namespace a caller means: the default one where none is named.
pub fn resolve_name(name: &str) -> (r: &str)
    ensures
        r@ == namespace_name(name@),
{
    if name.is_empty() {
        DEFAULT_NAMESPACE
    } else {
        name
    }
}

/// How much a table holds.
#[derive(Clone, Copy)]
pub struct DbTableMetrics {
    pub partitions_amount: usize,
    pub rows_amount: usize,
    pub content_size: usize,
}

/// A table, as far as it is looked at from outside.
pub struct DbTable {
    pub name: String,
    pub attributes: DbTableAttributes,
    pub metrics: DbTableMetrics,
    /// Absent means nothing has written to it since the process started - the
    /// moment is not on disk, so a restart forgets it rather than reporting the
    /// previous run's.
    pub last_write_moment: Option<DateTimeAsMicroseconds>,
}

impl Named for DbTable {
    open spec fn called(&self) -> Seq<char> {
        self.name@
    }

    fn get_name(&self) -> (r: &str) {
        self.name.as_str()
    }
}

/// A namespace: its tables, and what it owes to the disk.
pub struct DbNamespace {
    pub name: String,
    pub tables: Vec<DbTable>,
    pub persist_markers: PersistMarkers,
    /// How many persist tasks were written since start up.
    pub persisted_total: u64,
    pub last_persisted: Option<DateTimeAsMicroseconds>,
}

impl Named for DbNamespace {
    open spec fn called(&self) -> Seq<char> {
        self.name@
    }

    fn get_name(&self) -> (r: &str) {
        self.name.as_str()
    }
}

impl DbNamespace {
    /// Every table has a name of its own and attributes which are in order.
    pub open spec fn wf(&self) -> bool {
        &&& names_differ(self.tables@)
        &&& forall|i: int|
            0 <= i < self.tables@.len() ==> (#[trigger] self.tables@[i]).attributes.wf()
        &&& self.persist_markers.wf()
    }

    /// Whether the namespace is in order. What it owes to the disk always is.
    pub fn is_in_order(&self) -> (r: bool)
        requires
            self.persist_markers.wf(),
        ensures
            r == self.wf(),
    {
        if !are_named_differently(&self.tables) {
            return false;
        }
        for i in 0..self.tables.len()
            invariant
                forall|k: int| 0 <= k < i ==> (#[trigger] self.tables@[k]).attributes.wf(),
        {
            if !are_schemas_in_order(&self.tables[i].attributes.schemas) {
                assert(!self.tables@[i as int].attributes.wf());
                return false;
            }
        }
        true
    }
}

/// How long the write tools stay open once somebody opened them.
pub const MCP_WRITES_WINDOW_SECS: i64 = 600;

/// What the server as a whole is made of. `P` and `A` are what its transactions
/// are made of.
pub struct AppContext<P, A> {
    pub version: String,
    /// Whether the tables are loaded from disk.
    pub initialized: bool,
    pub created: DateTimeAsMicroseconds,
    pub grpc_endpoint: String,
    pub http_endpoint: String,
    pub settings: SettingsModel,
    pub namespaces: Vec<DbNamespace>,
    pub reader_sessions: ReaderSessions,
    pub transactions: Transactions<P, A>,
    /// When the write tools were opened, unless they were shut again.
    pub mcp_writes_opened: Option<DateTimeAsMicroseconds>,
}

/// How many microseconds the write tools stay open from a moment on; not a
/// positive number once they are shut.
pub open spec fn window_left(opened: Option<DateTimeAsMicroseconds>, now: DateTimeAsMicroseconds) -> int {
    match opened {
        Some(opened) => opened.unix_microseconds + MCP_WRITES_WINDOW_SECS * 1_000_000
            - now.unix_microseconds,
        None => 0,
    }
}

impl<P, A> AppContext<P, A> {
    /// Every namespace has a name of its own, and everything is in order.
    pub open spec fn wf(&self) -> bool {
        &&& names_differ(self.namespaces@)
        &&& forall|i: int|
            0 <= i < self.namespaces@.len() ==> (#[trigger] self.namespaces@[i]).wf()
        &&& self.reader_sessions.wf()
        &&& self.transactions.wf()
    }

    /// Whether the server is in order. Its sessions, its transactions and what its
    /// namespaces owe to the disk always are; its namespaces and their tables are
    /// for whoever puts them there to keep so.
    pub fn is_in_order(&self) -> (r: bool)
        requires
            self.reader_sessions.wf(),
            self.transactions.wf(),
            forall|i: int|
                0 <= i < self.namespaces@.len() ==> (
                #[trigger] self.namespaces@[i]).persist_markers.wf(),
        ensures
            r == self.wf(),
    {
        if !are_named_differently(&self.namespaces) {
            return false;
        }
        for i in 0..self.namespaces.len()
            invariant
                forall|k: int|
                    0 <= k < self.namespaces@.len() ==> (
                    #[trigger] self.namespaces@[k]).persist_markers.wf(),
                forall|k: int| 0 <= k < i ==> (#[trigger] self.namespaces@[k]).wf(),
        {
            assert(self.namespaces@[i as int].persist_markers.wf());
            if !self.namespaces[i].is_in_order() {
                assert(!self.namespaces@[i as int].wf());
                return false;
            }
        }
        true
    }

    /// A server which has loaded nothing yet, and whose write tools are shut.
    pub fn new(
        settings: SettingsModel,
        version: String,
        grpc_endpoint: String,
        http_endpoint: String,
        now: DateTimeAsMicroseconds,
    ) -> (r: Self)
        ensures
            r.wf(),
            r.settings == settings,
            r.version == version,
            r.grpc_endpoint == grpc_endpoint,
            r.http_endpoint == http_endpoint,
            r.created == now,
            !r.initialized,
            r.namespaces@.len() == 0,
            r.reader_sessions.map() == Map::<Seq<char>, ReaderSession>::empty(),
            r.transactions.map() == Map::<Seq<char>, Transaction<P, A>>::empty(),
            r.mcp_writes_opened is None,
    {
        AppContext {
            version,
            initialized: false,
            created: now,
            grpc_endpoint,
            http_endpoint,
            settings,
            namespaces: Vec::new(),
            reader_sessions: ReaderSessions::new(),
            transactions: Transactions::new(),
            mcp_writes_opened: None,
        }
    }

    /// Opens the write tools, for as long as the window is.
    pub fn open_mcp_writes(&mut self, now: DateTimeAsMicroseconds)
        ensures
            *final(self) == (AppContext { mcp_writes_opened: Some(now), ..*old(self) }),
    {
        self.mcp_writes_opened = Some(now);
    }

    /// Shuts the write tools.
    pub fn close_mcp_writes(&mut self)
        ensures
            *final(self) == (AppContext { mcp_writes_opened: None, ..*old(self) }),
    {
        self.mcp_writes_opened = None;
    }

    /// Whether the write tools are open. They shut by themselves.
    pub fn mcp_writes_are_open(&self, now: DateTimeAsMicroseconds) -> (r: bool)
        ensures
            r == (window_left(self.mcp_writes_opened, now) > 0),
    {
        match self.mcp_writes_opened {
            Some(opened) => {
                let left: i128 = opened.unix_microseconds as i128 + MCP_WRITES_WINDOW_SECS as i128
                    * 1_000_000 - now.unix_microseconds as i128;
                left > 0
            },
            None => false,
        }
    }

    /// For how many more whole seconds the write tools are open, if they are.
    pub fn mcp_writes_remaining_secs(&self, now: DateTimeAsMicroseconds) -> (r: Option<i64>)
        ensures
            r is Some <==> window_left(self.mcp_writes_opened, now) > 0,
            r matches Some(secs) ==> secs == window_left(self.mcp_writes_opened, now) / 1_000_000,
    {
        match self.mcp_writes_opened {
            Some(opened) => {
                let left: i128 = opened.unix_microseconds as i128 + MCP_WRITES_WINDOW_SECS as i128
                    * 1_000_000 - now.unix_microseconds as i128;
                if left > 0 {
                    Some((left / 1_000_000) as i64)
                } else {
                    None
                }
            },
            None => None,
        }
    }
}

/// Opened tools are open, until the whole window has passed and not a moment
/// longer.
pub proof fn the_window_closes_on_its_own(
    opened: DateTimeAsMicroseconds,
    now: DateTimeAsMicroseconds,
)
    ensures
        window_left(Some(opened), now) > 0 <==> now.unix_microseconds - opened.unix_microseconds
            < MCP_WRITES_WINDOW_SECS * 1_000_000,
        window_left(Some(opened), opened) == MCP_WRITES_WINDOW_SECS * 1_000_000,
        window_left(None, now) == 0,
{
}

/// Write tools which were opened stay open for ten minutes and not a moment longer; those
/// which nobody opened are shut.
pub proof fn write_tools_are_open_for_ten_minutes(
    opened: DateTimeAsMicroseconds,
    now: DateTimeAsMicroseconds,
)
    ensures
        window_left(Some(opened), now) > 0 <==> now.unix_microseconds
            < opened.unix_microseconds + 600_000_000,
        window_left(Some(opened), now) == opened.unix_microseconds + 600_000_000
            - now.unix_microseconds,
        window_left(None, now) <= 0,
{
}

/// A caller who names no namespace means the one called `default`; who names one means
/// that.
pub proof fn no_name_means_the_default_namespace(name: Seq<char>)
    ensures
        namespace_name(Seq::empty()) == "default"@,
        name.len() > 0 ==> namespace_name(name) == name,
{
}

/// A server is in order where no two namespaces, and no two tables of a namespace, have the
/// same name, and the schemas of every table stand in the order of their ids; nothing else is
/// asked of what it holds.
pub proof fn when_a_server_is_in_order<P, A>(app: AppContext<P, A>)
    requires
        app.reader_sessions.wf(),
        app.transactions.wf(),
        forall|k: int|
            0 <= k < app.namespaces@.len() ==> (#[trigger] app.namespaces@[k]).persist_markers.wf(),
        forall|i: int, j: int|
            #![trigger app.namespaces@[i], app.namespaces@[j]]
            0 <= i < j < app.namespaces@.len() ==> app.namespaces@[i].name@
                != app.namespaces@[j].name@,
        forall|k: int, i: int, j: int|
            #![trigger app.namespaces@[k].tables@[i], app.namespaces@[k].tables@[j]]
            0 <= k < app.namespaces@.len() && 0 <= i < j < app.namespaces@[k].tables@.len()
                ==> app.namespaces@[k].tables@[i].name@ != app.namespaces@[k].tables@[j].name@,
        forall|k: int, m: int, i: int, j: int|
            #![trigger app.namespaces@[k].tables@[m].attributes.schemas@[i], app.namespaces@[k].tables@[m].attributes.schemas@[j]]
            0 <= k < app.namespaces@.len() && 0 <= m < app.namespaces@[k].tables@.len() && 0 <= i
                < j < app.namespaces@[k].tables@[m].attributes.schemas@.len()
                ==> app.namespaces@[k].tables@[m].attributes.schemas@[i].id
                < app.namespaces@[k].tables@[m].attributes.schemas@[j].id,
    ensures
        app.wf(),
{
    assert forall|k: int| 0 <= k < app.namespaces@.len() implies (
    #[trigger] app.namespaces@[k]).wf() by {
        let tables = app.namespaces@[k].tables@;
        assert forall|i: int| 0 <= i < tables.len() implies (
        #[trigger] tables[i]).attributes.wf() by {
            assert(app.namespaces@[k].tables@[i] == tables[i]);
        }
    }
}

}
