//! What is waiting to be written, and from which moment on it may be written.

use super::persist_task::{PersistQueueMetrics, PersistTask, Task};
use crate::db::DateTimeAsMicroseconds;
use crate::hashed_list::HashedList;
use ahash::AHashMap;
use vstd::prelude::*;

verus! {

pub type MomentByKey = HashedList<AHashMap<String, usize>, DateTimeAsMicroseconds>;

/// What is waiting of one table.
pub struct TableMarkers {
    pub metadata: Option<DateTimeAsMicroseconds>,
    /// partition_key -> the moment from which on it may be written.
    pub partitions: MomentByKey,
}

pub type MarkersByTable = HashedList<AHashMap<String, usize>, TableMarkers>;

/// The write-behind queue of one namespace: what changed and from which moment
/// the persist loop may take it to disk.
///
/// A due moment only ever moves earlier: two writes to the same partition, one
/// asking for `Sec30` and one for `Immediately`, must not let the relaxed one
/// hold the urgent one back.
pub struct PersistMarkers {
    tables: MarkersByTable,
}

/// What the queue holds: the due moments of table metadata by table, and those of
/// partitions by table and partition key.
#[verifier::ext_equal]
pub struct Queue {
    pub metadata: Map<Seq<char>, i64>,
    pub partitions: Map<(Seq<char>, Seq<char>), i64>,
}

impl Queue {
    /// Whether nothing is waiting.
    pub open spec fn is_empty(self) -> bool {
        &&& forall|t: Seq<char>| !(#[trigger] self.metadata.contains_key(t))
        &&& forall|p: (Seq<char>, Seq<char>)| !(#[trigger] self.partitions.contains_key(p))
    }

    /// Whether the task is waiting.
    pub open spec fn has(self, task: Task) -> bool {
        match task {
            Task::TableMetadata(t) => self.metadata.contains_key(t),
            Task::Partition(t, k) => self.partitions.contains_key((t, k)),
        }
    }

    /// From which moment on the task may be written.
    pub open spec fn moment(self, task: Task) -> i64 {
        match task {
            Task::TableMetadata(t) => self.metadata[t],
            Task::Partition(t, k) => self.partitions[(t, k)],
        }
    }

    /// Whether the task is waiting and may be written.
    pub open spec fn is_due(self, task: Task, now: Option<DateTimeAsMicroseconds>) -> bool {
        self.has(task) && is_due_at(self.moment(task), now)
    }

    /// Whether the task is waiting and may be handed out: it is due, or it is the
    /// metadata of a table a partition of which is due.
    pub open spec fn is_ready(self, task: Task, now: Option<DateTimeAsMicroseconds>) -> bool {
        match task {
            Task::TableMetadata(t) => self.has(task) && (self.is_due(task, now) || exists|
                k: Seq<char>,
            | #[trigger] self.is_due(Task::Partition(t, k), now)),
            Task::Partition(t, _) => self.is_due(task, now) && !self.metadata.contains_key(t),
        }
    }

    /// The queue once the task waits for a moment, or for the one it waited for if
    /// that is earlier.
    pub open spec fn marked(self, task: Task, moment: i64) -> Queue {
        let moment = if self.has(task) && self.moment(task) <= moment {
            self.moment(task)
        } else {
            moment
        };
        match task {
            Task::TableMetadata(t) => Queue { metadata: self.metadata.insert(t, moment), ..self },
            Task::Partition(t, k) => Queue {
                partitions: self.partitions.insert((t, k), moment),
                ..self
            },
        }
    }

    /// The queue once the task is handed out.
    pub open spec fn without(self, task: Task) -> Queue {
        match task {
            Task::TableMetadata(t) => Queue { metadata: self.metadata.remove(t), ..self },
            Task::Partition(t, k) => Queue { partitions: self.partitions.remove((t, k)), ..self },
        }
    }
}

/// Whether a moment has come. Without a `now` every moment has.
pub open spec fn is_due_at(moment: i64, now: Option<DateTimeAsMicroseconds>) -> bool {
    match now {
        Some(now) => moment <= now.unix_microseconds,
        None => true,
    }
}

/// Where nothing is asked for its moment, everything is due: a queue in which
/// nothing is due any more then has been drained to the end.
pub proof fn a_drain_leaves_nothing(queue: Queue)
    requires
        forall|task: Task| !(#[trigger] queue.is_due(task, None)),
    ensures
        queue.is_empty(),
{
    assert forall|t: Seq<char>| !(#[trigger] queue.metadata.contains_key(t)) by {
        assert(!queue.is_due(Task::TableMetadata(t), None));
    }
    assert forall|p: (Seq<char>, Seq<char>)| !(#[trigger] queue.partitions.contains_key(p)) by {
        assert(!queue.is_due(Task::Partition(p.0, p.1), None));
        assert(p == (p.0, p.1));
    }
}

fn is_due(moment: Option<DateTimeAsMicroseconds>, now: Option<DateTimeAsMicroseconds>) -> (r: bool)
    ensures
        r == (moment is Some && is_due_at(moment->0.unix_microseconds, now)),
{
    match moment {
        Some(moment) => match now {
            Some(now) => moment.unix_microseconds <= now.unix_microseconds,
            None => true,
        },
        None => false,
    }
}

fn earliest(current: DateTimeAsMicroseconds, candidate: DateTimeAsMicroseconds) -> (r:
    DateTimeAsMicroseconds)
    ensures
        r.unix_microseconds == (if current.unix_microseconds <= candidate.unix_microseconds {
            current.unix_microseconds
        } else {
            candidate.unix_microseconds
        }),
{
    if candidate.unix_microseconds < current.unix_microseconds {
        candidate
    } else {
        current
    }
}

impl TableMarkers {
    fn is_empty(&self) -> (r: bool)
        ensures
            r == (self.metadata is None && self.partitions.entries().len() == 0),
    {
        self.metadata.is_none() && self.partitions.len() == 0
    }

    fn new() -> (r: Self)
        ensures
            r.metadata is None,
            r.partitions.wf(),
            r.partitions.entries().len() == 0,
            r.partitions.map() == Map::<Seq<char>, DateTimeAsMicroseconds>::empty(),
    {
        TableMarkers { metadata: None, partitions: HashedList::new() }
    }
}

/// What some tables have waiting.
pub open spec fn queue_of(tables: Map<Seq<char>, TableMarkers>) -> Queue {
    Queue {
        metadata: Map::new(
            |t: Seq<char>| tables.contains_key(t) && tables[t].metadata is Some,
            |t: Seq<char>| tables[t].metadata->0.unix_microseconds,
        ),
        partitions: Map::new(
            |p: (Seq<char>, Seq<char>)|
                tables.contains_key(p.0) && tables[p.0].partitions.map().contains_key(p.1),
            |p: (Seq<char>, Seq<char>)| tables[p.0].partitions.map()[p.1].unix_microseconds,
        ),
    }
}

impl View for PersistMarkers {
    type V = Queue;

    closed spec fn view(&self) -> Queue {
        queue_of(self.tables.map())
    }
}

impl PersistMarkers {
    /// The lists are in order.
    pub closed spec fn wf(&self) -> bool {
        &&& self.tables.wf()
        &&& forall|i: int|
            0 <= i < self.tables.entries().len() ==> (
            #[trigger] self.tables.entries()[i]).1.partitions.wf()
    }

    proof fn lemma_table(&self, t: Seq<char>)
        requires
            self.wf(),
            self.tables.map().contains_key(t),
        ensures
            self.tables.map()[t].partitions.wf(),
            self.tables.has(t),
    {
        let i = self.tables.place_of(t);
        assert(self.tables.name_at(i) == t);
        self.tables.entry_is_in_map(i);
        assert(self.tables.entries()[i].1.partitions.wf());
    }

    /// Nothing is waiting.
    pub fn new() -> (r: Self)
        ensures
            r.wf(),
            r@.is_empty(),
    {
        PersistMarkers { tables: HashedList::new() }
    }

    /// What waits of the table, taken out of the queue; nothing if nothing does.
    fn take_table(&mut self, table_name: &String) -> (r: TableMarkers)
        requires
            old(self).wf(),
        ensures
            final(self).wf(),
            r.partitions.wf(),
            final(self).tables.map() == old(self).tables.map().remove(table_name@),
            old(self).tables.map().contains_key(table_name@) ==> r
                == old(self).tables.map()[table_name@],
            !old(self).tables.map().contains_key(table_name@) ==> r.metadata is None
                && r.partitions.map() == Map::<Seq<char>, DateTimeAsMicroseconds>::empty(),
    {
        let ghost before = *self;
        proof {
            if self.tables.map().contains_key(table_name@) {
                self.lemma_table(table_name@);
            }
        }
        let r = match self.tables.remove(table_name) {
            Some(markers) => markers,
            None => TableMarkers::new(),
        };
        proof {
            assert forall|i: int| 0 <= i < self.tables.entries().len() implies (
            #[trigger] self.tables.entries()[i]).1.partitions.wf() by {
                if before.tables.has(table_name@) {
                    let at = before.tables.place_of(table_name@);
                    let last = before.tables.entries().len() - 1;
                    assert(before.tables.entries()[last].1.partitions.wf());
                    assert(before.tables.entries()[i].1.partitions.wf());
                    assert(self.tables.entries()[i] == before.tables.entries()[if i == at {
                        last
                    } else {
                        i
                    }]);
                } else {
                    assert(before.tables.entries()[i].1.partitions.wf());
                }
            }
        }
        r
    }

    /// Puts what waits of a table into the queue.
    fn put_table(&mut self, table_name: String, markers: TableMarkers)
        requires
            old(self).wf(),
            markers.partitions.wf(),
        ensures
            final(self).wf(),
            final(self).tables.map() == old(self).tables.map().insert(table_name@, markers),
    {
        let ghost before = *self;
        self.tables.insert(table_name, markers);
        proof {
            assert forall|i: int| 0 <= i < self.tables.entries().len() implies (
            #[trigger] self.tables.entries()[i]).1.partitions.wf() by {
                if i < before.tables.entries().len() {
                    assert(before.tables.entries()[i].1.partitions.wf());
                }
            }
        }
    }

    /// The partition is to be written, from the moment on.
    pub fn persist_partition(
        &mut self,
        table_name: &str,
        partition_key: &str,
        persist_moment: DateTimeAsMicroseconds,
    )
        requires
            old(self).wf(),
        ensures
            final(self).wf(),
            final(self)@ == old(self)@.marked(
                Task::Partition(table_name@, partition_key@),
                persist_moment.unix_microseconds,
            ),
    {
        let ghost before = *self;
        let name = table_name.to_owned();
        let key = partition_key.to_owned();
        let mut markers = self.take_table(&name);
        let ghost was = markers.partitions.map();
        let moment = match markers.partitions.get(&key) {
            Some(existing) => earliest(*existing, persist_moment),
            None => persist_moment,
        };
        markers.partitions.insert(key, moment);
        self.put_table(name, markers);
        proof {
            let want = before@.marked(
                Task::Partition(table_name@, partition_key@),
                persist_moment.unix_microseconds,
            );
            assert(self@.metadata =~= want.metadata);
            assert(self@.partitions =~= want.partitions);
        }
    }

    /// The table's metadata is to be written, from the moment on.
    pub fn persist_table_metadata(
        &mut self,
        table_name: &str,
        persist_moment: DateTimeAsMicroseconds,
    )
        requires
            old(self).wf(),
        ensures
            final(self).wf(),
            final(self)@ == old(self)@.marked(
                Task::TableMetadata(table_name@),
                persist_moment.unix_microseconds,
            ),
    {
        let ghost before = *self;
        let name = table_name.to_owned();
        let mut markers = self.take_table(&name);
        let moment = match markers.metadata {
            Some(existing) => earliest(existing, persist_moment),
            None => persist_moment,
        };
        markers.metadata = Some(moment);
        self.put_table(name, markers);
        proof {
            let want = before@.marked(
                Task::TableMetadata(table_name@),
                persist_moment.unix_microseconds,
            );
            assert(self@.metadata =~= want.metadata);
            assert(self@.partitions =~= want.partitions);
        }
    }

    /// Whether anything is waiting, due or not.
    pub fn has_something_to_persist(&self) -> (r: bool)
        requires
            self.wf(),
        ensures
            r == !self@.is_empty(),
    {
        let count: usize = self.tables.len();
        for i in 0..count
            invariant
                count == self.tables.entries().len(),
                self.wf(),
                forall|j: int|
                    0 <= j < i ==> (#[trigger] self.tables.entries()[j]).1.metadata is None
                        && self.tables.entries()[j].1.partitions.entries().len() == 0,
        {
            let markers = self.tables.value_at(i);
            if !markers.is_empty() {
                proof {
                    self.tables.entry_is_in_map(i as int);
                    let t = self.tables.name_at(i as int);
                    assert(self.tables.map()[t] == *markers);
                    if markers.metadata is Some {
                        assert(self@.metadata.contains_key(t));
                    } else {
                        self.lemma_table(t);
                        markers.partitions.entry_is_in_map(0);
                        let k = markers.partitions.name_at(0);
                        assert(self@.partitions.contains_key((t, k)));
                    }
                }
                return true;
            }
        }
        proof {
            assert forall|t: Seq<char>| !(#[trigger] self@.metadata.contains_key(t)) by {
                if self@.metadata.contains_key(t) {
                    let i = self.tables.place_of(t);
                    assert(self.tables.name_at(i) == t);
                    assert(self.tables.entries()[i].1.metadata is None);
                }
            }
            assert forall|p: (Seq<char>, Seq<char>)| !(#[trigger] self@.partitions.contains_key(
                p,
            )) by {
                if self@.partitions.contains_key(p) {
                    let i = self.tables.place_of(p.0);
                    assert(self.tables.name_at(i) == p.0);
                    assert(self.tables.entries()[i].1.partitions.entries().len() == 0);
                }
            }
        }
        false
    }

    /// Takes one task out of the queue. `now: None` means "everything is due", which
    /// is what the shutdown drain uses.
    ///
    /// Metadata before content: a partition of a table the metadata never
    /// mentioned would be loaded into a table with default attributes - and,
    /// since the schemas of a table ride in its metadata, a partition whose
    /// rows nothing could be shown through. So while the metadata of a table is
    /// queued none of its partitions is handed out. A partition which is due does not
    /// wait for that: the metadata is handed out with it, in front of it, however
    /// long it was asked to wait itself.
    pub fn get_task(&mut self, now: Option<DateTimeAsMicroseconds>) -> (r: Option<PersistTask>)
        requires
            old(self).wf(),
        ensures
            final(self).wf(),
            match r {
                Some(task) => {
                    &&& old(self)@.is_ready(task@, now)
                    &&& task@ matches Task::Partition(t, _) ==> !old(self)@.metadata.contains_key(t)
                    &&& final(self)@ == old(self)@.without(task@)
                },
                None => {
                    &&& forall|task: Task| !(#[trigger] old(self)@.is_due(task, now))
                    &&& final(self)@ == old(self)@
                },
            },
    {
        let ghost before = *self;
        let count: usize = self.tables.len();
        for i in 0..count
            invariant
                count == self.tables.entries().len(),
                *self == before,
                self.wf(),
                before == *old(self),
                forall|j: int|
                    0 <= j < i ==> nothing_due((#[trigger] self.tables.entries()[j]).1, now),
        {
            let markers = self.tables.value_at(i);
            let ghost t = self.tables.name_at(i as int);
            proof {
                self.tables.entry_is_in_map(i as int);
                self.lemma_table(t);
            }
            let due = find_due(&markers.partitions, now);
            if is_due(markers.metadata, now) || (markers.metadata.is_some() && due.is_some()) {
                proof {
                    if let Some(at) = due {
                        markers.partitions.entry_is_in_map(at as int);
                        let k = markers.partitions.name_at(at as int);
                        assert(before@.is_due(Task::Partition(t, k), now));
                    }
                }
                let name = self.tables.key_at(i).clone();
                let mut markers = self.take_table(&name);
                markers.metadata = None;
                if !markers.is_empty() {
                    let key = name.clone();
                    self.put_table(key, markers);
                    assert(self.tables.map() =~= before.tables.map().insert(t, markers));
                }
                proof {
                    lemma_taken(
                        before.tables.map(),
                        self.tables.map(),
                        t,
                        Task::TableMetadata(t),
                        markers,
                    );
                }
                return Some(PersistTask::TableMetadata { table_name: name });
            }
            if let Some(at) = due {
                let name = self.tables.key_at(i).clone();
                let partition_key = markers.partitions.key_at(at).clone();
                let ghost k = partition_key@;
                proof {
                    markers.partitions.entry_is_in_map(at as int);
                }
                let mut markers = self.take_table(&name);
                markers.partitions.remove(&partition_key);
                if !markers.is_empty() {
                    let key = name.clone();
                    self.put_table(key, markers);
                    assert(self.tables.map() =~= before.tables.map().insert(t, markers));
                }
                proof {
                    lemma_taken(
                        before.tables.map(),
                        self.tables.map(),
                        t,
                        Task::Partition(t, k),
                        markers,
                    );
                }
                return Some(PersistTask::Partition { table_name: name, partition_key });
            }
        }
        proof {
            assert forall|task: Task| !(#[trigger] self@.is_due(task, now)) by {
                if self@.has(task) {
                    let t = match task {
                        Task::TableMetadata(t) => t,
                        Task::Partition(t, _) => t,
                    };
                    let i = self.tables.place_of(t);
                    assert(self.tables.has(t));
                    assert(self.tables.name_at(i) == t);
                    self.tables.entry_is_in_map(i);
                    let markers = self.tables.entries()[i].1;
                    assert(nothing_due(markers, now));
                    if let Task::Partition(_, k) = task {
                        let p = markers.partitions.place_of(k);
                        assert(markers.partitions.has(k));
                        assert(markers.partitions.name_at(p) == k);
                    }
                }
            }
        }
        None
    }
}

/// Whether nothing which waits of a table is due.
spec fn nothing_due(markers: TableMarkers, now: Option<DateTimeAsMicroseconds>) -> bool {
    &&& markers.metadata is Some ==> !is_due_at(markers.metadata->0.unix_microseconds, now)
    &&& forall|j: int|
        0 <= j < markers.partitions.entries().len() ==> !is_due_at(
            (#[trigger] markers.partitions.entries()[j]).1.unix_microseconds,
            now,
        )
}

/// Where a partition stands which is due.
fn find_due(partitions: &MomentByKey, now: Option<DateTimeAsMicroseconds>) -> (r: Option<usize>)
    ensures
        match r {
            Some(at) => at < partitions.entries().len() && is_due_at(
                partitions.entries()[at as int].1.unix_microseconds,
                now,
            ),
            None => forall|j: int|
                0 <= j < partitions.entries().len() ==> !is_due_at(
                    (#[trigger] partitions.entries()[j]).1.unix_microseconds,
                    now,
                ),
        },
{
    let count: usize = partitions.len();
    for i in 0..count
        invariant
            count == partitions.entries().len(),
            forall|j: int|
                0 <= j < i ==> !is_due_at(
                    (#[trigger] partitions.entries()[j]).1.unix_microseconds,
                    now,
                ),
    {
        if is_due(Some(*partitions.value_at(i)), now) {
            return Some(i);
        }
    }
    None
}

/// What is left in the queue once a task of a table is handed out.
proof fn lemma_taken(
    before: Map<Seq<char>, TableMarkers>,
    after: Map<Seq<char>, TableMarkers>,
    t: Seq<char>,
    task: Task,
    left: TableMarkers,
)
    requires
        before.contains_key(t),
        task == Task::TableMetadata(t) || exists|k: Seq<char>| task == Task::Partition(t, k),
        left.metadata == (if task is TableMetadata {
            None
        } else {
            before[t].metadata
        }),
        left.partitions.map() == (match task {
            Task::TableMetadata(_) => before[t].partitions.map(),
            Task::Partition(_, k) => before[t].partitions.map().remove(k),
        }),
        if left.metadata is None && left.partitions.entries().len() == 0 {
            after == before.remove(t)
        } else {
            after == before.insert(t, left)
        },
    ensures
        queue_of(after) == queue_of(before).without(task),
{
    let want = queue_of(before).without(task);
    let got = queue_of(after);
    if left.metadata is None && left.partitions.entries().len() == 0 {
        assert forall|k: Seq<char>| !(#[trigger] left.partitions.map().contains_key(k)) by {}
        if let Task::Partition(_, k) = task {
            assert forall|o: Seq<char>| #[trigger] before[t].partitions.map().contains_key(
                o,
            ) implies o == k by {
                assert(!left.partitions.map().contains_key(o));
            }
        } else {
            assert forall|o: Seq<char>| !(#[trigger] before[t].partitions.map().contains_key(
                o,
            )) by {
                assert(!left.partitions.map().contains_key(o));
            }
        }
    }
    assert(got.metadata =~= want.metadata);
    assert(got.partitions =~= want.partitions);
}

/// The partitions which wait of one table.
spec fn table_partitions(tables: MarkersByTable, i: int) -> Seq<(Seq<char>, Seq<char>)> {
    let partitions = tables.entries()[i].1.partitions;
    Seq::new(
        partitions.entries().len(),
        |j: int| (tables.name_at(i), partitions.name_at(j)),
    )
}

/// The partitions which wait of the tables below a place.
spec fn partitions_below(tables: MarkersByTable, n: int) -> Seq<(Seq<char>, Seq<char>)>
    decreases n,
{
    if n <= 0 {
        Seq::empty()
    } else {
        partitions_below(tables, n - 1) + table_partitions(tables, n - 1)
    }
}

/// The tables below a place whose metadata waits.
spec fn metadata_below(tables: MarkersByTable, n: int) -> Seq<Seq<char>>
    decreases n,
{
    if n <= 0 {
        Seq::empty()
    } else if tables.entries()[n - 1].1.metadata is Some {
        metadata_below(tables, n - 1).push(tables.name_at(n - 1))
    } else {
        metadata_below(tables, n - 1)
    }
}

/// The tasks which wait of one table, its metadata first.
spec fn table_tasks(tables: MarkersByTable, i: int) -> Seq<Task> {
    let t = tables.name_at(i);
    let partitions = Seq::new(
        table_partitions(tables, i).len(),
        |j: int| Task::Partition(t, table_partitions(tables, i)[j].1),
    );
    if tables.entries()[i].1.metadata is Some {
        seq![Task::TableMetadata(t)] + partitions
    } else {
        partitions
    }
}

/// The tasks which wait of the tables below a place.
spec fn tasks_below(tables: MarkersByTable, n: int) -> Seq<Task>
    decreases n,
{
    if n <= 0 {
        Seq::empty()
    } else {
        tasks_below(tables, n - 1) + table_tasks(tables, n - 1)
    }
}

/// Which table a task is about.
pub open spec fn table_of(task: Task) -> Seq<char> {
    match task {
        Task::TableMetadata(t) => t,
        Task::Partition(t, _) => t,
    }
}

/// Whether the metadata of a table comes before its partitions.
pub open spec fn metadata_first(tasks: Seq<Task>) -> bool {
    forall|i: int, j: int|
        #![trigger tasks[i], tasks[j]]
        0 <= i < tasks.len() && 0 <= j < tasks.len() && tasks[i] is TableMetadata && tasks[j]
            == Task::Partition(table_of(tasks[i]), tasks[j]->Partition_1) ==> i < j
}

/// What some tasks ask for.
pub open spec fn task_views(tasks: Seq<PersistTask>) -> Seq<Task> {
    Seq::new(tasks.len(), |i: int| tasks[i]@)
}

spec fn lists_in_order(tables: MarkersByTable) -> bool {
    &&& tables.wf()
    &&& forall|i: int|
        0 <= i < tables.entries().len() ==> (#[trigger] tables.entries()[i]).1.partitions.wf()
}

proof fn lemma_table_partitions(tables: MarkersByTable, i: int)
    requires
        lists_in_order(tables),
        0 <= i < tables.entries().len(),
    ensures
        table_partitions(tables, i).no_duplicates(),
        forall|p: (Seq<char>, Seq<char>)| #[trigger]
            table_partitions(tables, i).contains(p) <==> p.0 == tables.name_at(i)
                && tables.entries()[i].1.partitions.map().contains_key(p.1),
{
    let partitions = tables.entries()[i].1.partitions;
    assert(partitions.wf());
    partitions.keys_differ();
    let listed = table_partitions(tables, i);
    assert forall|a: int, b: int| 0 <= a < listed.len() && 0 <= b < listed.len() && a != b implies
        listed[a] != listed[b] by {
        assert(partitions.name_at(a) != partitions.name_at(b));
    }
    assert forall|p: (Seq<char>, Seq<char>)| #[trigger] listed.contains(p) <==> p.0
        == tables.name_at(i) && partitions.map().contains_key(p.1) by {
        if listed.contains(p) {
            let j = choose|j: int| 0 <= j < listed.len() && listed[j] == p;
            partitions.entry_is_in_map(j);
        }
        if p.0 == tables.name_at(i) && partitions.map().contains_key(p.1) {
            let j = partitions.place_of(p.1);
            assert(partitions.has(p.1));
            assert(partitions.name_at(j) == p.1);
            assert(listed[j] == p);
        }
    }
}

proof fn lemma_below(tables: MarkersByTable, n: int)
    requires
        lists_in_order(tables),
        0 <= n <= tables.entries().len(),
    ensures
        partitions_below(tables, n).no_duplicates(),
        metadata_below(tables, n).no_duplicates(),
        tasks_below(tables, n).no_duplicates(),
        metadata_first(tasks_below(tables, n)),
        forall|p: (Seq<char>, Seq<char>)| #[trigger]
            partitions_below(tables, n).contains(p) <==> exists|i: int|
                0 <= i < n && #[trigger] tables.name_at(i) == p.0
                    && tables.entries()[i].1.partitions.map().contains_key(p.1),
        forall|t: Seq<char>| #[trigger]
            metadata_below(tables, n).contains(t) <==> exists|i: int|
                0 <= i < n && #[trigger] tables.name_at(i) == t && tables.entries()[i].1.metadata
                    is Some,
        forall|task: Task| #[trigger]
            tasks_below(tables, n).contains(task) <==> match task {
                Task::TableMetadata(t) => metadata_below(tables, n).contains(t),
                Task::Partition(t, k) => partitions_below(tables, n).contains((t, k)),
            },
    decreases n,
{
    if n > 0 {
        let i = n - 1;
        lemma_below(tables, i);
        lemma_table_partitions(tables, i);
        tables.keys_differ();
        let name = tables.name_at(i);
        let old_p = partitions_below(tables, i);
        let new_p = table_partitions(tables, i);
        let all_p = partitions_below(tables, n);
        assert forall|p: (Seq<char>, Seq<char>)| #[trigger] all_p.contains(p) <==> old_p.contains(p)
            || new_p.contains(p) by {
            lemma_concat_contains(old_p, new_p, p);
        }
        assert forall|p: (Seq<char>, Seq<char>)| #[trigger] old_p.contains(p) implies p.0 != name by {
            let j = choose|j: int|
                0 <= j < i && #[trigger] tables.name_at(j) == p.0
                    && tables.entries()[j].1.partitions.map().contains_key(p.1);
            assert(tables.name_at(j) != tables.name_at(i));
        }
        lemma_concat_apart(old_p, new_p);
        assert forall|p: (Seq<char>, Seq<char>)| #[trigger] all_p.contains(p) <==> exists|j: int|
            0 <= j < n && #[trigger] tables.name_at(j) == p.0
                && tables.entries()[j].1.partitions.map().contains_key(p.1) by {
            if old_p.contains(p) {
                let j = choose|j: int|
                    0 <= j < i && #[trigger] tables.name_at(j) == p.0
                        && tables.entries()[j].1.partitions.map().contains_key(p.1);
                assert(tables.name_at(j) == p.0);
            }
            if exists|j: int|
                0 <= j < n && #[trigger] tables.name_at(j) == p.0
                    && tables.entries()[j].1.partitions.map().contains_key(p.1) {
                let j = choose|j: int|
                    0 <= j < n && #[trigger] tables.name_at(j) == p.0
                        && tables.entries()[j].1.partitions.map().contains_key(p.1);
                if j < i {
                    assert(old_p.contains(p));
                } else {
                    assert(new_p.contains(p));
                }
            }
        }
        let old_m = metadata_below(tables, i);
        let all_m = metadata_below(tables, n);
        let waits = tables.entries()[i].1.metadata is Some;
        assert forall|t: Seq<char>| #[trigger] old_m.contains(t) implies t != name by {
            let j = choose|j: int|
                0 <= j < i && #[trigger] tables.name_at(j) == t && tables.entries()[j].1.metadata
                    is Some;
            assert(tables.name_at(j) != tables.name_at(i));
        }
        assert forall|t: Seq<char>| #[trigger] all_m.contains(t) <==> old_m.contains(t) || waits && t
            == name by {
            if waits {
                assert(all_m =~= old_m + seq![name]);
                lemma_concat_contains(old_m, seq![name], t);
                assert(seq![name].contains(t) <==> t == name) by {
                    if t == name {
                        assert(seq![name][0] == t);
                    }
                }
            }
        }
        if waits {
            assert(all_m =~= old_m + seq![name]);
            lemma_concat_apart(old_m, seq![name]);
        }
        assert forall|t: Seq<char>| #[trigger] all_m.contains(t) <==> exists|j: int|
            0 <= j < n && #[trigger] tables.name_at(j) == t && tables.entries()[j].1.metadata
                is Some by {
            if old_m.contains(t) {
                let j = choose|j: int|
                    0 <= j < i && #[trigger] tables.name_at(j) == t
                        && tables.entries()[j].1.metadata is Some;
                assert(tables.name_at(j) == t);
            }
            if exists|j: int|
                0 <= j < n && #[trigger] tables.name_at(j) == t && tables.entries()[j].1.metadata
                    is Some {
                let j = choose|j: int|
                    0 <= j < n && #[trigger] tables.name_at(j) == t
                        && tables.entries()[j].1.metadata is Some;
                if j < i {
                    assert(old_m.contains(t));
                }
            }
        }
        lemma_tasks_grow(tables, i);
    }
}

/// One table more among the tasks.
proof fn lemma_tasks_grow(tables: MarkersByTable, i: int)
    requires
        lists_in_order(tables),
        0 <= i < tables.entries().len(),
        tasks_below(tables, i).no_duplicates(),
        metadata_first(tasks_below(tables, i)),
        table_partitions(tables, i).no_duplicates(),
        forall|task: Task| #[trigger]
            tasks_below(tables, i).contains(task) <==> match task {
                Task::TableMetadata(t) => metadata_below(tables, i).contains(t),
                Task::Partition(t, k) => partitions_below(tables, i).contains((t, k)),
            },
        forall|p: (Seq<char>, Seq<char>)| #[trigger]
            partitions_below(tables, i).contains(p) ==> p.0 != tables.name_at(i),
        forall|t: Seq<char>| #[trigger]
            metadata_below(tables, i).contains(t) ==> t != tables.name_at(i),
        forall|p: (Seq<char>, Seq<char>)| #[trigger]
            table_partitions(tables, i).contains(p) ==> p.0 == tables.name_at(i),
        forall|p: (Seq<char>, Seq<char>)| #[trigger]
            partitions_below(tables, i + 1).contains(p) <==> partitions_below(tables, i).contains(p)
                || table_partitions(tables, i).contains(p),
        forall|t: Seq<char>| #[trigger]
            metadata_below(tables, i + 1).contains(t) <==> metadata_below(tables, i).contains(t)
                || tables.entries()[i].1.metadata is Some && t == tables.name_at(i),
    ensures
        tasks_below(tables, i + 1).no_duplicates(),
        metadata_first(tasks_below(tables, i + 1)),
        forall|task: Task| #[trigger]
            tasks_below(tables, i + 1).contains(task) <==> match task {
                Task::TableMetadata(t) => metadata_below(tables, i + 1).contains(t),
                Task::Partition(t, k) => partitions_below(tables, i + 1).contains((t, k)),
            },
{
    let name = tables.name_at(i);
    let before = tasks_below(tables, i);
    let new = table_tasks(tables, i);
    let after = tasks_below(tables, i + 1);
    let listed = table_partitions(tables, i);
    let waits = tables.entries()[i].1.metadata is Some;
    let shift: int = if waits { 1 } else { 0 };
    assert(after == before + new);
    assert forall|task: Task| #[trigger] new.contains(task) <==> match task {
        Task::TableMetadata(t) => waits && t == name,
        Task::Partition(t, k) => listed.contains((t, k)),
    } by {
        if new.contains(task) {
            let j = choose|j: int| 0 <= j < new.len() && new[j] == task;
            if j >= shift {
                assert(listed[j - shift] == (name, listed[j - shift].1));
                assert(listed.contains(listed[j - shift]));
            }
        }
        match task {
            Task::TableMetadata(t) => {
                if waits && t == name {
                    assert(new[0] == task);
                }
            },
            Task::Partition(t, k) => {
                if listed.contains((t, k)) {
                    let j = choose|j: int| 0 <= j < listed.len() && listed[j] == (t, k);
                    assert(new[j + shift] == task);
                }
            },
        }
    }
    assert forall|a: int, b: int| 0 <= a < new.len() && 0 <= b < new.len() && a != b implies new[a]
        != new[b] by {
        if a >= shift && b >= shift {
            assert(listed[a - shift] != listed[b - shift]);
            assert(listed.contains(listed[a - shift]) && listed.contains(listed[b - shift]));
        }
    }
    assert forall|task: Task| #[trigger] before.contains(task) implies table_of(task) != name by {}
    assert forall|task: Task| #[trigger] new.contains(task) implies table_of(task) == name by {}
    lemma_concat_apart(before, new);
    assert forall|task: Task| #[trigger] after.contains(task) <==> match task {
        Task::TableMetadata(t) => metadata_below(tables, i + 1).contains(t),
        Task::Partition(t, k) => partitions_below(tables, i + 1).contains((t, k)),
    } by {
        lemma_concat_contains(before, new, task);
    }
    assert forall|a: int, b: int|
        #![trigger after[a], after[b]]
        0 <= a < after.len() && 0 <= b < after.len() && after[a] is TableMetadata && after[b]
            == Task::Partition(table_of(after[a]), after[b]->Partition_1) implies a < b by {
        let n = before.len();
        if a < n {
            assert(before.contains(before[a]));
            assert(after[a] == before[a]);
        } else {
            assert(new.contains(new[a - n]));
        }
        if b < n {
            assert(before.contains(before[b]));
            assert(after[b] == before[b]);
        } else {
            assert(new.contains(new[b - n]));
        }
    }
}

proof fn lemma_concat_contains<A>(a: Seq<A>, b: Seq<A>, x: A)
    ensures
        (a + b).contains(x) <==> a.contains(x) || b.contains(x),
{
    let all = a + b;
    if a.contains(x) {
        let j = choose|j: int| 0 <= j < a.len() && a[j] == x;
        assert(all[j] == x);
    }
    if b.contains(x) {
        let j = choose|j: int| 0 <= j < b.len() && b[j] == x;
        assert(all[a.len() + j] == x);
    }
    if all.contains(x) {
        let j = choose|j: int| 0 <= j < all.len() && all[j] == x;
        if j < a.len() {
            assert(a[j] == x);
        } else {
            assert(b[j - a.len()] == x);
        }
    }
}

proof fn lemma_concat_apart<A>(a: Seq<A>, b: Seq<A>)
    requires
        a.no_duplicates(),
        b.no_duplicates(),
        forall|x: A| #[trigger] a.contains(x) ==> !b.contains(x),
    ensures
        (a + b).no_duplicates(),
{
    assert forall|i: int, j: int| 0 <= i < a.len() && 0 <= j < b.len() implies a[i] != b[j] by {
        assert(a.contains(a[i]));
        assert(b.contains(b[j]));
    }
    vstd::seq_lib::lemma_no_dup_in_concat(a, b);
}

impl PersistMarkers {
    proof fn lemma_all(&self)
        requires
            self.wf(),
        ensures
            ({
                let n = self.tables.entries().len() as int;
                &&& partitions_below(self.tables, n).no_duplicates()
                &&& partitions_below(self.tables, n).to_set() == self@.partitions.dom()
                &&& metadata_below(self.tables, n).no_duplicates()
                &&& metadata_below(self.tables, n).to_set() == self@.metadata.dom()
                &&& tasks_below(self.tables, n).no_duplicates()
                &&& metadata_first(tasks_below(self.tables, n))
                &&& forall|task: Task| #[trigger]
                    tasks_below(self.tables, n).contains(task) <==> self@.has(task)
            }),
    {
        let n = self.tables.entries().len() as int;
        lemma_below(self.tables, n);
        assert forall|p: (Seq<char>, Seq<char>)| #[trigger] partitions_below(
            self.tables,
            n,
        ).contains(p) <==> self@.partitions.contains_key(p) by {
            if partitions_below(self.tables, n).contains(p) {
                let i = choose|i: int|
                    0 <= i < n && #[trigger] self.tables.name_at(i) == p.0
                        && self.tables.entries()[i].1.partitions.map().contains_key(p.1);
                self.tables.entry_is_in_map(i);
            }
            if self@.partitions.contains_key(p) {
                let i = self.tables.place_of(p.0);
                assert(self.tables.has(p.0));
                assert(self.tables.name_at(i) == p.0);
            }
        }
        assert(partitions_below(self.tables, n).to_set() =~= self@.partitions.dom());
        assert forall|t: Seq<char>| #[trigger] metadata_below(self.tables, n).contains(
            t,
        ) <==> self@.metadata.contains_key(t) by {
            if metadata_below(self.tables, n).contains(t) {
                let i = choose|i: int|
                    0 <= i < n && #[trigger] self.tables.name_at(i) == t
                        && self.tables.entries()[i].1.metadata is Some;
                self.tables.entry_is_in_map(i);
            }
            if self@.metadata.contains_key(t) {
                let i = self.tables.place_of(t);
                assert(self.tables.has(t));
                assert(self.tables.name_at(i) == t);
            }
        }
        assert(metadata_below(self.tables, n).to_set() =~= self@.metadata.dom());
    }

    /// How much is owed to the disk. Counted from the sizes of the lists - a
    /// scrape may not walk anything.
    pub fn get_queue_metrics(&self) -> (r: PersistQueueMetrics)
        requires
            self.wf(),
        ensures
            r.partitions == self@.partitions.dom().len(),
            r.tables_metadata == self@.metadata.dom().len(),
    {
        let mut partitions: u128 = 0;
        let mut tables_metadata: usize = 0;
        let count: usize = self.tables.len();
        proof {
            self.lemma_all();
            partitions_below(self.tables, count as int).unique_seq_to_set();
            metadata_below(self.tables, count as int).unique_seq_to_set();
        }
        for i in 0..count
            invariant
                count == self.tables.entries().len(),
                partitions == partitions_below(self.tables, i as int).len(),
                tables_metadata == metadata_below(self.tables, i as int).len(),
                tables_metadata <= i,
                partitions <= i * 0xffff_ffff_ffff_ffff,
        {
            let markers = self.tables.value_at(i);
            partitions = partitions + markers.partitions.len() as u128;
            if markers.metadata.is_some() {
                tables_metadata = tables_metadata + 1;
            }
        }
        PersistQueueMetrics { partitions, tables_metadata }
    }

    /// Takes everything out at once, in the order [`Self::get_task`] would have
    /// handed it out: each table's metadata before that table's partitions.
    ///
    /// A snapshot rather than a drain - what is marked after this returns
    /// belongs to whoever asks next. That is what bounds a flush running against
    /// a live writer: draining until the queue is empty would chase it forever.
    pub fn take_all(&mut self) -> (r: Vec<PersistTask>)
        requires
            old(self).wf(),
        ensures
            final(self).wf(),
            final(self)@.is_empty(),
            task_views(r@).no_duplicates(),
            forall|task: Task| #[trigger] task_views(r@).contains(task) <==> old(self)@.has(task),
            metadata_first(task_views(r@)),
    {
        let mut r: Vec<PersistTask> = Vec::new();
        let count: usize = self.tables.len();
        proof {
            self.lemma_all();
            assert(task_views(r@) =~= Seq::<Task>::empty());
        }
        for i in 0..count
            invariant
                *self == *old(self),
                count == self.tables.entries().len(),
                task_views(r@) == tasks_below(self.tables, i as int),
        {
            let name = self.tables.key_at(i);
            let markers = self.tables.value_at(i);
            let ghost before = task_views(r@);
            if markers.metadata.is_some() {
                r.push(PersistTask::TableMetadata { table_name: name.clone() });
            }
            let ghost listed = table_partitions(self.tables, i as int);
            let ghost waiting = if markers.metadata is Some {
                before.push(Task::TableMetadata(name@))
            } else {
                before
            };
            let ghost partition_tasks = Seq::new(
                listed.len(),
                |j: int| Task::Partition(name@, listed[j].1),
            );
            assert(task_views(r@) =~= waiting);
            assert(waiting =~= waiting + partition_tasks.take(0));
            let partitions: usize = markers.partitions.len();
            for j in 0..partitions
                invariant
                    partitions == markers.partitions.entries().len(),
                    listed.len() == partitions,
                    partition_tasks.len() == partitions,
                    forall|k: int|
                        0 <= k < partitions ==> #[trigger] partition_tasks[k] == Task::Partition(
                            name@,
                            markers.partitions.entries()[k].0@,
                        ),
                    task_views(r@) == waiting + partition_tasks.take(j as int),
            {
                let ghost known = task_views(r@);
                r.push(
                    PersistTask::Partition {
                        table_name: name.clone(),
                        partition_key: markers.partitions.key_at(j).clone(),
                    },
                );
                proof {
                    assert(task_views(r@) =~= known.push(partition_tasks[j as int]));
                    assert(partition_tasks.take(j + 1) =~= partition_tasks.take(j as int).push(
                        partition_tasks[j as int],
                    ));
                    assert(task_views(r@) =~= waiting + partition_tasks.take(j + 1));
                }
            }
            proof {
                assert(partition_tasks.take(partitions as int) =~= partition_tasks);
                assert(task_views(r@) =~= before + table_tasks(self.tables, i as int));
            }
        }
        self.tables = HashedList::new();
        r
    }
}

/// What waits for a moment never waits for a later one by being marked again, and
/// is not held back by it.
pub proof fn a_due_moment_only_moves_earlier(queue: Queue, task: Task, moment: i64)
    ensures
        queue.marked(task, moment).has(task),
        queue.marked(task, moment).moment(task) <= moment,
        queue.has(task) ==> queue.marked(task, moment).moment(task) <= queue.moment(task),
        queue.has(task) ==> queue.marked(task, moment).moment(task) == moment || queue.marked(
            task,
            moment,
        ).moment(task) == queue.moment(task),
{
}

/// Marking or handing out one task leaves every other one as it was.
pub proof fn tasks_do_not_disturb_each_other(queue: Queue, task: Task, other: Task, moment: i64)
    requires
        task != other,
    ensures
        queue.marked(task, moment).has(other) == queue.has(other),
        queue.has(other) ==> queue.marked(task, moment).moment(other) == queue.moment(other),
        queue.without(task).has(other) == queue.has(other),
        queue.has(other) ==> queue.without(task).moment(other) == queue.moment(other),
        !queue.without(task).has(task),
{
}

/// A task waits for the earliest of the moments it was marked for, and is due from that
/// moment on; at a shutdown, where nothing is asked for its moment, everything is due.
pub proof fn a_task_is_due_from_its_earliest_moment(
    queue: Queue,
    task: Task,
    moment: i64,
    now: DateTimeAsMicroseconds,
)
    ensures
        queue.marked(task, moment).is_due(task, Some(now)) <==> {
            ||| moment <= now.unix_microseconds
            ||| queue.has(task) && queue.moment(task) <= now.unix_microseconds
        },
        queue.marked(task, moment).is_due(task, None),
        !queue.has(task) ==> queue.marked(task, moment).moment(task) == moment,
        !queue.has(task) ==> !queue.is_due(task, Some(now)) && !queue.is_due(task, None),
        !queue.without(task).is_due(task, Some(now)),
{
}

/// What may be handed out: the metadata of a table once it, or a partition of the table,
/// is due; a partition once it is due and the metadata of its table is not waiting any
/// more. So whatever is due, something of its table may be handed out, and nothing which
/// is not waiting ever is.
pub proof fn something_of_a_due_table_may_be_handed_out(
    queue: Queue,
    table_name: Seq<char>,
    partition_key: Seq<char>,
    now: Option<DateTimeAsMicroseconds>,
)
    ensures
        queue.is_ready(Task::TableMetadata(table_name), now) ==> queue.metadata.contains_key(
            table_name,
        ),
        queue.is_ready(Task::Partition(table_name, partition_key), now) <==> {
            &&& queue.partitions.contains_key((table_name, partition_key))
            &&& !queue.metadata.contains_key(table_name)
            &&& now matches Some(now) ==> queue.partitions[(table_name, partition_key)]
                <= now.unix_microseconds
        },
        queue.is_due(Task::TableMetadata(table_name), now) ==> queue.is_ready(
            Task::TableMetadata(table_name),
            now,
        ),
        queue.is_due(Task::Partition(table_name, partition_key), now) ==> queue.is_ready(
            Task::Partition(table_name, partition_key),
            now,
        ) || queue.is_ready(Task::TableMetadata(table_name), now),
{
}

/// Where the metadata of a table and partitions of it are handed out at once, the metadata
/// stands in front of every one of them.
pub proof fn metadata_stands_in_front(
    tasks: Seq<Task>,
    table_name: Seq<char>,
    partition_key: Seq<char>,
    i: int,
    j: int,
)
    requires
        metadata_first(tasks),
        0 <= i < tasks.len(),
        0 <= j < tasks.len(),
        tasks[i] == Task::TableMetadata(table_name),
        tasks[j] == Task::Partition(table_name, partition_key),
    ensures
        i < j,
{
}

/// A queue is empty where no task waits in it, neither of the metadata of a table nor of a
/// partition; so one which was marked is not.
pub proof fn an_empty_queue_has_no_task(queue: Queue, task: Task, moment: i64)
    ensures
        queue.is_empty() <==> forall|waiting: Task| !(#[trigger] queue.has(waiting)),
        !queue.marked(task, moment).is_empty(),
{
    if forall|waiting: Task| !(#[trigger] queue.has(waiting)) {
        assert forall|t: Seq<char>| !(#[trigger] queue.metadata.contains_key(t)) by {
            assert(!queue.has(Task::TableMetadata(t)));
        }
        assert forall|p: (Seq<char>, Seq<char>)| !(#[trigger] queue.partitions.contains_key(
            p,
        )) by {
            assert(!queue.has(Task::Partition(p.0, p.1)));
        }
    }
    let marked = queue.marked(task, moment);
    match task {
        Task::TableMetadata(t) => {
            assert(marked.metadata.contains_key(t));
        },
        Task::Partition(t, k) => {
            assert(marked.partitions.contains_key((t, k)));
        },
    }
}

}
