//! What the queue hands out.

use vstd::prelude::*;

verus! {

/// One unit of work for the persist loop. A partition is the smallest thing this
/// server writes - a slot holds the whole partition, so there is nothing finer
/// to mark.
#[derive(Debug, PartialEq, Eq)]
pub enum PersistTask {
    TableMetadata { table_name: String },
    /// Also covers "the partition is gone": the executor looks the partition up
    /// and deletes its slot when it is no longer in the table.
    Partition { table_name: String, partition_key: String },
}

/// What a task asks for.
#[verifier::ext_equal]
pub enum Task {
    TableMetadata(Seq<char>),
    Partition(Seq<char>, Seq<char>),
}

impl View for PersistTask {
    type V = Task;

    open spec fn view(&self) -> Task {
        match self {
            PersistTask::TableMetadata { table_name } => Task::TableMetadata(table_name@),
            PersistTask::Partition { table_name, partition_key } => Task::Partition(
                table_name@,
                partition_key@,
            ),
        }
    }
}

/// How much is owed to the disk.
pub struct PersistQueueMetrics {
    pub partitions: u128,
    pub tables_metadata: usize,
}

}
