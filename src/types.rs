use vstd::prelude::*;

verus! {

/// Event-time progress carried on every edge: a lower bound on the event
/// times (in nanoseconds) of future records, or `Idle` when an input has
/// nothing to say.
#[derive(Clone, Copy, Debug, PartialEq, Eq, Structural)]
pub enum Watermark {
    EventTime(u64),
    Idle,
}

/// A checkpoint barrier: the epoch it opens, when the coordinator issued
/// it, and whether the job stops once the checkpoint completes.
#[derive(Clone, Copy, Debug, PartialEq, Eq, Structural)]
pub struct CheckpointBarrier {
    pub epoch: u32,
    pub timestamp: u64,
    pub then_stop: bool,
}

/// A half-open event-time interval `[start, end)` in nanoseconds.
#[derive(Clone, Copy, Debug, PartialEq, Eq, Structural)]
pub struct Window {
    pub start: u64,
    pub end: u64,
}

/// How a source is asked to stop.
#[derive(Clone, Copy, Debug, PartialEq, Eq, Structural)]
pub enum StopMode {
    Graceful,
    Immediate,
}

/// Commands from the coordinator on a task's control channel.
#[derive(Clone, Copy, Debug, PartialEq, Eq, Structural)]
pub enum ControlMessage {
    Checkpoint(CheckpointBarrier),
    Stop { mode: StopMode },
    Commit { epoch: u32 },
    LoadCompacted { epoch: u32 },
    NoOp,
}

/// The phases of a checkpoint that a task reports to the coordinator.
#[derive(Clone, Copy, Debug, PartialEq, Eq, Structural)]
pub enum CheckpointEventType {
    StartedAlignment,
    StartedCheckpointing,
    FinishedOperatorSetup,
    FinishedSync,
}

/// One record: its partition key, its event time in nanoseconds, and its
/// remaining column values.
#[derive(Clone, Debug, PartialEq, Eq)]
pub struct Row {
    pub key: Vec<u8>,
    pub timestamp: u64,
    pub values: Vec<i64>,
}

/// The mathematical value of a [`Row`].
pub struct RowView {
    pub key: Seq<u8>,
    pub timestamp: u64,
    pub values: Seq<i64>,
}

impl View for Row {
    type V = RowView;

    open spec fn view(&self) -> RowView {
        RowView { key: self.key@, timestamp: self.timestamp, values: self.values@ }
    }
}

/// Copies a row, keeping its value.
pub fn copy_row(r: &Row) -> (c: Row)
    ensures
        c@ == r@,
{
    let key = r.key.clone();
    let values = r.values.clone();
    proof {
        assert(key@ =~= r.key@);
        assert(values@ =~= r.values@);
    }
    Row { key, timestamp: r.timestamp, values }
}

/// A block of records that travels as one unit between tasks.
#[derive(Clone, Debug, PartialEq, Eq)]
pub struct RecordBatch {
    pub rows: Vec<Row>,
}

/// The rows of a batch, as values.
pub open spec fn rows_view(rows: Seq<Row>) -> Seq<RowView> {
    Seq::new(rows.len(), |i: int| rows[i]@)
}

impl View for RecordBatch {
    type V = Seq<RowView>;

    open spec fn view(&self) -> Seq<RowView> {
        rows_view(self.rows@)
    }
}

/// What travels on a data edge between two tasks.
#[derive(Clone, Debug, PartialEq, Eq)]
pub enum ArrowMessage {
    Record(RecordBatch),
    Watermark(Watermark),
    Barrier(CheckpointBarrier),
    Stop,
    EndOfData,
}

/// Identity of one parallel instance of an operator.
#[derive(Clone, Debug, PartialEq, Eq)]
pub struct TaskInfo {
    pub job_id: String,
    pub operator_id: String,
    pub operator_name: String,
    pub task_index: usize,
    pub parallelism: usize,
}

} // verus!
