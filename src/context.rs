use vstd::prelude::*;
use crate::routing::{ArrowCollector, CollectorView, Destination, RoutingError, parallelism_ok, route, key_hash, bump, all_queues};
use crate::timers::{ArrowTimerValue, TimerError, TimerService, TimerView, timer_index, timer_slot, timers_view};
use crate::types::{RecordBatch, TaskInfo, Watermark};
use crate::watermark::{HolderView, WatermarkHolder, combine, present_of};

verus! {

/// The name of the reserved table that holds a task's timers.
pub const TIMER_TABLE: &'static str = "[";

/// How a state table is keyed.
#[derive(Clone, Copy, Debug, PartialEq, Eq, Structural)]
pub enum TableType {
    Global,
    Keyed,
    TimeKeyed,
}

/// A state table that an operator declares.
#[derive(Clone, Debug, PartialEq, Eq)]
pub struct TableDescriptor {
    pub name: String,
    pub description: String,
    pub table_type: TableType,
    pub retention_micros: u64,
}

/// Why a task's tables could not be set up.
#[derive(Clone, Copy, Debug, PartialEq, Eq, Structural)]
pub enum TableError {
    /// An operator table takes the name reserved for timers.
    ReservedName,
}

/// Whether some table of `tables` is named like the timer table.
pub open spec fn takes_timer_name(tables: Seq<TableDescriptor>) -> bool {
    exists|i: int| 0 <= i < tables.len() && #[trigger] tables[i].name@ == TIMER_TABLE@
}

/// The tables of a task: the operator's own, in order, then the reserved
/// time-keyed timer table, kept no longer than the watermark. Refused when
/// an operator table takes the reserved name.
pub fn task_tables(tables: Vec<TableDescriptor>) -> (r: Result<Vec<TableDescriptor>, TableError>)
    ensures
        takes_timer_name(tables@) ==> r == Err::<Vec<TableDescriptor>, TableError>(
            TableError::ReservedName,
        ),
        !takes_timer_name(tables@) ==> (r matches Ok(v) && v@.len() == tables@.len() + 1
            && v@.subrange(0, tables@.len() as int) == tables@ && v@.last().name@ == TIMER_TABLE@
            && v@.last().table_type == TableType::TimeKeyed && v@.last().retention_micros == 0),
{
    let reserved = TIMER_TABLE.to_owned();
    let mut i: usize = 0;
    while i < tables.len()
        invariant
            i <= tables@.len(),
            reserved@ == TIMER_TABLE@,
            forall|k: int| 0 <= k < i ==> #[trigger] tables@[k].name@ != TIMER_TABLE@,
        decreases tables.len() - i,
    {
        if tables[i].name == reserved {
            return Err(TableError::ReservedName);
        }
        i = i + 1;
    }
    let mut all = tables;
    let ghost user = all@;
    all.push(
        TableDescriptor {
            name: reserved,
            description: "timer state".to_owned(),
            table_type: TableType::TimeKeyed,
            retention_micros: 0,
        },
    );
    proof {
        assert(all@.subrange(0, user.len() as int) =~= user);
    }
    Ok(all)
}

/// The state of an [`ArrowContext`] as plain values.
pub struct ContextView {
    pub watermarks: HolderView,
    pub timers: Seq<TimerView>,
    pub collector: CollectorView,
    pub messages_recv: u64,
}

/// Everything one task owns besides its operator: its identity, its
/// watermarks, its timers, its output routing and its counters.
pub struct ArrowContext {
    task_info: TaskInfo,
    watermarks: WatermarkHolder,
    timers: TimerService,
    collector: ArrowCollector,
    messages_recv: u64,
}

impl View for ArrowContext {
    type V = ContextView;

    closed spec fn view(&self) -> ContextView {
        ContextView {
            watermarks: self.watermarks@,
            timers: self.timers@,
            collector: self.collector@,
            messages_recv: self.messages_recv,
        }
    }
}

impl ContextView {
    pub open spec fn wf(self) -> bool {
        &&& self.watermarks.wf()
        &&& crate::timers::timers_wf(self.timers)
        &&& parallelism_ok(self.collector.parallelism)
    }
}

/// The watermark every input starts from: the restored minimum, or none.
pub open spec fn initial_inputs(restored: Option<u64>, n: nat) -> Seq<Option<Watermark>> {
    Seq::new(
        n,
        |i: int|
            match restored {
                Some(t) => Some(Watermark::EventTime(t)),
                None => None,
            },
    )
}

impl ArrowContext {
    /// The context of a task with `input_partitions` inputs; a task that
    /// resumes a checkpoint passes the minimum watermark it recorded.
    pub fn new(
        task_info: TaskInfo,
        restored_watermark: Option<u64>,
        input_partitions: usize,
        collector: ArrowCollector,
    ) -> (c: ArrowContext)
        requires
            parallelism_ok(collector@.parallelism),
        ensures
            c@.wf(),
            c@.watermarks.inputs == initial_inputs(restored_watermark, input_partitions as nat),
            c@.watermarks.current == combine(c@.watermarks.inputs),
            c@.watermarks.last_present == present_of(combine(c@.watermarks.inputs), None),
            c@.timers.len() == 0,
            c@.collector == collector@,
            c@.messages_recv == 0,
            c.task_info() == task_info,
    {
        let start = match restored_watermark {
            Some(t) => Some(Watermark::EventTime(t)),
            None => None,
        };
        let mut inputs: Vec<Option<Watermark>> = Vec::new();
        let mut i: usize = 0;
        while i < input_partitions
            invariant
                i <= input_partitions,
                inputs@ =~= initial_inputs(restored_watermark, i as nat),
                start == match restored_watermark {
                    Some(t) => Some(Watermark::EventTime(t)),
                    None => None,
                },
            decreases input_partitions - i,
        {
            inputs.push(start);
            i = i + 1;
        }
        ArrowContext {
            task_info,
            watermarks: WatermarkHolder::new(inputs),
            timers: TimerService::new(),
            collector,
            messages_recv: 0,
        }
    }

    pub closed spec fn task_info(&self) -> TaskInfo {
        self.task_info
    }

    /// The identity of the task.
    pub fn info(&self) -> (r: &TaskInfo)
        ensures
            *r == self.task_info(),
    {
        &self.task_info
    }

    /// The current task watermark.
    pub fn watermark(&self) -> (r: Option<Watermark>)
        ensures
            r == self@.watermarks.current,
    {
        self.watermarks.watermark()
    }

    /// The last event time the task watermark has carried.
    pub fn last_present_watermark(&self) -> (r: Option<u64>)
        ensures
            r == self@.watermarks.last_present,
    {
        self.watermarks.last_present_watermark()
    }

    /// The number of inputs of the task.
    pub fn input_count(&self) -> (r: usize)
        requires
            self@.wf(),
        ensures
            r == self@.watermarks.inputs.len(),
    {
        self.watermarks.input_count()
    }

    /// The number of record batches received.
    pub fn messages_recv(&self) -> (r: u64)
        ensures
            r == self@.messages_recv,
    {
        self.messages_recv
    }

    /// The scheduled timers, by fire time.
    pub fn timers(&self) -> (r: &Vec<ArrowTimerValue>)
        ensures
            timers_view(r@) == self@.timers,
    {
        self.timers.timers()
    }

    /// Schedules a timer for `key` at `event_time`; refused when that time
    /// is not after the task watermark, or when the key already has a
    /// timer then.
    pub fn schedule_timer(&mut self, key: Vec<u8>, event_time: u64, data: Vec<u8>) -> (r: Result<
        (),
        TimerError,
    >)
        requires
            old(self)@.wf(),
        ensures
            final(self)@.wf(),
            final(self)@.watermarks == old(self)@.watermarks,
            final(self)@.collector == old(self)@.collector,
            final(self)@.messages_recv == old(self)@.messages_recv,
            final(self).task_info() == old(self).task_info(),
            old(self)@.watermarks.last_present matches Some(w) && event_time <= w ==> r == Err::<
                (),
                TimerError,
            >(TimerError::InPast) && final(self)@.timers == old(self)@.timers,
            !(old(self)@.watermarks.last_present matches Some(w) && event_time <= w) && timer_index(
                old(self)@.timers,
                key@,
                event_time,
            ) is Some ==> r == Err::<(), TimerError>(TimerError::Duplicate) && final(self)@.timers
                == old(self)@.timers,
            !(old(self)@.watermarks.last_present matches Some(w) && event_time <= w) && timer_index(
                old(self)@.timers,
                key@,
                event_time,
            ) is None ==> r is Ok && final(self)@.timers == old(self)@.timers.insert(
                timer_slot(old(self)@.timers, event_time),
                TimerView { time: event_time, key: key@, data: data@ },
            ),
    {
        let w = self.watermarks.last_present_watermark();
        self.timers.schedule(key, event_time, data, w)
    }

    /// Cancels the timer for `key` at `event_time`, giving back its payload.
    pub fn cancel_timer(&mut self, key: &Vec<u8>, event_time: u64) -> (r: Option<Vec<u8>>)
        requires
            old(self)@.wf(),
        ensures
            final(self)@.wf(),
            final(self)@.watermarks == old(self)@.watermarks,
            final(self)@.collector == old(self)@.collector,
            final(self)@.messages_recv == old(self)@.messages_recv,
            final(self).task_info() == old(self).task_info(),
            match timer_index(old(self)@.timers, key@, event_time) {
                Some(i) => r matches Some(d) && d@ == old(self)@.timers[i].data && final(self)@.timers
                    == old(self)@.timers.remove(i),
                None => r is None && final(self)@.timers == old(self)@.timers,
            },
    {
        self.timers.cancel(key, event_time)
    }

    /// The downstream queues that `batch` goes to (see
    /// [`ArrowCollector::collect`]).
    pub fn collect(&mut self, batch: &RecordBatch) -> (r: Result<Vec<Destination>, RoutingError>)
        requires
            old(self)@.wf(),
        ensures
            final(self)@.wf(),
            final(self)@.watermarks == old(self)@.watermarks,
            final(self)@.timers == old(self)@.timers,
            final(self)@.messages_recv == old(self)@.messages_recv,
            final(self)@.collector.parallelism == old(self)@.collector.parallelism,
            final(self)@.collector.keyed == old(self)@.collector.keyed,
            final(self).task_info() == old(self).task_info(),
            old(self)@.collector.keyed && batch.rows@.len() != 1 ==> r == Err::<
                Vec<Destination>,
                RoutingError,
            >(RoutingError::NotSingleRow),
            old(self)@.collector.keyed && batch.rows@.len() == 1 ==> (r matches Ok(d) && d@ == route(
                old(self)@.collector.parallelism,
                key_hash(batch.rows@[0].key@),
            )),
            !old(self)@.collector.keyed ==> (r matches Ok(d) && exists|h: u64|
                d@ == route(old(self)@.collector.parallelism, h)),
            r matches Ok(d) ==> final(self)@.collector.sent_messages == bump(
                old(self)@.collector.sent_messages,
                d@.len() as int,
            ),
    {
        self.collector.collect(batch)
    }

    /// The downstream queues that a signal goes to: all of them.
    pub fn broadcast(&mut self) -> (r: Vec<Destination>)
        requires
            old(self)@.wf(),
        ensures
            final(self)@.wf(),
            r@ == all_queues(old(self)@.collector.parallelism),
            final(self)@.watermarks == old(self)@.watermarks,
            final(self)@.timers == old(self)@.timers,
            final(self)@.messages_recv == old(self)@.messages_recv,
            final(self)@.collector.parallelism == old(self)@.collector.parallelism,
            final(self)@.collector.keyed == old(self)@.collector.keyed,
            final(self)@.collector.sent_messages == bump(
                old(self)@.collector.sent_messages,
                r@.len() as int,
            ),
            final(self).task_info() == old(self).task_info(),
    {
        self.collector.broadcast()
    }

    pub(crate) fn count_received(&mut self)
        ensures
            final(self)@.messages_recv == bump(old(self)@.messages_recv, 1),
            final(self)@.watermarks == old(self)@.watermarks,
            final(self)@.timers == old(self)@.timers,
            final(self)@.collector == old(self)@.collector,
            final(self).task_info() == old(self).task_info(),
    {
        self.messages_recv = self.messages_recv.saturating_add(1);
    }

    pub(crate) fn set_watermark(&mut self, idx: usize, w: Watermark) -> (r: Option<Option<Watermark>>)
        requires
            old(self)@.wf(),
        ensures
            final(self)@.wf(),
            final(self)@.timers == old(self)@.timers,
            final(self)@.collector == old(self)@.collector,
            final(self)@.messages_recv == old(self)@.messages_recv,
            final(self).task_info() == old(self).task_info(),
            idx >= old(self)@.watermarks.inputs.len() ==> r is None && final(self)@.watermarks == old(
                self,
            )@.watermarks,
            idx < old(self)@.watermarks.inputs.len() ==> r == Some(
                old(self)@.watermarks.emitted(idx as int, w),
            ) && final(self)@.watermarks == old(self)@.watermarks.after_set(idx as int, w),
    {
        self.watermarks.set(idx, w)
    }

    pub(crate) fn take_due_timers(&mut self, t: u64) -> (r: Vec<ArrowTimerValue>)
        requires
            old(self)@.wf(),
        ensures
            final(self)@.wf(),
            final(self)@.watermarks == old(self)@.watermarks,
            final(self)@.collector == old(self)@.collector,
            final(self)@.messages_recv == old(self)@.messages_recv,
            final(self).task_info() == old(self).task_info(),
            timers_view(r@) == old(self)@.timers.subrange(0, timer_slot(old(self)@.timers, t)),
            final(self)@.timers == old(self)@.timers.subrange(
                timer_slot(old(self)@.timers, t),
                old(self)@.timers.len() as int,
            ),
            forall|i: int| 0 <= i < r@.len() ==> (#[trigger] r@[i]).time <= t,
            forall|i: int, j: int| 0 <= i <= j < r@.len() ==> (#[trigger] r@[i]).time <= (
            #[trigger] r@[j]).time,
            forall|i: int| 0 <= i < final(self)@.timers.len() ==> (#[trigger] final(self)@.timers[i]).time
                > t,
    {
        self.timers.fire_due(t)
    }
}

} // verus!
