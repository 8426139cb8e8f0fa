use vstd::prelude::*;
use crate::checkpoint::{AlignmentError, CheckpointCounter, CounterView};
use crate::context::{ArrowContext, ContextView};
use crate::watermark::{HolderView, event_times_non_decreasing, lemma_emitted_watermarks_monotone, run};
use crate::timers::{ArrowTimerValue, TimerView, lemma_slot_bounds, timer_slot, timers_view, timers_wf};
use crate::types::{
    ArrowMessage, CheckpointBarrier, CheckpointEventType, ControlMessage, RecordBatch, RowView,
    Watermark,
};

verus! {

/// A message sent to every downstream queue.
#[derive(Clone, Copy, Debug, PartialEq, Eq, Structural)]
pub enum Signal {
    Watermark(Watermark),
    Barrier(CheckpointBarrier),
    Stop,
    EndOfData,
}

/// How the task loop goes on after a message.
#[derive(Clone, Copy, Debug, PartialEq, Eq, Structural)]
pub enum ControlOutcome {
    Continue,
    Stop,
    Finish,
}

/// One thing the task loop must do, in order, after a message: call a hook
/// of the operator, talk to the state backend or the coordinator, or send
/// downstream.
#[derive(Clone, Debug, PartialEq, Eq)]
pub enum Action {
    /// Hand a record batch from input `input` to the operator.
    ProcessBatch { input: usize, batch: RecordBatch },
    /// Tell the state backend that event time reached this point.
    StateWatermark(u64),
    /// Hand a due timer to the operator.
    FireTimer(ArrowTimerValue),
    /// Give the new task watermark to the operator, which by default
    /// broadcasts it.
    HandleWatermark(Watermark),
    /// Report a checkpoint phase to the coordinator.
    CheckpointEvent { epoch: u32, event: CheckpointEventType },
    /// Let the operator write its state for the checkpoint.
    HandleCheckpoint(CheckpointBarrier),
    /// Make the checkpoint durable in the state backend.
    SyncState { barrier: CheckpointBarrier, watermark: Option<u64> },
    /// Second phase of a two-phase commit.
    HandleCommit(u32),
    /// Pass a compaction notice to the state backend.
    LoadCompacted(u32),
    /// Let the operator close before the task exits.
    Close,
    /// Send a signal to every downstream queue.
    Broadcast(Signal),
}

/// The value of an [`Action`].
pub enum ActionView {
    ProcessBatch { input: usize, batch: Seq<RowView> },
    StateWatermark(u64),
    FireTimer(TimerView),
    HandleWatermark(Watermark),
    CheckpointEvent { epoch: u32, event: CheckpointEventType },
    HandleCheckpoint(CheckpointBarrier),
    SyncState { barrier: CheckpointBarrier, watermark: Option<u64> },
    HandleCommit(u32),
    LoadCompacted(u32),
    Close,
    Broadcast(Signal),
}

impl View for Action {
    type V = ActionView;

    open spec fn view(&self) -> ActionView {
        match self {
            Action::ProcessBatch { input, batch } => ActionView::ProcessBatch {
                input: *input,
                batch: batch@,
            },
            Action::StateWatermark(t) => ActionView::StateWatermark(*t),
            Action::FireTimer(v) => ActionView::FireTimer(v@),
            Action::HandleWatermark(w) => ActionView::HandleWatermark(*w),
            Action::CheckpointEvent { epoch, event } => ActionView::CheckpointEvent {
                epoch: *epoch,
                event: *event,
            },
            Action::HandleCheckpoint(b) => ActionView::HandleCheckpoint(*b),
            Action::SyncState { barrier, watermark } => ActionView::SyncState {
                barrier: *barrier,
                watermark: *watermark,
            },
            Action::HandleCommit(e) => ActionView::HandleCommit(*e),
            Action::LoadCompacted(e) => ActionView::LoadCompacted(*e),
            Action::Close => ActionView::Close,
            Action::Broadcast(s) => ActionView::Broadcast(*s),
        }
    }
}

pub open spec fn actions_view(s: Seq<Action>) -> Seq<ActionView> {
    Seq::new(s.len(), |i: int| s[i]@)
}

/// The checkpoint of a completed alignment, in order: report, let the
/// operator write, report, make durable, report, forward the barrier.
pub open spec fn checkpoint_actions(b: CheckpointBarrier, watermark: Option<u64>) -> Seq<ActionView> {
    seq![
        ActionView::CheckpointEvent { epoch: b.epoch, event: CheckpointEventType::StartedCheckpointing },
        ActionView::HandleCheckpoint(b),
        ActionView::CheckpointEvent { epoch: b.epoch, event: CheckpointEventType::FinishedOperatorSetup },
        ActionView::SyncState { barrier: b, watermark },
        ActionView::CheckpointEvent { epoch: b.epoch, event: CheckpointEventType::FinishedSync },
        ActionView::Broadcast(Signal::Barrier(b)),
    ]
}

/// What a barrier leads to: alignment is reported when it is the first of
/// its epoch, the checkpoint runs when it is the last, and a barrier that
/// asks to stop then closes the task.
pub open spec fn barrier_actions(
    first: bool,
    last: bool,
    b: CheckpointBarrier,
    watermark: Option<u64>,
) -> Seq<ActionView> {
    (if first {
        seq![ActionView::CheckpointEvent { epoch: b.epoch, event: CheckpointEventType::StartedAlignment }]
    } else {
        Seq::empty()
    }) + (if last {
        checkpoint_actions(b, watermark)
    } else {
        Seq::empty()
    }) + (if last && b.then_stop {
        seq![ActionView::Close, ActionView::Broadcast(Signal::Stop)]
    } else {
        Seq::empty()
    })
}

/// The due timers, each handed to the operator.
pub open spec fn fire_actions(due: Seq<TimerView>) -> Seq<ActionView> {
    Seq::new(due.len(), |i: int| ActionView::FireTimer(due[i]))
}

/// What a change of the task watermark leads to: for an event time, the
/// state backend learns it, every due timer fires, and only then the
/// operator gets the watermark.
pub open spec fn watermark_actions(emitted: Option<Watermark>, timers: Seq<TimerView>) -> Seq<
    ActionView,
> {
    match emitted {
        None => Seq::empty(),
        Some(Watermark::Idle) => seq![ActionView::HandleWatermark(Watermark::Idle)],
        Some(Watermark::EventTime(t)) => seq![ActionView::StateWatermark(t)] + fire_actions(
            timers.subrange(0, timer_slot(timers, t)),
        ) + seq![ActionView::HandleWatermark(Watermark::EventTime(t))],
    }
}

/// Timers fire before the watermark that makes them due: when the task
/// watermark advances to event time `t`, every scheduled timer with a fire
/// time at or before `t` is handed to the operator, in fire-time order,
/// before the operator receives the watermark, and no later timer fires.
pub proof fn lemma_due_timers_precede_watermark(timers: Seq<TimerView>, t: u64)
    requires
        timers_wf(timers),
    ensures
        ({
            let a = watermark_actions(Some(Watermark::EventTime(t)), timers);
            &&& a.len() >= 2
            &&& a[0] == ActionView::StateWatermark(t)
            &&& a.last() == ActionView::HandleWatermark(Watermark::EventTime(t))
            &&& forall|i: int|
                0 <= i < timers.len() && #[trigger] timers[i].time <= t ==> i + 1 < a.len() - 1 && a[i
                    + 1] == ActionView::FireTimer(timers[i])
            &&& forall|k: int|
                1 <= k < a.len() - 1 ==> #[trigger] a[k] == ActionView::FireTimer(timers[k - 1])
                    && timers[k - 1].time <= t
            &&& forall|i: int, j: int|
                0 <= i <= j < a.len() - 2 ==> #[trigger] timers[i].time <= #[trigger] timers[j].time
        }),
{
    lemma_slot_bounds(timers, t);
    let k = timer_slot(timers, t);
    let a = watermark_actions(Some(Watermark::EventTime(t)), timers);
    let due = timers.subrange(0, k);
    assert(a =~= seq![ActionView::StateWatermark(t)] + fire_actions(due) + seq![
        ActionView::HandleWatermark(Watermark::EventTime(t)),
    ]);
    assert(a.len() == k + 2);
    assert forall|i: int| 0 <= i < timers.len() && #[trigger] timers[i].time <= t implies i + 1 < a.len()
        - 1 && a[i + 1] == ActionView::FireTimer(timers[i]) by {
        if i >= k {
            assert(timers[i].time > t);
        }
        assert(a[i + 1] == fire_actions(due)[i]);
    }
    assert forall|j: int| 1 <= j < a.len() - 1 implies #[trigger] a[j] == ActionView::FireTimer(
        timers[j - 1],
    ) && timers[j - 1].time <= t by {
        assert(a[j] == fire_actions(due)[j - 1]);
    }
}

/// The watermarks handed to the operator by a list of actions, in order.
pub open spec fn handled_watermarks(a: Seq<ActionView>) -> Seq<Watermark>
    decreases a.len(),
{
    if a.len() == 0 {
        Seq::empty()
    } else {
        handled_watermarks(a.drop_last()) + match a.last() {
            ActionView::HandleWatermark(w) => seq![w],
            _ => Seq::empty(),
        }
    }
}

proof fn lemma_handled_append(a: Seq<ActionView>, b: Seq<ActionView>)
    ensures
        handled_watermarks(a + b) == handled_watermarks(a) + handled_watermarks(b),
    decreases b.len(),
{
    if b.len() == 0 {
        assert(a + b =~= a);
        assert(handled_watermarks(a) + handled_watermarks(b) =~= handled_watermarks(a));
    } else {
        assert((a + b).drop_last() =~= a + b.drop_last());
        lemma_handled_append(a, b.drop_last());
        assert(handled_watermarks(a + b) =~= handled_watermarks(a) + handled_watermarks(b));
    }
}

proof fn lemma_handled_single(x: ActionView)
    ensures
        handled_watermarks(seq![x]) == match x {
            ActionView::HandleWatermark(w) => seq![w],
            _ => Seq::<Watermark>::empty(),
        },
{
    let a = seq![x];
    assert(a.drop_last() =~= Seq::<ActionView>::empty());
    assert(handled_watermarks(Seq::<ActionView>::empty()) =~= Seq::<Watermark>::empty());
    assert(a.last() == x);
    assert(handled_watermarks(a) =~= match x {
        ActionView::HandleWatermark(w) => seq![w],
        _ => Seq::<Watermark>::empty(),
    });
}

proof fn lemma_handled_fires(due: Seq<TimerView>)
    ensures
        handled_watermarks(fire_actions(due)) == Seq::<Watermark>::empty(),
    decreases due.len(),
{
    if due.len() > 0 {
        lemma_handled_fires(due.drop_last());
        assert(fire_actions(due).drop_last() =~= fire_actions(due.drop_last()));
    }
}

proof fn lemma_handled_step(e: Option<Watermark>, timers: Seq<TimerView>)
    ensures
        handled_watermarks(watermark_actions(e, timers)) == match e {
            Some(w) => seq![w],
            None => Seq::<Watermark>::empty(),
        },
{
    match e {
        None => {},
        Some(Watermark::Idle) => {
            lemma_handled_single(ActionView::HandleWatermark(Watermark::Idle));
        },
        Some(Watermark::EventTime(t)) => {
            let head = seq![ActionView::StateWatermark(t)];
            let due = timers.subrange(0, timer_slot(timers, t));
            let tail = seq![ActionView::HandleWatermark(Watermark::EventTime(t))];
            lemma_handled_append(head + fire_actions(due), tail);
            lemma_handled_append(head, fire_actions(due));
            lemma_handled_fires(due);
            lemma_handled_single(ActionView::StateWatermark(t));
            lemma_handled_single(ActionView::HandleWatermark(Watermark::EventTime(t)));
            assert(handled_watermarks(watermark_actions(e, timers)) =~= seq![Watermark::EventTime(t)]);
        },
    }
}

/// The actions of successive watermark messages `(input, watermark)` on a
/// task whose holder starts at `h`, the timers at each step being
/// `timers[k]`, as `handle_message` gives them.
pub open spec fn watermark_run_actions(
    h: HolderView,
    updates: Seq<(int, Watermark)>,
    timers: Seq<Seq<TimerView>>,
) -> Seq<ActionView>
    decreases updates.len(),
{
    if updates.len() == 0 {
        Seq::empty()
    } else {
        let prev = run(h, updates.drop_last()).0;
        let (idx, w) = updates.last();
        watermark_run_actions(h, updates.drop_last(), timers) + watermark_actions(
            prev.emitted(idx, w),
            timers[updates.len() - 1],
        )
    }
}

proof fn lemma_run_handled(h: HolderView, updates: Seq<(int, Watermark)>, timers: Seq<Seq<TimerView>>)
    ensures
        handled_watermarks(watermark_run_actions(h, updates, timers)) == run(h, updates).1,
    decreases updates.len(),
{
    if updates.len() > 0 {
        lemma_run_handled(h, updates.drop_last(), timers);
        let prev = run(h, updates.drop_last()).0;
        let (idx, w) = updates.last();
        lemma_handled_append(
            watermark_run_actions(h, updates.drop_last(), timers),
            watermark_actions(prev.emitted(idx, w), timers[updates.len() - 1]),
        );
        lemma_handled_step(prev.emitted(idx, w), timers[updates.len() - 1]);
        assert(handled_watermarks(watermark_run_actions(h, updates, timers)) =~= run(h, updates).1);
    }
}

/// Over any run of watermark messages, the event-time watermarks a task
/// hands to its operator (and so, by default, forwards downstream) never
/// decrease, and none falls below the event time the task had reached.
pub proof fn lemma_task_watermarks_monotone(
    h: HolderView,
    updates: Seq<(int, Watermark)>,
    timers: Seq<Seq<TimerView>>,
)
    requires
        h.wf(),
    ensures
        event_times_non_decreasing(handled_watermarks(watermark_run_actions(h, updates, timers))),
        forall|i: int|
            0 <= i < handled_watermarks(watermark_run_actions(h, updates, timers)).len() ==> match #[trigger] handled_watermarks(
                watermark_run_actions(h, updates, timers),
            )[i] {
                Watermark::EventTime(t) => h.last_present matches Some(l) ==> l <= t,
                _ => true,
            },
{
    lemma_run_handled(h, updates, timers);
    lemma_emitted_watermarks_monotone(h, updates);
}

/// A message that breaks the runtime protocol.
#[derive(Clone, Copy, Debug, PartialEq, Eq, Structural)]
pub enum RuntimeError {
    /// The input index names no input of the task.
    NoSuchInput,
    /// A record arrived on an input that is waiting for alignment.
    InputBlocked,
    /// A barrier broke alignment.
    Alignment(AlignmentError),
    /// A checkpoint or stop command came over the control channel of a
    /// task that is not a source.
    WrongChannel,
}

/// What the task loop does after one message.
pub struct Step {
    pub actions: Vec<Action>,
    pub outcome: ControlOutcome,
    /// Inputs to poll again, parked ones first.
    pub rearm: Vec<usize>,
}

/// The state of a [`TaskRuntime`] besides its context, as plain values.
pub struct RuntimeView {
    pub counter: CounterView,
    pub closed: Seq<bool>,
    pub parked: Seq<usize>,
}

/// The message dispatch of one task: alignment of barriers across inputs,
/// the inputs that are parked meanwhile, and the inputs already closed.
pub struct TaskRuntime {
    counter: CheckpointCounter,
    closed: Vec<bool>,
    parked: Vec<usize>,
}

impl View for TaskRuntime {
    type V = RuntimeView;

    closed spec fn view(&self) -> RuntimeView {
        RuntimeView { counter: self.counter@, closed: self.closed@, parked: self.parked@ }
    }
}

/// True when every input is closed.
pub open spec fn all_closed(closed: Seq<bool>) -> bool {
    forall|i: int| 0 <= i < closed.len() ==> #[trigger] closed[i]
}

impl TaskRuntime {
    /// The runtime fits context `ctx`: one entry per input of the task.
    pub open spec fn wf(&self, ctx: ContextView) -> bool {
        &&& ctx.wf()
        &&& self@.counter.wf()
        &&& self@.counter.inputs.len() == ctx.watermarks.inputs.len()
        &&& self@.closed.len() == ctx.watermarks.inputs.len()
    }

    /// The runtime of a task with context `ctx`; nothing is aligning,
    /// parked or closed.
    pub fn new(ctx: &ArrowContext) -> (r: TaskRuntime)
        requires
            ctx@.wf(),
        ensures
            r.wf(ctx@),
            r@.counter.all_clear(),
            r@.counter.last_completed is None,
            r@.parked.len() == 0,
            forall|i: int| 0 <= i < r@.closed.len() ==> !#[trigger] r@.closed[i],
    {
        let n = ctx.input_count();
        let counter = CheckpointCounter::new(n);
        let mut closed: Vec<bool> = Vec::new();
        let mut i: usize = 0;
        while i < n
            invariant
                i <= n,
                closed@.len() == i,
                forall|k: int| 0 <= k < i ==> !#[trigger] closed@[k],
            decreases n - i,
        {
            closed.push(false);
            i = i + 1;
        }
        TaskRuntime { counter, closed, parked: Vec::new() }
    }

    /// Whether input `idx` waits for the alignment of its barrier.
    pub fn is_blocked(&self, idx: usize) -> (r: bool)
        ensures
            r == (idx < self@.counter.inputs.len() && self@.counter.inputs[idx as int] is Some),
    {
        self.counter.is_blocked(idx)
    }

    fn close_input(&mut self, idx: usize) -> (all: bool)
        requires
            idx < old(self)@.closed.len(),
        ensures
            final(self)@.closed == old(self)@.closed.update(idx as int, true),
            final(self)@.counter == old(self)@.counter,
            final(self)@.parked == old(self)@.parked,
            all == all_closed(final(self)@.closed),
    {
        self.closed.set(idx, true);
        let mut all = true;
        let mut i: usize = 0;
        while i < self.closed.len()
            invariant
                i <= self.closed@.len(),
                all == forall|k: int| 0 <= k < i ==> #[trigger] self.closed@[k],
            decreases self.closed.len() - i,
        {
            if !self.closed[i] {
                all = false;
            }
            i = i + 1;
        }
        all
    }

    fn rearm_after(&mut self, idx: usize) -> (r: Vec<usize>)
        ensures
            final(self)@.counter == old(self)@.counter,
            final(self)@.closed == old(self)@.closed,
            idx < old(self)@.counter.inputs.len() && old(self)@.counter.inputs[idx as int] is Some
                ==> r@.len() == 0 && final(self)@.parked == old(self)@.parked.push(idx),
            !(idx < old(self)@.counter.inputs.len() && old(self)@.counter.inputs[idx as int] is Some)
                && old(self)@.counter.all_clear() ==> r@ == old(self)@.parked.push(idx)
                && final(self)@.parked.len() == 0,
            !(idx < old(self)@.counter.inputs.len() && old(self)@.counter.inputs[idx as int] is Some)
                && !old(self)@.counter.all_clear() ==> r@ == seq![idx] && final(self)@.parked
                == old(self)@.parked,
    {
        if self.counter.is_blocked(idx) {
            self.parked.push(idx);
            Vec::new()
        } else if self.counter.all_clear() {
            let mut r: Vec<usize> = Vec::new();
            std::mem::swap(&mut r, &mut self.parked);
            r.push(idx);
            r
        } else {
            vec![idx]
        }
    }

    fn watermark_step(ctx: &mut ArrowContext, idx: usize, w: Watermark) -> (r: Vec<Action>)
        requires
            old(ctx)@.wf(),
            idx < old(ctx)@.watermarks.inputs.len(),
        ensures
            final(ctx)@.wf(),
            final(ctx)@.watermarks == old(ctx)@.watermarks.after_set(idx as int, w),
            final(ctx)@.collector == old(ctx)@.collector,
            final(ctx)@.messages_recv == old(ctx)@.messages_recv,
            final(ctx).task_info() == old(ctx).task_info(),
            actions_view(r@) == watermark_actions(
                old(ctx)@.watermarks.emitted(idx as int, w),
                old(ctx)@.timers,
            ),
            old(ctx)@.watermarks.emitted(idx as int, w) matches Some(Watermark::EventTime(t))
                ==> final(ctx)@.timers == old(ctx)@.timers.subrange(
                timer_slot(old(ctx)@.timers, t),
                old(ctx)@.timers.len() as int,
            ),
            !(old(ctx)@.watermarks.emitted(idx as int, w) matches Some(Watermark::EventTime(_)))
                ==> final(ctx)@.timers == old(ctx)@.timers,
    {
        let ghost timers0 = ctx@.timers;
        let changed = ctx.set_watermark(idx, w);
        let mut actions: Vec<Action> = Vec::new();
        match changed {
            Some(Some(Watermark::EventTime(t))) => {
                actions.push(Action::StateWatermark(t));
                let mut due = ctx.take_due_timers(t);
                let ghost due0 = timers_view(due@);
                let ghost head = seq![ActionView::StateWatermark(t)];
                let n = due.len();
                let mut k: usize = 0;
                proof {
                    assert(actions_view(actions@) =~= head + fire_actions(due0.subrange(0, 0)));
                }
                while k < n
                    invariant
                        k <= n,
                        n == due0.len(),
                        timers_view(due@) =~= due0.subrange(k as int, n as int),
                        due@.len() == n - k,
                        forall|m: int| 0 <= m < due@.len() ==> #[trigger] due@[m]@ == due0[k + m],
                        actions_view(actions@) =~= head + fire_actions(due0.subrange(0, k as int)),
                    decreases n - k,
                {
                    assert(due@[0]@ == due0[k as int]);
                    let ghost rest = due@;
                    let v = due.remove(0);
                    let ghost prev = actions@;
                    actions.push(Action::FireTimer(v));
                    proof {
                        assert(v@ == due0[k as int]);
                        assert forall|m: int| 0 <= m < due@.len() implies #[trigger] due@[m]@ == due0[k + 1 + m] by {
                            assert(due@[m] == rest[m + 1]);
                        }
                        assert(fire_actions(due0.subrange(0, k + 1)) =~= fire_actions(
                            due0.subrange(0, k as int),
                        ).push(ActionView::FireTimer(due0[k as int])));
                        assert(actions_view(actions@) =~= actions_view(prev).push(
                            ActionView::FireTimer(v@)));
                    }
                    k = k + 1;
                }
                actions.push(Action::HandleWatermark(Watermark::EventTime(t)));
                proof {
                    assert(due0.subrange(0, n as int) =~= due0);
                    assert(actions_view(actions@) =~= watermark_actions(
                        Some(Watermark::EventTime(t)),
                        timers0,
                    ));
                }
            },
            Some(Some(Watermark::Idle)) => {
                actions.push(Action::HandleWatermark(Watermark::Idle));
                proof {
                    assert(actions_view(actions@) =~= seq![ActionView::HandleWatermark(Watermark::Idle)]);
                }
            },
            _ => {
                proof {
                    assert(actions_view(actions@) =~= Seq::<ActionView>::empty());
                }
            },
        }
        actions
    }
    /// The next step of the rearm rule: an input that is waiting for
    /// alignment is parked; otherwise it is polled again, together with all
    /// parked inputs once no alignment is in progress.
    pub open spec fn rearm_ok(pre: RuntimeView, post: RuntimeView, idx: usize, rearm: Seq<usize>) -> bool {
        if idx < post.counter.inputs.len() && post.counter.inputs[idx as int] is Some {
            rearm.len() == 0 && post.parked == pre.parked.push(idx)
        } else if post.counter.all_clear() {
            rearm == pre.parked.push(idx) && post.parked.len() == 0
        } else {
            rearm == seq![idx] && post.parked == pre.parked
        }
    }

    /// Handles message `msg` from input `idx`. Records go to the operator;
    /// a barrier is aligned across the inputs and, once every input has
    /// delivered it, checkpointed and forwarded; a watermark fires due
    /// timers before the operator sees it; stop and end-of-data close the
    /// input and, once all are closed, the task.
    pub fn handle_message(&mut self, ctx: &mut ArrowContext, idx: usize, msg: ArrowMessage) -> (r:
        Result<Step, RuntimeError>)
        requires
            old(self).wf(old(ctx)@),
        ensures
            final(self).wf(final(ctx)@),
            final(ctx).task_info() == old(ctx).task_info(),
            final(ctx)@.collector == old(ctx)@.collector,
            r is Err ==> final(self)@ == old(self)@ && final(ctx)@ == old(ctx)@,
            idx >= old(ctx)@.watermarks.inputs.len() ==> r == Err::<Step, RuntimeError>(
                RuntimeError::NoSuchInput,
            ),
            r matches Ok(s) ==> Self::rearm_ok(old(self)@, final(self)@, idx, s.rearm@),
            idx < old(ctx)@.watermarks.inputs.len() ==> match msg {
                ArrowMessage::Record(b) => if old(self)@.counter.inputs[idx as int] is Some {
                    r == Err::<Step, RuntimeError>(RuntimeError::InputBlocked)
                } else {
                    &&& r matches Ok(s)
                    &&& actions_view(s.actions@) == seq![ActionView::ProcessBatch { input: idx, batch: b@ }]
                    &&& s.outcome == ControlOutcome::Continue
                    &&& final(self)@.counter == old(self)@.counter
                    &&& final(ctx)@.messages_recv == crate::routing::bump(old(ctx)@.messages_recv, 1)
                    &&& final(ctx)@.watermarks == old(ctx)@.watermarks
                    &&& final(ctx)@.timers == old(ctx)@.timers
                },
                ArrowMessage::Barrier(t) => match old(self)@.counter.refusal(idx as int, t.epoch) {
                    Some(e) => r == Err::<Step, RuntimeError>(RuntimeError::Alignment(e)),
                    None => {
                        let last = old(self)@.counter.completes(idx as int, t.epoch);
                        &&& r matches Ok(s)
                        &&& actions_view(s.actions@) == barrier_actions(
                            old(self)@.counter.all_clear(),
                            last,
                            t,
                            old(ctx)@.watermarks.last_present,
                        )
                        &&& s.outcome == if last && t.then_stop {
                            ControlOutcome::Stop
                        } else {
                            ControlOutcome::Continue
                        }
                        &&& final(self)@.counter == old(self)@.counter.after_mark(idx as int, t.epoch)
                        &&& last ==> final(self)@.counter.all_clear()
                            && final(self)@.counter.last_completed == Some(t.epoch)
                        &&& !last ==> final(self)@.counter.inputs == old(self)@.counter.marked(
                            idx as int,
                            t.epoch,
                        ) && final(self)@.counter.last_completed == old(self)@.counter.last_completed
                        &&& final(ctx)@ == old(ctx)@
                    },
                },
                ArrowMessage::Watermark(w) => {
                    &&& r matches Ok(s)
                    &&& actions_view(s.actions@) == watermark_actions(
                        old(ctx)@.watermarks.emitted(idx as int, w),
                        old(ctx)@.timers,
                    )
                    &&& s.outcome == ControlOutcome::Continue
                    &&& final(self)@.counter == old(self)@.counter
                    &&& final(ctx)@.watermarks == old(ctx)@.watermarks.after_set(idx as int, w)
                    &&& (old(ctx)@.watermarks.emitted(idx as int, w) matches Some(Watermark::EventTime(t))
                        ==> final(ctx)@.timers == old(ctx)@.timers.subrange(
                        timer_slot(old(ctx)@.timers, t),
                        old(ctx)@.timers.len() as int,
                    ))
                    &&& (!(old(ctx)@.watermarks.emitted(idx as int, w) matches Some(Watermark::EventTime(_)))
                        ==> final(ctx)@.timers == old(ctx)@.timers)
                },
                ArrowMessage::Stop => {
                    let closed = old(self)@.closed.update(idx as int, true);
                    &&& r matches Ok(s)
                    &&& final(self)@.closed == closed
                    &&& final(self)@.counter == old(self)@.counter
                    &&& final(ctx)@ == old(ctx)@
                    &&& if all_closed(closed) {
                        actions_view(s.actions@) == seq![ActionView::Close, ActionView::Broadcast(Signal::Stop)]
                            && s.outcome == ControlOutcome::Stop
                    } else {
                        actions_view(s.actions@) == Seq::<ActionView>::empty() && s.outcome
                            == ControlOutcome::Continue
                    }
                },
                ArrowMessage::EndOfData => {
                    let closed = old(self)@.closed.update(idx as int, true);
                    &&& r matches Ok(s)
                    &&& final(self)@.closed == closed
                    &&& final(self)@.counter == old(self)@.counter
                    &&& final(ctx)@ == old(ctx)@
                    &&& if all_closed(closed) {
                        actions_view(s.actions@) == seq![ActionView::Close, ActionView::Broadcast(Signal::EndOfData)]
                            && s.outcome == ControlOutcome::Finish
                    } else {
                        actions_view(s.actions@) == Seq::<ActionView>::empty() && s.outcome
                            == ControlOutcome::Continue
                    }
                },
            },
    {
        if idx >= ctx.input_count() {
            return Err(RuntimeError::NoSuchInput);
        }
        let (actions, outcome) = match msg {
            ArrowMessage::Record(batch) => {
                if self.counter.is_blocked(idx) {
                    return Err(RuntimeError::InputBlocked);
                }
                ctx.count_received();
                let actions = vec![Action::ProcessBatch { input: idx, batch }];
                proof {
                    assert(actions_view(actions@) =~= seq![ActionView::ProcessBatch { input: idx, batch: batch@ }]);
                }
                (actions, ControlOutcome::Continue)
            },
            ArrowMessage::Barrier(t) => {
                let first = self.counter.all_clear();
                let last = match self.counter.mark(idx, &t) {
                    Ok(last) => last,
                    Err(e) => {
                        return Err(RuntimeError::Alignment(e));
                    },
                };
                let mut actions: Vec<Action> = Vec::new();
                if first {
                    actions.push(
                        Action::CheckpointEvent {
                            epoch: t.epoch,
                            event: CheckpointEventType::StartedAlignment,
                        },
                    );
                }
                let mut outcome = ControlOutcome::Continue;
                if last {
                    let watermark = ctx.last_present_watermark();
                    actions.push(
                        Action::CheckpointEvent {
                            epoch: t.epoch,
                            event: CheckpointEventType::StartedCheckpointing,
                        },
                    );
                    actions.push(Action::HandleCheckpoint(t));
                    actions.push(
                        Action::CheckpointEvent {
                            epoch: t.epoch,
                            event: CheckpointEventType::FinishedOperatorSetup,
                        },
                    );
                    actions.push(Action::SyncState { barrier: t, watermark });
                    actions.push(
                        Action::CheckpointEvent {
                            epoch: t.epoch,
                            event: CheckpointEventType::FinishedSync,
                        },
                    );
                    actions.push(Action::Broadcast(Signal::Barrier(t)));
                    if t.then_stop {
                        actions.push(Action::Close);
                        actions.push(Action::Broadcast(Signal::Stop));
                        outcome = ControlOutcome::Stop;
                    }
                }
                proof {
                    assert(actions_view(actions@) =~= barrier_actions(
                        first,
                        last,
                        t,
                        ctx@.watermarks.last_present,
                    ));
                }
                (actions, outcome)
            },
            ArrowMessage::Watermark(w) => {
                let actions = Self::watermark_step(ctx, idx, w);
                (actions, ControlOutcome::Continue)
            },
            ArrowMessage::Stop => {
                let all = self.close_input(idx);
                if all {
                    let actions = vec![Action::Close, Action::Broadcast(Signal::Stop)];
                    proof {
                        assert(actions_view(actions@) =~= seq![ActionView::Close, ActionView::Broadcast(Signal::Stop)]);
                    }
                    (actions, ControlOutcome::Stop)
                } else {
                    let actions: Vec<Action> = Vec::new();
                    proof {
                        assert(actions_view(actions@) =~= Seq::<ActionView>::empty());
                    }
                    (actions, ControlOutcome::Continue)
                }
            },
            ArrowMessage::EndOfData => {
                let all = self.close_input(idx);
                if all {
                    let actions = vec![Action::Close, Action::Broadcast(Signal::EndOfData)];
                    proof {
                        assert(actions_view(actions@) =~= seq![ActionView::Close, ActionView::Broadcast(Signal::EndOfData)]);
                    }
                    (actions, ControlOutcome::Finish)
                } else {
                    let actions: Vec<Action> = Vec::new();
                    proof {
                        assert(actions_view(actions@) =~= Seq::<ActionView>::empty());
                    }
                    (actions, ControlOutcome::Continue)
                }
            },
        };
        let rearm = self.rearm_after(idx);
        Ok(Step { actions, outcome, rearm })
    }

    /// Handles a command of the coordinator. Only commits (and compaction
    /// notices and heartbeats) reach a task that is not a source:
    /// checkpoints arrive as barriers and stops as stop messages.
    pub fn handle_controller_message(msg: ControlMessage) -> (r: Result<Vec<Action>, RuntimeError>)
        ensures
            match msg {
                ControlMessage::Commit { epoch } => r matches Ok(a) && actions_view(a@) == seq![
                    ActionView::HandleCommit(epoch),
                ],
                ControlMessage::LoadCompacted { epoch } => r matches Ok(a) && actions_view(a@) == seq![
                    ActionView::LoadCompacted(epoch),
                ],
                ControlMessage::NoOp => r matches Ok(a) && a@.len() == 0,
                _ => r == Err::<Vec<Action>, RuntimeError>(RuntimeError::WrongChannel),
            },
    {
        match msg {
            ControlMessage::Commit { epoch } => {
                let a = vec![Action::HandleCommit(epoch)];
                proof {
                    assert(actions_view(a@) =~= seq![ActionView::HandleCommit(epoch)]);
                }
                Ok(a)
            },
            ControlMessage::LoadCompacted { epoch } => {
                let a = vec![Action::LoadCompacted(epoch)];
                proof {
                    assert(actions_view(a@) =~= seq![ActionView::LoadCompacted(epoch)]);
                }
                Ok(a)
            },
            ControlMessage::NoOp => Ok(Vec::new()),
            _ => Err(RuntimeError::WrongChannel),
        }
    }
}

} // verus!
