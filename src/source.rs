use vstd::prelude::*;
use crate::runtime::{Action, ActionView, Signal, actions_view, checkpoint_actions};
use crate::types::{CheckpointBarrier, CheckpointEventType, ControlMessage, StopMode, Watermark};

verus! {

/// What a server-sent-events source remembers across restarts: the id of
/// the last event it read, to resume from.
#[derive(Clone, Debug, PartialEq, Eq, Default)]
pub struct SSESourceState {
    pub last_id: Option<String>,
}

/// A websocket source keeps no progress: the server cannot replay.
#[derive(Clone, Copy, Debug, PartialEq, Eq, Default, Structural)]
pub struct WebsocketSourceState {}

/// How a source ends.
#[derive(Clone, Copy, Debug, PartialEq, Eq, Structural)]
pub enum SourceFinishType {
    /// Asked to stop after draining: downstream gets a stop.
    Graceful,
    /// Asked to stop at once: nothing more is sent.
    Immediate,
    /// The input ended: downstream gets end-of-data.
    Final,
}

/// A control command that a source cannot take.
#[derive(Clone, Copy, Debug, PartialEq, Eq, Structural)]
pub enum SourceError {
    /// Commits go to sinks, never to sources.
    CommitAtSource,
}

/// What a source does after a control command: the actions, in order,
/// and whether it then ends, and how.
pub struct SourceStep {
    pub actions: Vec<Action>,
    pub finish: Option<SourceFinishType>,
}

/// A source checkpoints on the coordinator's command: it reports the
/// alignment (a source aligns nothing else), writes its progress, and
/// runs the checkpoint, which forwards the barrier.
pub open spec fn source_checkpoint_actions(b: CheckpointBarrier, watermark: Option<u64>) -> Seq<ActionView> {
    seq![ActionView::CheckpointEvent { epoch: b.epoch, event: CheckpointEventType::StartedAlignment }]
        + checkpoint_actions(b, watermark)
}

/// Decides what a source does on a control command. `watermark` is the
/// last event time the source emitted.
pub fn handle_source_control(msg: ControlMessage, watermark: Option<u64>) -> (r: Result<SourceStep, SourceError>)
    ensures
        match msg {
            ControlMessage::Checkpoint(b) => r matches Ok(s) && actions_view(s.actions@)
                == source_checkpoint_actions(b, watermark) && s.finish == if b.then_stop {
                Some(SourceFinishType::Immediate)
            } else {
                None
            },
            ControlMessage::Stop { mode } => r matches Ok(s) && s.actions@.len() == 0 && s.finish
                == Some(
                match mode {
                    StopMode::Graceful => SourceFinishType::Graceful,
                    StopMode::Immediate => SourceFinishType::Immediate,
                },
            ),
            ControlMessage::Commit { .. } => r == Err::<SourceStep, SourceError>(
                SourceError::CommitAtSource,
            ),
            ControlMessage::LoadCompacted { epoch } => r matches Ok(s) && actions_view(s.actions@)
                == seq![ActionView::LoadCompacted(epoch)] && s.finish is None,
            ControlMessage::NoOp => r matches Ok(s) && s.actions@.len() == 0 && s.finish is None,
        },
{
    match msg {
        ControlMessage::Checkpoint(b) => {
            let actions = vec![
                Action::CheckpointEvent { epoch: b.epoch, event: CheckpointEventType::StartedAlignment },
                Action::CheckpointEvent {
                    epoch: b.epoch,
                    event: CheckpointEventType::StartedCheckpointing,
                },
                Action::HandleCheckpoint(b),
                Action::CheckpointEvent {
                    epoch: b.epoch,
                    event: CheckpointEventType::FinishedOperatorSetup,
                },
                Action::SyncState { barrier: b, watermark },
                Action::CheckpointEvent { epoch: b.epoch, event: CheckpointEventType::FinishedSync },
                Action::Broadcast(Signal::Barrier(b)),
            ];
            proof {
                assert(actions_view(actions@) =~= source_checkpoint_actions(b, watermark));
            }
            let finish = if b.then_stop {
                Some(SourceFinishType::Immediate)
            } else {
                None
            };
            Ok(SourceStep { actions, finish })
        },
        ControlMessage::Stop { mode } => {
            let finish = match mode {
                StopMode::Graceful => SourceFinishType::Graceful,
                StopMode::Immediate => SourceFinishType::Immediate,
            };
            Ok(SourceStep { actions: Vec::new(), finish: Some(finish) })
        },
        ControlMessage::Commit { .. } => Err(SourceError::CommitAtSource),
        ControlMessage::LoadCompacted { epoch } => {
            let actions = vec![Action::LoadCompacted(epoch)];
            proof {
                assert(actions_view(actions@) =~= seq![ActionView::LoadCompacted(epoch)]);
            }
            Ok(SourceStep { actions, finish: None })
        },
        ControlMessage::NoOp => Ok(SourceStep { actions: Vec::new(), finish: None }),
    }
}

/// What a source sends as it ends: the operator closes, then a graceful
/// stop forwards a stop and an exhausted input forwards end-of-data.
pub open spec fn finish_actions_spec(f: SourceFinishType) -> Seq<ActionView> {
    match f {
        SourceFinishType::Graceful => seq![ActionView::Close, ActionView::Broadcast(Signal::Stop)],
        SourceFinishType::Immediate => seq![ActionView::Close],
        SourceFinishType::Final => seq![ActionView::Close, ActionView::Broadcast(Signal::EndOfData)],
    }
}

/// The actions that end a source.
pub fn finish_actions(f: SourceFinishType) -> (r: Vec<Action>)
    ensures
        actions_view(r@) == finish_actions_spec(f),
{
    let r = match f {
        SourceFinishType::Graceful => vec![Action::Close, Action::Broadcast(Signal::Stop)],
        SourceFinishType::Immediate => vec![Action::Close],
        SourceFinishType::Final => vec![Action::Close, Action::Broadcast(Signal::EndOfData)],
    };
    proof {
        assert(actions_view(r@) =~= finish_actions_spec(f));
    }
    r
}

/// An input that cannot be partitioned is read by subtask 0 alone. Gives
/// whether subtask `task_index` reads, and what it sends first: the others
/// declare themselves idle and then only serve control commands.
pub fn unpartitioned_start(task_index: usize) -> (r: (bool, Vec<Action>))
    ensures
        r.0 == (task_index == 0),
        task_index == 0 ==> r.1@.len() == 0,
        task_index != 0 ==> actions_view(r.1@) == seq![ActionView::Broadcast(Signal::Watermark(Watermark::Idle))],
{
    if task_index == 0 {
        (true, Vec::new())
    } else {
        let a = vec![Action::Broadcast(Signal::Watermark(Watermark::Idle))];
        proof {
            assert(actions_view(a@) =~= seq![ActionView::Broadcast(Signal::Watermark(Watermark::Idle))]);
        }
        (false, a)
    }
}

/// Whether an event of type `event_type` is read: every event when no
/// types are listed, else only the listed types.
pub fn sse_event_selected(events: &Vec<String>, event_type: &String) -> (r: bool)
    ensures
        r == (events@.len() == 0 || exists|i: int| 0 <= i < events@.len() && #[trigger] events@[i]@
            == event_type@),
{
    if events.len() == 0 {
        return true;
    }
    let mut i: usize = 0;
    while i < events.len()
        invariant
            i <= events@.len(),
            forall|k: int| 0 <= k < i ==> #[trigger] events@[k]@ != event_type@,
        decreases events.len() - i,
    {
        if events[i] == *event_type {
            return true;
        }
        i = i + 1;
    }
    false
}

/// The messages a websocket source sends once connected: the single
/// subscription message of older configurations first, then the list.
pub fn subscription_messages(single: Option<String>, many: Vec<String>) -> (r: Vec<String>)
    ensures
        r@ == match single {
            Some(m) => seq![m] + many@,
            None => many@,
        },
{
    let mut r: Vec<String> = Vec::new();
    if let Some(m) = single {
        r.push(m);
    }
    let ghost head = r@;
    let mut rest = many;
    r.append(&mut rest);
    proof {
        assert(head == match single {
            Some(m) => seq![m],
            None => Seq::<String>::empty(),
        });
    }
    r
}

impl SSESourceState {
    /// Remembers the id of an event that carries one.
    pub fn observe_event_id(&mut self, id: Option<String>)
        ensures
            id is Some ==> final(self).last_id == id,
            id is None ==> final(self).last_id == old(self).last_id,
    {
        if id.is_some() {
            self.last_id = id;
        }
    }
}

} // verus!
