use std::collections::VecDeque;

use arroyo_operator::context::{task_tables, ArrowContext, TableDescriptor, TableError, TableType, TIMER_TABLE};
use arroyo_operator::routing::ArrowCollector;
use arroyo_operator::runtime::{Action, ControlOutcome, RuntimeError, Signal, TaskRuntime};
use arroyo_operator::timers::{ArrowTimerValue, TimerError};
use arroyo_operator::types::{
    ArrowMessage, CheckpointBarrier, CheckpointEventType, ControlMessage, RecordBatch, Row, StopMode,
    TaskInfo, Watermark,
};

fn info() -> TaskInfo {
    TaskInfo {
        job_id: "job".to_string(),
        operator_id: "op".to_string(),
        operator_name: "Op".to_string(),
        task_index: 0,
        parallelism: 1,
    }
}

fn ctx(inputs: usize) -> ArrowContext {
    ArrowContext::new(info(), None, inputs, ArrowCollector::new(vec![1], false))
}

fn rec(v: i64) -> ArrowMessage {
    ArrowMessage::Record(RecordBatch { rows: vec![Row { key: vec![1], timestamp: 1, values: vec![v] }] })
}

fn barrier(epoch: u32, then_stop: bool) -> CheckpointBarrier {
    CheckpointBarrier { epoch, timestamp: 99, then_stop }
}

#[test]
fn two_input_barrier_alignment() {
    let mut c = ctx(2);
    let mut rt = TaskRuntime::new(&c);
    let b1 = barrier(1, false);
    let mut queues: Vec<VecDeque<ArrowMessage>> = vec![
        VecDeque::from(vec![rec(1), rec(2), ArrowMessage::Barrier(b1), rec(3)]),
        VecDeque::from(vec![rec(11), ArrowMessage::Barrier(b1), rec(12)]),
    ];
    let mut active: VecDeque<usize> = VecDeque::from(vec![0, 1]);
    let mut out: Vec<String> = vec![];
    while let Some(i) = active.pop_front() {
        let Some(m) = queues[i].pop_front() else { continue };
        let step = rt.handle_message(&mut c, i, m).unwrap();
        for a in step.actions {
            match a {
                Action::ProcessBatch { batch, .. } => out.push(format!("r{}", batch.rows[0].values[0])),
                Action::Broadcast(Signal::Barrier(b)) => out.push(format!("B{}", b.epoch)),
                _ => {}
            }
        }
        active.extend(step.rearm);
    }
    let pos = |s: &str| out.iter().position(|x| x == s).unwrap();
    assert_eq!(out.iter().filter(|x| x.as_str() == "B1").count(), 1);
    for pre in ["r1", "r2", "r11"] {
        assert!(pos(pre) < pos("B1"));
    }
    for post in ["r3", "r12"] {
        assert!(pos(post) > pos("B1"));
    }
    assert_eq!(out.len(), 6);
    assert!(queues.iter().all(|q| q.is_empty()));
}

#[test]
fn record_on_blocked_input_is_refused() {
    let mut c = ctx(2);
    let mut rt = TaskRuntime::new(&c);
    let step = rt.handle_message(&mut c, 0, ArrowMessage::Barrier(barrier(1, false))).unwrap();
    assert!(step.rearm.is_empty());
    assert!(rt.is_blocked(0));
    assert_eq!(rt.handle_message(&mut c, 0, rec(5)).err(), Some(RuntimeError::InputBlocked));
    assert_eq!(rt.handle_message(&mut c, 2, rec(5)).err(), Some(RuntimeError::NoSuchInput));
    let step = rt.handle_message(&mut c, 1, ArrowMessage::Barrier(barrier(1, false))).unwrap();
    assert_eq!(step.rearm, vec![0, 1]);
}

#[test]
fn checkpoint_events_in_order() {
    let mut c = ctx(1);
    let mut rt = TaskRuntime::new(&c);
    let b = barrier(4, false);
    let step = rt.handle_message(&mut c, 0, ArrowMessage::Barrier(b)).unwrap();
    assert_eq!(
        step.actions,
        vec![
            Action::CheckpointEvent { epoch: 4, event: CheckpointEventType::StartedAlignment },
            Action::CheckpointEvent { epoch: 4, event: CheckpointEventType::StartedCheckpointing },
            Action::HandleCheckpoint(b),
            Action::CheckpointEvent { epoch: 4, event: CheckpointEventType::FinishedOperatorSetup },
            Action::SyncState { barrier: b, watermark: None },
            Action::CheckpointEvent { epoch: 4, event: CheckpointEventType::FinishedSync },
            Action::Broadcast(Signal::Barrier(b)),
        ]
    );
    assert_eq!(step.outcome, ControlOutcome::Continue);
}

#[test]
fn checkpoint_then_stop() {
    let mut c = ctx(2);
    let mut rt = TaskRuntime::new(&c);
    let b = barrier(2, true);
    let first = rt.handle_message(&mut c, 1, ArrowMessage::Barrier(b)).unwrap();
    assert_eq!(
        first.actions,
        vec![Action::CheckpointEvent { epoch: 2, event: CheckpointEventType::StartedAlignment }]
    );
    let last = rt.handle_message(&mut c, 0, ArrowMessage::Barrier(b)).unwrap();
    assert_eq!(last.actions.len(), 8);
    assert_eq!(last.actions[5], Action::Broadcast(Signal::Barrier(b)));
    assert_eq!(last.actions[6], Action::Close);
    assert_eq!(last.actions[7], Action::Broadcast(Signal::Stop));
    assert_eq!(last.outcome, ControlOutcome::Stop);
}

#[test]
fn watermark_fires_due_timers_first() {
    let mut c = ctx(1);
    let mut rt = TaskRuntime::new(&c);
    assert_eq!(c.schedule_timer(b"k2".to_vec(), 20, vec![2]), Ok(()));
    assert_eq!(c.schedule_timer(b"k1".to_vec(), 10, vec![1]), Ok(()));
    assert_eq!(c.schedule_timer(b"k3".to_vec(), 30, vec![3]), Ok(()));
    let step = rt.handle_message(&mut c, 0, ArrowMessage::Watermark(Watermark::EventTime(25))).unwrap();
    assert_eq!(
        step.actions,
        vec![
            Action::StateWatermark(25),
            Action::FireTimer(ArrowTimerValue { time: 10, key: b"k1".to_vec(), data: vec![1] }),
            Action::FireTimer(ArrowTimerValue { time: 20, key: b"k2".to_vec(), data: vec![2] }),
            Action::HandleWatermark(Watermark::EventTime(25)),
        ]
    );
    assert_eq!(
        c.timers(),
        &vec![ArrowTimerValue { time: 30, key: b"k3".to_vec(), data: vec![3] }]
    );
    assert_eq!(c.last_present_watermark(), Some(25));
    assert_eq!(c.schedule_timer(b"k4".to_vec(), 25, vec![]), Err(TimerError::InPast));
    let again = rt.handle_message(&mut c, 0, ArrowMessage::Watermark(Watermark::EventTime(25))).unwrap();
    assert!(again.actions.is_empty());
    let idle = rt.handle_message(&mut c, 0, ArrowMessage::Watermark(Watermark::Idle)).unwrap();
    assert_eq!(idle.actions, vec![Action::HandleWatermark(Watermark::Idle)]);
}

#[test]
fn stop_after_all_inputs_close() {
    let mut c = ctx(2);
    let mut rt = TaskRuntime::new(&c);
    let s0 = rt.handle_message(&mut c, 0, ArrowMessage::Stop).unwrap();
    assert!(s0.actions.is_empty());
    assert_eq!(s0.outcome, ControlOutcome::Continue);
    let s1 = rt.handle_message(&mut c, 1, ArrowMessage::Stop).unwrap();
    assert_eq!(s1.actions, vec![Action::Close, Action::Broadcast(Signal::Stop)]);
    assert_eq!(s1.outcome, ControlOutcome::Stop);
}

#[test]
fn end_of_data_finishes() {
    let mut c = ctx(1);
    let mut rt = TaskRuntime::new(&c);
    let s = rt.handle_message(&mut c, 0, ArrowMessage::EndOfData).unwrap();
    assert_eq!(s.actions, vec![Action::Close, Action::Broadcast(Signal::EndOfData)]);
    assert_eq!(s.outcome, ControlOutcome::Finish);
}

#[test]
fn records_are_processed_and_counted() {
    let mut c = ctx(1);
    let mut rt = TaskRuntime::new(&c);
    let s = rt.handle_message(&mut c, 0, rec(8)).unwrap();
    assert_eq!(s.actions.len(), 1);
    assert_eq!(s.rearm, vec![0]);
    assert_eq!(c.messages_recv(), 1);
}

#[test]
fn controller_messages() {
    assert_eq!(
        TaskRuntime::handle_controller_message(ControlMessage::Commit { epoch: 3 }),
        Ok(vec![Action::HandleCommit(3)])
    );
    assert_eq!(TaskRuntime::handle_controller_message(ControlMessage::NoOp), Ok(vec![]));
    assert_eq!(
        TaskRuntime::handle_controller_message(ControlMessage::Checkpoint(barrier(1, false))),
        Err(RuntimeError::WrongChannel)
    );
    assert_eq!(
        TaskRuntime::handle_controller_message(ControlMessage::Stop { mode: StopMode::Graceful }),
        Err(RuntimeError::WrongChannel)
    );
}

#[test]
fn timers_schedule_and_cancel() {
    let mut c = ctx(1);
    assert_eq!(c.schedule_timer(b"a".to_vec(), 5, vec![9]), Ok(()));
    assert_eq!(c.schedule_timer(b"a".to_vec(), 5, vec![8]), Err(TimerError::Duplicate));
    assert_eq!(c.schedule_timer(b"b".to_vec(), 5, vec![7]), Ok(()));
    assert_eq!(c.cancel_timer(&b"a".to_vec(), 5), Some(vec![9]));
    assert_eq!(c.cancel_timer(&b"a".to_vec(), 5), None);
    assert_eq!(c.timers().len(), 1);
}

#[test]
fn restored_context_keeps_watermark() {
    let c = ArrowContext::new(info(), Some(50), 2, ArrowCollector::new(vec![1], false));
    assert_eq!(c.watermark(), Some(Watermark::EventTime(50)));
    assert_eq!(c.last_present_watermark(), Some(50));
}

#[test]
fn timer_table_is_reserved() {
    let user = TableDescriptor {
        name: "left".to_string(),
        description: "left join data".to_string(),
        table_type: TableType::TimeKeyed,
        retention_micros: 0,
    };
    let all = task_tables(vec![user.clone()]).unwrap();
    assert_eq!(all.len(), 2);
    assert_eq!(all[0], user);
    assert_eq!(all[1].name, TIMER_TABLE);
    assert_eq!(all[1].table_type, TableType::TimeKeyed);
    let clash = TableDescriptor { name: "[".to_string(), ..user };
    assert_eq!(task_tables(vec![clash]), Err(TableError::ReservedName));
}
