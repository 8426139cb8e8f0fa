use arroyo_operator::connectors::{ConnectionType, NexmarkConnector};
use arroyo_operator::formats::{split_registry_header, AvroFormat, HeaderError};
use arroyo_operator::runtime::{Action, Signal};
use arroyo_operator::source::{
    finish_actions, handle_source_control, sse_event_selected, subscription_messages, unpartitioned_start,
    SSESourceState,
    SourceError, SourceFinishType,
};
use arroyo_operator::types::{CheckpointBarrier, CheckpointEventType, ControlMessage, StopMode, Watermark};

#[test]
fn graceful_stop_ends_with_stop() {
    let step = handle_source_control(ControlMessage::Stop { mode: StopMode::Graceful }, Some(3)).ok().unwrap();
    assert!(step.actions.is_empty());
    assert_eq!(step.finish, Some(SourceFinishType::Graceful));
    let tail = finish_actions(SourceFinishType::Graceful);
    assert_eq!(tail, vec![Action::Close, Action::Broadcast(Signal::Stop)]);
    assert!(!tail.contains(&Action::Broadcast(Signal::EndOfData)));
    let (reads, first) = unpartitioned_start(1);
    assert!(!reads);
    assert_eq!(first, vec![Action::Broadcast(Signal::Watermark(Watermark::Idle))]);
}

#[test]
fn immediate_stop_and_final() {
    let step = handle_source_control(ControlMessage::Stop { mode: StopMode::Immediate }, None).ok().unwrap();
    assert_eq!(step.finish, Some(SourceFinishType::Immediate));
    assert_eq!(finish_actions(SourceFinishType::Immediate), vec![Action::Close]);
    assert_eq!(
        finish_actions(SourceFinishType::Final),
        vec![Action::Close, Action::Broadcast(Signal::EndOfData)]
    );
    let (reads, first) = unpartitioned_start(0);
    assert!(reads);
    assert!(first.is_empty());
}

#[test]
fn source_checkpoint() {
    let b = CheckpointBarrier { epoch: 7, timestamp: 1, then_stop: true };
    let step = handle_source_control(ControlMessage::Checkpoint(b), Some(40)).ok().unwrap();
    assert_eq!(step.actions.len(), 7);
    assert_eq!(
        step.actions[0],
        Action::CheckpointEvent { epoch: 7, event: CheckpointEventType::StartedAlignment }
    );
    assert_eq!(step.actions[2], Action::HandleCheckpoint(b));
    assert_eq!(step.actions[4], Action::SyncState { barrier: b, watermark: Some(40) });
    assert_eq!(step.actions[6], Action::Broadcast(Signal::Barrier(b)));
    assert_eq!(step.finish, Some(SourceFinishType::Immediate));
}

#[test]
fn source_refuses_commit() {
    assert!(matches!(
        handle_source_control(ControlMessage::Commit { epoch: 1 }, None),
        Err(SourceError::CommitAtSource)
    ));
    let step = handle_source_control(ControlMessage::LoadCompacted { epoch: 2 }, None).ok().unwrap();
    assert_eq!(step.actions, vec![Action::LoadCompacted(2)]);
    let noop = handle_source_control(ControlMessage::NoOp, None).ok().unwrap();
    assert!(noop.actions.is_empty() && noop.finish.is_none());
}

#[test]
fn sse_event_filter_and_state() {
    assert!(sse_event_selected(&vec![], &"any".to_string()));
    let events = vec!["bid".to_string(), "ask".to_string()];
    assert!(sse_event_selected(&events, &"ask".to_string()));
    assert!(!sse_event_selected(&events, &"trade".to_string()));
    let mut s = SSESourceState::default();
    s.observe_event_id(Some("e1".to_string()));
    s.observe_event_id(None);
    assert_eq!(s.last_id, Some("e1".to_string()));
}

#[test]
fn registry_header() {
    let reg = AvroFormat { confluent_schema_registry: true, embedded_schema: false };
    assert_eq!(split_registry_header(&reg, &[0, 0, 0, 1, 2, 9, 9]), Ok((258, 5)));
    assert_eq!(split_registry_header(&reg, &[0, 0x12, 0x34, 0x56, 0x78]), Ok((0x1234_5678, 5)));
    assert_eq!(split_registry_header(&reg, &[1, 0, 0, 0, 0]), Err(HeaderError::BadMagicByte(1)));
    assert_eq!(split_registry_header(&reg, &[0, 0, 0]), Err(HeaderError::Truncated));
    let plain = AvroFormat { confluent_schema_registry: false, embedded_schema: true };
    assert_eq!(split_registry_header(&plain, &[5, 6]), Ok((0, 0)));
}

#[test]
fn nexmark_connector() {
    let c = NexmarkConnector {};
    assert_eq!(c.name(), "nexmark");
    assert_eq!(c.table_type(), ConnectionType::Source);
}

#[test]
fn websocket_subscriptions() {
    let r = subscription_messages(Some("a".to_string()), vec!["b".to_string(), "c".to_string()]);
    assert_eq!(r, vec!["a".to_string(), "b".to_string(), "c".to_string()]);
    assert_eq!(subscription_messages(None, vec!["b".to_string()]), vec!["b".to_string()]);
    assert!(subscription_messages(None, vec![]).is_empty());
}
