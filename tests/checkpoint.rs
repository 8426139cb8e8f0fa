use arroyo_operator::checkpoint::{AlignmentError, CheckpointCounter};
use arroyo_operator::types::CheckpointBarrier;

fn b(epoch: u32) -> CheckpointBarrier {
    CheckpointBarrier { epoch, timestamp: 0, then_stop: false }
}

#[test]
fn single_input_aligns_at_once() {
    let mut c = CheckpointCounter::new(1);
    assert!(c.all_clear());
    assert_eq!(c.mark(0, &b(1)), Ok(true));
    assert!(c.all_clear());
    assert!(!c.is_blocked(0));
}

#[test]
fn two_inputs_block_until_both_deliver() {
    let mut c = CheckpointCounter::new(2);
    assert_eq!(c.mark(0, &b(1)), Ok(false));
    assert!(c.is_blocked(0));
    assert!(!c.is_blocked(1));
    assert!(!c.all_clear());
    assert_eq!(c.mark(1, &b(1)), Ok(true));
    assert!(c.all_clear());
    assert!(!c.is_blocked(0));
}

#[test]
fn alignment_errors() {
    let mut c = CheckpointCounter::new(3);
    assert_eq!(c.mark(5, &b(1)), Err(AlignmentError::NoSuchInput));
    assert_eq!(c.mark(0, &b(2)), Ok(false));
    assert_eq!(c.mark(0, &b(2)), Err(AlignmentError::AlreadyBlocked));
    assert_eq!(c.mark(1, &b(3)), Err(AlignmentError::EpochMismatch));
    assert_eq!(c.mark(1, &b(2)), Ok(false));
    assert_eq!(c.mark(2, &b(2)), Ok(true));
    assert_eq!(c.mark(0, &b(2)), Err(AlignmentError::StaleEpoch));
    assert_eq!(c.mark(0, &b(1)), Err(AlignmentError::StaleEpoch));
    assert_eq!(c.mark(0, &b(3)), Ok(false));
}
