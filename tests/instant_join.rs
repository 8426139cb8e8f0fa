use arroyo_operator::instant_join::{
    join_sub_plan, side_of_input, ArroyoSchema, ConfigError, InputError, InstantJoin,
    InstantJoinConstructor, JoinError, JoinOperatorConfig, JoinedRow, Side,
};
use arroyo_operator::types::{RecordBatch, Row};

fn schema() -> ArroyoSchema {
    ArroyoSchema { fields: vec!["k".to_string(), "t".to_string(), "v".to_string()], timestamp_index: 1, key_indices: vec![0] }
}

fn join() -> InstantJoin {
    InstantJoin::new(schema(), schema(), vec![])
}

fn batch(rows: &[(&[u8], u64, i64)]) -> RecordBatch {
    RecordBatch {
        rows: rows.iter().map(|(k, t, v)| Row { key: k.to_vec(), timestamp: *t, values: vec![*v] }).collect(),
    }
}

fn emit(j: &mut InstantJoin, w: u64) -> Vec<JoinedRow> {
    let mut out = vec![];
    for plan in j.handle_watermark(w) {
        out.extend(join_sub_plan(&plan));
    }
    out
}

#[test]
fn single_timestamp_join() {
    let mut j = join();
    assert_eq!(j.process_side(Side::Left, batch(&[(b"A", 5, 1)])), Ok(()));
    assert_eq!(j.process_side(Side::Right, batch(&[(b"A", 5, 10)])), Ok(()));
    assert_eq!(
        emit(&mut j, 6),
        vec![JoinedRow { key: b"A".to_vec(), timestamp: 5, left: vec![1], right: vec![10] }]
    );
    assert!(emit(&mut j, 7).is_empty());
}

#[test]
fn restart_before_watermark() {
    let mut j = join();
    j.process_side(Side::Left, batch(&[(b"A", 5, 1)])).unwrap();
    j.process_side(Side::Right, batch(&[(b"A", 5, 10)])).unwrap();
    let cp = j.checkpoint();
    drop(j);
    let mut r = InstantJoin::restore(schema(), schema(), vec![], cp).unwrap();
    assert_eq!(
        emit(&mut r, 6),
        vec![JoinedRow { key: b"A".to_vec(), timestamp: 5, left: vec![1], right: vec![10] }]
    );
    assert!(emit(&mut r, 7).is_empty());
}

#[test]
fn restart_after_watermark_repeats_nothing() {
    let mut j = join();
    j.process_side(Side::Left, batch(&[(b"A", 5, 1), (b"A", 9, 2)])).unwrap();
    j.process_side(Side::Right, batch(&[(b"A", 5, 10), (b"A", 9, 20)])).unwrap();
    assert_eq!(emit(&mut j, 6).len(), 1);
    let cp = j.checkpoint();
    let mut r = InstantJoin::restore(schema(), schema(), vec![], cp).unwrap();
    let expected = vec![JoinedRow { key: b"A".to_vec(), timestamp: 9, left: vec![2], right: vec![20] }];
    assert_eq!(emit(&mut r, 10), expected);
    assert_eq!(emit(&mut j, 10), expected);
}

#[test]
fn late_and_empty_batches_are_refused() {
    let mut j = join();
    assert_eq!(j.process_side(Side::Left, batch(&[])), Err(JoinError::EmptyBatch));
    emit(&mut j, 10);
    assert_eq!(j.process_side(Side::Left, batch(&[(b"A", 10, 1)])), Err(JoinError::LateData));
    assert_eq!(j.process_side(Side::Left, batch(&[(b"A", 12, 1), (b"A", 3, 1)])), Err(JoinError::LateData));
    assert_eq!(j.process_side(Side::Left, batch(&[(b"A", 11, 1)])), Ok(()));
    assert_eq!(j.watermark(), Some(10));
}

#[test]
fn mixed_timestamps_split_by_time() {
    let mut j = join();
    j.process_side(Side::Left, batch(&[(b"A", 7, 1), (b"B", 5, 2), (b"A", 5, 3)])).unwrap();
    j.process_side(Side::Right, batch(&[(b"A", 5, 30), (b"B", 5, 40), (b"A", 7, 50), (b"C", 7, 60)])).unwrap();
    assert_eq!(j.open_plans(), 2);
    assert_eq!(
        emit(&mut j, 8),
        vec![
            JoinedRow { key: b"B".to_vec(), timestamp: 5, left: vec![2], right: vec![40] },
            JoinedRow { key: b"A".to_vec(), timestamp: 5, left: vec![3], right: vec![30] },
            JoinedRow { key: b"A".to_vec(), timestamp: 7, left: vec![1], right: vec![50] },
        ]
    );
    assert_eq!(j.open_plans(), 0);
}

#[test]
fn watermark_keeps_later_times_open() {
    let mut j = join();
    j.process_side(Side::Left, batch(&[(b"A", 5, 1), (b"A", 6, 2)])).unwrap();
    j.process_side(Side::Right, batch(&[(b"A", 6, 3)])).unwrap();
    assert_eq!(emit(&mut j, 6), vec![]);
    assert_eq!(j.open_plans(), 1);
    assert_eq!(emit(&mut j, 4), vec![]);
    assert_eq!(j.watermark(), Some(6));
    assert_eq!(emit(&mut j, 7).len(), 1);
}

#[test]
fn constructor_needs_both_schemas() {
    let c = InstantJoinConstructor;
    let none = JoinOperatorConfig { join_plan: vec![1, 2], left_schema: None, right_schema: Some(schema()) };
    assert!(matches!(c.with_config(none), Err(ConfigError::MissingLeftSchema)));
    let half = JoinOperatorConfig { join_plan: vec![1, 2], left_schema: Some(schema()), right_schema: None };
    assert!(matches!(c.with_config(half), Err(ConfigError::MissingRightSchema)));
    let full = JoinOperatorConfig { join_plan: vec![1, 2], left_schema: Some(schema()), right_schema: Some(schema()) };
    let j = c.with_config(full).ok().unwrap();
    assert_eq!(j.join_plan(), &vec![1, 2]);
    assert_eq!(j.input_schema(Side::Left), &schema());
}

#[test]
fn inputs_split_into_sides() {
    assert_eq!(side_of_input(0, 4), Some(Side::Left));
    assert_eq!(side_of_input(1, 4), Some(Side::Left));
    assert_eq!(side_of_input(2, 4), Some(Side::Right));
    assert_eq!(side_of_input(3, 4), Some(Side::Right));
    assert_eq!(side_of_input(4, 4), None);
    assert_eq!(side_of_input(0, 1), None);
    let mut j = join();
    assert_eq!(j.process_batch_index(5, 2, batch(&[(b"A", 1, 1)])), Err(InputError::NoSuchSide));
    assert_eq!(j.process_batch_index(1, 2, batch(&[])), Err(InputError::Join(JoinError::EmptyBatch)));
    assert_eq!(j.process_batch_index(1, 2, batch(&[(b"A", 1, 1)])), Ok(()));
}

#[test]
fn side_names() {
    assert_eq!(Side::Left.name(), "left");
    assert_eq!(Side::Right.name(), "right");
}

#[test]
fn corrupt_checkpoint_is_refused() {
    let mut j = join();
    j.process_side(Side::Left, batch(&[(b"A", 5, 1)])).unwrap();
    let mut cp = j.checkpoint();
    cp.left[0].time = 4;
    assert!(matches!(
        InstantJoin::restore(schema(), schema(), vec![], cp),
        Err(JoinError::InvalidCheckpoint)
    ));
}

#[test]
fn sub_plans_only_for_times_with_rows() {
    let mut j = join();
    assert_eq!(j.open_plans(), 0);
    j.process_side(Side::Left, batch(&[(b"A", 5, 1), (b"B", 5, 2)])).unwrap();
    assert_eq!(j.open_plans(), 1);
    j.process_side(Side::Right, batch(&[(b"A", 5, 3), (b"A", 8, 4)])).unwrap();
    assert_eq!(j.open_plans(), 2);
    let closed = j.handle_watermark(6);
    assert_eq!(closed.len(), 1);
    assert_eq!(closed[0].time, 5);
    assert_eq!(j.open_plans(), 1);
}

#[test]
fn restore_opens_one_plan_per_replayed_time() {
    let mut j = join();
    j.process_side(Side::Left, batch(&[(b"A", 5, 1), (b"A", 9, 2)])).unwrap();
    j.process_side(Side::Right, batch(&[(b"A", 9, 3), (b"B", 12, 4)])).unwrap();
    emit(&mut j, 6);
    let r = InstantJoin::restore(schema(), schema(), vec![], j.checkpoint()).unwrap();
    assert_eq!(r.open_plans(), 2);
    let empty = InstantJoin::restore(schema(), schema(), vec![], join().checkpoint()).unwrap();
    assert_eq!(empty.open_plans(), 0);
}
