use arroyo_operator::types::Watermark;
use arroyo_operator::watermark::WatermarkHolder;

#[test]
fn absent_until_every_input_reports() {
    let mut h = WatermarkHolder::new(vec![None, None]);
    assert_eq!(h.watermark(), None);
    assert_eq!(h.set(0, Watermark::EventTime(10)), Some(None));
    assert_eq!(h.watermark(), None);
    assert_eq!(h.set(1, Watermark::EventTime(5)), Some(Some(Watermark::EventTime(5))));
    assert_eq!(h.last_present_watermark(), Some(5));
}

#[test]
fn minimum_ignores_idle() {
    let mut h = WatermarkHolder::new(vec![None, None]);
    h.set(0, Watermark::EventTime(10));
    h.set(1, Watermark::EventTime(5));
    assert_eq!(h.set(1, Watermark::Idle), Some(Some(Watermark::EventTime(10))));
    assert_eq!(h.set(0, Watermark::Idle), Some(Some(Watermark::Idle)));
    assert_eq!(h.watermark(), Some(Watermark::Idle));
    assert_eq!(h.last_present_watermark(), Some(10));
}

#[test]
fn same_value_is_not_reported() {
    let mut h = WatermarkHolder::new(vec![None]);
    assert_eq!(h.set(0, Watermark::EventTime(7)), Some(Some(Watermark::EventTime(7))));
    assert_eq!(h.set(0, Watermark::EventTime(7)), Some(None));
    assert_eq!(h.set(3, Watermark::EventTime(9)), None);
}

#[test]
fn emitted_watermarks_never_decrease() {
    let mut h = WatermarkHolder::new(vec![None, None]);
    let updates = [
        (0, Watermark::EventTime(5)),
        (1, Watermark::EventTime(3)),
        (1, Watermark::Idle),
        (1, Watermark::EventTime(4)),
        (0, Watermark::EventTime(8)),
        (1, Watermark::EventTime(9)),
        (0, Watermark::Idle),
        (1, Watermark::Idle),
        (0, Watermark::EventTime(2)),
    ];
    let mut last = 0u64;
    let mut emitted = vec![];
    for (i, w) in updates {
        if let Some(Some(e)) = h.set(i, w) {
            emitted.push(e);
            if let Watermark::EventTime(t) = e {
                assert!(t >= last);
                last = t;
            }
        }
    }
    assert_eq!(
        emitted,
        vec![
            Watermark::EventTime(3),
            Watermark::EventTime(5),
            Watermark::EventTime(8),
            Watermark::EventTime(9),
            Watermark::Idle,
            Watermark::EventTime(9),
        ]
    );
}

#[test]
fn restored_holder_starts_at_checkpoint() {
    let h = WatermarkHolder::new(vec![Some(Watermark::EventTime(100)); 3]);
    assert_eq!(h.watermark(), Some(Watermark::EventTime(100)));
    assert_eq!(h.last_present_watermark(), Some(100));
    let empty = WatermarkHolder::new(vec![]);
    assert_eq!(empty.watermark(), Some(Watermark::Idle));
}
