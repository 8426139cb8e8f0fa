use arroyo_operator::types::Window;
use arroyo_operator::windows::{
    InstantWindowAssigner, SlidingWindowAssigner, TimeWindowAssigner, TumblingWindowAssigner,
};

const MS: u64 = 1_000_000;

#[test]
fn tumbling_windows() {
    let a = TumblingWindowAssigner { size: 1000 * MS };
    assert_eq!(a.windows(1500 * MS), vec![Window { start: 1000 * MS, end: 2000 * MS }]);
    assert_eq!(a.windows(1000 * MS), vec![Window { start: 1000 * MS, end: 2000 * MS }]);
    assert_eq!(a.windows(0), vec![Window { start: 0, end: 1000 * MS }]);
    assert_eq!(a.windows(999 * MS), vec![Window { start: 0, end: 1000 * MS }]);
    assert_eq!(
        a.next(Window { start: 1000 * MS, end: 2000 * MS }),
        Window { start: 2000 * MS, end: 3000 * MS }
    );
    assert_eq!(a.safe_retention_duration(), Some(1000 * MS));
}

#[test]
fn sliding_windows() {
    let a = SlidingWindowAssigner { size: 1000 * MS, slide: 500 * MS };
    assert_eq!(
        a.windows(1200 * MS),
        vec![
            Window { start: 500 * MS, end: 1500 * MS },
            Window { start: 1000 * MS, end: 2000 * MS },
        ]
    );
    assert_eq!(
        a.next(Window { start: 500 * MS, end: 1500 * MS }),
        Window { start: 1000 * MS, end: 2000 * MS }
    );
    assert_eq!(a.safe_retention_duration(), Some(1000 * MS));
}

#[test]
fn sliding_windows_on_boundary_and_early() {
    let a = SlidingWindowAssigner { size: 1000, slide: 500 };
    assert_eq!(
        a.windows(1000),
        vec![Window { start: 500, end: 1500 }, Window { start: 1000, end: 2000 }]
    );
    assert_eq!(a.windows(200), vec![Window { start: 0, end: 1000 }]);
    let b = SlidingWindowAssigner { size: 1000, slide: 300 };
    assert_eq!(
        b.windows(1200),
        vec![
            Window { start: 300, end: 1300 },
            Window { start: 600, end: 1600 },
            Window { start: 900, end: 1900 },
            Window { start: 1200, end: 2200 },
        ]
    );
    assert_eq!(b.windows(1100).len(), 3);
}

#[test]
fn sliding_windows_with_gaps() {
    let a = SlidingWindowAssigner { size: 100, slide: 1000 };
    assert_eq!(a.windows(1050), vec![Window { start: 1000, end: 1100 }]);
    assert_eq!(a.windows(1500), vec![]);
}

#[test]
fn instant_windows() {
    let a = InstantWindowAssigner {};
    assert_eq!(a.windows(42), vec![Window { start: 42, end: 43 }]);
    assert_eq!(a.next(Window { start: 42, end: 43 }), Window { start: 1042, end: 1043 });
    assert_eq!(a.safe_retention_duration(), Some(0));
}
