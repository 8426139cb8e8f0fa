use arroyo_operator::routing::{hash_key, server_for_hash, ArrowCollector, Destination, RoutingError};
use arroyo_operator::types::{RecordBatch, Row};

fn single(key: &[u8]) -> RecordBatch {
    RecordBatch { rows: vec![Row { key: key.to_vec(), timestamp: 1, values: vec![7] }] }
}

#[test]
fn server_for_hash_boundaries() {
    assert_eq!(server_for_hash(0, 4), 0);
    assert_eq!(server_for_hash(u64::MAX, 4), 3);
    let mid = server_for_hash(u64::MAX / 2, 4);
    assert!(mid == 1 || mid == 2);
    assert_eq!(mid, 2);
}

#[test]
fn server_for_hash_single_partition() {
    assert_eq!(server_for_hash(0, 1), 0);
    assert_eq!(server_for_hash(u64::MAX, 1), 0);
    assert_eq!(server_for_hash(12345, 1), 0);
}

#[test]
fn server_for_hash_stays_in_range() {
    for n in 1..20usize {
        for h in [0u64, 1, 17, u64::MAX / 3, u64::MAX / 2, u64::MAX - 1, u64::MAX] {
            assert!(server_for_hash(h, n) < n);
        }
    }
}

#[test]
fn server_for_hash_equal_ranges() {
    // u64::MAX / 4 = 4611686018427387903
    assert_eq!(server_for_hash(4611686018427387902, 4), 0);
    assert_eq!(server_for_hash(4611686018427387903, 4), 1);
    assert_eq!(server_for_hash(2 * 4611686018427387903, 4), 2);
}

#[test]
fn keyed_routing_is_stable() {
    let mut c = ArrowCollector::new(vec![4], true);
    let expected = server_for_hash(hash_key(&b"k".to_vec()), 4);
    for _ in 0..1000 {
        let d = c.collect(&single(b"k")).unwrap();
        assert_eq!(d, vec![Destination { operator: 0, partition: expected }]);
    }
    assert_eq!(c.sent_messages(), 1000);
}

#[test]
fn hash_depends_on_key() {
    let a = hash_key(&b"alpha".to_vec());
    let b = hash_key(&b"beta".to_vec());
    assert_eq!(a, hash_key(&b"alpha".to_vec()));
    assert_ne!(a, b);
    assert_ne!(hash_key(&vec![]), hash_key(&vec![0u8]));
}

#[test]
fn keyed_routing_needs_one_row() {
    let mut c = ArrowCollector::new(vec![3], true);
    let two = RecordBatch {
        rows: vec![
            Row { key: vec![1], timestamp: 1, values: vec![] },
            Row { key: vec![2], timestamp: 1, values: vec![] },
        ],
    };
    assert_eq!(c.collect(&two), Err(RoutingError::NotSingleRow));
    assert_eq!(c.collect(&RecordBatch { rows: vec![] }), Err(RoutingError::NotSingleRow));
    assert_eq!(c.sent_messages(), 0);
}

#[test]
fn unkeyed_routing_picks_one_partition_per_operator() {
    let mut c = ArrowCollector::new(vec![2, 5], false);
    for _ in 0..50 {
        let d = c.collect(&single(b"x")).unwrap();
        assert_eq!(d.len(), 2);
        assert_eq!(d[0].operator, 0);
        assert!(d[0].partition < 2);
        assert_eq!(d[1].operator, 1);
        assert!(d[1].partition < 5);
    }
}

#[test]
fn keyed_routing_to_several_operators() {
    let mut c = ArrowCollector::new(vec![2, 8], true);
    let h = hash_key(&b"user-9".to_vec());
    let d = c.collect(&single(b"user-9")).unwrap();
    assert_eq!(
        d,
        vec![
            Destination { operator: 0, partition: server_for_hash(h, 2) },
            Destination { operator: 1, partition: server_for_hash(h, 8) },
        ]
    );
    assert_eq!(c.route_hash(h), d);
}

#[test]
fn broadcast_reaches_every_queue() {
    let mut c = ArrowCollector::new(vec![2, 1], true);
    let d = c.broadcast();
    assert_eq!(
        d,
        vec![
            Destination { operator: 0, partition: 0 },
            Destination { operator: 0, partition: 1 },
            Destination { operator: 1, partition: 0 },
        ]
    );
    assert_eq!(c.sent_messages(), 3);
}
