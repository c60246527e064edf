use tsdb_engine::lsm::memtable::MemTable;
use tsdb_engine::TimeSeriesPoint;

fn point(timestamp: i64, value: f64) -> TimeSeriesPoint {
    TimeSeriesPoint { timestamp, value_bits: value.to_bits() }
}

#[test]
fn insert_and_drain_sorted() {
    let mut mt = MemTable::new(1024 * 1024);
    mt.insert(point(300, 3.0));
    mt.insert(point(100, 1.0));
    mt.insert(point(200, 2.0));

    let points = mt.drain_sorted();
    assert_eq!(points.len(), 3);
    assert_eq!(points[0].timestamp, 100);
    assert_eq!(points[1].timestamp, 200);
    assert_eq!(points[2].timestamp, 300);
    assert!(mt.is_empty());
}

#[test]
fn is_full_triggers_at_capacity() {
    let mut mt = MemTable::new(256);
    assert!(!mt.is_full());
    for i in 0..10 {
        mt.insert(point(i, i as f64));
    }
    assert!(mt.is_full());
}

#[test]
fn duplicate_timestamps_overwrite() {
    let mut mt = MemTable::new(1024 * 1024);
    mt.insert(point(100, 1.0));
    mt.insert(point(100, 2.0));
    assert_eq!(mt.len(), 1);
    let points = mt.drain_sorted();
    assert_eq!(f64::from_bits(points[0].value_bits), 2.0);
}

#[test]
fn is_full_at_exactly_the_capacity() {
    let mut mt = MemTable::new(128);
    mt.insert(point(1, 1.0));
    mt.insert(point(1, 2.0));
    assert!(!mt.is_full());
    assert!(!mt.is_full_with(1));
    assert!(mt.is_full_with(2));
    mt.insert(point(2, 1.0));
    assert!(mt.is_full());
    mt.drain_sorted();
    assert!(!mt.is_full());
    assert!(MemTable::new(0).is_full());
}

#[test]
fn range_includes_both_ends() {
    let mut mt = MemTable::new(1024);
    for i in -3..4 {
        mt.insert(point(i * 10, i as f64));
    }
    assert_eq!(mt.scan_range(-10, 20), vec![
        point(-10, -1.0),
        point(0, 0.0),
        point(10, 1.0),
        point(20, 2.0),
    ]);
    assert_eq!(mt.scan_range(1, 9), vec![]);
    assert_eq!(mt.scan_range(i64::MIN, i64::MAX), mt.scan_all());
    assert_eq!(mt.len(), 7);
}
