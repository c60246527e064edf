use tsdb_engine::lsm::points::{keep_latest, sort_by_timestamp};
use tsdb_engine::TimeSeriesPoint;

fn point(timestamp: i64, value_bits: u64) -> TimeSeriesPoint {
    TimeSeriesPoint { timestamp, value_bits }
}

#[test]
fn sorting_is_stable() {
    let points = [point(3, 1), point(1, 2), point(3, 3), point(2, 4), point(1, 5)];
    assert_eq!(sort_by_timestamp(&points), vec![
        point(1, 2),
        point(1, 5),
        point(2, 4),
        point(3, 1),
        point(3, 3),
    ]);
}

#[test]
fn sorting_agrees_with_a_stable_sort() {
    let points: Vec<TimeSeriesPoint> =
        (0..1000).map(|i: u64| point((i * 7919 % 101) as i64 - 50, i)).collect();
    let mut expected = points.clone();
    expected.sort_by_key(|p| p.timestamp);
    assert_eq!(sort_by_timestamp(&points), expected);
    assert_eq!(sort_by_timestamp(&[]), vec![]);
}

#[test]
fn latest_of_each_timestamp_is_kept() {
    let points = vec![point(1, 2), point(1, 5), point(2, 4), point(3, 1), point(3, 3)];
    assert_eq!(keep_latest(&points), vec![point(1, 5), point(2, 4), point(3, 3)]);
    assert_eq!(keep_latest(&vec![]), vec![]);
}
