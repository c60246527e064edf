use tsdb_engine::lsm::wal::{frame_record, parse_record, payload, Wal, RECORD_LEN};
use tsdb_engine::TimeSeriesPoint;

fn point(timestamp: i64, value: f64) -> TimeSeriesPoint {
    TimeSeriesPoint { timestamp, value_bits: value.to_bits() }
}

fn log_of(points: &[TimeSeriesPoint]) -> Vec<u8> {
    let mut wal = Wal::open();
    for &p in points {
        wal.append(p);
    }
    wal.take_buffered()
}

#[test]
fn write_and_replay() {
    let points = vec![point(1000, 25.5), point(2000, 26.0), point(3000, 24.8)];
    let replayed = Wal::replay(&log_of(&points));
    assert_eq!(replayed.len(), 3);
    for (orig, rep) in points.iter().zip(replayed.iter()) {
        assert_eq!(orig.timestamp, rep.timestamp);
        assert_eq!(orig.value_bits, rep.value_bits);
    }
}

#[test]
fn replay_truncated_wal() {
    let points: Vec<TimeSeriesPoint> = (0..5).map(|i| point(i * 1000, i as f64)).collect();
    let data = log_of(&points);
    let replayed = Wal::replay(&data[..data.len() - 10]);
    assert_eq!(replayed.len(), 4);
}

#[test]
fn replay_nonexistent() {
    let replayed = Wal::replay(&[]);
    assert!(replayed.is_empty());
}

#[test]
fn record_has_the_documented_bytes() {
    let expected: Vec<u8> = vec![
        0x14, 0, 0, 0, 0xba, 0x09, 0x04, 0x72, 0xe8, 0x03, 0, 0, 0, 0, 0, 0, 0, 0, 0, 0, 0, 0x80,
        0x39, 0x40,
    ];
    assert_eq!(log_of(&[point(1000, 25.5)]), expected);
    let expected: Vec<u8> = vec![
        0x14, 0, 0, 0, 0xef, 0x0a, 0x0f, 0xd9, 0xff, 0xff, 0xff, 0xff, 0xff, 0xff, 0xff, 0xff, 0,
        0, 0, 0, 0, 0, 0xf0, 0x3f,
    ];
    assert_eq!(log_of(&[point(-1, 1.0)]), expected);
}

#[test]
fn frames_and_parses_a_record_with_any_checksum() {
    let p = point(i64::MIN, -0.0);
    let record = frame_record(p, 0x1234_5678);
    assert_eq!(record.len(), 4 + RECORD_LEN as usize);
    assert_eq!(&record[8..], payload(p).as_slice());
    assert_eq!(parse_record(&record, 0x1234_5678), Some(p));
    assert_eq!(parse_record(&record, 0x1234_5679), None);
    assert_eq!(parse_record(&record[..23], 0x1234_5678), None);
}

#[test]
fn replay_stops_at_a_damaged_record() {
    let points: Vec<TimeSeriesPoint> = (0..4).map(|i| point(i, i as f64)).collect();
    let data = log_of(&points);
    for at in 0..24 {
        let mut damaged = data.clone();
        damaged[48 + at] ^= 0x40;
        assert_eq!(Wal::replay(&damaged), points[..2].to_vec(), "byte {}", at);
    }
}

#[test]
fn replay_of_every_cut_gives_the_whole_records() {
    let points: Vec<TimeSeriesPoint> = (0..3).map(|i| point(-i, i as f64)).collect();
    let data = log_of(&points);
    for len in 0..=data.len() {
        assert_eq!(Wal::replay(&data[..len]), points[..len / 24].to_vec());
    }
}

#[test]
fn taking_the_buffer_empties_it() {
    let mut wal = Wal::open();
    assert!(wal.take_buffered().is_empty());
    wal.append(point(1, 1.0));
    assert_eq!(wal.take_buffered().len(), 24);
    assert!(wal.take_buffered().is_empty());
}

#[test]
fn whole_part_ends_behind_the_last_whole_record() {
    let points: Vec<TimeSeriesPoint> = (0..3).map(|i| point(i, -0.5)).collect();
    let data = log_of(&points);
    assert_eq!(Wal::whole_len(&[]), 0);
    for len in 0..=data.len() {
        assert_eq!(Wal::whole_len(&data[..len]), len / 24 * 24);
    }
    let mut damaged = data.clone();
    damaged[30] ^= 1;
    assert_eq!(Wal::whole_len(&damaged), 24);
    assert_eq!(log_of(&Wal::replay(&damaged)), damaged[..24].to_vec());
}
