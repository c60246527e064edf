use tsdb_engine::lsm::sstable::{seal, SSTableReader, SSTableWriter, BLOCK_SIZE};
use tsdb_engine::lsm::table_format::TableError;
use tsdb_engine::TimeSeriesPoint;

fn point(timestamp: i64, value: f64) -> TimeSeriesPoint {
    TimeSeriesPoint { timestamp, value_bits: value.to_bits() }
}

fn table_of(points: &[TimeSeriesPoint]) -> Vec<u8> {
    let mut writer = SSTableWriter::create();
    writer.write_all(points);
    writer.finish()
}

fn open(data: Vec<u8>) -> Result<SSTableReader, TableError> {
    assert!(SSTableReader::can_open(&data));
    SSTableReader::open(data)
}

fn error_of(data: Vec<u8>) -> Option<TableError> {
    match open(data) {
        Ok(_) => None,
        Err(error) => Some(error),
    }
}

fn read_all(data: Vec<u8>) -> Result<Vec<TimeSeriesPoint>, TableError> {
    let reader = open(data)?;
    assert!(reader.can_read_all());
    reader.read_all()
}

#[test]
fn write_and_read_back() {
    let points: Vec<TimeSeriesPoint> = (0..2500)
        .map(|i| point(1_000_000_000 + i * 1_000_000, 25.0 + (i as f64) * 0.01))
        .collect();
    let read_back = read_all(table_of(&points)).unwrap();
    assert_eq!(read_back.len(), points.len());
    for (orig, read) in points.iter().zip(read_back.iter()) {
        assert_eq!(orig.timestamp, read.timestamp);
        assert_eq!(orig.value_bits, read.value_bits);
    }
}

#[test]
fn range_scan() {
    let points: Vec<TimeSeriesPoint> = (0..5000).map(|i| point(i * 1000, i as f64)).collect();
    let reader = match open(table_of(&points)) {
        Ok(reader) => reader,
        Err(_) => panic!("the table does not open"),
    };
    assert!(reader.can_scan_up_to(2000_000));
    let range = reader.scan_range(1000_000, 2000_000).unwrap();
    for p in &range {
        assert!(p.timestamp >= 1000_000 && p.timestamp <= 2000_000);
    }
    assert!(!range.is_empty());
    assert_eq!(range, points[1000..=2000].to_vec());
}

#[test]
fn validates_magic() {
    assert!(open(vec![0u8; 100]).is_err());
    assert_eq!(error_of(vec![0u8; 100]), Some(TableError::InvalidMagic));
}

#[test]
fn compression_ratio_iot_workload() {
    let points: Vec<TimeSeriesPoint> = (0..10_000)
        .map(|i| point(1_700_000_000_000 + i * 1_000, 25.0 + (i as f64 * 0.001).sin() * 5.0))
        .collect();
    let file_size = table_of(&points).len();
    let raw_size = points.len() * 16;
    let ratio = raw_size as f64 / file_size as f64;
    assert!(
        ratio > 2.0,
        "compression ratio should be > 2x for IoT data, got {:.2}x ({} raw vs {} compressed)",
        ratio,
        raw_size,
        file_size
    );
}

#[test]
fn avx2_compression_produces_correct_sstable() {
    let points: Vec<TimeSeriesPoint> = (0..2048)
        .map(|i| point(1_000_000 + i * 1_000, 36.6 + (i as f64 * 0.01).cos() * 2.0))
        .collect();
    let read_back = read_all(table_of(&points)).unwrap();
    assert_eq!(read_back.len(), points.len());
    for (orig, read) in points.iter().zip(read_back.iter()) {
        assert_eq!(orig.timestamp, read.timestamp);
        assert_eq!(orig.value_bits, read.value_bits);
    }
}

#[test]
fn table_has_the_documented_bytes() {
    let expected: Vec<u8> = vec![
        84, 83, 68, 66, 1, 0, 3, 0, 1, 0, 0, 0, 7, 0, 0, 0, 0, 0, 0, 0, 7, 0, 0, 0, 0, 0, 0, 0, 0, 0,
        0, 0, 8, 0, 0, 0, 0, 0, 0, 0, 0, 0, 0, 7, 8, 0, 0, 0, 63, 240, 0, 0, 0, 0, 0, 0, 7, 0, 0, 0,
        0, 0, 0, 0, 32, 0, 0, 0, 0, 0, 0, 0, 24, 0, 0, 0, 1, 0, 0, 0, 56, 0, 0, 0, 0, 0, 0, 0, 24, 0,
        0, 0, 1, 0, 0, 0, 0, 0, 0, 0, 99, 89, 148, 69,
    ];
    assert_eq!(table_of(&[point(7, 1.0)]), expected);
}

#[test]
fn table_without_points() {
    let data = table_of(&[]);
    assert_eq!(data.len(), 56);
    assert_eq!(&data[52..], &[0xa4, 0x67, 0x2c, 0x0a]);
    assert_eq!(read_all(data).unwrap(), vec![]);
}

#[test]
fn checksum_goes_behind_the_image() {
    assert_eq!(seal(vec![9, 8], 0x0102_0304), vec![9, 8, 4, 3, 2, 1]);
}

#[test]
fn blocks_hold_at_most_the_block_size() {
    let points: Vec<TimeSeriesPoint> =
        (0..(2 * BLOCK_SIZE as i64 + 1)).map(|i| point(i, 0.5)).collect();
    let data = table_of(&points);
    assert_eq!(data[8], 3);
    let mut writer = SSTableWriter::create();
    writer.write_all(&points[..BLOCK_SIZE]);
    writer.write_all(&points[BLOCK_SIZE..2 * BLOCK_SIZE]);
    writer.write_all(&points[2 * BLOCK_SIZE..]);
    assert_eq!(writer.finish(), data);
    assert_eq!(read_all(data).unwrap(), points);
}

#[test]
fn header_states_lowest_and_highest_timestamp() {
    let data = table_of(&[point(-5, 1.0), point(3, 2.0), point(9, 3.0)]);
    assert_eq!(&data[12..20], &(-5i64).to_le_bytes());
    assert_eq!(&data[20..28], &9i64.to_le_bytes());
}

#[test]
fn range_scan_reads_no_block_that_starts_behind_the_range() {
    let points: Vec<TimeSeriesPoint> = (0..3000).map(|i| point(i * 10, i as f64)).collect();
    let mut data = table_of(&points);
    let index = data.len() - 24 - 3 * 24;
    // The length of the last block is beyond the file.
    data[index + 2 * 24 + 19] = 0x7f;
    let reader = match open(data) {
        Ok(reader) => reader,
        Err(_) => panic!("the table does not open"),
    };
    assert!(!reader.can_read_all());
    assert!(!reader.can_scan_up_to(20_480));
    assert!(reader.can_scan_up_to(20_479));
    assert_eq!(reader.scan_range(20_000, 20_479).unwrap(), points[2000..2048].to_vec());
}

#[test]
fn highest_differences_come_back_from_a_table() {
    for step in [64, 256, 2048] {
        let points = [point(0, 1.0), point(1, 2.0), point(2 + step, 3.0), point(9999, 4.0)];
        assert_eq!(read_all(table_of(&points)).unwrap(), points.to_vec());
    }
}

#[test]
fn short_files_are_too_small() {
    assert_eq!(error_of(vec![]), Some(TableError::FileTooSmall));
    assert_eq!(error_of(table_of(&[])[..55].to_vec()), Some(TableError::FileTooSmall));
}

#[test]
fn short_index_is_an_unexpected_end() {
    let mut data = table_of(&[]);
    data[8] = 1;
    assert_eq!(error_of(data), Some(TableError::UnexpectedEof));
}

#[test]
fn short_block_is_an_unexpected_end() {
    let mut data = table_of(&[point(7, 1.0)]);
    data[72] = 3;
    assert_eq!(read_all(data), Err(TableError::UnexpectedEof));
    let mut data = table_of(&[point(7, 1.0)]);
    data[72] = 14;
    assert_eq!(read_all(data), Err(TableError::UnexpectedEof));
}

#[test]
fn index_outside_the_file_cannot_be_opened() {
    let mut data = table_of(&[point(7, 1.0)]);
    let at = data.len() - 24;
    data[at + 1] = 1;
    assert!(!SSTableReader::can_open(&data));
}
