use tsdb_engine::lsm::engine::COMPACTION_THRESHOLD;
use tsdb_engine::lsm::names::{list_sst_files, sst_name};
use tsdb_engine::lsm::protocol::{Action, Event};
use tsdb_engine::lsm::sstable::{SSTableReader, SSTableWriter};
use tsdb_engine::lsm::table_format::TableError;
use tsdb_engine::lsm::wal::Wal;
use tsdb_engine::{TimeSeriesPoint, TsdbEngine};

fn point(timestamp: i64, value: f64) -> TimeSeriesPoint {
    TimeSeriesPoint { timestamp, value_bits: value.to_bits() }
}

/// A directory that is kept in memory.
struct Directory {
    log: Vec<u8>,
    files: Vec<(Vec<u8>, Vec<u8>)>,
}

impl Directory {
    fn new() -> Self {
        Directory { log: Vec::new(), files: Vec::new() }
    }

    /// The names of all files, the newest first.
    fn names(&self) -> Vec<Vec<u8>> {
        let mut names: Vec<Vec<u8>> = self.files.iter().map(|f| f.0.clone()).rev().collect();
        names.push(b"wal.bin".to_vec());
        names
    }

    fn read(&self, name: &[u8]) -> SSTableReader {
        let contents = self.files.iter().find(|f| f.0 == name).unwrap().1.clone();
        assert!(SSTableReader::can_open(&contents));
        match SSTableReader::open(contents) {
            Ok(reader) => reader,
            Err(_) => panic!("the table does not open"),
        }
    }

    fn tables(&self) -> Vec<SSTableReader> {
        list_sst_files(self.names()).iter().map(|name| self.read(name)).collect()
    }

    fn perform(&mut self, action: Action) -> Event {
        match action {
            Action::AppendToLog(bytes) => {
                self.log.extend(bytes);
                Event::Done
            }
            Action::WriteTable(name, contents) => {
                assert!(self.files.iter().all(|f| f.0 != name));
                self.files.push((name, contents));
                Event::Done
            }
            Action::ResetLog => {
                self.log.clear();
                Event::Done
            }
            Action::ListFiles => Event::Files(self.names()),
            Action::ReadTable(name) => Event::Table(self.read(&name)),
            Action::RemoveFiles(names) => {
                self.files.retain(|f| !names.contains(&f.0));
                Event::Done
            }
            Action::Finish(_) => unreachable!(),
        }
    }
}

/// An engine and its directory.
struct Database {
    directory: Directory,
    engine: TsdbEngine,
}

impl Database {
    fn open(capacity: usize) -> Self {
        let directory = Directory::new();
        let engine = TsdbEngine::open(&directory.names(), capacity);
        Database { directory, engine }
    }

    fn recover(mut directory: Directory, capacity: usize) -> Self {
        let whole = Wal::whole_len(&directory.log);
        directory.log.truncate(whole);
        let engine = TsdbEngine::recover(&directory.names(), &directory.log, capacity);
        Database { directory, engine }
    }

    fn run(&mut self, mut action: Action) -> Result<(), TableError> {
        loop {
            if let Action::Finish(result) = action {
                return result;
            }
            let event = self.directory.perform(action);
            assert!(self.engine.can_step(&event));
            action = self.engine.step(event);
        }
    }

    fn write(&mut self, point: TimeSeriesPoint) -> Result<(), TableError> {
        let action = self.engine.write(point);
        self.run(action)
    }

    fn write_batch(&mut self, points: &[TimeSeriesPoint]) -> Result<(), TableError> {
        assert!(self.engine.can_write_batch(points));
        let action = self.engine.write_batch(points);
        self.run(action)
    }

    fn flush(&mut self) -> Result<(), TableError> {
        assert!(self.engine.can_flush());
        let action = self.engine.flush();
        self.run(action)
    }

    fn compact(&mut self) -> Result<(), TableError> {
        let action = self.engine.compact();
        self.run(action)
    }

    fn sst_count(&self) -> usize {
        TsdbEngine::sst_count(&self.directory.names())
    }

    fn scan_range(&self, start: i64, end: i64) -> Result<Vec<TimeSeriesPoint>, TableError> {
        let tables = self.directory.tables();
        assert!(TsdbEngine::can_scan_range(&tables, start, end));
        self.engine.scan_range(start, end, &tables)
    }

    fn scan_all(&self) -> Result<Vec<TimeSeriesPoint>, TableError> {
        let tables = self.directory.tables();
        assert!(TsdbEngine::can_scan_all(&tables));
        self.engine.scan_all(&tables)
    }
}

#[test]
fn write_and_flush() {
    let mut db = Database::open(512);
    for i in 0..100 {
        db.write(point(i * 1_000_000, 20.0 + i as f64 * 0.1)).unwrap();
    }
    assert!(!list_sst_files(db.directory.names()).is_empty());
}

#[test]
fn crash_recovery() {
    let mut db = Database::open(1024 * 1024);
    for i in 0..50 {
        db.write(point(i * 1000, i as f64)).unwrap();
    }
    let db = Database::recover(db.directory, 1024 * 1024);
    assert_eq!(db.engine.memtable_len(), 50);
}

#[test]
fn scan_range_merges_memtable_and_sstable() {
    let mut db = Database::open(4096);
    for i in 0..50 {
        db.write(point(i * 1000, i as f64)).unwrap();
    }
    db.flush().unwrap();
    for i in 50..100 {
        db.write(point(i * 1000, i as f64)).unwrap();
    }
    let results = db.scan_range(25_000, 75_000).unwrap();
    assert!(!results.is_empty());
    for p in &results {
        assert!(p.timestamp >= 25_000 && p.timestamp <= 75_000);
    }
    assert_eq!(results.first().unwrap().timestamp, 25_000);
    assert_eq!(results.last().unwrap().timestamp, 75_000);
}

#[test]
fn scan_all_returns_complete_dataset() {
    let mut db = Database::open(4096);
    for i in 0..30 {
        db.write(point(i * 100, i as f64)).unwrap();
    }
    db.flush().unwrap();
    for i in 30..60 {
        db.write(point(i * 100, i as f64)).unwrap();
    }
    let all = db.scan_all().unwrap();
    assert_eq!(all.len(), 60);
    for w in all.windows(2) {
        assert!(w[0].timestamp < w[1].timestamp);
    }
}

#[test]
fn memtable_wins_on_timestamp_collision() {
    let mut db = Database::open(4096);
    db.write(point(1000, 1.0)).unwrap();
    db.flush().unwrap();
    db.write(point(1000, 99.0)).unwrap();
    let results = db.scan_range(0, 2000).unwrap();
    assert_eq!(results.len(), 1);
    assert_eq!(f64::from_bits(results[0].value_bits), 99.0);
}

#[test]
fn compaction_merges_sstables() {
    let mut db = Database::open(128);
    for i in 0..20 {
        db.write(point(i * 1000, i as f64)).unwrap();
    }
    let sst_count = db.sst_count();
    assert!(
        sst_count < COMPACTION_THRESHOLD,
        "after compaction sst count should be < threshold, got {}",
        sst_count
    );
    let all = db.scan_all().unwrap();
    assert_eq!(all.len(), 20);
}

#[test]
fn manual_compact_deduplicates() {
    let mut db = Database::open(4096);
    for i in 0..10 {
        db.write(point(i * 100, i as f64)).unwrap();
    }
    db.flush().unwrap();
    for i in 5..15 {
        db.write(point(i * 100, (i * 10) as f64)).unwrap();
    }
    db.flush().unwrap();

    assert_eq!(db.sst_count(), 2);
    db.compact().unwrap();
    assert_eq!(db.sst_count(), 1);

    let all = db.scan_all().unwrap();
    assert_eq!(all.len(), 15);
    let p500 = all.iter().find(|p| p.timestamp == 500).unwrap();
    assert_eq!(f64::from_bits(p500.value_bits), 50.0);
}

#[test]
fn end_to_end_write_flush_read() {
    let mut db = Database::open(4096);
    let points: Vec<TimeSeriesPoint> = (0..500)
        .map(|i| point(1_000_000_000 + i * 1_000_000, 25.0 + (i as f64) * 0.01))
        .collect();
    for &p in &points {
        db.write(p).unwrap();
    }
    db.flush().unwrap();

    let all_read = db.scan_all().unwrap();
    assert_eq!(all_read.len(), points.len());
    for (orig, read) in points.iter().zip(all_read.iter()) {
        assert_eq!(orig.timestamp, read.timestamp);
        assert_eq!(orig.value_bits, read.value_bits);
    }
}

#[test]
fn crash_recovery_via_wal_replay() {
    let mut db = Database::open(1024 * 1024);
    for i in 0..50 {
        db.write(point(i * 1_000_000, 100.0 + i as f64)).unwrap();
    }
    db.flush().ok();

    let db = Database::recover(db.directory, 1024 * 1024);
    let has_sst_data = !list_sst_files(db.directory.names()).is_empty();
    let has_memtable_data = db.engine.memtable_len() > 0;
    assert!(has_sst_data || has_memtable_data);
}

#[test]
fn query_merges_memtable_and_multiple_sstables() {
    let mut db = Database::open(4096);
    for i in 0..100 {
        db.write(point(i * 1000, i as f64)).unwrap();
    }
    db.flush().unwrap();
    for i in 100..200 {
        db.write(point(i * 1000, i as f64)).unwrap();
    }
    let results = db.scan_range(50_000, 150_000).unwrap();
    assert!(!results.is_empty());
    assert_eq!(results.first().unwrap().timestamp, 50_000);
    assert_eq!(results.last().unwrap().timestamp, 150_000);
    for w in results.windows(2) {
        assert!(w[0].timestamp <= w[1].timestamp);
    }
}

#[test]
fn compaction_reduces_sst_count_and_preserves_data() {
    let mut db = Database::open(256);
    let total_points = 200;
    for i in 0..total_points {
        db.write(point(i * 1000, i as f64)).unwrap();
    }
    db.flush().unwrap();

    assert!(
        db.sst_count() < COMPACTION_THRESHOLD,
        "expected < {} SSTables after compaction, got {}",
        COMPACTION_THRESHOLD,
        db.sst_count()
    );

    let all = db.scan_all().unwrap();
    assert_eq!(all.len(), total_points as usize);
    for w in all.windows(2) {
        assert!(w[0].timestamp < w[1].timestamp);
    }
}

#[test]
fn write_asks_for_the_log_first() {
    let mut engine = TsdbEngine::open(&vec![], 64);
    let p = point(5, 0.5);
    let mut wal = Wal::open();
    wal.append(p);
    let record = wal.take_buffered();

    assert!(matches!(engine.write(p), Action::AppendToLog(bytes) if bytes == record));
    assert_eq!(engine.memtable_len(), 0);
    let mut writer = SSTableWriter::create();
    writer.write_all(&[p]);
    let image = writer.finish();
    match engine.step(Event::Done) {
        Action::WriteTable(name, contents) => {
            assert_eq!(name, b"000001.sst".to_vec());
            assert_eq!(contents, image);
        }
        _ => panic!("no table is written"),
    }
    assert_eq!(engine.memtable_len(), 0);
    assert!(matches!(engine.step(Event::Done), Action::ResetLog));
    assert!(matches!(engine.step(Event::Done), Action::ListFiles));
    assert!(matches!(engine.step(Event::Files(vec![])), Action::Finish(Ok(()))));
}

#[test]
fn batch_flushes_once_at_its_end() {
    let mut db = Database::open(128);
    let points: Vec<TimeSeriesPoint> = (0..10).map(|i| point(i, i as f64)).collect();
    db.write_batch(&points).unwrap();
    assert_eq!(db.sst_count(), 1);
    assert_eq!(db.engine.memtable_len(), 0);
    assert!(db.directory.log.is_empty());
    db.write_batch(&[]).unwrap();
    assert_eq!(db.sst_count(), 1);
    assert_eq!(db.scan_all().unwrap(), points);
}

#[test]
fn empty_batch_flushes_what_a_recovery_left_full() {
    let mut db = Database::open(1024);
    db.write_batch(&[point(1, 1.0), point(2, 2.0)]).unwrap();
    let mut db = Database::recover(db.directory, 64);
    assert_eq!(db.engine.memtable_len(), 2);
    db.write_batch(&[]).unwrap();
    assert_eq!(db.engine.memtable_len(), 0);
    assert_eq!(db.sst_count(), 1);
}

#[test]
fn flush_of_nothing_does_nothing() {
    let mut db = Database::open(0);
    db.flush().unwrap();
    db.compact().unwrap();
    assert_eq!(db.sst_count(), 0);
    assert_eq!(db.scan_all().unwrap(), vec![]);
}

#[test]
fn tables_are_merged_at_the_threshold() {
    let mut db = Database::open(64);
    for i in 0..(COMPACTION_THRESHOLD as i64 - 1) {
        db.write(point(i, i as f64)).unwrap();
        assert_eq!(db.sst_count(), i as usize + 1);
    }
    db.write(point(3, 3.0)).unwrap();
    assert_eq!(list_sst_files(db.directory.names()), vec![b"000005.sst".to_vec()]);
    assert_eq!(db.scan_all().unwrap(), (0..4).map(|i| point(i, i as f64)).collect::<Vec<_>>());
}

#[test]
fn one_table_is_not_merged() {
    let mut db = Database::open(1024);
    db.write(point(1, 1.0)).unwrap();
    db.flush().unwrap();
    db.compact().unwrap();
    assert_eq!(list_sst_files(db.directory.names()), vec![b"000001.sst".to_vec()]);
}

#[test]
fn numbers_go_on_after_recovery() {
    let mut db = Database::open(64);
    db.write(point(1, 1.0)).unwrap();
    db.write(point(2, 2.0)).unwrap();
    let mut db = Database::recover(db.directory, 64);
    db.write(point(3, 3.0)).unwrap();
    assert_eq!(
        list_sst_files(db.directory.names()),
        vec![b"000001.sst".to_vec(), b"000002.sst".to_vec(), b"000003.sst".to_vec()]
    );
}

#[test]
fn results_are_sorted_over_overlapping_tables() {
    let mut db = Database::open(4096);
    db.write_batch(&[point(10, 1.0), point(30, 1.0)]).unwrap();
    db.flush().unwrap();
    db.write_batch(&[point(20, 2.0), point(30, 2.0), point(40, 2.0)]).unwrap();
    db.flush().unwrap();
    db.write(point(20, 3.0)).unwrap();
    assert_eq!(db.scan_all().unwrap(), vec![
        point(10, 1.0),
        point(20, 3.0),
        point(30, 1.0),
        point(30, 2.0),
        point(40, 2.0),
    ]);
    assert_eq!(db.scan_range(15, 30).unwrap(), vec![
        point(20, 3.0),
        point(30, 1.0),
        point(30, 2.0),
    ]);
}

#[test]
fn memory_hides_every_older_value_at_its_timestamp() {
    let mem = vec![point(1, 9.0), point(3, 9.0)];
    let sst = vec![point(0, 1.0), point(1, 1.0), point(1, 2.0), point(2, 1.0), point(3, 1.0)];
    assert_eq!(TsdbEngine::merge_sorted(&mem, &sst), vec![
        point(0, 1.0),
        point(1, 9.0),
        point(2, 1.0),
        point(3, 9.0),
    ]);
    assert_eq!(TsdbEngine::merge_sorted(&vec![], &sst), sst);
    assert_eq!(TsdbEngine::merge_sorted(&mem, &vec![]), mem);
}

#[test]
fn range_scan_is_the_part_of_a_full_scan() {
    let mut db = Database::open(640);
    for i in 0..100 {
        db.write(point(i * 37 % 101 * 10, i as f64)).unwrap();
    }
    let all = db.scan_all().unwrap();
    for (start, end) in [(0, 0), (5, 505), (300, 310), (-100, 2000), (990, 1010)] {
        let part: Vec<TimeSeriesPoint> =
            all.iter().filter(|p| start <= p.timestamp && p.timestamp <= end).cloned().collect();
        assert_eq!(db.scan_range(start, end).unwrap(), part);
    }
}

#[test]
fn crash_between_any_two_actions_loses_nothing() {
    let points: Vec<TimeSeriesPoint> = (0..8).map(|i| point(i % 5, i as f64)).collect();
    for crash_at in 0..60 {
        let mut db = Database::open(64);
        let mut performed = 0;
        let mut logged: Vec<TimeSeriesPoint> = Vec::new();
        'writes: for &p in &points {
            let mut action = db.engine.write(p);
            loop {
                if matches!(action, Action::Finish(_)) {
                    break;
                }
                if performed == crash_at {
                    break 'writes;
                }
                performed += 1;
                if matches!(action, Action::AppendToLog(_)) {
                    logged.push(p);
                }
                let event = db.directory.perform(action);
                action = db.engine.step(event);
            }
        }
        let db = Database::recover(db.directory, 1024);
        for t in 0..5 {
            let expected = logged.iter().filter(|p| p.timestamp == t).last();
            let found = db.scan_range(t, t).unwrap();
            assert_eq!(found.last(), expected, "crash at {}", crash_at);
        }
    }
}

#[test]
fn broken_table_ends_a_merge_with_its_error() {
    let mut db = Database::open(64);
    db.write(point(1, 1.0)).unwrap();
    db.write(point(2, 2.0)).unwrap();
    db.directory.files[1].1[72] = 3;
    assert_eq!(db.compact(), Err(TableError::UnexpectedEof));
    assert_eq!(db.sst_count(), 2);
    assert_eq!(db.scan_all(), Err(TableError::UnexpectedEof));
    assert_eq!(db.scan_range(0, 9), Err(TableError::UnexpectedEof));
    assert_eq!(db.scan_range(0, 1).unwrap(), vec![point(1, 1.0)]);
}

#[test]
fn table_that_cannot_be_read_is_not_accepted() {
    let mut db = Database::open(64);
    db.write(point(1, 1.0)).unwrap();
    db.write(point(2, 2.0)).unwrap();
    db.directory.files[0].1[73] = 1;
    let tables = db.directory.tables();
    assert!(!TsdbEngine::can_scan_all(&tables));
    assert!(!TsdbEngine::can_scan_range(&tables, 0, 9));
    assert!(TsdbEngine::can_scan_range(&tables, -2, -1));
    let action = db.engine.compact();
    let event = db.directory.perform(action);
    let action = db.engine.step(event);
    let event = db.directory.perform(action);
    assert!(!db.engine.can_step(&event));
}

#[test]
fn last_number_ends_flushes() {
    let names = vec![b"18446744073709551615.sst".to_vec()];
    let mut engine = TsdbEngine::open(&names, 64);
    assert!(engine.can_flush());
    engine.write(point(1, 1.0));
    assert!(!engine.can_step(&Event::Done));
    let mut wal = Wal::open();
    wal.append(point(1, 1.0));
    let log = wal.take_buffered();
    let engine = TsdbEngine::recover(&names, &log, 1024);
    assert!(!engine.can_flush());
    assert!(engine.can_write_batch(&[]));
    let engine = TsdbEngine::recover(&names, &log, 64);
    assert!(!engine.can_write_batch(&[]));
    assert!(engine.can_write_batch(&[point(2, 2.0)]));
}

#[test]
fn unexpected_events_are_not_accepted() {
    let mut engine = TsdbEngine::open(&vec![], 1024);
    assert!(!engine.can_step(&Event::Done));
    engine.write(point(1, 1.0));
    assert!(engine.can_step(&Event::Done));
    assert!(!engine.can_step(&Event::Files(vec![])));
    engine.compact();
    assert!(!engine.can_step(&Event::Done));
    assert!(engine.can_step(&Event::Files(vec![])));
}

#[test]
fn latest_value_stays_when_numbers_get_a_seventh_digit() {
    let mut directory = Directory::new();
    let mut writer = SSTableWriter::create();
    writer.write_all(&[point(6, 1.0), point(7, 1.0)]);
    directory.files.push((sst_name(999_998), writer.finish()));
    let mut db = Database::recover(directory, 1024);
    db.write_batch(&[point(7, 2.0), point(8, 2.0)]).unwrap();
    db.flush().unwrap();
    db.write_batch(&[point(7, 3.0), point(9, 3.0)]).unwrap();
    db.flush().unwrap();
    assert_eq!(
        list_sst_files(db.directory.names()),
        vec![sst_name(999_998), sst_name(999_999), sst_name(1_000_000)]
    );
    db.compact().unwrap();
    assert_eq!(list_sst_files(db.directory.names()), vec![sst_name(1_000_001)]);
    assert_eq!(db.scan_all().unwrap(), vec![
        point(6, 1.0),
        point(7, 3.0),
        point(8, 2.0),
        point(9, 3.0),
    ]);
}

#[test]
fn flush_keeps_what_a_scan_finds() {
    for step in [64, 256, 2048] {
        let mut db = Database::open(1024);
        db.write_batch(&[point(-10, 0.0)]).unwrap();
        db.flush().unwrap();
        db.write_batch(&[point(0, 1.0), point(1, 2.0), point(2 + step, 3.0)]).unwrap();
        let before = db.scan_all().unwrap();
        db.flush().unwrap();
        assert_eq!(db.engine.memtable_len(), 0);
        assert!(Wal::replay(&db.directory.log).is_empty());
        assert_eq!(db.scan_all().unwrap(), before);
        db.compact().unwrap();
        assert_eq!(db.scan_all().unwrap(), before);
    }
}

#[test]
fn batch_ends_like_single_writes() {
    let points = [point(5, 1.0), point(3, 2.0), point(5, 3.0), point(4, 4.0), point(3, 5.0)];
    let mut batch = Database::open(1024);
    let mut single = Database::open(1024);
    for db in [&mut batch, &mut single] {
        db.write(point(4, 0.0)).unwrap();
    }
    batch.write_batch(&points).unwrap();
    for &p in &points {
        single.write(p).unwrap();
    }
    assert_eq!(batch.directory.log, single.directory.log);
    assert_eq!(Wal::replay(&batch.directory.log)[1..], points);
    assert_eq!(batch.engine.memtable_len(), 3);
    assert_eq!(single.engine.memtable_len(), 3);
    assert_eq!(batch.scan_all().unwrap(), single.scan_all().unwrap());
    assert_eq!(batch.scan_all().unwrap(), vec![point(3, 5.0), point(4, 4.0), point(5, 3.0)]);
    assert_eq!(batch.sst_count(), 0);
}

#[test]
fn writes_behind_a_cut_record_are_found_again() {
    let mut db = Database::open(1024);
    db.write_batch(&[point(1, 1.0), point(2, 2.0)]).unwrap();
    db.directory.log.truncate(40);
    let mut db = Database::recover(db.directory, 1024);
    assert_eq!(db.directory.log.len(), 24);
    db.write(point(3, 3.0)).unwrap();
    let db = Database::recover(db.directory, 1024);
    assert_eq!(db.scan_all().unwrap(), vec![point(1, 1.0), point(3, 3.0)]);
}

#[test]
fn recovery_shows_the_same_scan_at_any_capacity() {
    let mut db = Database::open(256);
    for i in 0..30 {
        db.write(point(i * 7 % 20, i as f64)).unwrap();
    }
    db.write(point(100, 1.0)).unwrap();
    let mut expected = db.scan_all().unwrap();
    for capacity in [0, 64, 1024, 64] {
        db = Database::recover(db.directory, capacity);
        let found = db.scan_all().unwrap();
        assert_eq!(found, expected);
        expected = found;
    }
}

#[test]
fn crash_while_a_table_is_written_keeps_the_rest() {
    let mut db = Database::open(1024);
    db.write(point(1, 1.0)).unwrap();
    db.flush().unwrap();
    db.write(point(2, 2.0)).unwrap();
    let before = db.scan_all().unwrap();
    let (name, contents) = match db.engine.flush() {
        Action::WriteTable(name, contents) => (name, contents),
        _ => panic!("no table is written"),
    };
    db.directory.files.push((name, contents[..40].to_vec()));
    assert!(matches!(
        SSTableReader::open(db.directory.files[1].1.clone()),
        Err(TableError::FileTooSmall)
    ));
    // The table that was cut short is taken away.
    db.directory.files.truncate(1);
    let db = Database::recover(db.directory, 1024);
    assert_eq!(db.scan_all().unwrap(), before);
}

#[test]
fn empty_range_on_empty_memory() {
    let mut db = Database::open(64);
    db.write(point(5, 1.0)).unwrap();
    assert_eq!(db.engine.memtable_len(), 0);
    assert_eq!(db.scan_range(9, 1).unwrap(), vec![]);
}
