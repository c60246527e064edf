//! The engine: writes go to the log and to memory, from there to tables, and tables are merged.
use super::memtable::MemTable;
use super::names::{
    count_sst_files, find_max_seq, list_sst_files, listing, max_seq, sst_name, table_name, views,
};
use super::points::{
    keep_latest, lemma_at_add, lemma_at_beside, lemma_at_push, lemma_beside_push, lemma_is_sort,
    lemma_merge_of_sorted, lemma_newest_by_timestamp, lemma_newest_is_last_at, lemma_newest_push,
    lemma_nothing_at, lemma_strict_member, map_points, map_points_list_the_map, merge_points,
    newest, points_at, points_beside, points_within, sort_by_timestamp, sort_is_stable,
    sort_points, sorted, strictly_sorted,
};
pub use super::protocol::COMPACTION_THRESHOLD;
use super::protocol::{
    accepts, compacting, finished, flushing, is_full, merging, next, table_of, writing, Action,
    ActionView, EngineView, Event, StageView,
};
use super::sstable::{SSTableReader, SSTableWriter};
use super::table_format::{all_points, blocks_of, chained, TableError};
use super::wal::{record_bytes, replayed, Wal};
use crate::types::TimeSeriesPoint;
use vstd::prelude::*;

verus! {

/// What the engine is waiting for.
enum Stage {
    Idle,
    Logging(Vec<TimeSeriesPoint>, usize),
    WritingTable,
    ResettingLog,
    Listing(usize),
    Reading(Vec<Vec<u8>>, usize, Vec<TimeSeriesPoint>),
    WritingMerged(Vec<Vec<u8>>),
    Removing,
}

impl Stage {
    spec fn view(&self) -> StageView {
        match self {
            Stage::Idle => StageView::Idle,
            Stage::Logging(points, at) => StageView::Logging(points@.skip(*at as int)),
            Stage::WritingTable => StageView::WritingTable,
            Stage::ResettingLog => StageView::ResettingLog,
            Stage::Listing(at_least) => StageView::Listing(*at_least),
            Stage::Reading(names, n, points) => StageView::Reading(
                views(names@),
                *n as nat,
                points@,
            ),
            Stage::WritingMerged(names) => StageView::WritingMerged(views(names@)),
            Stage::Removing => StageView::Removing,
        }
    }
}

/// What reading each table gives.
pub open spec fn contents(tables: Seq<SSTableReader>) -> Seq<
    Option<Result<Seq<TimeSeriesPoint>, TableError>>,
> {
    Seq::new(tables.len(), |i: int| tables[i].points())
}

/// What scanning each table gives.
pub open spec fn ranges(tables: Seq<SSTableReader>, start: i64, end: i64) -> Seq<
    Option<Result<Seq<TimeSeriesPoint>, TableError>>,
> {
    Seq::new(tables.len(), |i: int| tables[i].range(start, end))
}

/// Where several reads in turn do not break, nor do the first ones.
proof fn lemma_chained_prefix(reads: Seq<Option<Result<Seq<TimeSeriesPoint>, TableError>>>, n: int)
    requires
        0 <= n <= reads.len(),
    ensures
        chained(reads.take(n)) is None ==> chained(reads) is None,
        chained(reads.take(n)) matches Some(Err(e)) ==> chained(reads) == Some(
            Err::<Seq<TimeSeriesPoint>, TableError>(e),
        ),
    decreases reads.len(),
{
    if n == reads.len() {
        assert(reads.take(n) =~= reads);
    } else {
        lemma_chained_prefix(reads.drop_last(), n);
        assert(reads.drop_last().take(n) =~= reads.take(n));
    }
}

/// The next of several reads, where those before it succeed.
proof fn lemma_chained_next(reads: Seq<Option<Result<Seq<TimeSeriesPoint>, TableError>>>, i: int)
    requires
        0 <= i < reads.len(),
        chained(reads.take(i)) matches Some(Ok(_)),
        chained(reads) is Some,
    ensures
        reads[i] is Some,
        reads[i] matches Some(Err(e)) ==> chained(reads) == Some(
            Err::<Seq<TimeSeriesPoint>, TableError>(e),
        ),
        reads[i] matches Some(Ok(more)) ==> chained(reads.take(i + 1)) == Some(
            Ok::<Seq<TimeSeriesPoint>, TableError>(chained(reads.take(i))->0->Ok_0 + more),
        ),
{
    assert(reads.take(i + 1).drop_last() =~= reads.take(i));
    lemma_chained_prefix(reads, i + 1);
}

/// A time series of one directory: what is in memory, and what is being done.
pub struct TsdbEngine {
    memtable: MemTable,
    wal: Wal,
    sstable_seq: u64,
    stage: Stage,
}

impl TsdbEngine {
    pub closed spec fn view(&self) -> EngineView {
        EngineView {
            mem: self.memtable@,
            capacity: self.memtable.capacity(),
            seq: self.sstable_seq,
            stage: self.stage@,
        }
    }

    /// Nothing waits to be appended to the log between two steps, and there is always a point to
    /// log and a table to read.
    pub closed spec fn wf(&self) -> bool {
        &&& self.memtable.wf()
        &&& self.wal@ == Seq::<u8>::empty()
        &&& match self.stage {
            Stage::Logging(points, at) => at < points@.len(),
            Stage::Listing(at_least) => at_least > 0,
            Stage::Reading(names, n, _) => n < names@.len(),
            _ => true,
        }
    }

    /// Only finitely many timestamps have a value in memory, so its points list it: by timestamp,
    /// one for each value.
    pub proof fn memory_is_listed_by_its_points(&self)
        requires
            self.wf(),
        ensures
            self@.mem.dom().finite(),
            strictly_sorted(map_points(self@.mem)),
            newest(map_points(self@.mem)) == self@.mem,
    {
        self.memtable.entries_are_finite();
        map_points_list_the_map(self@.mem);
    }

    /// Starts with nothing in memory, given the names of the files of the directory.
    pub fn open(names: &Vec<Vec<u8>>, memtable_capacity: usize) -> (engine: Self)
        ensures
            engine.wf(),
            engine@ == (EngineView {
                mem: Map::empty(),
                capacity: memtable_capacity,
                seq: max_seq(views(names@)),
                stage: StageView::Idle,
            }),
    {
        Self {
            memtable: MemTable::new(memtable_capacity),
            wal: Wal::open(),
            sstable_seq: find_max_seq(names),
            stage: Stage::Idle,
        }
    }

    /// Starts with the points of the log in memory, given the names of the files of the directory.
    pub fn recover(names: &Vec<Vec<u8>>, log: &[u8], memtable_capacity: usize) -> (engine: Self)
        ensures
            engine.wf(),
            engine@ == (EngineView {
                mem: newest(replayed(log@)),
                capacity: memtable_capacity,
                seq: max_seq(views(names@)),
                stage: StageView::Idle,
            }),
    {
        let points = Wal::replay(log);
        let mut memtable = MemTable::new(memtable_capacity);
        let mut i: usize = 0;
        assert(points@.take(0) =~= Seq::empty());
        while i < points.len()
            invariant
                i <= points@.len(),
                memtable.wf(),
                memtable.capacity() == memtable_capacity,
                memtable@ == newest(points@.take(i as int)),
            decreases points@.len() - i,
        {
            let point: TimeSeriesPoint = points[i];
            memtable.insert(point);
            proof {
                lemma_newest_push(points@.take(i as int), point);
                assert(points@.take(i + 1) =~= points@.take(i as int).push(point));
            }
            i = i + 1;
        }
        assert(points@.take(i as int) =~= points@);
        Self { memtable, wal: Wal::open(), sstable_seq: find_max_seq(names), stage: Stage::Idle }
    }

    /// Begins to write a point.
    pub fn write(&mut self, point: TimeSeriesPoint) -> (action: Action)
        requires
            old(self).wf(),
        ensures
            final(self).wf(),
            (final(self)@, action@) == writing(old(self)@, seq![point]),
            action@ == ActionView::AppendToLog(record_bytes(point)),
            final(self)@.mem == old(self)@.mem,
    {
        let mut points: Vec<TimeSeriesPoint> = Vec::new();
        points.push(point);
        assert(points@.skip(0) =~= seq![point]);
        self.log_from(points, 0)
    }

    /// Begins to write points.
    pub fn write_batch(&mut self, points: &[TimeSeriesPoint]) -> (action: Action)
        requires
            old(self).wf(),
            points@.len() == 0 && is_full(old(self)@) && old(self)@.mem != Map::<i64, u64>::empty()
                ==> old(self)@.seq < u64::MAX,
        ensures
            final(self).wf(),
            (final(self)@, action@) == writing(old(self)@, points@),
            points@.len() > 0 ==> action@ == ActionView::AppendToLog(record_bytes(points@[0])),
    {
        let mut batch: Vec<TimeSeriesPoint> = Vec::new();
        batch.extend_from_slice(points);
        assert(batch@ =~= points@);
        assert(batch@.skip(0) =~= points@);
        self.log_from(batch, 0)
    }

    /// Goes on with a write: with the point at `at`, or behind the last with a flush if need be.
    fn log_from(&mut self, points: Vec<TimeSeriesPoint>, at: usize) -> (action: Action)
        requires
            old(self).memtable.wf(),
            old(self).wal@ == Seq::<u8>::empty(),
            at <= points@.len(),
            at == points@.len() && is_full(old(self)@) && old(self)@.mem != Map::<i64, u64>::empty()
                ==> old(self)@.seq < u64::MAX,
        ensures
            final(self).wf(),
            (final(self)@, action@) == writing(old(self)@, points@.skip(at as int)),
    {
        if at < points.len() {
            let ghost rest = points@.skip(at as int);
            self.wal.append(points[at]);
            let record = self.wal.take_buffered();
            assert(record@ =~= record_bytes(rest[0]));
            self.stage = Stage::Logging(points, at);
            Action::AppendToLog(record)
        } else if self.memtable.is_full() {
            self.begin_flush()
        } else {
            self.finish(Ok(()))
        }
    }

    fn finish(&mut self, result: Result<(), TableError>) -> (action: Action)
        requires
            old(self).memtable.wf(),
            old(self).wal@ == Seq::<u8>::empty(),
        ensures
            final(self).wf(),
            (final(self)@, action@) == finished(old(self)@, result),
    {
        self.stage = Stage::Idle;
        Action::Finish(result)
    }

    /// Begins to move what is in memory to a new table.
    pub fn flush(&mut self) -> (action: Action)
        requires
            old(self).wf(),
            old(self)@.mem != Map::<i64, u64>::empty() ==> old(self)@.seq < u64::MAX,
        ensures
            final(self).wf(),
            (final(self)@, action@) == flushing(old(self)@),
            final(self)@.mem == Map::<i64, u64>::empty(),
            if old(self)@.mem == Map::<i64, u64>::empty() {
                action@ == ActionView::Finish(Ok(()))
            } else {
                action@ == ActionView::WriteTable(
                    table_name((old(self)@.seq + 1) as u64),
                    table_of(map_points(old(self)@.mem)),
                )
            },
            strictly_sorted(map_points(old(self)@.mem)),
            newest(map_points(old(self)@.mem)) == old(self)@.mem,
    {
        proof {
            self.memory_is_listed_by_its_points();
        }
        self.begin_flush()
    }

    fn begin_flush(&mut self) -> (action: Action)
        requires
            old(self).memtable.wf(),
            old(self).wal@ == Seq::<u8>::empty(),
            old(self)@.mem != Map::<i64, u64>::empty() ==> old(self)@.seq < u64::MAX,
        ensures
            final(self).wf(),
            (final(self)@, action@) == flushing(old(self)@),
    {
        if self.memtable.is_empty() {
            return self.finish(Ok(()));
        }
        let points = self.memtable.drain_sorted();
        self.sstable_seq = self.sstable_seq + 1;
        let contents = Self::build_table(&points);
        self.stage = Stage::WritingTable;
        Action::WriteTable(sst_name(self.sstable_seq), contents)
    }

    /// The table that holds the points.
    fn build_table(points: &Vec<TimeSeriesPoint>) -> (contents: Vec<u8>)
        ensures
            contents@ == table_of(points@),
    {
        let mut writer = SSTableWriter::create();
        assert(all_points(writer@).len() + points.len() <= u64::MAX);
        writer.write_all(points.as_slice());
        assert(writer@ =~= blocks_of(points@));
        writer.finish()
    }

    /// Begins to merge all tables.
    pub fn compact(&mut self) -> (action: Action)
        requires
            old(self).wf(),
        ensures
            final(self).wf(),
            (final(self)@, action@) == compacting(old(self)@, 2),
            final(self)@ == (EngineView { stage: StageView::Listing(2), ..old(self)@ }),
            action@ == ActionView::ListFiles,
    {
        self.stage = Stage::Listing(2);
        Action::ListFiles
    }

    /// Goes on with a merge: with the table at `n`, or with the merged table.
    fn merge_from(
        &mut self,
        names: Vec<Vec<u8>>,
        n: usize,
        points: Vec<TimeSeriesPoint>,
    ) -> (action: Action)
        requires
            old(self).memtable.wf(),
            old(self).wal@ == Seq::<u8>::empty(),
            n <= names@.len(),
            n == names@.len() ==> old(self)@.seq < u64::MAX,
        ensures
            final(self).wf(),
            (final(self)@, action@) == merging(old(self)@, views(names@), n as nat, points@),
    {
        if n < names.len() {
            let name = names[n].clone();
            assert(name@ =~= names@[n as int]@);
            self.stage = Stage::Reading(names, n, points);
            Action::ReadTable(name)
        } else {
            let in_order = sort_by_timestamp(points.as_slice());
            proof {
                sort_is_stable(points@);
                lemma_newest_by_timestamp(sort_points(points@), points@);
            }
            let merged = keep_latest(&in_order);
            self.sstable_seq = self.sstable_seq + 1;
            let contents = Self::build_table(&merged);
            self.stage = Stage::WritingMerged(names);
            Action::WriteTable(sst_name(self.sstable_seq), contents)
        }
    }

    /// Goes on with an operation after an action was performed.
    pub fn step(&mut self, event: Event) -> (action: Action)
        requires
            old(self).wf(),
            accepts(old(self)@, event@),
        ensures
            final(self).wf(),
            (final(self)@, action@) == next(old(self)@, event@),
    {
        let mut stage = Stage::Idle;
        std::mem::swap(&mut stage, &mut self.stage);
        match (stage, event) {
            (Stage::Logging(points, at), Event::Done) => {
                let ghost rest = points@.skip(at as int);
                assert(at < points.len());
                self.memtable.insert(points[at]);
                assert(rest.skip(1) =~= points@.skip(at + 1));
                self.log_from(points, at + 1)
            },
            (Stage::WritingTable, Event::Done) => {
                self.stage = Stage::ResettingLog;
                Action::ResetLog
            },
            (Stage::ResettingLog, Event::Done) => {
                self.stage = Stage::Listing(COMPACTION_THRESHOLD);
                Action::ListFiles
            },
            (Stage::Listing(at_least), Event::Files(names)) => {
                let files = list_sst_files(names);
                if files.len() < at_least {
                    self.finish(Ok(()))
                } else {
                    self.merge_from(files, 0, Vec::new())
                }
            },
            (Stage::Reading(names, n, points), Event::Table(reader)) => match reader.read_all() {
                Ok(more) => {
                    assert(n < names.len());
                    let ghost before = points@;
                    let mut points = points;
                    points.extend_from_slice(more.as_slice());
                    assert(points@ =~= before + more@);
                    self.merge_from(names, n + 1, points)
                },
                Err(error) => self.finish(Err(error)),
            },
            (Stage::WritingMerged(names), Event::Done) => {
                self.stage = Stage::Removing;
                Action::RemoveFiles(names)
            },
            // Behind the removal nothing is left to do; no other event is accepted.
            _ => self.finish(Ok(())),
        }
    }

    /// The points from `start` to `end`, both inclusive, in memory and in the tables of the
    /// directory, by timestamp.
    pub fn scan_range(&self, start: i64, end: i64, tables: &Vec<SSTableReader>) -> (result: Result<
        Vec<TimeSeriesPoint>,
        TableError,
    >)
        requires
            start <= end || self@.mem == Map::<i64, u64>::empty(),
            chained(ranges(tables@, start, end)) is Some,
        ensures
            strictly_sorted(map_points(self@.mem)),
            newest(map_points(self@.mem)) == self@.mem,
            match (chained(ranges(tables@, start, end)), result) {
                (Some(Ok(sst)), Ok(found)) => found@ == merge_points(
                    points_within(map_points(self@.mem), start, end),
                    sst,
                ),
                (Some(Err(expected)), Err(error)) => error == expected,
                _ => false,
            },
    {
        let mem_points = self.memtable.scan_range(start, end);
        let ghost reads = ranges(tables@, start, end);
        let mut sst_points: Vec<TimeSeriesPoint> = Vec::new();
        let mut i: usize = 0;
        assert(reads.take(0) =~= Seq::empty());
        while i < tables.len()
            invariant
                i <= tables@.len(),
                reads == ranges(tables@, start, end),
                chained(reads) is Some,
                strictly_sorted(map_points(self@.mem)),
                newest(map_points(self@.mem)) == self@.mem,
                chained(reads.take(i as int)) matches Some(Ok(points)) && points == sst_points@,
            decreases tables@.len() - i,
        {
            proof {
                lemma_chained_next(reads, i as int);
            }
            match tables[i].scan_range(start, end) {
                Err(error) => {
                    return Err(error);
                },
                Ok(points) => {
                    let ghost before = sst_points@;
                    sst_points.extend_from_slice(points.as_slice());
                    assert(sst_points@ =~= before + points@);
                },
            }
            i = i + 1;
        }
        assert(reads.take(i as int) =~= reads);
        Ok(Self::merge_unsorted(&mem_points, &sst_points))
    }

    /// All points in memory and in the tables of the directory, by timestamp.
    pub fn scan_all(&self, tables: &Vec<SSTableReader>) -> (result: Result<
        Vec<TimeSeriesPoint>,
        TableError,
    >)
        requires
            chained(contents(tables@)) is Some,
        ensures
            strictly_sorted(map_points(self@.mem)),
            newest(map_points(self@.mem)) == self@.mem,
            match (chained(contents(tables@)), result) {
                (Some(Ok(sst)), Ok(found)) => found@ == merge_points(map_points(self@.mem), sst),
                (Some(Err(expected)), Err(error)) => error == expected,
                _ => false,
            },
    {
        let mem_points = self.memtable.scan_all();
        let ghost reads = contents(tables@);
        let mut sst_points: Vec<TimeSeriesPoint> = Vec::new();
        let mut i: usize = 0;
        assert(reads.take(0) =~= Seq::empty());
        while i < tables.len()
            invariant
                i <= tables@.len(),
                reads == contents(tables@),
                chained(reads) is Some,
                strictly_sorted(map_points(self@.mem)),
                newest(map_points(self@.mem)) == self@.mem,
                chained(reads.take(i as int)) matches Some(Ok(points)) && points == sst_points@,
            decreases tables@.len() - i,
        {
            proof {
                lemma_chained_next(reads, i as int);
            }
            match tables[i].read_all() {
                Err(error) => {
                    return Err(error);
                },
                Ok(points) => {
                    let ghost before = sst_points@;
                    sst_points.extend_from_slice(points.as_slice());
                    assert(sst_points@ =~= before + points@);
                },
            }
            i = i + 1;
        }
        assert(reads.take(i as int) =~= reads);
        Ok(Self::merge_unsorted(&mem_points, &sst_points))
    }

    /// Merges the points of the memory table with those of tables, one table behind the other.
    fn merge_unsorted(mem: &Vec<TimeSeriesPoint>, sst: &Vec<TimeSeriesPoint>) -> (merged: Vec<
        TimeSeriesPoint,
    >)
        requires
            strictly_sorted(mem@),
        ensures
            merged@ == merge_points(mem@, sst@),
    {
        let in_order = sort_by_timestamp(sst.as_slice());
        proof {
            sort_is_stable(sst@);
            lemma_merge_of_sorted(mem@, sst@);
        }
        Self::merge_sorted(mem, &in_order)
    }

    /// Merges two sorted streams. At a timestamp of the memory table, its entry wins, since it is
    /// newer.
    pub fn merge_sorted(mem: &Vec<TimeSeriesPoint>, sst: &Vec<TimeSeriesPoint>) -> (merged: Vec<
        TimeSeriesPoint,
    >)
        requires
            strictly_sorted(mem@),
            sorted(sst@),
        ensures
            merged@ == merge_points(mem@, sst@),
    {
        let ghost taken = newest(mem@).dom();
        let mut merged: Vec<TimeSeriesPoint> = Vec::new();
        let mut mi: usize = 0;
        let mut si: usize = 0;
        while mi < mem.len() || si < sst.len()
            invariant
                strictly_sorted(mem@),
                sorted(sst@),
                taken == newest(mem@).dom(),
                mi <= mem@.len(),
                si <= sst@.len(),
                sorted(merged@),
                forall|i: int|
                    0 <= i < merged@.len() && mi < mem@.len() ==> (#[trigger] merged@[i]).timestamp
                        <= mem@[mi as int].timestamp,
                forall|i: int|
                    0 <= i < merged@.len() && si < sst@.len() ==> (#[trigger] merged@[i]).timestamp
                        <= sst@[si as int].timestamp,
                forall|i: int|
                    0 <= i < mi && si < sst@.len() ==> (#[trigger] mem@[i]).timestamp
                        < sst@[si as int].timestamp,
                forall|t: i64| #[trigger]
                    points_at(merged@, t) == points_at(mem@.take(mi as int), t) + points_at(
                        points_beside(sst@.take(si as int), taken),
                        t,
                    ),
            decreases mem@.len() - mi + sst@.len() - si,
        {
            let ghost before = merged@;
            if si == sst.len() || (mi < mem.len() && mem[mi].timestamp < sst[si].timestamp) {
                let p: TimeSeriesPoint = mem[mi];
                merged.push(p);
                assert forall|t: i64| #[trigger] points_at(merged@, t) == points_at(
                    mem@.take(mi + 1),
                    t,
                ) + points_at(points_beside(sst@.take(si as int), taken), t) by {
                    let old_sst = points_at(points_beside(sst@.take(si as int), taken), t);
                    assert(points_at(before, t) == points_at(mem@.take(mi as int), t) + old_sst);
                    lemma_at_push(before, p, t);
                    lemma_at_push(mem@.take(mi as int), p, t);
                    assert(mem@.take(mi + 1) =~= mem@.take(mi as int).push(p));
                    if p.timestamp == t {
                        lemma_strict_member(mem@, mi as int);
                        lemma_at_beside(sst@.take(si as int), taken, t);
                    }
                    assert(points_at(merged@, t) =~= points_at(mem@.take(mi + 1), t) + old_sst);
                }
                mi = mi + 1;
            } else {
                let p: TimeSeriesPoint = sst[si];
                let ghost old_sst = points_beside(sst@.take(si as int), taken);
                proof {
                    assert(sst@.take(si + 1) =~= sst@.take(si as int).push(p));
                    lemma_beside_push(sst@.take(si as int), p, taken);
                }
                if mi < mem.len() && mem[mi].timestamp == p.timestamp {
                    proof {
                        lemma_strict_member(mem@, mi as int);
                        assert forall|t: i64| #[trigger] points_at(merged@, t) == points_at(
                            mem@.take(mi as int),
                            t,
                        ) + points_at(points_beside(sst@.take(si + 1), taken), t) by {
                            assert(points_at(before, t) == points_at(mem@.take(mi as int), t)
                                + points_at(old_sst, t));
                        }
                    }
                } else {
                    merged.push(p);
                    proof {
                        lemma_nothing_at(mem@, p.timestamp);
                        lemma_newest_is_last_at(mem@, p.timestamp);
                        assert forall|t: i64| #[trigger] points_at(merged@, t) == points_at(
                            mem@.take(mi as int),
                            t,
                        ) + points_at(points_beside(sst@.take(si + 1), taken), t) by {
                            assert(points_at(before, t) == points_at(mem@.take(mi as int), t)
                                + points_at(old_sst, t));
                            lemma_at_push(before, p, t);
                            lemma_at_push(old_sst, p, t);
                            assert(points_at(merged@, t) =~= points_at(mem@.take(mi as int), t)
                                + points_at(points_beside(sst@.take(si + 1), taken), t));
                        }
                    }
                }
                si = si + 1;
            }
        }
        proof {
            assert(mem@.take(mi as int) =~= mem@);
            assert(sst@.take(si as int) =~= sst@);
            let beside = points_beside(sst@, taken);
            assert forall|t: i64| #[trigger] points_at(merged@, t) == points_at(
                mem@ + beside,
                t,
            ) by {
                lemma_at_add(mem@, beside, t);
            }
            lemma_is_sort(merged@, mem@ + beside);
        }
        merged
    }

    /// How many tables a directory holds, given the names of its files.
    pub fn sst_count(names: &Vec<Vec<u8>>) -> (n: usize)
        ensures
            n == listing(views(names@)).len(),
    {
        count_sst_files(names)
    }

    /// Whether a flush can begin: a sequence number is left for its table, if it has one.
    pub fn can_flush(&self) -> (b: bool)
        ensures
            b == (self@.mem != Map::<i64, u64>::empty() ==> self@.seq < u64::MAX),
    {
        self.memtable.is_empty() || self.sstable_seq < u64::MAX
    }

    /// Whether a write of the points can begin: a sequence number is left, if it begins with a
    /// flush.
    pub fn can_write_batch(&self, points: &[TimeSeriesPoint]) -> (b: bool)
        requires
            self.wf(),
        ensures
            b == (points@.len() == 0 && is_full(self@) && self@.mem != Map::<i64, u64>::empty()
                ==> self@.seq < u64::MAX),
    {
        points.len() > 0 || !self.memtable.is_full() || self.can_flush()
    }

    /// Whether an event can come now, and can be gone on from.
    pub fn can_step(&self, event: &Event) -> (b: bool)
        requires
            self.wf(),
        ensures
            b == accepts(self@, event@),
    {
        match (&self.stage, event) {
            (Stage::Logging(points, at), Event::Done) => {
                self.sstable_seq < u64::MAX || points.len() - *at > 1
                    || !self.memtable.is_full_with(points[*at].timestamp)
            },
            (Stage::Reading(names, n, _), Event::Table(reader)) => {
                reader.can_read_all() && (self.sstable_seq < u64::MAX || names.len() - *n > 1
                    || reader.read_all().is_err())
            },
            (Stage::WritingTable, Event::Done) => true,
            (Stage::ResettingLog, Event::Done) => true,
            (Stage::Listing(_), Event::Files(_)) => true,
            (Stage::WritingMerged(_), Event::Done) => true,
            (Stage::Removing, Event::Done) => true,
            _ => false,
        }
    }

    /// Whether the tables can be scanned, or the first that cannot ends inside a number.
    pub fn can_scan_range(tables: &Vec<SSTableReader>, start: i64, end: i64) -> (b: bool)
        ensures
            b == (chained(ranges(tables@, start, end)) is Some),
    {
        let ghost reads = ranges(tables@, start, end);
        let mut i: usize = 0;
        assert(reads.take(0) =~= Seq::empty());
        while i < tables.len()
            invariant
                i <= tables@.len(),
                reads == ranges(tables@, start, end),
                chained(reads.take(i as int)) matches Some(Ok(_)),
            decreases tables@.len() - i,
        {
            proof {
                assert(reads.take(i + 1).drop_last() =~= reads.take(i as int));
                lemma_chained_prefix(reads, i + 1);
            }
            if !tables[i].can_scan_up_to(end) {
                return false;
            }
            if tables[i].scan_range(start, end).is_err() {
                return true;
            }
            i = i + 1;
        }
        assert(reads.take(i as int) =~= reads);
        true
    }

    /// Whether the tables can be read, or the first that cannot ends inside a number.
    pub fn can_scan_all(tables: &Vec<SSTableReader>) -> (b: bool)
        ensures
            b == (chained(contents(tables@)) is Some),
    {
        let ghost reads = contents(tables@);
        let mut i: usize = 0;
        assert(reads.take(0) =~= Seq::empty());
        while i < tables.len()
            invariant
                i <= tables@.len(),
                reads == contents(tables@),
                chained(reads.take(i as int)) matches Some(Ok(_)),
            decreases tables@.len() - i,
        {
            proof {
                assert(reads.take(i + 1).drop_last() =~= reads.take(i as int));
                lemma_chained_prefix(reads, i + 1);
            }
            if !tables[i].can_read_all() {
                return false;
            }
            if tables[i].read_all().is_err() {
                return true;
            }
            i = i + 1;
        }
        assert(reads.take(i as int) =~= reads);
        true
    }

    /// How many timestamps have a value in memory.
    pub fn memtable_len(&self) -> (n: usize)
        ensures
            n == self@.mem.len(),
    {
        self.memtable.len()
    }
}

} // verus!
