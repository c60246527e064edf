//! What the engine asks for in the course of an operation, whatever files and tables it is told of.
use super::memtable::ENTRY_SIZE;
use super::names::{listing, listing_holds_the_tables, table_name, tables_of};
use super::points::{lemma_newest_push, map_points, newest};
use super::protocol::{
    accepts, compacting, flushing, next, table_of, writing, ActionView, EngineView, EventView,
    StageView, COMPACTION_THRESHOLD,
};
use super::table_format::TableError;
use super::wal::record_bytes;
use crate::types::TimeSeriesPoint;
use vstd::prelude::*;

verus! {

/// Where an operation that began with `start` stands when the engine was told the events.
pub open spec fn told(start: (EngineView, ActionView), events: Seq<EventView>) -> (
    EngineView,
    ActionView,
)
    decreases events.len(),
{
    if events.len() == 0 {
        start
    } else {
        next(told(start, events.drop_last()).0, events.last())
    }
}

/// That each of `n` actions was performed.
pub open spec fn done(n: nat) -> Seq<EventView> {
    Seq::new(n, |i: int| EventView::Done)
}

/// The files of the directory, and the points of the first tables that were read.
pub open spec fn files_and_tables(
    names: Seq<Seq<u8>>,
    reads: Seq<Seq<TimeSeriesPoint>>,
) -> Seq<EventView> {
    seq![EventView::Files(names)] + Seq::new(
        reads.len(),
        |i: int| EventView::Table(Some(Ok(reads[i]))),
    )
}

proof fn lemma_listing_len(names: Seq<Seq<u8>>)
    ensures
        listing(names).len() == tables_of(names).len(),
{
    listing_holds_the_tables(names);
    listing(names).to_multiset_ensures();
    tables_of(names).to_multiset_ensures();
}

/// A merge is over once the files are named, if fewer of them are tables than it looks for.
pub proof fn few_tables_are_not_merged(engine: EngineView, at_least: usize, names: Seq<Seq<u8>>)
    requires
        tables_of(names).len() < at_least,
    ensures
        ({
            let start = compacting(engine, at_least);
            &&& start.1 == ActionView::ListFiles
            &&& accepts(start.0, EventView::Files(names))
            &&& next(start.0, EventView::Files(names)) == (
                EngineView { stage: StageView::Idle, ..engine },
                ActionView::Finish(Ok(())),
            )
        }),
{
    lemma_listing_len(names);
}

proof fn lemma_merge_told(
    engine: EngineView,
    at_least: usize,
    names: Seq<Seq<u8>>,
    reads: Seq<Seq<TimeSeriesPoint>>,
)
    requires
        0 < at_least <= tables_of(names).len(),
        reads.len() <= tables_of(names).len(),
    ensures
        ({
            let files = listing(names);
            let (e, a) = told(compacting(engine, at_least), files_and_tables(names, reads));
            &&& files.len() == tables_of(names).len()
            &&& reads.len() < files.len() ==> {
                &&& a == ActionView::ReadTable(files[reads.len() as int])
                &&& e == (EngineView {
                    stage: StageView::Reading(files, reads.len(), reads.flatten()),
                    ..engine
                })
            }
            &&& reads.len() == files.len() ==> {
                let seq = (engine.seq + 1) as u64;
                &&& a == ActionView::WriteTable(
                    table_name(seq),
                    table_of(map_points(newest(reads.flatten()))),
                )
                &&& e == (EngineView { seq, stage: StageView::WritingMerged(files), ..engine })
            }
        }),
    decreases reads.len(),
{
    let start = compacting(engine, at_least);
    let events = files_and_tables(names, reads);
    lemma_listing_len(names);
    if reads.len() == 0 {
        assert(events.drop_last() =~= Seq::empty());
        assert(told(start, events.drop_last()) == start);
        assert(events.last() == EventView::Files(names));
    } else {
        let before = reads.drop_last();
        lemma_merge_told(engine, at_least, names, before);
        assert(events.drop_last() =~= files_and_tables(names, before));
        assert(events.last() == EventView::Table(Some(Ok(reads.last()))));
        assert(reads =~= before.push(reads.last()));
        before.lemma_flatten_push(reads.last());
    }
}

/// A merge reads each table among the files once, in the order of the listing, then writes one
/// table under the next number, with the last value that the tables give to each timestamp, then
/// removes the tables that it read, and is over. Memory and capacity are left alone. It goes on
/// from whatever a table holds, as long as a number is left.
pub proof fn merge_reads_every_listed_table(
    engine: EngineView,
    at_least: usize,
    names: Seq<Seq<u8>>,
    reads: Seq<Seq<TimeSeriesPoint>>,
)
    requires
        0 < at_least <= tables_of(names).len(),
        reads.len() <= tables_of(names).len(),
    ensures
        ({
            let files = listing(names);
            let start = compacting(engine, at_least);
            let (e, a) = told(start, files_and_tables(names, reads));
            let seq = (engine.seq + 1) as u64;
            &&& start.1 == ActionView::ListFiles
            &&& accepts(start.0, EventView::Files(names))
            &&& files.to_multiset() == tables_of(names).to_multiset()
            &&& files.len() == tables_of(names).len()
            &&& reads.len() < files.len() ==> {
                &&& a == ActionView::ReadTable(files[reads.len() as int])
                &&& e.mem == engine.mem
                &&& e.capacity == engine.capacity
                &&& e.seq == engine.seq
                &&& engine.seq < u64::MAX || reads.len() + 1 < files.len() ==> forall|
                    read: Result<Seq<TimeSeriesPoint>, TableError>,
                | #[trigger]
                    accepts(e, EventView::Table(Some(read)))
            }
            &&& reads.len() == files.len() && engine.seq < u64::MAX ==> {
                let (e2, a2) = next(e, EventView::Done);
                &&& a == ActionView::WriteTable(
                    table_name(seq),
                    table_of(map_points(newest(reads.flatten()))),
                )
                &&& accepts(e, EventView::Done)
                &&& a2 == ActionView::RemoveFiles(files)
                &&& accepts(e2, EventView::Done)
                &&& next(e2, EventView::Done) == (
                    EngineView { seq, stage: StageView::Idle, ..engine },
                    ActionView::Finish(Ok(())),
                )
            }
        }),
{
    listing_holds_the_tables(names);
    lemma_merge_told(engine, at_least, names, reads);
}

/// The first table that cannot be read ends a merge with its error, and the engine is as before.
pub proof fn unreadable_table_ends_a_merge(
    engine: EngineView,
    at_least: usize,
    names: Seq<Seq<u8>>,
    reads: Seq<Seq<TimeSeriesPoint>>,
    error: TableError,
)
    requires
        0 < at_least <= tables_of(names).len(),
        reads.len() < tables_of(names).len(),
    ensures
        ({
            let failed = EventView::Table(Some(Err(error)));
            let (e, _) = told(compacting(engine, at_least), files_and_tables(names, reads));
            &&& accepts(e, failed)
            &&& next(e, failed) == (
                EngineView { stage: StageView::Idle, ..engine },
                ActionView::Finish(Err(error)),
            )
        }),
{
    lemma_merge_told(engine, at_least, names, reads);
}

/// A flush of a memory that is not empty asks for a table under the next number with all points in
/// memory, then for an empty log, then for the files, and merges the tables if there are as many
/// as the threshold. With an empty memory it is over at once.
pub proof fn flush_asks_for_a_table(engine: EngineView)
    requires
        engine.mem != Map::<i64, u64>::empty() ==> engine.seq < u64::MAX,
    ensures
        ({
            let (e, a) = flushing(engine);
            let (e2, a2) = next(e, EventView::Done);
            let seq = (engine.seq + 1) as u64;
            if engine.mem == Map::<i64, u64>::empty() {
                &&& e == (EngineView { stage: StageView::Idle, ..engine })
                &&& a == ActionView::Finish(Ok(()))
            } else {
                &&& a == ActionView::WriteTable(table_name(seq), table_of(map_points(engine.mem)))
                &&& accepts(e, EventView::Done)
                &&& a2 == ActionView::ResetLog
                &&& accepts(e2, EventView::Done)
                &&& next(e2, EventView::Done) == compacting(
                    EngineView { mem: Map::empty(), seq, ..engine },
                    COMPACTION_THRESHOLD,
                )
            }
        }),
{
}

proof fn lemma_write_told(engine: EngineView, points: Seq<TimeSeriesPoint>, n: nat)
    requires
        n <= points.len(),
    ensures
        ({
            let mem = engine.mem.union_prefer_right(newest(points.take(n as int)));
            let (e, a) = told(writing(engine, points), done(n));
            if n < points.len() {
                &&& a == ActionView::AppendToLog(record_bytes(points[n as int]))
                &&& e == (EngineView {
                    mem,
                    stage: StageView::Logging(points.skip(n as int)),
                    ..engine
                })
            } else {
                exists|stage: StageView|
                    (e, a) == #[trigger] writing(
                        EngineView { mem, stage, ..engine },
                        Seq::empty(),
                    )
            }
        }),
    decreases n,
{
    let taken = points.take(n as int);
    let mem = engine.mem.union_prefer_right(newest(taken));
    let start = writing(engine, points);
    if n == 0 {
        assert(done(0) =~= Seq::empty());
        assert(taken =~= Seq::empty());
        assert(mem =~= engine.mem);
        assert(points.skip(0) =~= points);
        if points.len() == 0 {
            assert(points =~= Seq::empty());
            assert((EngineView { mem, stage: engine.stage, ..engine }) == engine);
            assert(start == writing(
                EngineView { mem, stage: engine.stage, ..engine },
                Seq::empty(),
            ));
        }
    } else {
        let some = points.take(n - 1);
        let p = points[n - 1];
        lemma_write_told(engine, points, (n - 1) as nat);
        assert(done(n).drop_last() =~= done((n - 1) as nat));
        assert(taken =~= some.push(p));
        lemma_newest_push(some, p);
        let before = engine.mem.union_prefer_right(newest(some));
        assert(mem =~= before.insert(p.timestamp, p.value_bits));
        let rest = points.skip(n - 1);
        assert(rest.skip(1) =~= points.skip(n as int));
        assert(rest[0] == p);
        let e = told(start, done((n - 1) as nat)).0;
        assert(e.stage == StageView::Logging(rest));
        assert(told(start, done(n)) == next(e, EventView::Done));
        assert(next(e, EventView::Done) == writing(EngineView { mem, ..e }, rest.skip(1)));
        if n == points.len() {
            assert(rest.skip(1) =~= Seq::empty());
            assert(told(start, done(n)) == writing(
                EngineView { mem, stage: e.stage, ..engine },
                Seq::empty(),
            ));
        }
    }
}

/// A write asks to append the record of each point in turn, and has a point in memory once it is
/// appended. It needs a number only if the last point fills the memory. Behind the last one it is
/// over if the memory is not full, and begins a flush of all that is in memory if it is.
pub proof fn write_asks_to_append_every_point(
    engine: EngineView,
    points: Seq<TimeSeriesPoint>,
    n: nat,
)
    requires
        n <= points.len(),
        n == points.len() && ENTRY_SIZE * engine.mem.union_prefer_right(newest(points)).len()
            >= engine.capacity ==> engine.seq < u64::MAX,
    ensures
        ({
            let mem = engine.mem.union_prefer_right(newest(points.take(n as int)));
            let all = engine.mem.union_prefer_right(newest(points));
            let seq = (engine.seq + 1) as u64;
            let (e, a) = told(writing(engine, points), done(n));
            &&& e.capacity == engine.capacity
            &&& n < points.len() ==> {
                &&& a == ActionView::AppendToLog(record_bytes(points[n as int]))
                &&& engine.seq < u64::MAX || n + 1 < points.len() || ENTRY_SIZE * all.len()
                    < engine.capacity ==> accepts(e, EventView::Done)
                &&& e.mem == mem
                &&& e.seq == engine.seq
            }
            &&& n == points.len() && ENTRY_SIZE * mem.len() < engine.capacity ==> {
                &&& a == ActionView::Finish(Ok(()))
                &&& e == (EngineView { mem, stage: StageView::Idle, ..engine })
            }
            &&& n == points.len() && ENTRY_SIZE * mem.len() >= engine.capacity && mem != Map::<
                i64,
                u64,
            >::empty() ==> {
                &&& a == ActionView::WriteTable(table_name(seq), table_of(map_points(mem)))
                &&& e.mem == Map::<i64, u64>::empty()
                &&& e.seq == seq
            }
            &&& n == points.len() && mem == Map::<i64, u64>::empty() ==> {
                &&& a == ActionView::Finish(Ok(()))
                &&& e == (EngineView { mem, stage: StageView::Idle, ..engine })
            }
        }),
{
    let mem = engine.mem.union_prefer_right(newest(points.take(n as int)));
    lemma_write_told(engine, points, n);
    if n + 1 == points.len() {
        let p = points[n as int];
        assert(points =~= points.take(n as int).push(p));
        lemma_newest_push(points.take(n as int), p);
        assert(engine.mem.union_prefer_right(newest(points)) =~= mem.insert(
            p.timestamp,
            p.value_bits,
        ));
    } else if n == points.len() {
        assert(points.take(n as int) =~= points);
    }
}

} // verus!
