//! What is on disk while the engine works, and what is read of it after a crash.
use super::memtable::ENTRY_SIZE;
use super::names::{
    lemma_max_seq, listing, max_seq, name_holds_its_number, name_seq, table_name,
    tables_are_listed_by_number, tables_of,
};
use super::points::{
    lemma_at_add, lemma_at_merge, lemma_newest_add, lemma_newest_is_finite,
    lemma_newest_is_last_at, lemma_newest_push, lemma_strict_at, lemma_two_at, map_points,
    map_points_list_the_map, merge_points, newest, points_at, sorted, sorted_is_unique,
    strictly_sorted,
};
use super::protocol::{
    accepts, compacting, flushing, next, table_of, writing, ActionView, EngineView, EventView,
    StageView,
};
use super::table_format::{
    all_points, blocks_of, index_in_bounds, open_error, parse_blocks, parse_index, table_bytes,
    TableError,
};
use super::table_laws::{
    blocks_hold_the_points, table_fits, table_opens, table_round_trip,
};
use super::wal::{
    log_bytes, log_of_a_sum, record_bytes, replay_gives_back_the_log, replay_of_a_cut_log,
    replay_reads_the_log_of_its_points, replayed,
};
use crate::types::TimeSeriesPoint;
use vstd::prelude::*;

verus! {

/// The log, and the tables by their sequence numbers.
pub struct Store {
    pub log: Seq<u8>,
    pub tables: Seq<(u64, Seq<u8>)>,
}

/// Whether `contents` is a table that can be opened and read.
pub open spec fn is_readable(contents: Seq<u8>) -> bool {
    &&& index_in_bounds(contents)
    &&& open_error(contents) is None
    &&& parse_blocks(contents, parse_index(contents)) matches Some(Ok(_))
}

/// The points that a readable table holds.
pub open spec fn table_points(contents: Seq<u8>) -> Seq<TimeSeriesPoint> {
    parse_blocks(contents, parse_index(contents))->0->Ok_0
}

/// The points of all tables, one table behind the other.
pub open spec fn stored(tables: Seq<(u64, Seq<u8>)>) -> Seq<TimeSeriesPoint>
    decreases tables.len(),
{
    if tables.len() == 0 {
        Seq::empty()
    } else {
        stored(tables.drop_last()) + table_points(tables.last().1)
    }
}

pub open spec fn table_names(tables: Seq<(u64, Seq<u8>)>) -> Seq<Seq<u8>> {
    Seq::new(tables.len(), |i: int| table_name(tables[i].0))
}

/// The value that the log gives to each timestamp.
pub open spec fn logged(store: Store) -> Map<i64, u64> {
    newest(replayed(store.log))
}

/// The value at each timestamp, as it is found after a crash: that of the log, or else that of
/// the last table that has one.
pub open spec fn visible(store: Store) -> Map<i64, u64> {
    newest(stored(store.tables)).union_prefer_right(logged(store))
}

/// The tables without those of the given names.
pub open spec fn without(tables: Seq<(u64, Seq<u8>)>, names: Seq<Seq<u8>>) -> Seq<(u64, Seq<u8>)>
    decreases tables.len(),
{
    if tables.len() == 0 {
        Seq::empty()
    } else if names.contains(table_name(tables.last().0)) {
        without(tables.drop_last(), names)
    } else {
        without(tables.drop_last(), names).push(tables.last())
    }
}

/// The store behind an action, once all of it is on the disk.
pub open spec fn performed(store: Store, action: ActionView) -> Store {
    match action {
        ActionView::AppendToLog(bytes) => Store { log: store.log + bytes, ..store },
        ActionView::WriteTable(name, contents) => Store {
            tables: store.tables.push((name_seq(name)->0, contents)),
            ..store
        },
        ActionView::ResetLog => Store { log: Seq::empty(), ..store },
        ActionView::RemoveFiles(names) => Store { tables: without(store.tables, names), ..store },
        _ => store,
    }
}

/// Whether `event` tells what came of an action on the store. The files of the directory are
/// named in any order; some may be no tables.
pub open spec fn answers(store: Store, action: ActionView, event: EventView) -> bool {
    match (action, event) {
        (ActionView::AppendToLog(_), EventView::Done) => true,
        (ActionView::WriteTable(_, _), EventView::Done) => true,
        (ActionView::ResetLog, EventView::Done) => true,
        (ActionView::RemoveFiles(_), EventView::Done) => true,
        (ActionView::ListFiles, EventView::Files(names)) => tables_of(names).to_multiset()
            == table_names(store.tables).to_multiset(),
        (ActionView::ReadTable(name), EventView::Table(read)) => exists|i: int|
            0 <= i < store.tables.len() && name == table_name((#[trigger] store.tables[i]).0)
                && read == parse_blocks(store.tables[i].1, parse_index(store.tables[i].1)),
        _ => false,
    }
}

/// Whether `contents` is a table that was written with points of increasing timestamps, and fits.
pub open spec fn is_sound_table(contents: Seq<u8>) -> bool {
    exists|blocks: Seq<Seq<TimeSeriesPoint>>| #[trigger]
        table_bytes(blocks) == contents && table_fits(blocks) && strictly_sorted(all_points(blocks))
}

/// Whether the tables are sound, and numbered in order up to `seq`.
pub open spec fn tables_are_sound(tables: Seq<(u64, Seq<u8>)>, seq: int) -> bool {
    &&& forall|i: int| 0 <= i < tables.len() ==> is_sound_table((#[trigger] tables[i]).1)
    &&& forall|i: int| 0 <= i < tables.len() ==> (#[trigger] tables[i]).0 <= seq
    &&& forall|i: int, j: int| 0 <= i < j < tables.len() ==> tables[i].0 < tables[j].0
}

/// Whether the log holds whole records and nothing else.
pub open spec fn log_is_whole(log: Seq<u8>) -> bool {
    log == log_bytes(replayed(log))
}

/// Whether the engine, the store and the action that the engine asked for last fit together.
pub open spec fn consistent(engine: EngineView, store: Store, action: ActionView) -> bool {
    &&& log_is_whole(store.log)
    &&& tables_are_sound(
        store.tables,
        if action is WriteTable {
            engine.seq - 1
        } else {
            engine.seq as int
        },
    )
    &&& match engine.stage {
        StageView::Idle => engine.mem == logged(store) && action is Finish,
        StageView::Logging(points) => {
            &&& engine.mem == logged(store)
            &&& points.len() > 0
            &&& action == ActionView::AppendToLog(record_bytes(points[0]))
        },
        StageView::WritingTable => {
            &&& engine.mem == Map::<i64, u64>::empty()
            &&& action == ActionView::WriteTable(
                table_name(engine.seq),
                table_of(map_points(logged(store))),
            )
        },
        StageView::ResettingLog => {
            &&& engine.mem == Map::<i64, u64>::empty()
            &&& action == ActionView::ResetLog
            &&& store.tables.len() > 0
            &&& newest(table_points(store.tables.last().1)) == logged(store)
        },
        StageView::Listing(at_least) => {
            &&& engine.mem == logged(store)
            &&& action == ActionView::ListFiles
            &&& at_least > 0
        },
        StageView::Reading(names, n, points) => {
            &&& engine.mem == logged(store)
            &&& names == table_names(store.tables)
            &&& n < names.len()
            &&& points == stored(store.tables.take(n as int))
            &&& action == ActionView::ReadTable(names[n as int])
        },
        StageView::WritingMerged(names) => {
            &&& engine.mem == logged(store)
            &&& names == table_names(store.tables)
            &&& action == ActionView::WriteTable(
                table_name(engine.seq),
                table_of(map_points(newest(stored(store.tables)))),
            )
        },
        StageView::Removing => {
            let merged = store.tables.drop_last();
            &&& engine.mem == logged(store)
            &&& store.tables.len() > 0
            &&& action == ActionView::RemoveFiles(table_names(merged))
            &&& newest(table_points(store.tables.last().1)) == newest(stored(merged))
        },
    }
}

/// Whether the table that the engine asked for, if any, fits into memory, and the length of its
/// index into four bytes.
pub open spec fn next_table_fits(engine: EngineView, store: Store) -> bool {
    match engine.stage {
        StageView::WritingTable => table_fits(blocks_of(map_points(logged(store)))),
        StageView::WritingMerged(_) => table_fits(
            blocks_of(map_points(newest(stored(store.tables)))),
        ),
        _ => true,
    }
}

pub proof fn lemma_written_table(points: Seq<TimeSeriesPoint>)
    requires
        table_fits(blocks_of(points)),
        strictly_sorted(points),
    ensures
        is_sound_table(table_of(points)),
        table_points(table_of(points)) == points,
{
    let blocks = blocks_of(points);
    blocks_hold_the_points(points);
    table_round_trip(blocks);
    assert(table_bytes(blocks) == table_of(points) && table_fits(blocks) && strictly_sorted(
        all_points(blocks),
    ));
}

/// A sound table can be opened and read.
pub proof fn sound_table_is_readable(contents: Seq<u8>)
    requires
        is_sound_table(contents),
    ensures
        is_readable(contents),
        strictly_sorted(table_points(contents)),
{
    let blocks = choose|blocks: Seq<Seq<TimeSeriesPoint>>| #[trigger]
        table_bytes(blocks) == contents && table_fits(blocks) && strictly_sorted(
            all_points(blocks),
        );
    table_opens(blocks);
    table_round_trip(blocks);
}

pub proof fn lemma_stored_push(tables: Seq<(u64, Seq<u8>)>, table: (u64, Seq<u8>))
    ensures
        stored(tables.push(table)) == stored(tables) + table_points(table.1),
        newest(stored(tables.push(table))) == newest(stored(tables)).union_prefer_right(
            newest(table_points(table.1)),
        ),
{
    assert(tables.push(table).drop_last() =~= tables);
    lemma_newest_add(stored(tables), table_points(table.1));
}

/// The tables of a store are listed in the order of their numbers.
pub proof fn store_is_listed_in_order(store: Store, names: Seq<Seq<u8>>, seq: int)
    requires
        tables_are_sound(store.tables, seq),
        answers(store, ActionView::ListFiles, EventView::Files(names)),
    ensures
        listing(names) == table_names(store.tables),
{
    let numbers = Seq::new(store.tables.len(), |i: int| store.tables[i].0);
    assert(Seq::new(numbers.len(), |i: int| table_name(numbers[i])) =~= table_names(store.tables));
    tables_are_listed_by_number(names, numbers);
}

/// Appending a record to a whole log adds its point.
proof fn lemma_append(log: Seq<u8>, point: TimeSeriesPoint)
    requires
        log_is_whole(log),
    ensures
        replayed(log + record_bytes(point)) == replayed(log).push(point),
        log_is_whole(log + record_bytes(point)),
{
    let points = replayed(log);
    let more = points.push(point);
    assert(more.drop_last() =~= points);
    replay_gives_back_the_log(more, Seq::empty());
    assert(log_bytes(more) + Seq::empty() =~= log + record_bytes(point));
    assert(replayed(Seq::<u8>::empty()) =~= Seq::empty());
    assert(more + Seq::empty() =~= more);
}

/// Removing the first tables by their names leaves the others.
pub proof fn lemma_without_first(tables: Seq<(u64, Seq<u8>)>, n: int, k: int)
    requires
        forall|i: int, j: int| 0 <= i < j < tables.len() ==> tables[i].0 < tables[j].0,
        0 <= k <= n <= tables.len(),
    ensures
        without(tables.take(n), table_names(tables).take(k)) == tables.subrange(k, n),
    decreases n,
{
    let names = table_names(tables).take(k);
    if n == 0 {
        assert(tables.subrange(k, n) =~= Seq::empty());
    } else {
        let last = tables[n - 1];
        assert(tables.take(n).drop_last() =~= tables.take(n - 1));
        assert(tables.take(n).last() == last);
        if n <= k {
            assert(names[n - 1] == table_name(last.0));
            assert(k == n);
            lemma_without_all(tables, n - 1, k);
            assert(tables.subrange(k, n) =~= Seq::empty());
        } else {
            lemma_without_first(tables, n - 1, k);
            if names.contains(table_name(last.0)) {
                let i = choose|i: int| 0 <= i < names.len() && names[i] == table_name(last.0);
                assert(names[i] == table_name(tables[i].0));
                name_holds_its_number(tables[i].0);
                name_holds_its_number(last.0);
                assert(tables[i].0 < tables[n - 1].0);
            }
            assert(tables.subrange(k, n) =~= tables.subrange(k, n - 1).push(last));
        }
    }
}

proof fn lemma_without_all(tables: Seq<(u64, Seq<u8>)>, n: int, k: int)
    requires
        0 <= n <= k <= tables.len(),
    ensures
        without(tables.take(n), table_names(tables).take(k)) == Seq::<(u64, Seq<u8>)>::empty(),
    decreases n,
{
    if n > 0 {
        lemma_without_all(tables, n - 1, k);
        assert(tables.take(n).drop_last() =~= tables.take(n - 1));
        assert(table_names(tables).take(k)[n - 1] == table_name(tables[n - 1].0));
    }
}

/// Whether the engine and the store fit together while no operation is going on.
pub open spec fn at_rest(engine: EngineView, store: Store) -> bool {
    &&& log_is_whole(store.log)
    &&& tables_are_sound(store.tables, engine.seq as int)
    &&& engine.mem == logged(store)
}

/// A flush starts consistently.
pub proof fn flush_starts_consistently(engine: EngineView, store: Store)
    requires
        at_rest(engine, store),
        engine.mem != Map::<i64, u64>::empty() ==> engine.seq < u64::MAX,
    ensures
        consistent(flushing(engine).0, store, flushing(engine).1),
{
}

/// A write starts consistently.
pub proof fn write_starts_consistently(
    engine: EngineView,
    store: Store,
    points: Seq<TimeSeriesPoint>,
)
    requires
        at_rest(engine, store),
        points.len() == 0 && engine.mem != Map::<i64, u64>::empty() && ENTRY_SIZE
            * engine.mem.len() >= engine.capacity ==> engine.seq < u64::MAX,
    ensures
        consistent(writing(engine, points).0, store, writing(engine, points).1),
{
}

/// A merge of all tables starts consistently.
pub proof fn compaction_starts_consistently(engine: EngineView, store: Store)
    requires
        at_rest(engine, store),
    ensures
        consistent(compacting(engine, 2).0, store, compacting(engine, 2).1),
{
}

/// An engine whose operation is over is at rest.
pub proof fn finished_engine_is_at_rest(engine: EngineView, store: Store, action: ActionView)
    requires
        consistent(engine, store, action),
        action is Finish,
    ensures
        at_rest(engine, store),
{
}

proof fn lemma_logging_step(engine: EngineView, store: Store, points: Seq<TimeSeriesPoint>)
    requires
        consistent(engine, store, ActionView::AppendToLog(record_bytes(points[0]))),
        engine.stage == StageView::Logging(points),
        accepts(engine, EventView::Done),
    ensures
        ({
            let after = performed(store, ActionView::AppendToLog(record_bytes(points[0])));
            let (e, a) = next(engine, EventView::Done);
            &&& consistent(e, after, a)
            &&& visible(after) == visible(store).insert(points[0].timestamp, points[0].value_bits)
        }),
{
    let p = points[0];
    let after = performed(store, ActionView::AppendToLog(record_bytes(p)));
    lemma_append(store.log, p);
    lemma_newest_push(replayed(store.log), p);
    assert(visible(after) =~= visible(store).insert(p.timestamp, p.value_bits));
    let mem = engine.mem.insert(p.timestamp, p.value_bits);
    write_starts_consistently(EngineView { mem, ..engine }, after, points.skip(1));
}

proof fn lemma_table_step(engine: EngineView, store: Store, action: ActionView)
    requires
        consistent(engine, store, action),
        engine.stage is WritingTable,
        table_fits(blocks_of(map_points(logged(store)))),
    ensures
        ({
            let after = performed(store, action);
            let (e, a) = next(engine, EventView::Done);
            &&& consistent(e, after, a)
            &&& visible(after) == visible(store)
        }),
{
    let after = performed(store, action);
    let contents = table_of(map_points(logged(store)));
    name_holds_its_number(engine.seq);
    lemma_newest_is_finite(replayed(store.log));
    map_points_list_the_map(logged(store));
    lemma_written_table(map_points(logged(store)));
    lemma_stored_push(store.tables, (engine.seq, contents));
    assert(after.tables.last() == (engine.seq, contents));
    assert(visible(after) =~= visible(store));
}

proof fn lemma_reset_step(engine: EngineView, store: Store)
    requires
        consistent(engine, store, ActionView::ResetLog),
        engine.stage is ResettingLog,
    ensures
        ({
            let after = performed(store, ActionView::ResetLog);
            let (e, a) = next(engine, EventView::Done);
            &&& consistent(e, after, a)
            &&& visible(after) == visible(store)
        }),
{
    let after = performed(store, ActionView::ResetLog);
    let last = store.tables.last();
    lemma_stored_push(store.tables.drop_last(), last);
    assert(store.tables =~= store.tables.drop_last().push(last));
    assert(replayed(after.log) =~= Seq::empty());
    assert(after.log =~= log_bytes(replayed(after.log)));
    assert(logged(after) =~= Map::empty());
    assert(visible(after) =~= visible(store));
}

proof fn lemma_reading_step(
    engine: EngineView,
    store: Store,
    action: ActionView,
    names: Seq<Seq<u8>>,
    n: nat,
    points: Seq<TimeSeriesPoint>,
    read: Option<Result<Seq<TimeSeriesPoint>, TableError>>,
)
    requires
        consistent(engine, store, action),
        engine.stage == StageView::Reading(names, n, points),
        answers(store, action, EventView::Table(read)),
        accepts(engine, EventView::Table(read)),
    ensures
        consistent(
            next(engine, EventView::Table(read)).0,
            store,
            next(engine, EventView::Table(read)).1,
        ),
{
    let tables = store.tables;
    let i = choose|i: int|
        0 <= i < tables.len() && names[n as int] == table_name((#[trigger] tables[i]).0) && read
            == parse_blocks(tables[i].1, parse_index(tables[i].1));
    name_holds_its_number(tables[i].0);
    name_holds_its_number(tables[n as int].0);
    assert(i == n);
    sound_table_is_readable(tables[i].1);
    lemma_stored_push(tables.take(i), tables[i]);
    assert(tables.take(i + 1) =~= tables.take(i).push(tables[i]));
    assert(tables.take(tables.len() as int) =~= tables);
}

proof fn lemma_merged_step(engine: EngineView, store: Store, action: ActionView)
    requires
        consistent(engine, store, action),
        engine.stage is WritingMerged,
        table_fits(blocks_of(map_points(newest(stored(store.tables))))),
    ensures
        ({
            let after = performed(store, action);
            let (e, a) = next(engine, EventView::Done);
            &&& consistent(e, after, a)
            &&& visible(after) == visible(store)
        }),
{
    let after = performed(store, action);
    let all = newest(stored(store.tables));
    let contents = table_of(map_points(all));
    name_holds_its_number(engine.seq);
    lemma_newest_is_finite(stored(store.tables));
    map_points_list_the_map(all);
    lemma_written_table(map_points(all));
    lemma_stored_push(store.tables, (engine.seq, contents));
    assert(after.tables.drop_last() =~= store.tables);
    assert(after.tables.last() == (engine.seq, contents));
    assert(visible(after) =~= visible(store));
}

/// Removing some of the merged tables, from the first on, hides nothing.
proof fn lemma_removal(engine: EngineView, store: Store, action: ActionView, k: int)
    requires
        consistent(engine, store, action),
        engine.stage is Removing,
        0 <= k < store.tables.len(),
    ensures
        ({
            let names = table_names(store.tables.drop_last()).take(k);
            let tables = without(store.tables, names);
            &&& tables == store.tables.skip(k)
            &&& visible(Store { tables, ..store }) == visible(store)
        }),
{
    let n = store.tables.len() as int;
    let last = store.tables.last();
    let names = table_names(store.tables.drop_last()).take(k);
    assert(names =~= table_names(store.tables).take(k));
    lemma_without_first(store.tables, n, k);
    assert(store.tables.take(n) =~= store.tables);
    let left = store.tables.skip(k);
    assert(left =~= store.tables.subrange(k, n));
    let merged = store.tables.drop_last();
    lemma_stored_push(merged, last);
    assert(store.tables =~= merged.push(last));
    lemma_stored_push(left.drop_last(), last);
    assert(left =~= left.drop_last().push(last));
    assert(left.drop_last() =~= merged.skip(k));
    lemma_stored_of_part(merged, k);
    assert(visible(Store { tables: left, ..store }) =~= visible(store));
}

/// What the last tables store, all of them store.
proof fn lemma_stored_of_part(tables: Seq<(u64, Seq<u8>)>, k: int)
    requires
        0 <= k <= tables.len(),
    ensures
        newest(stored(tables.skip(k))).dom().subset_of(newest(stored(tables)).dom()),
    decreases tables.len(),
{
    if k == tables.len() {
        assert(stored(tables.skip(k)) =~= Seq::empty());
    } else {
        let before = tables.drop_last();
        lemma_stored_of_part(before, k);
        lemma_stored_push(before, tables.last());
        lemma_stored_push(before.skip(k), tables.last());
        assert(tables =~= before.push(tables.last()));
        assert(tables.skip(k) =~= before.skip(k).push(tables.last()));
    }
}

proof fn lemma_removing_step(engine: EngineView, store: Store, action: ActionView)
    requires
        consistent(engine, store, action),
        engine.stage is Removing,
    ensures
        ({
            let after = performed(store, action);
            let (e, a) = next(engine, EventView::Done);
            &&& consistent(e, after, a)
            &&& visible(after) == visible(store)
            &&& after.tables.len() == 1
        }),
{
    let k = store.tables.len() - 1;
    lemma_removal(engine, store, action, k);
    assert(table_names(store.tables.drop_last()).take(k) =~= table_names(store.tables.drop_last()));
}

/// Every step keeps engine and store consistent, and the data: a point that is written becomes
/// visible once it is in the log, and nothing else changes what is visible.
pub proof fn every_step_keeps_the_data(
    engine: EngineView,
    store: Store,
    action: ActionView,
    event: EventView,
)
    requires
        consistent(engine, store, action),
        next_table_fits(engine, store),
        answers(performed(store, action), action, event),
        accepts(engine, event),
    ensures
        ({
            let after = performed(store, action);
            let (e, a) = next(engine, event);
            &&& consistent(e, after, a)
            &&& visible(after) == match engine.stage {
                StageView::Logging(points) => visible(store).insert(
                    points[0].timestamp,
                    points[0].value_bits,
                ),
                _ => visible(store),
            }
        }),
{
    match engine.stage {
        StageView::Idle => {},
        StageView::Logging(points) => {
            lemma_logging_step(engine, store, points);
        },
        StageView::WritingTable => {
            lemma_table_step(engine, store, action);
        },
        StageView::ResettingLog => {
            lemma_reset_step(engine, store);
        },
        StageView::Listing(_) => {
            store_is_listed_in_order(store, event->Files_0, engine.seq as int);
            assert(store.tables.take(0) =~= Seq::empty());
        },
        StageView::Reading(names, n, points) => {
            lemma_reading_step(engine, store, action, names, n, points, event->Table_0);
        },
        StageView::WritingMerged(_) => {
            lemma_merged_step(engine, store, action);
        },
        StageView::Removing => {
            lemma_removing_step(engine, store, action);
        },
    }
}

/// The stores that may be found when a crash interrupts an action: a record or a table may be cut
/// short, and some of the files to be removed may be left. What was written before is taken to
/// stay as it is.
pub open spec fn may_be_left(store: Store, action: ActionView, found: Store) -> bool {
    match action {
        ActionView::AppendToLog(bytes) => exists|n: int|
            0 <= n <= bytes.len() && found == (Store {
                log: store.log + #[trigger] bytes.take(n),
                ..store
            }),
        ActionView::WriteTable(name, contents) => found == store || exists|n: int|
            0 <= n <= contents.len() && found == (Store {
                tables: store.tables.push((name_seq(name)->0, #[trigger] contents.take(n))),
                ..store
            }),
        ActionView::RemoveFiles(names) => exists|n: int|
            0 <= n <= names.len() && found == (Store {
                tables: without(store.tables, #[trigger] names.take(n)),
                ..store
            }),
        _ => found == store || found == performed(store, action),
    }
}

/// What was found without the table that was being written, where that is not whole.
pub open spec fn without_unfinished(found: Store, action: ActionView) -> Store {
    match action {
        ActionView::WriteTable(name, contents) => if found.tables.len() > 0
            && found.tables.last().0 == name_seq(name)->0 && found.tables.last().1 != contents {
            Store { tables: found.tables.drop_last(), ..found }
        } else {
            found
        },
        _ => found,
    }
}

/// A crash at any time leaves what was visible before the action that it interrupts, or what is
/// visible behind it. Where it leaves a table cut short, that table has to be taken away: the log
/// and the other tables still hold everything.
pub proof fn a_crash_loses_nothing(
    engine: EngineView,
    store: Store,
    action: ActionView,
    found: Store,
)
    requires
        consistent(engine, store, action),
        may_be_left(store, action, found),
    ensures
        ({
            let left = without_unfinished(found, action);
            visible(left) == visible(store) || visible(left) == visible(performed(store, action))
        }),
{
    match action {
        ActionView::AppendToLog(bytes) => {
            let n = choose|n: int|
                0 <= n <= bytes.len() && found == (Store {
                    log: store.log + #[trigger] bytes.take(n),
                    ..store
                });
            let point = engine.stage->Logging_0[0];
            let before = replayed(store.log);
            let points = before.push(point);
            let len = store.log.len() + n;
            lemma_append(store.log, point);
            replay_gives_back_the_log(before, Seq::empty());
            replay_gives_back_the_log(points, Seq::empty());
            assert(points.drop_last() =~= before);
            replay_of_a_cut_log(points, len);
            assert(log_bytes(points).take(len) =~= found.log);
            if n < bytes.len() {
                assert(points.take(len / 24) =~= before);
            } else {
                assert(points.take(len / 24) =~= points);
            }
        },
        ActionView::WriteTable(name, contents) => {
            name_holds_its_number(engine.seq);
            if found == store {
                if store.tables.len() > 0 {
                    assert(store.tables[store.tables.len() - 1].0 < engine.seq);
                }
            } else {
                let n = choose|n: int|
                    0 <= n <= contents.len() && found == (Store {
                        tables: store.tables.push((name_seq(name)->0, #[trigger] contents.take(n))),
                        ..store
                    });
                assert(found.tables.drop_last() =~= store.tables);
                assert(found.tables.last() == (engine.seq, contents.take(n)));
            }
        },
        ActionView::RemoveFiles(names) => {
            let n = choose|n: int|
                0 <= n <= names.len() && found == (Store {
                    tables: without(store.tables, #[trigger] names.take(n)),
                    ..store
                });
            lemma_removal(engine, store, action, n);
        },
        _ => {},
    }
}

/// Of several tables, the last one that has a timestamp gives its value.
pub proof fn last_table_wins(tables: Seq<(u64, Seq<u8>)>, i: int, t: i64)
    requires
        0 <= i < tables.len(),
        newest(table_points(tables[i].1)).contains_key(t),
        forall|j: int|
            i < j < tables.len() ==> !newest(
                table_points((#[trigger] tables[j]).1),
            ).contains_key(t),
    ensures
        newest(stored(tables)).contains_key(t),
        newest(stored(tables))[t] == newest(table_points(tables[i].1))[t],
    decreases tables.len(),
{
    let before = tables.drop_last();
    lemma_newest_add(stored(before), table_points(tables.last().1));
    if i < tables.len() - 1 {
        assert(forall|j: int| 0 <= j < before.len() ==> #[trigger] before[j] == tables[j]);
        assert(!newest(table_points(tables[tables.len() - 1].1)).contains_key(t));
        last_table_wins(before, i, t);
    }
}

/// The table that a merge writes has increasing timestamps and, at the timestamps of the merged
/// tables and no others, the value of the last one that has it.
pub proof fn merged_table_holds_the_newest(tables: Seq<(u64, Seq<u8>)>)
    requires
        table_fits(blocks_of(map_points(newest(stored(tables))))),
    ensures
        ({
            let merged = table_of(map_points(newest(stored(tables))));
            &&& is_sound_table(merged)
            &&& strictly_sorted(table_points(merged))
            &&& newest(table_points(merged)) == newest(stored(tables))
        }),
{
    lemma_newest_is_finite(stored(tables));
    map_points_list_the_map(newest(stored(tables)));
    lemma_written_table(map_points(newest(stored(tables))));
}

/// A merge leaves one table.
pub proof fn compaction_leaves_one_table(engine: EngineView, store: Store, action: ActionView)
    requires
        consistent(engine, store, action),
        engine.stage is Removing,
    ensures
        performed(store, action).tables.len() == 1,
        next(engine, EventView::Done).1 == ActionView::Finish(Ok(())),
{
    lemma_removing_step(engine, store, action);
}

/// Without a merge, an operation that counts the tables ends with fewer than it looks for.
pub proof fn few_tables_are_left_alone(
    engine: EngineView,
    store: Store,
    at_least: usize,
    names: Seq<Seq<u8>>,
)
    requires
        consistent(engine, store, ActionView::ListFiles),
        engine.stage == StageView::Listing(at_least),
        answers(store, ActionView::ListFiles, EventView::Files(names)),
    ensures
        next(engine, EventView::Files(names)).1 is Finish <==> store.tables.len() < at_least,
{
    store_is_listed_in_order(store, names, engine.seq as int);
}

/// The log without what follows its last whole record.
pub open spec fn whole_part(log: Seq<u8>) -> Seq<u8> {
    log.take((24 * replayed(log).len()) as int)
}

/// An engine that was recovered holds what is in the log, and its next table gets a new number. It
/// is at rest once the log is cut off behind its last whole record, which changes nothing that is
/// visible; a log of whole records is not cut.
pub proof fn recovered_engine_is_at_rest(
    engine: EngineView,
    store: Store,
    names: Seq<Seq<u8>>,
)
    requires
        tables_are_sound(store.tables, u64::MAX as int),
        forall|i: int| 0 <= i < store.tables.len() ==> names.contains(
            table_name((#[trigger] store.tables[i]).0),
        ),
        engine.mem == newest(replayed(store.log)),
        engine.seq == max_seq(names),
    ensures
        at_rest(engine, Store { log: whole_part(store.log), ..store }),
        visible(Store { log: whole_part(store.log), ..store }) == visible(store),
        log_is_whole(store.log) ==> whole_part(store.log) == store.log,
{
    replay_reads_the_log_of_its_points(store.log);
    assert forall|i: int| 0 <= i < store.tables.len() implies (#[trigger] store.tables[i]).0
        <= engine.seq by {
        let name = table_name(store.tables[i].0);
        name_holds_its_number(store.tables[i].0);
        let k = choose|k: int| 0 <= k < names.len() && names[k] == name;
        lemma_max_seq(names, k);
    }
}

/// An engine that was recovered shows in a scan what the engine before it showed at rest, whatever
/// their capacities.
pub proof fn recovery_keeps_the_scan(engine: EngineView, store: Store, recovered: EngineView)
    requires
        at_rest(engine, store),
        recovered.mem == newest(replayed(store.log)),
    ensures
        recovered.mem == engine.mem,
        merge_points(map_points(recovered.mem), stored(store.tables)) == merge_points(
            map_points(engine.mem),
            stored(store.tables),
        ),
{
}

/// A flush keeps what a scan finds, point by point, where no timestamp in memory is in a table yet.
pub proof fn flush_keeps_the_scan(engine: EngineView, store: Store)
    requires
        at_rest(engine, store),
        table_fits(blocks_of(map_points(engine.mem))),
        engine.mem.dom().disjoint(newest(stored(store.tables)).dom()),
    ensures
        ({
            let table = table_of(map_points(engine.mem));
            let tables = store.tables.push(((engine.seq + 1) as u64, table));
            merge_points(Seq::empty(), stored(tables)) == merge_points(
                map_points(engine.mem),
                stored(store.tables),
            )
        }),
{
    let mem = map_points(engine.mem);
    let sst = stored(store.tables);
    let none = Seq::<TimeSeriesPoint>::empty();
    let (a, b) = (merge_points(none, sst + mem), merge_points(mem, sst));
    lemma_newest_is_finite(replayed(store.log));
    map_points_list_the_map(engine.mem);
    lemma_written_table(mem);
    lemma_stored_push(store.tables, ((engine.seq + 1) as u64, table_of(mem)));
    lemma_at_merge(none, sst + mem, 0);
    lemma_at_merge(mem, sst, 0);
    assert forall|t: i64| #[trigger] points_at(a, t) == points_at(b, t) by {
        lemma_at_merge(none, sst + mem, t);
        lemma_at_merge(mem, sst, t);
        lemma_at_add(sst, mem, t);
        lemma_newest_is_last_at(mem, t);
        lemma_newest_is_last_at(sst, t);
        if engine.mem.contains_key(t) {
            assert(engine.mem.dom().contains(t));
            assert(!newest(sst).dom().contains(t));
            assert(points_at(sst, t) + points_at(mem, t) =~= points_at(mem, t));
        } else {
            assert(points_at(sst, t) + points_at(mem, t) =~= points_at(sst, t));
        }
    }
    sorted_is_unique(a, b);
}

/// Engine, store and action after `n` more actions were performed.
pub open spec fn after_actions(engine: EngineView, store: Store, action: ActionView, n: nat) -> (
    EngineView,
    Store,
    ActionView,
)
    decreases n,
{
    if n == 0 {
        (engine, store, action)
    } else {
        let (e, a) = next(engine, EventView::Done);
        after_actions(e, performed(store, action), a, (n - 1) as nat)
    }
}

/// Engine and store after the points were written one by one, each with one action.
pub open spec fn after_single_writes(
    engine: EngineView,
    store: Store,
    points: Seq<TimeSeriesPoint>,
) -> (EngineView, Store)
    decreases points.len(),
{
    if points.len() == 0 {
        (engine, store)
    } else {
        let (e, s) = after_single_writes(engine, store, points.drop_last());
        let (e2, a) = writing(e, seq![points.last()]);
        let (e3, s3, _) = after_actions(e2, s, a, 1);
        (e3, s3)
    }
}

/// Engine and store with the points in memory and in the log.
pub open spec fn with_points(engine: EngineView, store: Store, points: Seq<TimeSeriesPoint>) -> (
    EngineView,
    Store,
) {
    (
        EngineView {
            mem: engine.mem.union_prefer_right(newest(points)),
            stage: StageView::Idle,
            ..engine
        },
        Store { log: store.log + log_bytes(points), ..store },
    )
}

proof fn lemma_more_points_occupy_more(mem: Map<i64, u64>, points: Seq<TimeSeriesPoint>, n: int)
    requires
        mem.dom().finite(),
        0 <= n <= points.len(),
    ensures
        mem.union_prefer_right(newest(points.take(n))).len() <= mem.union_prefer_right(
            newest(points),
        ).len(),
        mem.union_prefer_right(newest(points.take(n))).dom().finite(),
{
    let (some, all) = (
        mem.union_prefer_right(newest(points.take(n))),
        mem.union_prefer_right(newest(points)),
    );
    lemma_newest_is_finite(points.take(n));
    lemma_newest_is_finite(points);
    lemma_newest_add(points.take(n), points.skip(n));
    assert(points =~= points.take(n) + points.skip(n));
    assert(some.dom() =~= mem.dom().union(newest(points.take(n)).dom()));
    assert(all.dom() =~= mem.dom().union(newest(points).dom()));
    assert(some.dom().subset_of(all.dom()));
    vstd::set_lib::lemma_len_subset(some.dom(), all.dom());
}

proof fn lemma_batch(engine: EngineView, store: Store, points: Seq<TimeSeriesPoint>)
    requires
        ENTRY_SIZE * engine.mem.union_prefer_right(newest(points)).len() < engine.capacity,
    ensures
        ({
            let (e, a) = writing(engine, points);
            let (e2, s2) = with_points(engine, store, points);
            after_actions(e, store, a, points.len()) == (e2, s2, ActionView::Finish(Ok(())))
        }),
    decreases points.len(),
{
    let (e, a) = writing(engine, points);
    let (e2, s2) = with_points(engine, store, points);
    if points.len() == 0 {
        assert(e2.mem =~= engine.mem);
        assert(s2.log =~= store.log);
    } else {
        let p = points[0];
        let rest = points.skip(1);
        let mem = engine.mem.insert(p.timestamp, p.value_bits);
        let between = EngineView { mem, stage: e.stage, ..engine };
        let after = performed(store, a);
        assert(points =~= seq![p] + rest);
        lemma_newest_add(seq![p], rest);
        lemma_newest_push(Seq::empty(), p);
        assert(Seq::empty().push(p) =~= seq![p]);
        assert(mem.union_prefer_right(newest(rest)) =~= engine.mem.union_prefer_right(
            newest(points),
        ));
        log_of_a_sum(seq![p], rest);
        reveal_with_fuel(log_bytes, 2);
        assert(seq![p].drop_last() =~= Seq::empty());
        assert(log_bytes(seq![p]) =~= record_bytes(p));
        assert(after.log + log_bytes(rest) =~= store.log + log_bytes(points));
        lemma_batch(between, after, rest);
        assert(next(e, EventView::Done) == writing(between, rest));
    }
}

proof fn lemma_single_writes(engine: EngineView, store: Store, points: Seq<TimeSeriesPoint>)
    requires
        engine.stage is Idle,
        engine.mem.dom().finite(),
        ENTRY_SIZE * engine.mem.union_prefer_right(newest(points)).len() < engine.capacity,
    ensures
        after_single_writes(engine, store, points) == with_points(engine, store, points),
    decreases points.len(),
{
    let (e2, s2) = with_points(engine, store, points);
    if points.len() == 0 {
        assert(e2.mem =~= engine.mem);
        assert(s2.log =~= store.log);
    } else {
        let before = points.drop_last();
        let last = seq![points.last()];
        lemma_more_points_occupy_more(engine.mem, points, before.len() as int);
        assert(points.take(before.len() as int) =~= before);
        lemma_single_writes(engine, store, before);
        let (e, s) = with_points(engine, store, before);
        assert(points =~= before + last);
        lemma_newest_add(before, last);
        log_of_a_sum(before, last);
        assert(e.mem.union_prefer_right(newest(last)) =~= e2.mem);
        assert(s.log + log_bytes(last) =~= s2.log);
        lemma_batch(e, s, last);
    }
}

/// Below the capacity, a batch ends where single writes of its points end: with the last value at
/// each of their timestamps in memory, all of them in the log, in order, and no other change.
pub proof fn batch_ends_like_single_writes(
    engine: EngineView,
    store: Store,
    points: Seq<TimeSeriesPoint>,
)
    requires
        engine.stage is Idle,
        engine.mem.dom().finite(),
        ENTRY_SIZE * engine.mem.union_prefer_right(newest(points)).len() < engine.capacity,
    ensures
        ({
            let (e, a) = writing(engine, points);
            let (e2, s2) = with_points(engine, store, points);
            &&& after_actions(e, store, a, points.len()) == (e2, s2, ActionView::Finish(Ok(())))
            &&& after_single_writes(engine, store, points) == (e2, s2)
        }),
{
    lemma_batch(engine, store, points);
    lemma_single_writes(engine, store, points);
}

/// A scan finds, sorted, a point at each visible timestamp, and the newest there is the visible
/// value. What is in memory stands alone at its timestamp.
pub proof fn scan_shows_what_is_visible(engine: EngineView, store: Store)
    requires
        at_rest(engine, store),
    ensures
        ({
            let found = merge_points(map_points(engine.mem), stored(store.tables));
            &&& sorted(found)
            &&& newest(found) == visible(store)
            &&& forall|t: i64| #[trigger]
                engine.mem.contains_key(t) ==> points_at(found, t) == seq![
                    TimeSeriesPoint { timestamp: t, value_bits: engine.mem[t] },
                ]
        }),
{
    let mem = map_points(engine.mem);
    let sst = stored(store.tables);
    let found = merge_points(mem, sst);
    lemma_newest_is_finite(replayed(store.log));
    map_points_list_the_map(engine.mem);
    lemma_at_merge(mem, sst, 0);
    assert forall|t: i64| #[trigger] newest(found).contains_key(t) == visible(store).contains_key(t)
        && (newest(found).contains_key(t) ==> newest(found)[t] == visible(store)[t]) by {
        lemma_at_merge(mem, sst, t);
        lemma_newest_is_last_at(found, t);
        lemma_newest_is_last_at(mem, t);
        lemma_newest_is_last_at(sst, t);
    }
    assert(newest(found) =~= visible(store));
    assert forall|t: i64| #[trigger] engine.mem.contains_key(t) implies points_at(found, t) == seq![
        TimeSeriesPoint { timestamp: t, value_bits: engine.mem[t] },
    ] by {
        lemma_at_merge(mem, sst, t);
        lemma_strict_at(mem, t);
    }
}

/// With one table, as a merge leaves it, a scan finds one point for each timestamp.
pub proof fn scan_of_one_table_has_no_duplicates(engine: EngineView, store: Store)
    requires
        at_rest(engine, store),
        store.tables.len() <= 1,
    ensures
        strictly_sorted(merge_points(map_points(engine.mem), stored(store.tables))),
{
    let mem = map_points(engine.mem);
    let sst = stored(store.tables);
    let found = merge_points(mem, sst);
    lemma_newest_is_finite(replayed(store.log));
    map_points_list_the_map(engine.mem);
    assert(strictly_sorted(sst)) by {
        if store.tables.len() == 1 {
            sound_table_is_readable(store.tables[0].1);
            assert(stored(store.tables.drop_last()) =~= Seq::empty());
            assert(sst =~= table_points(store.tables[0].1));
        }
    }
    lemma_at_merge(mem, sst, 0);
    assert forall|i: int, j: int| 0 <= i < j < found.len() implies found[i].timestamp
        < found[j].timestamp by {
        if found[i].timestamp == found[j].timestamp {
            let t = found[i].timestamp;
            lemma_two_at(found, i, j);
            lemma_at_merge(mem, sst, t);
            lemma_strict_at(mem, t);
            lemma_strict_at(sst, t);
        }
    }
}

} // verus!
