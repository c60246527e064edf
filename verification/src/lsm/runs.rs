//! What whole operations do to engine and store, from the call that begins them to their end.
use super::memtable::ENTRY_SIZE;
use super::names::{
    is_table_name, name_holds_its_number, table_name, tables_are_listed_by_number,
};
use super::points::{
    lemma_newest_add, lemma_newest_is_finite, lemma_newest_push, map_points,
    map_points_list_the_map, merge_points, newest, strictly_sorted,
};
use super::protocol::{
    accepts, compacting, flushing, next, table_of, writing, ActionView, EngineView, EventView,
    StageView, COMPACTION_THRESHOLD,
};
use super::store::{
    answers, at_rest, consistent, every_step_keeps_the_data, finished_engine_is_at_rest,
    flush_starts_consistently, lemma_stored_push, lemma_without_first, lemma_written_table, logged,
    next_table_fits, performed, scan_of_one_table_has_no_duplicates, scan_shows_what_is_visible,
    sound_table_is_readable, stored, table_names, table_points, tables_are_sound, visible, Store,
};
use super::table_format::{blocks_of, parse_blocks, parse_index, TableError};
use super::table_laws::table_fits;
use super::wal::{log_bytes, log_of_a_sum, record_bytes, replay_gives_back_the_log, replayed};
use crate::types::TimeSeriesPoint;
use vstd::prelude::*;

verus! {

/// Engine and store at a moment of an operation, and the action that the engine asks for.
pub struct Moment {
    pub engine: EngineView,
    pub store: Store,
    pub action: ActionView,
}

/// Whether `after` is what comes of `before` when its action is performed and `event` told.
pub open spec fn leads_to(before: Moment, event: EventView, after: Moment) -> bool {
    &&& next_table_fits(before.engine, before.store)
    &&& after.store == performed(before.store, before.action)
    &&& answers(after.store, before.action, event)
    &&& accepts(before.engine, event)
    &&& (after.engine, after.action) == next(before.engine, event)
}

/// Whether `after` may come of `before` by one action.
#[verifier::opaque]
pub open spec fn follows(before: Moment, after: Moment) -> bool {
    exists|event: EventView| #[trigger] leads_to(before, event, after)
}

/// Whether the moment at `i` goes over into the next one.
pub open spec fn goes_on(run: Seq<Moment>, i: int) -> bool {
    follows(run[i], run[i + 1])
}

/// Whether `run` holds the moments of an operation that began with `start` on the store, or the
/// first of them.
pub open spec fn is_run(run: Seq<Moment>, start: (EngineView, ActionView), store: Store) -> bool {
    &&& run.len() > 0
    &&& run[0] == (Moment { engine: start.0, store, action: start.1 })
    &&& forall|i: int| 0 <= i && i + 1 < run.len() ==> #[trigger] goes_on(run, i)
}

/// Whether the operation is over with the last moment.
pub open spec fn is_over(run: Seq<Moment>) -> bool {
    run.last().action is Finish
}

/// Whether the tables are numbered in order.
pub open spec fn in_order_of_numbers(tables: Seq<(u64, Seq<u8>)>) -> bool {
    forall|i: int, j: int| 0 <= i < j < tables.len() ==> tables[i].0 < tables[j].0
}

/// What reading a table gives.
pub open spec fn read_of(contents: Seq<u8>) -> Option<Result<Seq<TimeSeriesPoint>, TableError>> {
    parse_blocks(contents, parse_index(contents))
}

/// Whether the first `n` tables can be read.
pub open spec fn can_be_read(tables: Seq<(u64, Seq<u8>)>, n: int) -> bool {
    forall|i: int| 0 <= i < n ==> read_of((#[trigger] tables[i]).1) matches Some(Ok(_))
}

/// Whether engine, store and action fit together.
#[verifier::opaque]
spec fn is_sound(moment: Moment) -> bool {
    consistent(moment.engine, moment.store, moment.action)
}

proof fn lemma_step(before: Moment, after: Moment)
    requires
        follows(before, after),
        is_sound(before),
    ensures
        is_sound(after),
        !(before.engine.stage is Logging) ==> visible(after.store) == visible(before.store),
{
    reveal(follows);
    reveal(is_sound);
    let event = choose|event: EventView| #[trigger] leads_to(before, event, after);
    every_step_keeps_the_data(before.engine, before.store, before.action, event);
}

proof fn lemma_end(moment: Moment)
    requires
        is_sound(moment),
        moment.action is Finish,
    ensures
        at_rest(moment.engine, moment.store),
{
    reveal(is_sound);
    finished_engine_is_at_rest(moment.engine, moment.store, moment.action);
}

/// Nothing follows the end of an operation.
proof fn lemma_nothing_follows(
    run: Seq<Moment>,
    start: (EngineView, ActionView),
    store: Store,
    i: int,
)
    requires
        is_run(run, start, store),
        0 <= i < run.len(),
        run[i].action is Finish,
    ensures
        run.len() == i + 1,
{
    reveal(follows);
    if i + 1 < run.len() {
        assert(goes_on(run, i));
    }
}

proof fn lemma_rest_is_run(
    run: Seq<Moment>,
    start: (EngineView, ActionView),
    store: Store,
    n: int,
)
    requires
        is_run(run, start, store),
        0 <= n < run.len(),
    ensures
        is_run(run.skip(n), (run[n].engine, run[n].action), run[n].store),
        run.skip(n).last() == run.last(),
{
    let rest = run.skip(n);
    assert forall|i: int| 0 <= i && i + 1 < rest.len() implies #[trigger] goes_on(rest, i) by {
        assert(goes_on(run, n + i));
    }
}

proof fn lemma_listing(before: Moment, after: Moment, at_least: usize)
    requires
        follows(before, after),
        before.engine.stage == StageView::Listing(at_least),
        before.action == ActionView::ListFiles,
        at_least > 0,
        in_order_of_numbers(before.store.tables),
    ensures
        after.store == before.store,
        before.store.tables.len() < at_least ==> after.action == ActionView::Finish(Ok(()))
            && after.engine == (EngineView { stage: StageView::Idle, ..before.engine }),
        before.store.tables.len() >= at_least ==> {
            let names = table_names(before.store.tables);
            &&& after.action == ActionView::ReadTable(names[0])
            &&& after.engine == (EngineView {
                stage: StageView::Reading(names, 0, stored(before.store.tables.take(0))),
                ..before.engine
            })
        },
{
    reveal(follows);
    let event = choose|event: EventView| #[trigger] leads_to(before, event, after);
    let tables = before.store.tables;
    let numbers = Seq::new(tables.len(), |i: int| tables[i].0);
    assert(Seq::new(numbers.len(), |i: int| table_name(numbers[i])) =~= table_names(tables));
    tables_are_listed_by_number(event->Files_0, numbers);
    assert(stored(tables.take(0)) =~= Seq::empty());
}

proof fn lemma_reading(before: Moment, after: Moment, n: int)
    requires
        follows(before, after),
        0 <= n < before.store.tables.len(),
        before.engine.stage == StageView::Reading(
            table_names(before.store.tables),
            n as nat,
            stored(before.store.tables.take(n)),
        ),
        before.action == ActionView::ReadTable(table_names(before.store.tables)[n]),
        in_order_of_numbers(before.store.tables),
    ensures
        ({
            let tables = before.store.tables;
            let names = table_names(tables);
            let points = stored(tables.take(n + 1));
            &&& after.store == before.store
            &&& match read_of(tables[n].1) {
                None => false,
                Some(Err(error)) => {
                    &&& after.action == ActionView::Finish(Err(error))
                    &&& after.engine == (EngineView { stage: StageView::Idle, ..before.engine })
                },
                Some(Ok(_)) => if n + 1 < tables.len() {
                    &&& after.action == ActionView::ReadTable(names[n + 1])
                    &&& after.engine == (EngineView {
                        stage: StageView::Reading(names, (n + 1) as nat, points),
                        ..before.engine
                    })
                } else {
                    &&& before.engine.seq < u64::MAX
                    &&& after.action == ActionView::WriteTable(
                        table_name((before.engine.seq + 1) as u64),
                        table_of(map_points(newest(stored(tables)))),
                    )
                    &&& after.engine == (EngineView {
                        seq: (before.engine.seq + 1) as u64,
                        stage: StageView::WritingMerged(names),
                        ..before.engine
                    })
                },
            }
        }),
{
    reveal(follows);
    let event = choose|event: EventView| #[trigger] leads_to(before, event, after);
    let tables = before.store.tables;
    let read = event->Table_0;
    let i = choose|i: int|
        0 <= i < tables.len() && table_names(tables)[n] == table_name(
            (#[trigger] tables[i]).0,
        ) && read == parse_blocks(tables[i].1, parse_index(tables[i].1));
    name_holds_its_number(tables[i].0);
    name_holds_its_number(tables[n].0);
    assert(i == n);
    lemma_stored_push(tables.take(i), tables[i]);
    assert(tables.take(i + 1) =~= tables.take(i).push(tables[i]));
    assert(tables.take(tables.len() as int) =~= tables);
}

/// The moment of a merge when `n` tables were read.
proof fn lemma_merge_at(
    run: Seq<Moment>,
    engine: EngineView,
    store: Store,
    at_least: usize,
    n: int,
)
    requires
        is_run(run, compacting(engine, at_least), store),
        at_least > 0,
        in_order_of_numbers(store.tables),
        at_least <= store.tables.len(),
        0 <= n <= store.tables.len(),
        can_be_read(store.tables, n),
        n + 1 < run.len(),
    ensures
        run[n + 1].store == store,
        n < store.tables.len() ==> {
            let names = table_names(store.tables);
            &&& run[n + 1].action == ActionView::ReadTable(names[n])
            &&& run[n + 1].engine == (EngineView {
                stage: StageView::Reading(names, n as nat, stored(store.tables.take(n))),
                ..engine
            })
        },
        n == store.tables.len() ==> {
            &&& engine.seq < u64::MAX
            &&& run[n + 1].action == ActionView::WriteTable(
                table_name((engine.seq + 1) as u64),
                table_of(map_points(newest(stored(store.tables)))),
            )
            &&& run[n + 1].engine == (EngineView {
                seq: (engine.seq + 1) as u64,
                stage: StageView::WritingMerged(table_names(store.tables)),
                ..engine
            })
        },
    decreases n,
{
    assert(goes_on(run, n));
    if n == 0 {
        lemma_listing(run[0], run[1], at_least);
    } else {
        lemma_merge_at(run, engine, store, at_least, n - 1);
        lemma_reading(run[n], run[n + 1], n - 1);
        assert(read_of(store.tables[n - 1].1) matches Some(Ok(_)));
    }
}

/// With fewer tables than asked for, a merge lists the files and is over.
proof fn lemma_no_merge(run: Seq<Moment>, engine: EngineView, store: Store, at_least: usize)
    requires
        is_run(run, compacting(engine, at_least), store),
        in_order_of_numbers(store.tables),
        store.tables.len() < at_least,
    ensures
        run.len() <= 2,
        run[0].action == ActionView::ListFiles,
        is_over(run) <==> run.len() == 2,
        is_over(run) ==> run.last() == (Moment {
            engine: EngineView { stage: StageView::Idle, ..engine },
            store,
            action: ActionView::Finish(Ok(())),
        }),
{
    if run.len() > 1 {
        assert(goes_on(run, 0));
        lemma_listing(run[0], run[1], at_least);
        lemma_nothing_follows(run, compacting(engine, at_least), store, 1);
    }
}

/// A table that cannot be read ends a merge with the error of the first such table, and nothing
/// was changed.
pub proof fn failed_read_ends_a_merge(
    run: Seq<Moment>,
    engine: EngineView,
    store: Store,
    at_least: usize,
    n: int,
    error: TableError,
)
    requires
        is_run(run, compacting(engine, at_least), store),
        0 < at_least <= store.tables.len(),
        in_order_of_numbers(store.tables),
        0 <= n < store.tables.len(),
        can_be_read(store.tables, n),
        read_of(store.tables[n].1) == Some(Err::<Seq<TimeSeriesPoint>, TableError>(error)),
    ensures
        run.len() <= n + 3,
        is_over(run) <==> run.len() == n + 3,
        forall|i: int| 0 <= i < run.len() ==> (#[trigger] run[i]).store == store,
        is_over(run) ==> run.last().action == ActionView::Finish(Err(error)),
        is_over(run) ==> run.last().engine == (EngineView { stage: StageView::Idle, ..engine }),
{
    assert forall|i: int| 0 <= i < run.len() && i <= n + 2 implies (#[trigger] run[i]).store
        == store && (run[i].action is Finish <==> i == n + 2) by {
        if 0 < i <= n + 1 {
            lemma_merge_at(run, engine, store, at_least, i - 1);
        } else if i == n + 2 {
            lemma_merge_at(run, engine, store, at_least, n);
            assert(goes_on(run, i - 1));
            lemma_reading(run[n + 1], run[n + 2], n);
        }
    }
    if run.len() > n + 2 {
        lemma_merge_at(run, engine, store, at_least, n);
        assert(goes_on(run, n + 1));
        lemma_reading(run[n + 1], run[n + 2], n);
        lemma_nothing_follows(run, compacting(engine, at_least), store, n + 2);
    }
}

/// Whether the tables are numbered in order up to `seq`.
pub open spec fn are_numbered(tables: Seq<(u64, Seq<u8>)>, seq: u64) -> bool {
    &&& in_order_of_numbers(tables)
    &&& forall|i: int| 0 <= i < tables.len() ==> (#[trigger] tables[i]).0 <= seq
}

proof fn lemma_writing_merged(before: Moment, after: Moment, contents: Seq<u8>)
    requires
        follows(before, after),
        before.engine.stage is WritingMerged,
        before.action == ActionView::WriteTable(table_name(before.engine.seq), contents),
    ensures
        after.action == ActionView::RemoveFiles(before.engine.stage->WritingMerged_0),
        after.engine == (EngineView { stage: StageView::Removing, ..before.engine }),
        after.store == (Store {
            tables: before.store.tables.push((before.engine.seq, contents)),
            ..before.store
        }),
        table_fits(blocks_of(map_points(newest(stored(before.store.tables))))),
{
    reveal(follows);
    name_holds_its_number(before.engine.seq);
}

proof fn lemma_removing(before: Moment, after: Moment)
    requires
        follows(before, after),
        before.engine.stage is Removing,
        before.store.tables.len() > 0,
        before.action == ActionView::RemoveFiles(table_names(before.store.tables.drop_last())),
        in_order_of_numbers(before.store.tables),
    ensures
        after.action == ActionView::Finish(Ok(())),
        after.engine == (EngineView { stage: StageView::Idle, ..before.engine }),
        after.store == (Store { tables: seq![before.store.tables.last()], ..before.store }),
{
    reveal(follows);
    let tables = before.store.tables;
    let n = tables.len() as int;
    lemma_without_first(tables, n, n - 1);
    assert(table_names(tables).take(n - 1) =~= table_names(tables.drop_last()));
    assert(tables.take(n) =~= tables);
    assert(tables.subrange(n - 1, n) =~= seq![tables.last()]);
}

/// The last moments of a merge.
proof fn lemma_merge_end(run: Seq<Moment>, engine: EngineView, store: Store, at_least: usize)
    requires
        is_run(run, compacting(engine, at_least), store),
        0 < at_least <= store.tables.len(),
        are_numbered(store.tables, engine.seq),
        can_be_read(store.tables, store.tables.len() as int),
        store.tables.len() + 1 < run.len(),
    ensures
        ({
            let n = store.tables.len() as int;
            let merged = table_of(map_points(newest(stored(store.tables))));
            let number = (engine.seq + 1) as u64;
            &&& run.len() <= n + 4
            &&& is_over(run) <==> run.len() == n + 4
            &&& n + 2 < run.len() ==> run[n + 2].action == ActionView::RemoveFiles(
                table_names(store.tables),
            )
            &&& is_over(run) ==> run.last() == (Moment {
                engine: EngineView { seq: number, stage: StageView::Idle, ..engine },
                store: Store { tables: seq![(number, merged)], ..store },
                action: ActionView::Finish(Ok(())),
            })
        }),
{
    let n = store.tables.len() as int;
    let merged = table_of(map_points(newest(stored(store.tables))));
    let number = (engine.seq + 1) as u64;
    let all = store.tables.push((number, merged));
    lemma_merge_at(run, engine, store, at_least, n);
    if n + 2 < run.len() {
        assert(goes_on(run, n + 1));
        lemma_writing_merged(run[n + 1], run[n + 2], merged);
        assert(all.drop_last() =~= store.tables);
    }
    if n + 3 < run.len() {
        assert(goes_on(run, n + 2));
        lemma_removing(run[n + 2], run[n + 3]);
        lemma_nothing_follows(run, compacting(engine, at_least), store, n + 3);
    }
}

/// A merge of tables that can all be read lists the files, reads each table once, in order, writes
/// one table with the last value at each timestamp, removes the tables that it read, and is over.
/// That table alone is left, under a new number; memory and log stay as they are.
#[verifier::rlimit(30)]
pub proof fn merge_replaces_the_tables(
    run: Seq<Moment>,
    engine: EngineView,
    store: Store,
    at_least: usize,
)
    requires
        is_run(run, compacting(engine, at_least), store),
        0 < at_least <= store.tables.len(),
        are_numbered(store.tables, engine.seq),
        can_be_read(store.tables, store.tables.len() as int),
    ensures
        ({
            let n = store.tables.len() as int;
            let merged = table_of(map_points(newest(stored(store.tables))));
            let number = (engine.seq + 1) as u64;
            &&& run.len() <= n + 4
            &&& is_over(run) <==> run.len() == n + 4
            &&& run[0].action == ActionView::ListFiles
            &&& forall|i: int|
                0 <= i < n && i + 1 < run.len() ==> run[i + 1].action == ActionView::ReadTable(
                    table_name((#[trigger] store.tables[i]).0),
                )
            &&& n + 1 < run.len() ==> engine.seq < u64::MAX && run[n + 1].action
                == ActionView::WriteTable(table_name(number), merged)
            &&& n + 2 < run.len() ==> run[n + 2].action == ActionView::RemoveFiles(
                table_names(store.tables),
            )
            &&& is_over(run) ==> run.last() == (Moment {
                engine: EngineView { seq: number, stage: StageView::Idle, ..engine },
                store: Store { tables: seq![(number, merged)], ..store },
                action: ActionView::Finish(Ok(())),
            })
        }),
{
    let n = store.tables.len() as int;
    assert forall|i: int| 0 <= i < n && i + 1 < run.len() implies run[i + 1].action
        == ActionView::ReadTable(table_name((#[trigger] store.tables[i]).0)) by {
        lemma_merge_at(run, engine, store, at_least, i);
    }
    if n + 1 < run.len() {
        lemma_merge_at(run, engine, store, at_least, n);
        lemma_merge_end(run, engine, store, at_least);
    } else if run.len() > 1 {
        lemma_merge_at(run, engine, store, at_least, run.len() - 2);
    }
}

proof fn lemma_sound_tables(tables: Seq<(u64, Seq<u8>)>, seq: u64)
    requires
        tables_are_sound(tables, seq as int),
    ensures
        are_numbered(tables, seq),
        can_be_read(tables, tables.len() as int),
{
    assert forall|i: int| 0 <= i < tables.len() implies read_of(
        (#[trigger] tables[i]).1,
    ) matches Some(Ok(_)) by {
        sound_table_is_readable(tables[i].1);
    }
}

/// Whether the engine is at a merge, or has ended it.
spec fn is_merging(moment: Moment) -> bool {
    match moment.engine.stage {
        StageView::Listing(_) => moment.action is ListFiles,
        StageView::Reading(_, _, _) => moment.action is ReadTable,
        StageView::WritingMerged(_) => moment.action is WriteTable,
        StageView::Removing => moment.action is RemoveFiles,
        StageView::Idle => moment.action is Finish,
        _ => false,
    }
}

proof fn lemma_merging(before: Moment, after: Moment)
    requires
        follows(before, after),
        is_merging(before),
    ensures
        is_merging(after),
{
    reveal(follows);
}

/// A merge logs nothing, and keeps what is visible.
proof fn lemma_merge_moment(
    run: Seq<Moment>,
    engine: EngineView,
    store: Store,
    at_least: usize,
    i: int,
)
    requires
        at_rest(engine, store),
        at_least > 0,
        is_run(run, compacting(engine, at_least), store),
        0 <= i < run.len(),
    ensures
        is_merging(run[i]),
        is_sound(run[i]),
        visible(run[i].store) == visible(store),
    decreases i,
{
    if i > 0 {
        lemma_merge_moment(run, engine, store, at_least, i - 1);
        assert(goes_on(run, i - 1));
        lemma_merging(run[i - 1], run[i]);
        lemma_step(run[i - 1], run[i]);
    } else {
        reveal(is_sound);
    }
}

/// What a merge comes to, on an engine and a store that were at rest.
proof fn lemma_compaction(run: Seq<Moment>, engine: EngineView, store: Store, at_least: usize)
    requires
        at_rest(engine, store),
        at_least > 0,
        is_run(run, compacting(engine, at_least), store),
    ensures
        forall|i: int|
            0 <= i < run.len() ==> visible((#[trigger] run[i]).store) == visible(store),
        is_over(run) ==> at_rest(run.last().engine, run.last().store),
{
    assert forall|i: int| 0 <= i < run.len() implies visible((#[trigger] run[i]).store) == visible(
        store,
    ) by {
        lemma_merge_moment(run, engine, store, at_least, i);
    }
    if is_over(run) {
        lemma_merge_moment(run, engine, store, at_least, run.len() - 1);
        lemma_end(run.last());
    }
}

/// The table that a merge leaves has the last value at each timestamp of the tables.
proof fn lemma_merged_table(run: Seq<Moment>, engine: EngineView, store: Store, at_least: usize)
    requires
        at_rest(engine, store),
        0 < at_least <= store.tables.len(),
        is_run(run, compacting(engine, at_least), store),
        is_over(run),
    ensures
        ({
            let merged = table_points(run.last().store.tables[0].1);
            strictly_sorted(merged) && newest(merged) == newest(stored(store.tables))
        }),
{
    let n = store.tables.len() as int;
    let all = newest(stored(store.tables));
    lemma_sound_tables(store.tables, engine.seq);
    merge_replaces_the_tables(run, engine, store, at_least);
    lemma_merge_at(run, engine, store, at_least, n);
    assert(goes_on(run, n + 1));
    lemma_writing_merged(run[n + 1], run[n + 2], table_of(map_points(all)));
    lemma_newest_is_finite(stored(store.tables));
    map_points_list_the_map(all);
    lemma_written_table(map_points(all));
}

/// A manual compaction merges the tables into one, whatever is in memory. It first asks for the
/// files. With fewer than two tables it is over then, and nothing was changed. Otherwise it reads
/// each table, and when it is over one table is left: it has, once each, the timestamps of all
/// tables, with the last value there. Memory and log stay as they are, and what is visible is the
/// same at every moment. It ends after as many actions as there are tables, and three more.
pub proof fn compaction_merges_all_tables(run: Seq<Moment>, engine: EngineView, store: Store)
    requires
        at_rest(engine, store),
        is_run(run, compacting(engine, 2), store),
    ensures
        ({
            let n = store.tables.len() as int;
            let last = run.last();
            &&& run[0].action == ActionView::ListFiles
            &&& forall|i: int|
                0 <= i < run.len() ==> visible((#[trigger] run[i]).store) == visible(store)
            &&& n < 2 ==> run.len() <= 2
            &&& n >= 2 ==> run.len() <= n + 4
            &&& is_over(run) <==> run.len() == if n < 2 {
                2
            } else {
                n + 4
            }
            &&& n >= 2 ==> forall|i: int|
                0 <= i < n && i + 1 < run.len() ==> run[i + 1].action == ActionView::ReadTable(
                    table_name((#[trigger] store.tables[i]).0),
                )
            &&& is_over(run) ==> {
                &&& last.action == ActionView::Finish(Ok(()))
                &&& at_rest(last.engine, last.store)
                &&& last.engine.stage is Idle
                &&& last.engine.mem == engine.mem
                &&& last.engine.capacity == engine.capacity
                &&& last.store.log == store.log
                &&& n < 2 ==> last.store == store && last.engine.seq == engine.seq
                &&& n >= 2 ==> {
                    let merged = table_points(last.store.tables[0].1);
                    &&& last.store.tables.len() == 1
                    &&& last.store.tables[0].0 == engine.seq + 1
                    &&& last.engine.seq == engine.seq + 1
                    &&& strictly_sorted(merged)
                    &&& newest(merged) == newest(stored(store.tables))
                }
                &&& strictly_sorted(
                    merge_points(map_points(last.engine.mem), stored(last.store.tables)),
                )
                &&& newest(merge_points(map_points(last.engine.mem), stored(last.store.tables)))
                    == visible(store)
            }
        }),
{
    let last = run.last();
    lemma_sound_tables(store.tables, engine.seq);
    lemma_compaction(run, engine, store, 2);
    if store.tables.len() < 2 {
        lemma_no_merge(run, engine, store, 2);
    } else {
        merge_replaces_the_tables(run, engine, store, 2);
        if is_over(run) {
            lemma_merged_table(run, engine, store, 2);
        }
    }
    if is_over(run) {
        scan_of_one_table_has_no_duplicates(last.engine, last.store);
        scan_shows_what_is_visible(last.engine, last.store);
    }
}

proof fn lemma_writing_table(before: Moment, after: Moment, contents: Seq<u8>)
    requires
        follows(before, after),
        before.engine.stage is WritingTable,
        before.action == ActionView::WriteTable(table_name(before.engine.seq), contents),
    ensures
        after.action == ActionView::ResetLog,
        after.engine == (EngineView { stage: StageView::ResettingLog, ..before.engine }),
        after.store == (Store {
            tables: before.store.tables.push((before.engine.seq, contents)),
            ..before.store
        }),
        table_fits(blocks_of(map_points(logged(before.store)))),
{
    reveal(follows);
    name_holds_its_number(before.engine.seq);
}

proof fn lemma_resetting(before: Moment, after: Moment)
    requires
        follows(before, after),
        before.engine.stage is ResettingLog,
        before.action == ActionView::ResetLog,
    ensures
        (after.engine, after.action) == compacting(before.engine, COMPACTION_THRESHOLD),
        after.store == (Store { log: Seq::empty(), ..before.store }),
{
    reveal(follows);
}

/// The first moments of a flush of points.
proof fn lemma_flush_at(run: Seq<Moment>, engine: EngineView, store: Store)
    requires
        at_rest(engine, store),
        engine.mem != Map::<i64, u64>::empty(),
        engine.seq < u64::MAX,
        is_run(run, flushing(engine), store),
    ensures
        ({
            let number = (engine.seq + 1) as u64;
            let table = table_of(map_points(engine.mem));
            let tables = store.tables.push((number, table));
            let after = EngineView { mem: Map::empty(), seq: number, ..engine };
            &&& run[0].action == ActionView::WriteTable(table_name(number), table)
            &&& run[0].store == store
            &&& run.len() > 1 ==> {
                &&& run[1].action == ActionView::ResetLog
                &&& visible(run[1].store) == visible(store)
            }
            &&& run.len() > 2 ==> {
                &&& (run[2].engine, run[2].action) == compacting(after, COMPACTION_THRESHOLD)
                &&& run[2].store == (Store { log: Seq::empty(), tables })
                &&& visible(run[2].store) == visible(store)
                &&& is_sound(run[2])
                &&& strictly_sorted(table_points(table))
                &&& newest(table_points(table)) == engine.mem
            }
        }),
{
    let table = table_of(map_points(engine.mem));
    assert(is_sound(run[0])) by {
        reveal(is_sound);
        flush_starts_consistently(engine, store);
    }
    if run.len() > 1 {
        assert(goes_on(run, 0));
        lemma_writing_table(run[0], run[1], table);
        lemma_step(run[0], run[1]);
    }
    if run.len() > 2 {
        assert(goes_on(run, 1));
        lemma_resetting(run[1], run[2]);
        lemma_step(run[1], run[2]);
        lemma_newest_is_finite(replayed(store.log));
        map_points_list_the_map(engine.mem);
        lemma_written_table(map_points(engine.mem));
    }
}

/// An engine that begins to list the files was at rest, and nothing waits in its log.
proof fn lemma_listing_is_at_rest(moment: Moment)
    requires
        is_sound(moment),
        moment.engine.stage is Listing,
    ensures
        at_rest(moment.engine, moment.store),
{
    reveal(is_sound);
}

/// With an empty log, what is visible is what is stored.
proof fn lemma_all_is_stored(store: Store)
    requires
        store.log == Seq::<u8>::empty(),
    ensures
        visible(store) == newest(stored(store.tables)),
{
    assert(replayed(store.log) =~= Seq::empty());
    assert(logged(store) =~= Map::empty());
    assert(visible(store) =~= newest(stored(store.tables)));
}

/// A flush moves what is in memory to a new table. With nothing in memory it is over at once.
/// Otherwise it asks for a table of a new number that holds the points in memory, empties the log,
/// and asks for the files. When it is over, memory and log are empty. The new table stands behind
/// the others, or, where these are then as many as the threshold, all were merged into one: there
/// are always fewer tables than that. What is visible is the same at every moment.
#[verifier::rlimit(50)]
pub proof fn flush_moves_memory_to_a_table(run: Seq<Moment>, engine: EngineView, store: Store)
    requires
        at_rest(engine, store),
        engine.mem != Map::<i64, u64>::empty() ==> engine.seq < u64::MAX,
        is_run(run, flushing(engine), store),
    ensures
        forall|i: int| 0 <= i < run.len() ==> visible((#[trigger] run[i]).store) == visible(store),
        is_over(run) ==> {
            let last = run.last();
            &&& last.action == ActionView::Finish(Ok(()))
            &&& at_rest(last.engine, last.store)
            &&& last.engine.stage is Idle
            &&& last.engine.capacity == engine.capacity
            &&& last.engine.mem == Map::<i64, u64>::empty()
        },
        engine.mem == Map::<i64, u64>::empty() ==> run.len() == 1 && is_over(run)
            && run[0].engine.seq == engine.seq,
        engine.mem != Map::<i64, u64>::empty() ==> {
            let n = store.tables.len() + 1;
            let number = (engine.seq + 1) as u64;
            let table = table_of(map_points(engine.mem));
            let last = run.last();
            &&& run[0].action == ActionView::WriteTable(table_name(number), table)
            &&& run.len() > 1 ==> run[1].action == ActionView::ResetLog
            &&& run.len() > 2 ==> run[2].action == ActionView::ListFiles
            &&& run.len() <= if n < COMPACTION_THRESHOLD {
                4
            } else {
                n + 6
            }
            &&& is_over(run) <==> run.len() == if n < COMPACTION_THRESHOLD {
                4
            } else {
                n + 6
            }
            &&& is_over(run) ==> {
                &&& strictly_sorted(table_points(table))
                &&& newest(table_points(table)) == engine.mem
                &&& last.store.log == Seq::<u8>::empty()
                &&& 0 < last.store.tables.len() < COMPACTION_THRESHOLD
                &&& last.store.tables.len() <= 3
                &&& n < COMPACTION_THRESHOLD ==> last.store.tables == store.tables.push(
                    (number, table),
                ) && last.engine.seq == number
                &&& n >= COMPACTION_THRESHOLD ==> {
                    &&& last.store.tables.len() == 1
                    &&& last.store.tables[0].0 == number + 1
                    &&& last.engine.seq == number + 1
                    &&& strictly_sorted(table_points(last.store.tables[0].1))
                    &&& newest(table_points(last.store.tables[0].1)) == visible(store)
                }
            }
        },
{
    if engine.mem == Map::<i64, u64>::empty() {
        lemma_nothing_follows(run, flushing(engine), store, 0);
    } else {
        let number = (engine.seq + 1) as u64;
        let table = table_of(map_points(engine.mem));
        let tables = store.tables.push((number, table));
        lemma_flush_at(run, engine, store);
        if run.len() > 2 {
            let rest = run.skip(2);
            let (middle, between) = (run[2].engine, run[2].store);
            lemma_rest_is_run(run, flushing(engine), store, 2);
            lemma_listing_is_at_rest(run[2]);
            lemma_sound_tables(tables, number);
            lemma_compaction(rest, middle, between, COMPACTION_THRESHOLD);
            lemma_all_is_stored(between);
            if tables.len() < COMPACTION_THRESHOLD {
                lemma_no_merge(rest, middle, between, COMPACTION_THRESHOLD);
            } else {
                merge_replaces_the_tables(rest, middle, between, COMPACTION_THRESHOLD);
                if is_over(run) {
                    lemma_merged_table(rest, middle, between, COMPACTION_THRESHOLD);
                }
            }
            assert forall|i: int| 0 <= i < run.len() implies visible((#[trigger] run[i]).store)
                == visible(store) by {
                if i >= 2 {
                    assert(run[i] == rest[i - 2]);
                }
            }
        }
    }
}

/// More records behind a log of whole records add their points.
proof fn lemma_logged(engine: EngineView, store: Store, points: Seq<TimeSeriesPoint>)
    requires
        at_rest(engine, store),
    ensures
        ({
            let mem = engine.mem.union_prefer_right(newest(points));
            let after = Store { log: store.log + log_bytes(points), ..store };
            &&& at_rest(EngineView { mem, ..engine }, after)
            &&& visible(after) == visible(store).union_prefer_right(newest(points))
        }),
{
    let before = replayed(store.log);
    let after = Store { log: store.log + log_bytes(points), ..store };
    log_of_a_sum(before, points);
    replay_gives_back_the_log(before + points, Seq::empty());
    assert(log_bytes(before + points) + Seq::empty() =~= after.log);
    assert(replayed(Seq::<u8>::empty()) =~= Seq::empty());
    assert(replayed(after.log) =~= before + points);
    lemma_newest_add(before, points);
    assert(visible(after) =~= visible(store).union_prefer_right(newest(points)));
}

proof fn lemma_logging(before: Moment, after: Moment, points: Seq<TimeSeriesPoint>)
    requires
        follows(before, after),
        points.len() > 0,
        before.engine.stage == StageView::Logging(points),
        before.action == ActionView::AppendToLog(record_bytes(points[0])),
    ensures
        ({
            let mem = before.engine.mem.insert(points[0].timestamp, points[0].value_bits);
            let log = before.store.log + record_bytes(points[0]);
            &&& after.store == (Store { log, ..before.store })
            &&& (after.engine, after.action) == writing(
                EngineView { mem, ..before.engine },
                points.skip(1),
            )
            &&& points.len() == 1 && ENTRY_SIZE * mem.len() >= before.engine.capacity
                ==> before.engine.seq < u64::MAX
        }),
{
    reveal(follows);
}

/// The moment of a write when `n` points were logged.
proof fn lemma_write_at(
    run: Seq<Moment>,
    engine: EngineView,
    store: Store,
    points: Seq<TimeSeriesPoint>,
    n: int,
)
    requires
        points.len() > 0,
        is_run(run, writing(engine, points), store),
        0 <= n <= points.len(),
        n < run.len(),
    ensures
        ({
            let before = EngineView {
                mem: engine.mem.union_prefer_right(newest(points.take(n))),
                stage: run[n].engine.stage,
                ..engine
            };
            &&& run[n].store == (Store { log: store.log + log_bytes(points.take(n)), ..store })
            &&& n < points.len() ==> {
                &&& run[n].action == ActionView::AppendToLog(record_bytes(points[n]))
                &&& run[n].engine == before
                &&& run[n].engine.stage == StageView::Logging(points.skip(n))
            }
            &&& n == points.len() ==> if ENTRY_SIZE * before.mem.len() >= engine.capacity {
                &&& engine.seq < u64::MAX
                &&& (run[n].engine, run[n].action) == flushing(before)
            } else {
                &&& run[n].action == ActionView::Finish(Ok(()))
                &&& run[n].engine == (EngineView { stage: StageView::Idle, ..before })
            }
        }),
    decreases n,
{
    if n == 0 {
        assert(points.take(0) =~= Seq::empty());
        assert(points.skip(0) =~= points);
        assert(store.log + log_bytes(points.take(0)) =~= store.log);
        assert(engine.mem.union_prefer_right(newest(points.take(0))) =~= engine.mem);
    } else {
        lemma_write_at(run, engine, store, points, n - 1);
        let p = points[n - 1];
        let (some, more) = (points.take(n - 1), points.take(n));
        assert(goes_on(run, n - 1));
        assert(points.skip(n - 1)[0] == p);
        lemma_logging(run[n - 1], run[n], points.skip(n - 1));
        assert(more =~= some.push(p));
        assert(more.drop_last() =~= some);
        lemma_newest_push(some, p);
        assert(store.log + log_bytes(more) =~= store.log + log_bytes(some) + record_bytes(p));
        assert(points.skip(n - 1).skip(1) =~= points.skip(n));
        assert(engine.mem.union_prefer_right(newest(more)) =~= engine.mem.union_prefer_right(
            newest(some),
        ).insert(p.timestamp, p.value_bits));
    }
}

/// The memory with all points of a write is not empty, and the rest of the write is a flush of it
/// if it is full; otherwise the write is over.
proof fn lemma_write_rest(
    run: Seq<Moment>,
    engine: EngineView,
    store: Store,
    points: Seq<TimeSeriesPoint>,
)
    requires
        at_rest(engine, store),
        points.len() > 0,
        is_run(run, writing(engine, points), store),
        points.len() < run.len(),
    ensures
        ({
            let n = points.len() as int;
            let mem = engine.mem.union_prefer_right(newest(points));
            let before = EngineView { mem, ..engine };
            let between = Store { log: store.log + log_bytes(points), ..store };
            &&& mem != Map::<i64, u64>::empty()
            &&& at_rest(before, between)
            &&& visible(between) == visible(store).union_prefer_right(newest(points))
            &&& if ENTRY_SIZE * mem.len() >= engine.capacity {
                &&& engine.seq < u64::MAX
                &&& is_run(run.skip(n), flushing(before), between)
                &&& run.skip(n).last() == run.last()
            } else {
                &&& run.len() == n + 1
                &&& run.last() == (Moment {
                    engine: EngineView { stage: StageView::Idle, ..before },
                    store: between,
                    action: ActionView::Finish(Ok(())),
                })
            }
        }),
{
    let n = points.len() as int;
    let mem = engine.mem.union_prefer_right(newest(points));
    let p = points[n - 1];
    assert(points.take(n) =~= points);
    lemma_write_at(run, engine, store, points, n);
    lemma_logged(engine, store, points);
    assert(points.drop_last().push(p) =~= points);
    lemma_newest_push(points.drop_last(), p);
    assert(mem.contains_key(p.timestamp));
    if ENTRY_SIZE * mem.len() >= engine.capacity {
        lemma_rest_is_run(run, writing(engine, points), store, n);
    } else {
        lemma_nothing_follows(run, writing(engine, points), store, n);
    }
}

/// A write begins with as many actions as it has points: they append the records of the points to
/// the log, in order. It is not over before, and no later action appends anything.
pub proof fn write_logs_all_points_first(
    run: Seq<Moment>,
    engine: EngineView,
    store: Store,
    points: Seq<TimeSeriesPoint>,
)
    requires
        at_rest(engine, store),
        points.len() > 0,
        is_run(run, writing(engine, points), store),
    ensures
        forall|i: int|
            0 <= i < points.len() && i < run.len() ==> run[i].action == ActionView::AppendToLog(
                record_bytes(#[trigger] points[i]),
            ),
        forall|i: int|
            points.len() <= i < run.len() ==> !((#[trigger] run[i]).action is AppendToLog),
        is_over(run) ==> run.len() > points.len(),
{
    let n = points.len() as int;
    assert forall|i: int| 0 <= i < n && i < run.len() implies run[i].action
        == ActionView::AppendToLog(record_bytes(#[trigger] points[i])) by {
        lemma_write_at(run, engine, store, points, i);
    }
    if run.len() <= n {
        assert(run.last().action == ActionView::AppendToLog(record_bytes(points[run.len() - 1])));
    } else {
        lemma_write_rest(run, engine, store, points);
        let mem = engine.mem.union_prefer_right(newest(points));
        assert forall|i: int| n <= i < run.len() implies !((
        #[trigger] run[i]).action is AppendToLog) by {
            if ENTRY_SIZE * mem.len() >= engine.capacity {
                lemma_flush_appends_nothing(
                    run.skip(n),
                    EngineView { mem, ..engine },
                    Store { log: store.log + log_bytes(points), ..store },
                    i - n,
                );
                assert(run[i] == run.skip(n)[i - n]);
            }
        }
    }
}

/// What is visible at the moment `i` of a write.
proof fn lemma_visible_at(
    run: Seq<Moment>,
    engine: EngineView,
    store: Store,
    points: Seq<TimeSeriesPoint>,
    i: int,
)
    requires
        at_rest(engine, store),
        points.len() > 0,
        is_run(run, writing(engine, points), store),
        0 <= i < run.len(),
    ensures
        i < points.len() ==> visible(run[i].store) == visible(store).union_prefer_right(
            newest(points.take(i)),
        ),
        i >= points.len() ==> visible(run[i].store) == visible(store).union_prefer_right(
            newest(points),
        ),
{
    let n = points.len() as int;
    if i < n {
        lemma_write_at(run, engine, store, points, i);
        lemma_logged(engine, store, points.take(i));
    } else {
        let mem = engine.mem.union_prefer_right(newest(points));
        let rest = run.skip(n);
        lemma_write_rest(run, engine, store, points);
        if ENTRY_SIZE * mem.len() >= engine.capacity {
            flush_moves_memory_to_a_table(
                rest,
                EngineView { mem, ..engine },
                Store { log: store.log + log_bytes(points), ..store },
            );
            assert(run[i] == rest[i - n]);
        } else {
            assert(run[i] == run.last());
        }
    }
}

/// What a write comes to.
proof fn lemma_write_over(
    run: Seq<Moment>,
    engine: EngineView,
    store: Store,
    points: Seq<TimeSeriesPoint>,
)
    requires
        at_rest(engine, store),
        points.len() > 0,
        is_run(run, writing(engine, points), store),
        is_over(run),
    ensures
        run.last().action == ActionView::Finish(Ok(())),
        at_rest(run.last().engine, run.last().store),
        run.last().engine.stage is Idle,
        run.last().engine.capacity == engine.capacity,
        run.len() > points.len(),
{
    let n = points.len() as int;
    let mem = engine.mem.union_prefer_right(newest(points));
    if run.len() <= n {
        lemma_write_at(run, engine, store, points, run.len() - 1);
    } else {
        lemma_write_rest(run, engine, store, points);
        if ENTRY_SIZE * mem.len() >= engine.capacity {
            flush_moves_memory_to_a_table(
                run.skip(n),
                EngineView { mem, ..engine },
                Store { log: store.log + log_bytes(points), ..store },
            );
        }
    }
}

/// A point of a write is visible as soon as its record is in the log. When a write is over, what is
/// visible is what was before, with the last value of each timestamp of its points, also where
/// they filled the memory.
pub proof fn write_shows_its_points(
    run: Seq<Moment>,
    engine: EngineView,
    store: Store,
    points: Seq<TimeSeriesPoint>,
)
    requires
        at_rest(engine, store),
        points.len() > 0,
        is_run(run, writing(engine, points), store),
    ensures
        forall|i: int|
            0 <= i < points.len() && i < run.len() ==> visible((#[trigger] run[i]).store)
                == visible(store).union_prefer_right(newest(points.take(i))),
        forall|i: int|
            points.len() <= i < run.len() ==> visible((#[trigger] run[i]).store) == visible(
                store,
            ).union_prefer_right(newest(points)),
        is_over(run) ==> {
            let last = run.last();
            &&& last.action == ActionView::Finish(Ok(()))
            &&& visible(last.store) == visible(store).union_prefer_right(newest(points))
            &&& at_rest(last.engine, last.store)
            &&& last.engine.stage is Idle
            &&& last.engine.capacity == engine.capacity
        },
{
    let n = points.len() as int;
    assert forall|i: int| 0 <= i < n && i < run.len() implies visible((#[trigger] run[i]).store)
        == visible(store).union_prefer_right(newest(points.take(i))) by {
        lemma_visible_at(run, engine, store, points, i);
    }
    assert forall|i: int| n <= i < run.len() implies visible((#[trigger] run[i]).store) == visible(
        store,
    ).union_prefer_right(newest(points)) by {
        lemma_visible_at(run, engine, store, points, i);
    }
    if is_over(run) {
        lemma_write_over(run, engine, store, points);
        assert(run[run.len() - 1] == run.last());
    }
}

/// If the memory is not full with the points of a write, the write is over once they are logged:
/// they are in memory and in the log, and no table was touched.
pub proof fn write_below_the_capacity_stays_in_memory(
    run: Seq<Moment>,
    engine: EngineView,
    store: Store,
    points: Seq<TimeSeriesPoint>,
)
    requires
        at_rest(engine, store),
        points.len() > 0,
        ENTRY_SIZE * engine.mem.union_prefer_right(newest(points)).len() < engine.capacity,
        is_run(run, writing(engine, points), store),
    ensures
        run.len() <= points.len() + 1,
        is_over(run) <==> run.len() == points.len() + 1,
        is_over(run) ==> run.last() == (Moment {
            engine: EngineView {
                mem: engine.mem.union_prefer_right(newest(points)),
                stage: StageView::Idle,
                ..engine
            },
            store: Store { log: store.log + log_bytes(points), ..store },
            action: ActionView::Finish(Ok(())),
        }),
{
    write_logs_all_points_first(run, engine, store, points);
    if run.len() > points.len() {
        lemma_write_rest(run, engine, store, points);
    }
}

/// If the memory is full with the points of a write, one flush follows, of all that is in memory
/// then. When the write is over, memory and log are empty, and there are fewer tables than the
/// threshold: the new one behind the others, or one that all were merged into.
pub proof fn write_flushes_a_full_memory(
    run: Seq<Moment>,
    engine: EngineView,
    store: Store,
    points: Seq<TimeSeriesPoint>,
)
    requires
        at_rest(engine, store),
        points.len() > 0,
        ENTRY_SIZE * engine.mem.union_prefer_right(newest(points)).len() >= engine.capacity,
        is_run(run, writing(engine, points), store),
    ensures
        ({
            let n = points.len() as int;
            let mem = engine.mem.union_prefer_right(newest(points));
            let tables = store.tables.len() + 1;
            let number = (engine.seq + 1) as u64;
            let table = table_of(map_points(mem));
            let last = run.last();
            &&& run.len() > n ==> run[n].action == ActionView::WriteTable(table_name(number), table)
            &&& run.len() <= n + if tables < COMPACTION_THRESHOLD {
                4
            } else {
                tables + 6
            }
            &&& is_over(run) <==> run.len() == n + if tables < COMPACTION_THRESHOLD {
                4
            } else {
                tables + 6
            }
            &&& is_over(run) ==> {
                &&& last.engine.mem == Map::<i64, u64>::empty()
                &&& last.store.log == Seq::<u8>::empty()
                &&& 0 < last.store.tables.len() < COMPACTION_THRESHOLD
                &&& newest(table_points(table)) == mem
                &&& tables < COMPACTION_THRESHOLD ==> last.store.tables == store.tables.push(
                    (number, table),
                ) && last.engine.seq == number
                &&& tables >= COMPACTION_THRESHOLD ==> last.store.tables.len() == 1
                    && last.engine.seq == number + 1
            }
        }),
{
    let n = points.len() as int;
    write_logs_all_points_first(run, engine, store, points);
    if run.len() > n {
        lemma_write_rest(run, engine, store, points);
        assert(run.skip(n)[0] == run[n]);
        flush_moves_memory_to_a_table(
            run.skip(n),
            EngineView { mem: engine.mem.union_prefer_right(newest(points)), ..engine },
            Store { log: store.log + log_bytes(points), ..store },
        );
    }
}

proof fn lemma_flush_appends_nothing(
    run: Seq<Moment>,
    engine: EngineView,
    store: Store,
    i: int,
)
    requires
        at_rest(engine, store),
        engine.mem != Map::<i64, u64>::empty(),
        engine.seq < u64::MAX,
        is_run(run, flushing(engine), store),
        0 <= i < run.len(),
    ensures
        !(run[i].action is AppendToLog),
{
    lemma_flush_at(run, engine, store);
    if i >= 2 {
        let rest = run.skip(2);
        lemma_rest_is_run(run, flushing(engine), store, 2);
        lemma_listing_is_at_rest(run[2]);
        lemma_merge_moment(rest, run[2].engine, run[2].store, COMPACTION_THRESHOLD, i - 2);
        assert(run[i] == rest[i - 2]);
    }
}

/// A write of no points is over at once if the memory is not full, and a flush if it is.
pub proof fn empty_write_only_flushes(run: Seq<Moment>, engine: EngineView, store: Store)
    requires
        is_run(run, writing(engine, Seq::empty()), store),
    ensures
        if ENTRY_SIZE * engine.mem.len() >= engine.capacity {
            is_run(run, flushing(engine), store)
        } else {
            run == seq![
                Moment {
                    engine: EngineView { stage: StageView::Idle, ..engine },
                    store,
                    action: ActionView::Finish(Ok(())),
                },
            ]
        },
{
    if ENTRY_SIZE * engine.mem.len() < engine.capacity {
        lemma_nothing_follows(run, writing(engine, Seq::empty()), store, 0);
        assert(run =~= seq![run[0]]);
    }
}

/// Every answer to an action can be gone on from, as long as a sequence number is left.
pub proof fn every_answer_is_accepted(moment: Moment, event: EventView)
    requires
        consistent(moment.engine, moment.store, moment.action),
        answers(performed(moment.store, moment.action), moment.action, event),
        moment.engine.seq < u64::MAX,
    ensures
        accepts(moment.engine, event),
{
    if let StageView::Reading(names, n, points) = moment.engine.stage {
        let tables = moment.store.tables;
        let i = choose|i: int|
            0 <= i < tables.len() && names[n as int] == table_name((#[trigger] tables[i]).0)
                && event->Table_0 == parse_blocks(tables[i].1, parse_index(tables[i].1));
        sound_table_is_readable(tables[i].1);
    }
}

/// As long as it is not over, an operation goes on, if a sequence number is left and the table that
/// it asks for fits. As the runs of each operation are bounded in length, it comes to its end.
pub proof fn operation_goes_on(moment: Moment)
    requires
        consistent(moment.engine, moment.store, moment.action),
        next_table_fits(moment.engine, moment.store),
        moment.engine.seq < u64::MAX,
        !(moment.action is Finish),
    ensures
        exists|after: Moment| #[trigger] follows(moment, after),
{
    let store = performed(moment.store, moment.action);
    let event = match moment.action {
        ActionView::ListFiles => EventView::Files(table_names(store.tables)),
        ActionView::ReadTable(_) => EventView::Table(
            read_of(store.tables[moment.engine.stage->Reading_1 as int].1),
        ),
        _ => EventView::Done,
    };
    assert(answers(store, moment.action, event)) by {
        let names = table_names(store.tables);
        let is_table = |name: Seq<u8>| is_table_name(name);
        assert forall|i: int| 0 <= i < names.len() implies is_table(#[trigger] names[i]) by {
            name_holds_its_number(store.tables[i].0);
        }
        lemma_filter_of_all(names, is_table);
    }
    every_answer_is_accepted(moment, event);
    let (engine, action) = next(moment.engine, event);
    let after = Moment { engine, store, action };
    reveal(follows);
    assert(leads_to(moment, event, after));
    assert(follows(moment, after));
}

proof fn lemma_filter_of_all(names: Seq<Seq<u8>>, keeps: spec_fn(Seq<u8>) -> bool)
    requires
        forall|i: int| 0 <= i < names.len() ==> keeps(#[trigger] names[i]),
    ensures
        names.filter(keeps) == names,
    decreases names.len(),
{
    reveal(Seq::filter);
    if names.len() > 0 {
        let before = names.drop_last();
        assert forall|i: int| 0 <= i < before.len() implies keeps(#[trigger] before[i]) by {
            assert(before[i] == names[i]);
        }
        lemma_filter_of_all(before, keeps);
        assert(names =~= before.push(names.last()));
        assert(keeps(names[names.len() - 1]));
    } else {
        assert(names.filter(keeps) =~= names);
    }
}

} // verus!
