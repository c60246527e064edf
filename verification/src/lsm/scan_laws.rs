//! What holds of scans.
use super::engine::{contents, ranges};
use super::points::{
    lemma_at_merge, lemma_at_within, lemma_newest_is_finite, lemma_newest_is_last_at,
    lemma_strict_at, lemma_within_add, lemma_within_is_sorted, map_points,
    map_points_list_the_map, merge_points, points_at, points_within, selections_are_by_timestamp,
    sorted, sorted_is_unique, strictly_sorted,
};
use super::protocol::EngineView;
use super::sstable::SSTableReader;
use super::store::{
    at_rest, is_sound_table, sound_table_is_readable, stored, table_points, Store,
};
use super::table_format::{
    all_points, blocks_up_to, chained, parse_blocks, parse_entry_block, parse_index, table_bytes,
    IndexEntry, TableError,
};
use super::table_laws::{range_scan_finds_the_range, table_fits, table_round_trip};
use super::wal::replayed;
use crate::types::TimeSeriesPoint;
use vstd::prelude::*;

verus! {

/// A scan of a range is the part of a full scan that lies in it.
pub proof fn range_of_a_merge(
    mem: Seq<TimeSeriesPoint>,
    sst: Seq<TimeSeriesPoint>,
    start: i64,
    end: i64,
)
    ensures
        merge_points(points_within(mem, start, end), points_within(sst, start, end))
            == points_within(merge_points(mem, sst), start, end),
{
    let (m, s) = (points_within(mem, start, end), points_within(sst, start, end));
    let a = merge_points(m, s);
    let all = merge_points(mem, sst);
    let b = points_within(all, start, end);
    lemma_at_merge(m, s, 0);
    lemma_at_merge(mem, sst, 0);
    lemma_within_is_sorted(all, start, end);
    assert forall|t: i64| #[trigger] points_at(a, t) == points_at(b, t) by {
        lemma_at_merge(m, s, t);
        lemma_at_merge(mem, sst, t);
        lemma_at_within(mem, start, end, t);
        lemma_at_within(sst, start, end, t);
        lemma_at_within(all, start, end, t);
        lemma_newest_is_last_at(m, t);
        lemma_newest_is_last_at(mem, t);
    }
    sorted_is_unique(a, b);
}

/// Whether the readers were opened on the tables.
pub open spec fn read_from(readers: Seq<SSTableReader>, tables: Seq<(u64, Seq<u8>)>) -> bool {
    &&& readers.len() == tables.len()
    &&& forall|i: int|
        0 <= i < tables.len() ==> {
            &&& (#[trigger] readers[i]).data() == tables[i].1
            &&& readers[i].entries() == parse_index(tables[i].1)
        }
}

/// Reading all sound tables gives all that they store.
pub proof fn reading_gives_what_is_stored(
    readers: Seq<SSTableReader>,
    tables: Seq<(u64, Seq<u8>)>,
)
    requires
        read_from(readers, tables),
        forall|i: int| 0 <= i < tables.len() ==> is_sound_table((#[trigger] tables[i]).1),
    ensures
        chained(contents(readers)) == Some(
            Ok::<Seq<TimeSeriesPoint>, TableError>(stored(tables)),
        ),
    decreases tables.len(),
{
    if tables.len() > 0 {
        let before = readers.drop_last();
        assert(forall|i: int| 0 <= i < before.len() ==> #[trigger] before[i] == readers[i]);
        reading_gives_what_is_stored(before, tables.drop_last());
        assert(contents(readers).drop_last() =~= contents(before));
        assert(contents(readers).last() == readers[readers.len() - 1].points());
        sound_table_is_readable(tables[tables.len() - 1].1);
    }
}

/// Scanning sound tables finds, of what they store, what lies in the range.
pub proof fn scanning_gives_the_range(
    readers: Seq<SSTableReader>,
    tables: Seq<(u64, Seq<u8>)>,
    start: i64,
    end: i64,
)
    requires
        read_from(readers, tables),
        forall|i: int| 0 <= i < tables.len() ==> is_sound_table((#[trigger] tables[i]).1),
    ensures
        chained(ranges(readers, start, end)) == Some(
            Ok::<Seq<TimeSeriesPoint>, TableError>(points_within(stored(tables), start, end)),
        ),
    decreases tables.len(),
{
    if tables.len() > 0 {
        let before = readers.drop_last();
        let (reader, table) = (readers[readers.len() - 1], tables[tables.len() - 1].1);
        assert(forall|i: int| 0 <= i < before.len() ==> #[trigger] before[i] == readers[i]);
        scanning_gives_the_range(before, tables.drop_last(), start, end);
        assert(ranges(readers, start, end).drop_last() =~= ranges(before, start, end));
        assert(ranges(readers, start, end).last() == reader.range(start, end));
        assert(is_sound_table(table));
        let blocks = choose|blocks: Seq<Seq<TimeSeriesPoint>>| #[trigger]
            table_bytes(blocks) == table && table_fits(blocks) && strictly_sorted(
                all_points(blocks),
            );
        table_round_trip(blocks);
        range_scan_finds_the_range(blocks, start, end);
        lemma_within_add(stored(tables.drop_last()), table_points(table), start, end);
    } else {
        assert(points_within(stored(tables), start, end) =~= Seq::empty());
    }
}

/// While no operation is going on, a scan of a range finds what a full scan finds in that range.
pub proof fn range_scan_agrees_with_full_scan(
    engine: EngineView,
    store: Store,
    readers: Seq<SSTableReader>,
    start: i64,
    end: i64,
)
    requires
        at_rest(engine, store),
        read_from(readers, store.tables),
    ensures
        match (chained(contents(readers)), chained(ranges(readers, start, end))) {
            (Some(Ok(all)), Some(Ok(part))) => merge_points(
                points_within(map_points(engine.mem), start, end),
                part,
            ) == points_within(merge_points(map_points(engine.mem), all), start, end),
            _ => false,
        },
{
    reading_gives_what_is_stored(readers, store.tables);
    scanning_gives_the_range(readers, store.tables, start, end);
    range_of_a_merge(map_points(engine.mem), stored(store.tables), start, end);
}

/// At a timestamp that is in memory, a scan finds the point in memory and no other. At any other
/// timestamp it finds the points of all tables, those of older tables first.
pub proof fn memory_hides_the_tables(engine: EngineView, store: Store, t: i64)
    requires
        at_rest(engine, store),
    ensures
        ({
            let found = merge_points(map_points(engine.mem), stored(store.tables));
            &&& sorted(found)
            &&& points_at(found, t) == if engine.mem.contains_key(t) {
                seq![TimeSeriesPoint { timestamp: t, value_bits: engine.mem[t] }]
            } else {
                points_at(stored(store.tables), t)
            }
        }),
{
    let mem = map_points(engine.mem);
    lemma_newest_is_finite(replayed(store.log));
    map_points_list_the_map(engine.mem);
    lemma_at_merge(mem, stored(store.tables), t);
    lemma_strict_at(mem, t);
}

/// The first of several reads that does not succeed decides what all of them give.
pub proof fn first_failure_decides(
    reads: Seq<Option<Result<Seq<TimeSeriesPoint>, TableError>>>,
    n: int,
)
    requires
        0 <= n < reads.len(),
        forall|i: int| 0 <= i < n ==> (#[trigger] reads[i] matches Some(Ok(_))),
        !(reads[n] matches Some(Ok(_))),
    ensures
        chained(reads) == reads[n],
    decreases reads.len(),
{
    let before = reads.drop_last();
    if n < reads.len() - 1 {
        assert(forall|i: int| 0 <= i < before.len() ==> #[trigger] before[i] == reads[i]);
        first_failure_decides(before, n);
    } else {
        let points = Seq::new(before.len(), |i: int| reads[i]->0->Ok_0);
        assert forall|i: int| 0 <= i < before.len() implies #[trigger] before[i] == Some(
            Ok::<Seq<TimeSeriesPoint>, TableError>(points[i]),
        ) by {
            assert(before[i] == reads[i]);
        }
        reads_are_put_together(before, points);
    }
}

/// Reads that all succeed give their points, one read behind the other.
pub proof fn reads_are_put_together(
    reads: Seq<Option<Result<Seq<TimeSeriesPoint>, TableError>>>,
    points: Seq<Seq<TimeSeriesPoint>>,
)
    requires
        reads.len() == points.len(),
        forall|i: int|
            0 <= i < reads.len() ==> #[trigger] reads[i] == Some(
                Ok::<Seq<TimeSeriesPoint>, TableError>(points[i]),
            ),
    ensures
        chained(reads) == Some(Ok::<Seq<TimeSeriesPoint>, TableError>(points.flatten())),
    decreases reads.len(),
{
    if reads.len() > 0 {
        let (before, some) = (reads.drop_last(), points.drop_last());
        assert forall|i: int| 0 <= i < before.len() implies #[trigger] before[i] == Some(
            Ok::<Seq<TimeSeriesPoint>, TableError>(some[i]),
        ) by {
            assert(before[i] == reads[i]);
        }
        reads_are_put_together(before, some);
        assert(points =~= some.push(points.last()));
        some.lemma_flatten_push(points.last());
        assert(reads[reads.len() - 1] == reads.last());
    }
}

/// Reading a table reads the blocks of its index entries in turn.
pub proof fn table_is_read_block_by_block(data: Seq<u8>, entries: Seq<IndexEntry>)
    ensures
        parse_blocks(data, entries) == chained(
            Seq::new(entries.len(), |i: int| parse_entry_block(data, entries[i])),
        ),
    decreases entries.len(),
{
    let reads = Seq::new(entries.len(), |i: int| parse_entry_block(data, entries[i]));
    if entries.len() > 0 {
        let before = entries.drop_last();
        table_is_read_block_by_block(data, before);
        assert(reads.drop_last() =~= Seq::new(
            before.len(),
            |i: int| parse_entry_block(data, before[i]),
        ));
    }
}

/// Every table is read or scanned, in their order. A scan of a table reads all blocks up to the
/// first that starts behind the range, and keeps what lies in it.
pub proof fn every_table_is_read(tables: Seq<SSTableReader>, start: i64, end: i64, i: int)
    requires
        0 <= i < tables.len(),
    ensures
        contents(tables).len() == tables.len(),
        ranges(tables, start, end).len() == tables.len(),
        contents(tables)[i] == parse_blocks(tables[i].data(), tables[i].entries()),
        ranges(tables, start, end)[i] == match parse_blocks(
            tables[i].data(),
            tables[i].entries().take(blocks_up_to(tables[i].entries(), end) as int),
        ) {
            Some(Ok(points)) => Some(
                Ok::<Seq<TimeSeriesPoint>, TableError>(
                    points.filter(
                        |p: TimeSeriesPoint| start <= p.timestamp && p.timestamp <= end,
                    ),
                ),
            ),
            other => other,
        },
{
    if let Some(Ok(points)) = tables[i].points_up_to(end) {
        selections_are_by_timestamp(points, start, start, end, Set::empty());
    }
}

} // verus!
