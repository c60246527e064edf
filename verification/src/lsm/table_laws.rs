//! What holds of writing a table and reading it back.
use super::bytes::{
    crc32, le_bytes, lemma_i64_round_trip, lemma_le_bytes_len, lemma_u32_round_trip,
    lemma_u64_round_trip,
};
use super::points::{points_within, sorted};
use super::sstable::{lemma_blocks_up_to, lemma_parse_entry_of_prefix};
use super::table_format::{
    all_points, block_bytes, blocks_of, blocks_up_to, body_bytes, entry_bytes, footer_bytes,
    header_bytes, highest, index_bytes, index_in_bounds, index_len, index_of, index_start,
    looks_like_a_table, lowest, magic, open_error, paired, parse_block, parse_blocks, parse_entry,
    parse_entry_block, parse_index, stated_blocks, stated_highest, stated_lowest, table_bytes,
    timestamps_of, unsealed_bytes, values_of, IndexEntry, TableError, BLOCK_SIZE, FOOTER_SIZE,
    HEADER_SIZE, INDEX_ENTRY_SIZE, VERSION,
};
use crate::compression::bits::pack;
use crate::compression::delta::{
    lemma_timestamp_stream_len, timestamp_stream, timestamps_round_trip,
};
use crate::compression::xor_float::{lemma_value_stream_len, value_stream, values_round_trip};
use crate::types::TimeSeriesPoint;
use vstd::prelude::*;

verus! {

/// Whether every block holds at least one point, and not too many.
pub open spec fn blocks_fit(blocks: Seq<Seq<TimeSeriesPoint>>) -> bool {
    forall|i: int| 0 <= i < blocks.len() ==> 0 < (#[trigger] blocks[i]).len() <= BLOCK_SIZE
}

/// Whether the table of `blocks` fits into memory, and its index into the four bytes that hold
/// its length.
pub open spec fn table_fits(blocks: Seq<Seq<TimeSeriesPoint>>) -> bool {
    &&& blocks_fit(blocks)
    &&& INDEX_ENTRY_SIZE * blocks.len() <= u32::MAX
    &&& table_bytes(blocks).len() <= usize::MAX
}

/// A block is read back.
pub proof fn lemma_block_round_trip(points: Seq<TimeSeriesPoint>)
    requires
        points.len() <= BLOCK_SIZE,
    ensures
        block_bytes(points).len() <= u32::MAX,
        parse_block(block_bytes(points), points.len()) == Some(
            Ok::<Seq<TimeSeriesPoint>, TableError>(points),
        ),
{
    reveal(block_bytes);
    let block = block_bytes(points);
    let ts = pack(timestamp_stream(timestamps_of(points)));
    let values = pack(value_stream(values_of(points)));
    lemma_timestamp_stream_len(timestamps_of(points));
    lemma_value_stream_len(values_of(points));
    lemma_u32_round_trip(ts.len() as u32);
    lemma_u32_round_trip(values.len() as u32);
    let after_ts_len = block.skip(4);
    assert(block.take(4) =~= le_bytes(ts.len() as int, 4));
    assert(after_ts_len.take(ts.len() as int) =~= ts);
    let after_ts = after_ts_len.skip(ts.len() as int);
    assert(after_ts.take(4) =~= le_bytes(values.len() as int, 4));
    assert(after_ts.skip(4).take(values.len() as int) =~= values);
    timestamps_round_trip(timestamps_of(points));
    values_round_trip(values_of(points));
    assert(paired(timestamps_of(points), values_of(points)) =~= points);
}

/// The bytes of block `i` follow those of the blocks before it.
pub proof fn lemma_body_at(blocks: Seq<Seq<TimeSeriesPoint>>, i: int)
    requires
        0 <= i < blocks.len(),
    ensures
        ({
            let start = body_bytes(blocks.take(i)).len() as int;
            let size = block_bytes(blocks[i]).len();
            &&& start + size <= body_bytes(blocks).len()
            &&& body_bytes(blocks).subrange(start, start + size) == block_bytes(blocks[i])
        }),
    decreases blocks.len(),
{
    let before = blocks.drop_last();
    let start = body_bytes(blocks.take(i)).len() as int;
    let size = block_bytes(blocks[i]).len();
    if i == blocks.len() - 1 {
        assert(blocks.take(i) =~= before);
        assert(body_bytes(blocks).subrange(start, start + size) =~= block_bytes(blocks[i]));
    } else {
        lemma_body_at(before, i);
        assert(before.take(i) =~= blocks.take(i));
        assert(body_bytes(blocks).subrange(start, start + size) =~= body_bytes(before).subrange(
            start,
            start + size,
        ));
    }
}

proof fn lemma_entry_round_trip(entry: IndexEntry)
    ensures
        entry_bytes(entry).len() == INDEX_ENTRY_SIZE,
        parse_entry(entry_bytes(entry)) == entry,
{
    let bytes = entry_bytes(entry);
    lemma_i64_round_trip(entry.first_timestamp);
    lemma_u64_round_trip(entry.file_offset);
    lemma_u32_round_trip(entry.compressed_size);
    lemma_u32_round_trip(entry.point_count);
    assert(bytes.take(8) =~= le_bytes(entry.first_timestamp as int, 8));
    assert(bytes.subrange(8, 16) =~= le_bytes(entry.file_offset as int, 8));
    assert(bytes.subrange(16, 20) =~= le_bytes(entry.compressed_size as int, 4));
    assert(bytes.subrange(20, 24) =~= le_bytes(entry.point_count as int, 4));
}

/// Entry `i` of an index is at its place.
proof fn lemma_index_at(entries: Seq<IndexEntry>, i: int)
    requires
        0 <= i < entries.len(),
    ensures
        index_bytes(entries).len() == INDEX_ENTRY_SIZE * entries.len(),
        index_bytes(entries).subrange(INDEX_ENTRY_SIZE * i, INDEX_ENTRY_SIZE * (i + 1))
            == entry_bytes(entries[i]),
    decreases entries.len(),
{
    let before = entries.drop_last();
    lemma_index_len(entries);
    lemma_index_len(before);
    lemma_entry_round_trip(entries.last());
    if i == entries.len() - 1 {
        assert(index_bytes(entries).subrange(INDEX_ENTRY_SIZE * i, INDEX_ENTRY_SIZE * (i + 1))
            =~= entry_bytes(entries[i]));
    } else {
        lemma_index_at(before, i);
        assert(index_bytes(entries).subrange(INDEX_ENTRY_SIZE * i, INDEX_ENTRY_SIZE * (i + 1))
            =~= index_bytes(before).subrange(INDEX_ENTRY_SIZE * i, INDEX_ENTRY_SIZE * (i + 1)));
    }
}

proof fn lemma_index_len(entries: Seq<IndexEntry>)
    ensures
        index_bytes(entries).len() == INDEX_ENTRY_SIZE * entries.len(),
    decreases entries.len(),
{
    if entries.len() > 0 {
        lemma_index_len(entries.drop_last());
        lemma_entry_round_trip(entries.last());
    }
}

/// Where the parts of a table are, and what its fixed fields state.
pub proof fn lemma_table_parts(blocks: Seq<Seq<TimeSeriesPoint>>)
    requires
        table_fits(blocks),
    ensures
        ({
            let data = table_bytes(blocks);
            let body = body_bytes(blocks);
            let index = index_bytes(index_of(blocks));
            &&& data.len() == HEADER_SIZE + body.len() + index.len() + FOOTER_SIZE
            &&& index.len() == INDEX_ENTRY_SIZE * blocks.len()
            &&& looks_like_a_table(data)
            &&& stated_blocks(data) == blocks.len()
            &&& stated_lowest(data) == lowest(blocks)
            &&& stated_highest(data) == highest(blocks)
            &&& index_start(data) == HEADER_SIZE + body.len()
            &&& index_len(data) == index.len()
            &&& data.subrange(HEADER_SIZE as int, HEADER_SIZE + body.len()) == body
            &&& data.subrange(
                HEADER_SIZE + body.len(),
                HEADER_SIZE + body.len() + index.len(),
            ) == index
        }),
{
    reveal(table_bytes);
    let data = table_bytes(blocks);
    let header = header_bytes(blocks);
    let body = body_bytes(blocks);
    let index = index_bytes(index_of(blocks));
    let footer = footer_bytes(blocks);
    let crc = crc32(unsealed_bytes(blocks));
    lemma_index_len(index_of(blocks));
    lemma_le_bytes_len(VERSION as int, 2);
    lemma_le_bytes_len(3, 2);
    lemma_u32_round_trip(blocks.len() as u32);
    lemma_i64_round_trip(lowest(blocks));
    lemma_i64_round_trip(highest(blocks));
    lemma_le_bytes_len(all_points(blocks).len() as int, 8);
    lemma_le_bytes_len(crc as int, 4);
    lemma_le_bytes_len(HEADER_SIZE + body.len(), 8);
    lemma_u32_round_trip((INDEX_ENTRY_SIZE * blocks.len()) as u32);
    assert(header.len() == HEADER_SIZE);
    assert(footer.len() == 20);
    lemma_u64_round_trip((HEADER_SIZE + body.len()) as u64);
    let n = data.len() as int;
    assert(data.take(4) =~= magic());
    assert(data.subrange(8, 12) =~= le_bytes(blocks.len() as int, 4));
    assert(data.subrange(12, 20) =~= le_bytes(lowest(blocks) as int, 8));
    assert(data.subrange(20, 28) =~= le_bytes(highest(blocks) as int, 8));
    assert(data.subrange(n - 24, n - 16) =~= le_bytes(HEADER_SIZE + body.len(), 8));
    assert(data.subrange(n - 16, n - 12) =~= le_bytes((INDEX_ENTRY_SIZE * blocks.len()) as int, 4));
    assert(data.subrange(HEADER_SIZE as int, HEADER_SIZE + body.len()) =~= body);
    assert(data.subrange(HEADER_SIZE + body.len(), HEADER_SIZE + body.len() + index.len())
        =~= index);
}

/// An index is read entry by entry, wherever it is.
proof fn lemma_entry_of_index(data: Seq<u8>, start: int, entries: Seq<IndexEntry>, i: int)
    requires
        0 <= i < entries.len(),
        0 <= start,
        start + index_bytes(entries).len() <= data.len(),
        data.subrange(start, start + index_bytes(entries).len()) == index_bytes(entries),
    ensures
        parse_entry(data.skip(start + INDEX_ENTRY_SIZE * i)) == entries[i],
{
    let at = start + INDEX_ENTRY_SIZE * i;
    let index = index_bytes(entries);
    let entry = entry_bytes(entries[i]);
    lemma_index_at(entries, i);
    lemma_entry_round_trip(entries[i]);
    assert(data.skip(at).take(24) =~= data.subrange(start, start + index.len()).subrange(
        INDEX_ENTRY_SIZE * i,
        INDEX_ENTRY_SIZE * (i + 1),
    ));
    assert(entry.take(24) =~= entry);
    lemma_parse_entry_of_prefix(data.skip(at), entry);
}

/// A written table can be opened, and its index is that of its blocks.
pub proof fn table_opens(blocks: Seq<Seq<TimeSeriesPoint>>)
    requires
        table_fits(blocks),
    ensures
        index_in_bounds(table_bytes(blocks)),
        open_error(table_bytes(blocks)) is None,
        parse_index(table_bytes(blocks)) == index_of(blocks),
        stated_lowest(table_bytes(blocks)) == lowest(blocks),
        stated_highest(table_bytes(blocks)) == highest(blocks),
{
    let data = table_bytes(blocks);
    let entries = index_of(blocks);
    lemma_table_parts(blocks);
    assert forall|i: int| 0 <= i < blocks.len() implies #[trigger] parse_index(data)[i]
        == entries[i] by {
        lemma_entry_of_index(data, index_start(data) as int, entries, i);
    }
    assert(parse_index(data) =~= entries);
}

/// An entry leads to the bytes that it points to.
proof fn lemma_entry_leads_to(data: Seq<u8>, entry: IndexEntry, body: Seq<u8>, block: Seq<u8>)
    requires
        HEADER_SIZE <= entry.file_offset <= usize::MAX,
        HEADER_SIZE + body.len() <= data.len(),
        data.subrange(HEADER_SIZE as int, HEADER_SIZE + body.len()) == body,
        entry.file_offset + entry.compressed_size <= HEADER_SIZE + body.len(),
        body.subrange(
            entry.file_offset - HEADER_SIZE,
            entry.file_offset - HEADER_SIZE + entry.compressed_size,
        ) == block,
    ensures
        parse_entry_block(data, entry) == parse_block(block, entry.point_count as nat),
{
    let start = entry.file_offset as int;
    assert(data.subrange(start, start + entry.compressed_size) =~= block);
}

/// The index leads to each block.
proof fn lemma_entry_leads_to_block(blocks: Seq<Seq<TimeSeriesPoint>>, i: int)
    requires
        table_fits(blocks),
        0 <= i < blocks.len(),
    ensures
        parse_entry_block(table_bytes(blocks), index_of(blocks)[i]) == parse_block(
            block_bytes(blocks[i]),
            blocks[i].len(),
        ),
{
    lemma_table_parts(blocks);
    lemma_body_at(blocks, i);
    assert(block_bytes(blocks[i]).len() <= u32::MAX) by {
        lemma_block_round_trip(blocks[i]);
    }
    lemma_entry_leads_to(
        table_bytes(blocks),
        index_of(blocks)[i],
        body_bytes(blocks),
        block_bytes(blocks[i]),
    );
}

/// Where each entry is read as its block, all entries are read as all points.
proof fn lemma_read_blocks(
    data: Seq<u8>,
    entries: Seq<IndexEntry>,
    blocks: Seq<Seq<TimeSeriesPoint>>,
)
    requires
        entries.len() == blocks.len(),
        forall|i: int|
            0 <= i < blocks.len() ==> parse_entry_block(data, entries[i]) == Some(
                Ok::<Seq<TimeSeriesPoint>, TableError>(#[trigger] blocks[i]),
            ),
    ensures
        parse_blocks(data, entries) == Some(
            Ok::<Seq<TimeSeriesPoint>, TableError>(all_points(blocks)),
        ),
    decreases blocks.len(),
{
    if blocks.len() > 0 {
        let before = blocks.drop_last();
        assert forall|i: int| 0 <= i < before.len() implies parse_entry_block(
            data,
            entries.drop_last()[i],
        ) == Some(Ok::<Seq<TimeSeriesPoint>, TableError>(#[trigger] before[i])) by {
            assert(before[i] == blocks[i]);
        }
        lemma_read_blocks(data, entries.drop_last(), before);
        assert(blocks[blocks.len() - 1] == blocks.last());
    }
}

/// Reading the first `n` blocks of a written table.
proof fn lemma_read_first_blocks(blocks: Seq<Seq<TimeSeriesPoint>>, n: int)
    requires
        table_fits(blocks),
        0 <= n <= blocks.len(),
    ensures
        parse_blocks(table_bytes(blocks), index_of(blocks).take(n)) == Some(
            Ok::<Seq<TimeSeriesPoint>, TableError>(all_points(blocks.take(n))),
        ),
{
    let data = table_bytes(blocks);
    let entries = index_of(blocks).take(n);
    let first = blocks.take(n);
    assert forall|i: int| 0 <= i < n implies parse_entry_block(data, entries[i]) == Some(
        Ok::<Seq<TimeSeriesPoint>, TableError>(#[trigger] first[i]),
    ) by {
        assert(first[i] == blocks[i]);
        assert(entries[i] == index_of(blocks)[i]);
        lemma_entry_leads_to_block(blocks, i);
        lemma_block_round_trip(blocks[i]);
    }
    lemma_read_blocks(data, entries, first);
}

/// Reading all of a written table gives its points back.
pub proof fn table_round_trip(blocks: Seq<Seq<TimeSeriesPoint>>)
    requires
        table_fits(blocks),
    ensures
        parse_blocks(table_bytes(blocks), parse_index(table_bytes(blocks))) == Some(
            Ok::<Seq<TimeSeriesPoint>, TableError>(all_points(blocks)),
        ),
{
    table_opens(blocks);
    lemma_read_first_blocks(blocks, blocks.len() as int);
    assert(index_of(blocks).take(blocks.len() as int) =~= index_of(blocks));
    assert(blocks.take(blocks.len() as int) =~= blocks);
}

/// Cutting points into blocks keeps all of them, in order, and no block is empty or too long.
pub proof fn blocks_hold_the_points(points: Seq<TimeSeriesPoint>)
    ensures
        all_points(blocks_of(points)) == points,
        blocks_fit(blocks_of(points)),
{
    let blocks = blocks_of(points);
    lemma_first_blocks_hold(points, blocks.len() as int);
    assert(blocks.take(blocks.len() as int) =~= blocks);
    assert(points.take(points.len() as int) =~= points);
    assert forall|i: int| 0 <= i < blocks.len() implies 0 < (#[trigger] blocks[i]).len()
        <= BLOCK_SIZE by {
        assert(BLOCK_SIZE * i < points.len());
    }
}

proof fn lemma_first_blocks_hold(points: Seq<TimeSeriesPoint>, n: int)
    requires
        0 <= n <= blocks_of(points).len(),
    ensures
        all_points(blocks_of(points).take(n)) == points.take(
            if BLOCK_SIZE * n <= points.len() {
                BLOCK_SIZE * n
            } else {
                points.len() as int
            },
        ),
    decreases n,
{
    let blocks = blocks_of(points);
    if n == 0 {
        assert(all_points(blocks.take(0)) =~= points.take(0));
    } else {
        lemma_first_blocks_hold(points, n - 1);
        assert(blocks.take(n).drop_last() =~= blocks.take(n - 1));
        assert(BLOCK_SIZE * (n - 1) < points.len());
        assert(all_points(blocks.take(n)) =~= points.take(
            if BLOCK_SIZE * n <= points.len() {
                BLOCK_SIZE * n
            } else {
                points.len() as int
            },
        ));
    }
}

proof fn lemma_all_points_split(blocks: Seq<Seq<TimeSeriesPoint>>, n: int)
    requires
        0 <= n <= blocks.len(),
    ensures
        all_points(blocks) == all_points(blocks.take(n)) + all_points(blocks.skip(n)),
    decreases blocks.len(),
{
    if n == blocks.len() {
        assert(blocks.take(n) =~= blocks);
        assert(all_points(blocks.skip(n)) =~= Seq::empty());
        assert(all_points(blocks) =~= all_points(blocks.take(n)) + all_points(blocks.skip(n)));
    } else {
        let before = blocks.drop_last();
        lemma_all_points_split(before, n);
        assert(before.take(n) =~= blocks.take(n));
        assert(blocks.skip(n).drop_last() =~= before.skip(n));
        assert(all_points(blocks) =~= all_points(blocks.take(n)) + all_points(blocks.skip(n)));
    }
}

proof fn lemma_first_and_last_point(blocks: Seq<Seq<TimeSeriesPoint>>)
    requires
        blocks_fit(blocks),
        blocks.len() > 0,
    ensures
        all_points(blocks).len() > 0,
        all_points(blocks)[0] == blocks[0][0],
        all_points(blocks).last() == blocks.last().last(),
    decreases blocks.len(),
{
    let before = blocks.drop_last();
    assert(blocks[blocks.len() - 1].len() > 0);
    if before.len() > 0 {
        assert forall|i: int| 0 <= i < before.len() implies 0 < (#[trigger] before[i]).len()
            <= BLOCK_SIZE by {
            assert(before[i] == blocks[i]);
        }
        lemma_first_and_last_point(before);
    } else {
        assert(all_points(before) =~= Seq::empty());
    }
}

proof fn lemma_within_of_later(
    s: Seq<TimeSeriesPoint>,
    later: Seq<TimeSeriesPoint>,
    start: i64,
    end: i64,
)
    requires
        forall|i: int| 0 <= i < later.len() ==> (#[trigger] later[i]).timestamp > end,
    ensures
        points_within(s + later, start, end) == points_within(s, start, end),
    decreases later.len(),
{
    if later.len() == 0 {
        assert(s + later =~= s);
    } else {
        let before = later.drop_last();
        assert forall|i: int| 0 <= i < before.len() implies (#[trigger] before[i]).timestamp
            > end by {
            assert(before[i] == later[i]);
        }
        lemma_within_of_later(s, before, start, end);
        assert((s + later).drop_last() =~= s + before);
        assert(later[later.len() - 1].timestamp > end);
    }
}

proof fn lemma_nothing_within(s: Seq<TimeSeriesPoint>, start: i64, end: i64)
    ensures
        start > end ==> points_within(s, start, end).len() == 0,
    decreases s.len(),
{
    if s.len() > 0 {
        lemma_nothing_within(s.drop_last(), start, end);
    }
}

/// Scanning a written table whose points are sorted finds, of all its points, those in the range,
/// though it reads only the blocks before the first that starts behind it.
pub proof fn range_scan_finds_the_range(
    blocks: Seq<Seq<TimeSeriesPoint>>,
    start: i64,
    end: i64,
)
    requires
        table_fits(blocks),
        sorted(all_points(blocks)),
    ensures
        ({
            let data = table_bytes(blocks);
            let all = parse_blocks(data, parse_index(data));
            let visited = parse_index(data).take(blocks_up_to(parse_index(data), end) as int);
            match (all, parse_blocks(data, visited)) {
                (Some(Ok(all)), Some(Ok(read))) => points_within(read, start, end)
                    == points_within(all, start, end),
                _ => false,
            }
        }),
        start > end ==> points_within(all_points(blocks), start, end).len() == 0,
{
    table_round_trip(blocks);
    lemma_nothing_within(all_points(blocks), start, end);
    let entries = index_of(blocks);
    let n = blocks_up_to(entries, end) as int;
    let before = all_points(blocks.take(n));
    let later = all_points(blocks.skip(n));
    table_opens(blocks);
    lemma_blocks_up_to(entries, end);
    lemma_read_first_blocks(blocks, n);
    lemma_all_points_split(blocks, n);
    assert forall|i: int| 0 <= i < later.len() implies (#[trigger] later[i]).timestamp > end by {
        let rest = blocks.skip(n);
        assert forall|k: int| 0 <= k < rest.len() implies 0 < (#[trigger] rest[k]).len()
            <= BLOCK_SIZE by {
            assert(rest[k] == blocks[k + n]);
        }
        lemma_first_and_last_point(rest);
        assert(entries[n].first_timestamp > end);
        assert(all_points(blocks)[before.len() as int] == later[0]);
        assert(all_points(blocks)[before.len() + i] == later[i]);
    }
    lemma_within_of_later(before, later, start, end);
}

/// The header of a written table whose points are sorted states the first and the last timestamp.
pub proof fn header_states_the_range(blocks: Seq<Seq<TimeSeriesPoint>>)
    requires
        table_fits(blocks),
        blocks.len() > 0,
        sorted(all_points(blocks)),
    ensures
        stated_lowest(table_bytes(blocks)) == all_points(blocks)[0].timestamp,
        stated_highest(table_bytes(blocks)) == all_points(blocks).last().timestamp,
{
    table_opens(blocks);
    lemma_range_of_sorted(blocks);
}

proof fn lemma_range_of_sorted(blocks: Seq<Seq<TimeSeriesPoint>>)
    requires
        blocks_fit(blocks),
        blocks.len() > 0,
        sorted(all_points(blocks)),
    ensures
        lowest(blocks) == all_points(blocks)[0].timestamp,
        highest(blocks) == all_points(blocks).last().timestamp,
    decreases blocks.len(),
{
    let before = blocks.drop_last();
    let all = all_points(blocks);
    lemma_first_and_last_point(blocks);
    if before.len() == 0 {
        assert(lowest(before) == i64::MAX && highest(before) == i64::MIN);
    } else {
        assert forall|i: int| 0 <= i < before.len() implies 0 < (#[trigger] before[i]).len()
            <= BLOCK_SIZE by {
            assert(before[i] == blocks[i]);
        }
        let n = all_points(before).len() as int;
        assert forall|i: int, j: int| 0 <= i <= j < n implies all_points(before)[i].timestamp
            <= all_points(before)[j].timestamp by {
            assert(all[i] == all_points(before)[i] && all[j] == all_points(before)[j]);
        }
        lemma_range_of_sorted(before);
        lemma_first_and_last_point(before);
        assert(blocks[blocks.len() - 1].len() > 0);
        assert(all[0] == all_points(before)[0]);
        assert(all[n - 1] == all_points(before).last());
        assert(all[n] == blocks.last()[0]);
        assert(all[0].timestamp <= all[n].timestamp);
        assert(all[n - 1].timestamp <= all[all.len() - 1].timestamp);
    }
}

} // verus!
