//! The layout of a table file.
//!
//! A table is a header, the compressed blocks of points, an index with one entry for each block,
//! and a footer that ends in a checksum of all that comes before it:
//!
//! - header: magic, version (2 bytes), flags (2), number of blocks (4), lowest and highest
//!   timestamp (8 each), reserved (4);
//! - block: length of the timestamps (4), compressed timestamps, length of the values (4),
//!   compressed values;
//! - index entry: first timestamp (8), position in the file (8), length (4), number of points (4);
//! - footer: position of the index (8), length of the index (4), number of points (8),
//!   checksum (4).
use super::bytes::{as_signed, crc32, le_bytes, le_value};
use crate::compression::bits::{pack, unpack};
use crate::compression::delta::{parse_timestamps, timestamp_stream};
use crate::compression::xor_float::{parse_values, value_stream};
use crate::types::TimeSeriesPoint;
use vstd::prelude::*;

verus! {

pub const VERSION: u16 = 1;

pub const FLAG_DELTA_OF_DELTA: u16 = 0x01;

pub const FLAG_XOR_FLOAT: u16 = 0x02;

pub const HEADER_SIZE: usize = 32;

pub const FOOTER_SIZE: usize = 24;

pub const INDEX_ENTRY_SIZE: usize = 24;

/// The most points in a block.
pub const BLOCK_SIZE: usize = 1024;

/// What the index holds of a block.
#[derive(Debug, Clone, Copy, PartialEq, Eq, Structural)]
pub struct IndexEntry {
    pub first_timestamp: i64,
    pub file_offset: u64,
    pub compressed_size: u32,
    pub point_count: u32,
}

/// Why a table cannot be read.
#[derive(Debug, Clone, Copy, PartialEq, Eq, Structural)]
pub enum TableError {
    /// The file is shorter than a header and a footer.
    FileTooSmall,
    /// The file does not start with the magic.
    InvalidMagic,
    /// The index or a block ends inside a number.
    UnexpectedEof,
}

/// The bytes `TSDB`.
pub open spec fn magic() -> Seq<u8> {
    seq![0x54u8, 0x53u8, 0x44u8, 0x42u8]
}

pub open spec fn zero_bytes(n: nat) -> Seq<u8> {
    Seq::new(n, |i: int| 0u8)
}

pub open spec fn timestamps_of(points: Seq<TimeSeriesPoint>) -> Seq<i64> {
    Seq::new(points.len(), |i: int| points[i].timestamp)
}

pub open spec fn values_of(points: Seq<TimeSeriesPoint>) -> Seq<u64> {
    Seq::new(points.len(), |i: int| points[i].value_bits)
}

/// The points with the given timestamps and values.
pub open spec fn paired(timestamps: Seq<i64>, values: Seq<u64>) -> Seq<TimeSeriesPoint> {
    Seq::new(
        timestamps.len(),
        |i: int| TimeSeriesPoint { timestamp: timestamps[i], value_bits: values[i] },
    )
}

/// `points` cut into blocks; only the last may be shorter than the others.
pub open spec fn blocks_of(points: Seq<TimeSeriesPoint>) -> Seq<Seq<TimeSeriesPoint>> {
    Seq::new(
        (points.len() + BLOCK_SIZE as nat - 1) as nat / BLOCK_SIZE as nat,
        |i: int|
            points.subrange(
                BLOCK_SIZE * i,
                if BLOCK_SIZE * (i + 1) <= points.len() {
                    BLOCK_SIZE * (i + 1)
                } else {
                    points.len() as int
                },
            ),
    )
}

/// The points of all blocks, one after the other.
pub open spec fn all_points(blocks: Seq<Seq<TimeSeriesPoint>>) -> Seq<TimeSeriesPoint>
    decreases blocks.len(),
{
    if blocks.len() == 0 {
        Seq::empty()
    } else {
        all_points(blocks.drop_last()) + blocks.last()
    }
}

/// A block: compressed timestamps and compressed values, each behind its length.
#[verifier::opaque]
pub open spec fn block_bytes(points: Seq<TimeSeriesPoint>) -> Seq<u8> {
    let ts = pack(timestamp_stream(timestamps_of(points)));
    let values = pack(value_stream(values_of(points)));
    le_bytes(ts.len() as int, 4) + ts + le_bytes(values.len() as int, 4) + values
}

/// All blocks, one after the other.
pub open spec fn body_bytes(blocks: Seq<Seq<TimeSeriesPoint>>) -> Seq<u8>
    decreases blocks.len(),
{
    if blocks.len() == 0 {
        Seq::empty()
    } else {
        body_bytes(blocks.drop_last()) + block_bytes(blocks.last())
    }
}

/// The index entries of blocks that follow the header.
pub open spec fn index_of(blocks: Seq<Seq<TimeSeriesPoint>>) -> Seq<IndexEntry> {
    Seq::new(
        blocks.len(),
        |i: int|
            IndexEntry {
                first_timestamp: blocks[i][0].timestamp,
                file_offset: (HEADER_SIZE + body_bytes(blocks.take(i)).len()) as u64,
                compressed_size: block_bytes(blocks[i]).len() as u32,
                point_count: blocks[i].len() as u32,
            },
    )
}

pub open spec fn entry_bytes(entry: IndexEntry) -> Seq<u8> {
    le_bytes(entry.first_timestamp as int, 8) + le_bytes(entry.file_offset as int, 8) + le_bytes(
        entry.compressed_size as int,
        4,
    ) + le_bytes(entry.point_count as int, 4)
}

pub open spec fn index_bytes(entries: Seq<IndexEntry>) -> Seq<u8>
    decreases entries.len(),
{
    if entries.len() == 0 {
        Seq::empty()
    } else {
        index_bytes(entries.drop_last()) + entry_bytes(entries.last())
    }
}

/// The lowest first timestamp of a block.
pub open spec fn lowest(blocks: Seq<Seq<TimeSeriesPoint>>) -> i64
    decreases blocks.len(),
{
    if blocks.len() == 0 {
        i64::MAX
    } else {
        let before = lowest(blocks.drop_last());
        let first = blocks.last()[0].timestamp;
        if first < before {
            first
        } else {
            before
        }
    }
}

/// The highest last timestamp of a block.
pub open spec fn highest(blocks: Seq<Seq<TimeSeriesPoint>>) -> i64
    decreases blocks.len(),
{
    if blocks.len() == 0 {
        i64::MIN
    } else {
        let before = highest(blocks.drop_last());
        let last = blocks.last().last().timestamp;
        if last > before {
            last
        } else {
            before
        }
    }
}

/// The header. Of the number of blocks, the four low-order bytes are kept.
pub open spec fn header_bytes(blocks: Seq<Seq<TimeSeriesPoint>>) -> Seq<u8> {
    magic() + le_bytes(VERSION as int, 2) + le_bytes(3, 2) + le_bytes(blocks.len() as int, 4)
        + le_bytes(lowest(blocks) as int, 8) + le_bytes(highest(blocks) as int, 8) + zero_bytes(4)
}

/// The footer without the checksum. Of the length of the index, the four low-order bytes are
/// kept.
pub open spec fn footer_bytes(blocks: Seq<Seq<TimeSeriesPoint>>) -> Seq<u8> {
    le_bytes(HEADER_SIZE + body_bytes(blocks).len(), 8) + le_bytes(
        (INDEX_ENTRY_SIZE * blocks.len()) as int,
        4,
    ) + le_bytes(all_points(blocks).len() as int, 8)
}

/// All of a table but its checksum.
pub open spec fn unsealed_bytes(blocks: Seq<Seq<TimeSeriesPoint>>) -> Seq<u8> {
    header_bytes(blocks) + body_bytes(blocks) + index_bytes(index_of(blocks)) + footer_bytes(blocks)
}

/// `bytes` with a checksum behind them.
pub open spec fn sealed_bytes(bytes: Seq<u8>, crc: u32) -> Seq<u8> {
    bytes + le_bytes(crc as int, 4)
}

/// The table that holds `blocks`.
#[verifier::opaque]
pub open spec fn table_bytes(blocks: Seq<Seq<TimeSeriesPoint>>) -> Seq<u8> {
    sealed_bytes(unsealed_bytes(blocks), crc32(unsealed_bytes(blocks)))
}

/// How many blocks a table's header states.
pub open spec fn stated_blocks(data: Seq<u8>) -> nat {
    le_value(data.subrange(8, 12))
}

/// The lowest timestamp that a table's header states.
pub open spec fn stated_lowest(data: Seq<u8>) -> i64 {
    as_signed(le_value(data.subrange(12, 20))) as i64
}

/// The highest timestamp that a table's header states.
pub open spec fn stated_highest(data: Seq<u8>) -> i64 {
    as_signed(le_value(data.subrange(20, 28))) as i64
}

/// Where a table's footer says that the index starts.
pub open spec fn index_start(data: Seq<u8>) -> usize {
    (le_value(data.subrange(data.len() - 24, data.len() - 16)) as u64) as usize
}

/// How long a table's footer says that the index is.
pub open spec fn index_len(data: Seq<u8>) -> nat {
    le_value(data.subrange(data.len() - 16, data.len() - 12))
}

/// Whether `data` is long enough for a header and a footer, and starts with the magic.
pub open spec fn looks_like_a_table(data: Seq<u8>) -> bool {
    data.len() >= HEADER_SIZE + FOOTER_SIZE && data.take(4) == magic()
}

/// Whether the index that the footer points to lies inside the file.
pub open spec fn index_in_bounds(data: Seq<u8>) -> bool {
    index_start(data) + index_len(data) <= data.len()
}

/// Why `data` cannot be opened as a table, if so.
pub open spec fn open_error(data: Seq<u8>) -> Option<TableError> {
    if data.len() < HEADER_SIZE + FOOTER_SIZE {
        Some(TableError::FileTooSmall)
    } else if data.take(4) != magic() {
        Some(TableError::InvalidMagic)
    } else if INDEX_ENTRY_SIZE * stated_blocks(data) > index_len(data) {
        Some(TableError::UnexpectedEof)
    } else {
        None
    }
}

/// The index entry at the start of `data`.
pub open spec fn parse_entry(data: Seq<u8>) -> IndexEntry {
    IndexEntry {
        first_timestamp: as_signed(le_value(data.take(8))) as i64,
        file_offset: le_value(data.subrange(8, 16)) as u64,
        compressed_size: le_value(data.subrange(16, 20)) as u32,
        point_count: le_value(data.subrange(20, 24)) as u32,
    }
}

/// The index entries of a table.
pub open spec fn parse_index(data: Seq<u8>) -> Seq<IndexEntry> {
    Seq::new(
        stated_blocks(data),
        |i: int| parse_entry(data.skip(index_start(data) + INDEX_ENTRY_SIZE * i)),
    )
}

/// What reading a block of `count` points gives; none where a part lies outside the block or a
/// stream of bits is broken.
pub open spec fn parse_block(block: Seq<u8>, count: nat) -> Option<
    Result<Seq<TimeSeriesPoint>, TableError>,
> {
    let ts_len = le_value(block.take(4));
    let after_ts_len = block.skip(4);
    let after_ts = after_ts_len.skip(ts_len as int);
    let values_len = le_value(after_ts.take(4));
    let after_values_len = after_ts.skip(4);
    if block.len() < 4 {
        Some(Err(TableError::UnexpectedEof))
    } else if ts_len > after_ts_len.len() {
        None
    } else if after_ts.len() < 4 {
        Some(Err(TableError::UnexpectedEof))
    } else if values_len > after_values_len.len() {
        None
    } else {
        let ts_bits = unpack(after_ts_len.take(ts_len as int));
        let values_bits = unpack(after_values_len.take(values_len as int));
        match (
            parse_timestamps(ts_bits, Seq::empty(), count),
            parse_values(values_bits, Seq::empty(), (0, 0), count),
        ) {
            (Some((timestamps, _)), Some((values, _, _))) => Some(Ok(paired(timestamps, values))),
            _ => None,
        }
    }
}

/// What reading the block of an index entry gives; none where it lies outside the file or is
/// broken.
pub open spec fn parse_entry_block(data: Seq<u8>, entry: IndexEntry) -> Option<
    Result<Seq<TimeSeriesPoint>, TableError>,
> {
    let start = (entry.file_offset as usize) as int;
    if start + entry.compressed_size > data.len() {
        None
    } else {
        parse_block(
            data.subrange(start, start + entry.compressed_size),
            entry.point_count as nat,
        )
    }
}

/// What reading the blocks of all `entries` in turn gives, up to the first that cannot be read.
pub open spec fn parse_blocks(data: Seq<u8>, entries: Seq<IndexEntry>) -> Option<
    Result<Seq<TimeSeriesPoint>, TableError>,
>
    decreases entries.len(),
{
    if entries.len() == 0 {
        Some(Ok(Seq::empty()))
    } else {
        match parse_blocks(data, entries.drop_last()) {
            Some(Ok(points)) => match parse_entry_block(data, entries.last()) {
                Some(Ok(block)) => Some(Ok(points + block)),
                other => other,
            },
            other => other,
        }
    }
}

/// What several reads in turn give, up to the first that does not succeed.
pub open spec fn chained(reads: Seq<Option<Result<Seq<TimeSeriesPoint>, TableError>>>) -> Option<
    Result<Seq<TimeSeriesPoint>, TableError>,
>
    decreases reads.len(),
{
    if reads.len() == 0 {
        Some(Ok(Seq::empty()))
    } else {
        match chained(reads.drop_last()) {
            Some(Ok(points)) => match reads.last() {
                Some(Ok(more)) => Some(Ok(points + more)),
                other => other,
            },
            other => other,
        }
    }
}

/// How many entries come before the first whose block starts after `end`.
pub open spec fn blocks_up_to(entries: Seq<IndexEntry>, end: i64) -> nat
    decreases entries.len(),
{
    if entries.len() == 0 || entries[0].first_timestamp > end {
        0
    } else {
        1 + blocks_up_to(entries.skip(1), end)
    }
}

} // verus!
