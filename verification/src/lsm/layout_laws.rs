//! Where the bytes of records and tables are, and what they say.
use super::bytes::{
    as_signed, crc32, le_bytes, le_value, lemma_i64_round_trip, lemma_le_bytes_len,
    lemma_u32_round_trip, lemma_u64_round_trip,
};
use super::table_format::{
    all_points, block_bytes, blocks_of, body_bytes, footer_bytes, header_bytes, highest,
    index_bytes, index_in_bounds, index_of, index_start, looks_like_a_table, lowest, open_error,
    paired, parse_block, parse_entry_block, parse_index, table_bytes, timestamps_of,
    unsealed_bytes, values_of, IndexEntry, TableError, BLOCK_SIZE,
};
use super::table_laws::{
    blocks_fit, blocks_hold_the_points, lemma_block_round_trip, lemma_body_at, lemma_table_parts,
    table_fits, table_opens,
};
use super::wal::{payload_bytes, record_bytes};
use crate::compression::bits::{pack, unpack};
use crate::compression::delta::{
    lemma_parse_timestamps_len, lemma_timestamp_stream_len, parse_timestamps, timestamp_stream,
};
use crate::compression::xor_float::{
    lemma_parse_values_len, lemma_value_stream_len, parse_values, value_stream,
};
use crate::types::TimeSeriesPoint;
use vstd::arithmetic::div_mod::{lemma_fundamental_div_mod, lemma_fundamental_div_mod_converse};
use vstd::arithmetic::power::{lemma_pow_positive, pow};
use vstd::prelude::*;

verus! {

proof fn lemma_div_twice(x: int, a: int, b: int)
    requires
        a > 0,
        b > 0,
    ensures
        x / (a * b) == (x / a) / b,
{
    let (q, r) = (x / a, x % a);
    let (s, t) = (q / b, q % b);
    lemma_fundamental_div_mod(x, a);
    lemma_fundamental_div_mod(q, b);
    assert(x == s * (a * b) + (a * t + r) && 0 <= a * t + r < a * b) by (nonlinear_arith)
        requires
            x == a * q + r,
            q == b * s + t,
            0 <= r < a,
            0 <= t < b,
    ;
    assert(a * b != 0) by (nonlinear_arith)
        requires
            a > 0,
            b > 0,
    ;
    lemma_fundamental_div_mod_converse(x, a * b, s, a * t + r);
}

/// A number is laid out with its lowest byte first.
pub proof fn lowest_byte_comes_first(x: int, n: nat, i: int)
    requires
        0 <= i < n,
    ensures
        le_bytes(x, n).len() == n,
        le_bytes(x, n)[i] == (x / pow(256, i as nat)) % 256,
    decreases n,
{
    lemma_le_bytes_len(x, n);
    reveal(pow);
    if i > 0 {
        lowest_byte_comes_first(x / 256, (n - 1) as nat, i - 1);
        lemma_pow_positive(256, (i - 1) as nat);
        lemma_div_twice(x, 256, pow(256, (i - 1) as nat));
    } else {
        assert(x / 1 == x);
    }
}

/// A record has 24 bytes: the length of what follows behind the first four, the checksum of the
/// last sixteen, the timestamp, and the bit pattern of the value.
pub proof fn record_holds_its_point(point: TimeSeriesPoint)
    ensures
        ({
            let record = record_bytes(point);
            &&& record.len() == 24
            &&& le_value(record.subrange(0, 4)) == 20
            &&& le_value(record.subrange(4, 8)) == crc32(record.subrange(8, 24))
            &&& as_signed(le_value(record.subrange(8, 16))) == point.timestamp
            &&& le_value(record.subrange(16, 24)) == point.value_bits
        }),
{
    let record = record_bytes(point);
    let crc = crc32(payload_bytes(point));
    lemma_u32_round_trip(20);
    lemma_u32_round_trip(crc);
    lemma_i64_round_trip(point.timestamp);
    lemma_u64_round_trip(point.value_bits);
    assert(record.subrange(0, 4) =~= le_bytes(20, 4));
    assert(record.subrange(4, 8) =~= le_bytes(crc as int, 4));
    assert(record.subrange(8, 24) =~= payload_bytes(point));
    assert(record.subrange(8, 16) =~= le_bytes(point.timestamp as int, 8));
    assert(record.subrange(16, 24) =~= le_bytes(point.value_bits as int, 8));
}

/// Points are cut into blocks of 1024, but for the last block, which has what is left.
pub proof fn all_blocks_but_the_last_are_full(points: Seq<TimeSeriesPoint>)
    ensures
        ({
            let blocks = blocks_of(points);
            &&& all_points(blocks) == points
            &&& 1024 * blocks.len() >= points.len() > 1024 * (blocks.len() - 1)
            &&& forall|i: int|
                0 <= i < blocks.len() - 1 ==> (#[trigger] blocks[i]).len() == 1024
            &&& blocks.len() > 0 ==> 0 < blocks.last().len() <= 1024
        }),
{
    blocks_hold_the_points(points);
    let blocks = blocks_of(points);
    if blocks.len() > 0 {
        assert(blocks[blocks.len() - 1] == blocks.last());
    }
}

/// A block is the length of its compressed timestamps, these, the length of its compressed values,
/// and these; nothing else.
pub proof fn block_holds_two_streams(points: Seq<TimeSeriesPoint>)
    requires
        points.len() <= BLOCK_SIZE,
    ensures
        ({
            let block = block_bytes(points);
            let ts = pack(timestamp_stream(Seq::new(points.len(), |i: int| points[i].timestamp)));
            let values = pack(value_stream(Seq::new(points.len(), |i: int| points[i].value_bits)));
            let n = ts.len() as int;
            &&& block.len() == 8 + ts.len() + values.len()
            &&& le_value(block.subrange(0, 4)) == ts.len()
            &&& block.subrange(4, 4 + n) == ts
            &&& le_value(block.subrange(4 + n, 8 + n)) == values.len()
            &&& block.skip(8 + n) == values
        }),
{
    reveal(block_bytes);
    let block = block_bytes(points);
    let ts = pack(timestamp_stream(timestamps_of(points)));
    let values = pack(value_stream(values_of(points)));
    let n = ts.len() as int;
    lemma_timestamp_stream_len(timestamps_of(points));
    lemma_value_stream_len(values_of(points));
    lemma_u32_round_trip(ts.len() as u32);
    lemma_u32_round_trip(values.len() as u32);
    assert(block.subrange(0, 4) =~= le_bytes(ts.len() as int, 4));
    assert(block.subrange(4, 4 + n) =~= ts);
    assert(block.subrange(4 + n, 8 + n) =~= le_bytes(values.len() as int, 4));
    assert(block.skip(8 + n) =~= values);
}

/// The index has an entry for each block, in order: its first timestamp, where it is, and how many
/// points it has. The blocks follow the header without a gap, the index follows the last of them,
/// and at the place that an entry gives its block is read.
pub proof fn index_leads_to_the_blocks(blocks: Seq<Seq<TimeSeriesPoint>>, i: int)
    requires
        table_fits(blocks),
        0 <= i < blocks.len(),
    ensures
        ({
            let data = table_bytes(blocks);
            let index = parse_index(data);
            let entry = index[i];
            let end = entry.file_offset + entry.compressed_size;
            &&& index.len() == blocks.len()
            &&& entry.first_timestamp == blocks[i][0].timestamp
            &&& entry.point_count == blocks[i].len()
            &&& entry.file_offset == if i == 0 {
                32
            } else {
                index[i - 1].file_offset + index[i - 1].compressed_size
            }
            &&& i == blocks.len() - 1 ==> end == data.len() - 24 - 24 * blocks.len()
            &&& end <= data.len()
            &&& parse_block(data.subrange(entry.file_offset as int, end), blocks[i].len()) == Some(
                Ok::<Seq<TimeSeriesPoint>, TableError>(blocks[i]),
            )
        }),
{
    let data = table_bytes(blocks);
    let body = body_bytes(blocks);
    table_opens(blocks);
    lemma_table_parts(blocks);
    lemma_body_at(blocks, i);
    lemma_block_round_trip(blocks[i]);
    let start = body_bytes(blocks.take(i)).len() as int;
    let size = block_bytes(blocks[i]).len();
    assert(data.subrange(32 + start, 32 + start + size) =~= block_bytes(blocks[i])) by {
        assert(data.subrange(32, (32 + body.len()) as int) == body);
        assert(data.subrange(32, (32 + body.len()) as int).subrange(start, start + size)
            =~= data.subrange(32 + start, 32 + start + size));
    }
    if i > 0 {
        lemma_body_at(blocks, i - 1);
        lemma_block_round_trip(blocks[i - 1]);
        assert(blocks.take(i).drop_last() =~= blocks.take(i - 1));
        assert(blocks.take(i).last() == blocks[i - 1]);
    } else {
        assert(blocks.take(0) =~= Seq::empty());
    }
    if i == blocks.len() - 1 {
        assert(blocks.drop_last() =~= blocks.take(i));
    }
}

/// The header of a table says `TSDB`, version 1, both kinds of compression, and how many blocks
/// there are. The footer says where the index is and how long, how many points there are, and the
/// checksum of all bytes before it.
#[verifier::rlimit(50)]
pub proof fn header_and_footer_describe_the_table(blocks: Seq<Seq<TimeSeriesPoint>>)
    requires
        table_fits(blocks),
        all_points(blocks).len() <= u64::MAX,
    ensures
        ({
            let data = table_bytes(blocks);
            let n = data.len() as int;
            &&& n >= 56
            &&& data.subrange(0, 8) == seq![0x54u8, 0x53, 0x44, 0x42, 1, 0, 3, 0]
            &&& le_value(data.subrange(8, 12)) == blocks.len()
            &&& as_signed(le_value(data.subrange(12, 20))) == lowest(blocks)
            &&& as_signed(le_value(data.subrange(20, 28))) == highest(blocks)
            &&& data.subrange(28, 32) == seq![0u8, 0, 0, 0]
            &&& le_value(data.subrange(n - 24, n - 16)) == n - 24 - 24 * blocks.len()
            &&& le_value(data.subrange(n - 16, n - 12)) == 24 * blocks.len()
            &&& le_value(data.subrange(n - 12, n - 4)) == all_points(blocks).len()
            &&& le_value(data.subrange(n - 4, n)) == crc32(data.take(n - 4))
        }),
{
    lemma_table_parts(blocks);
    reveal(table_bytes);
    let data = table_bytes(blocks);
    let n = data.len() as int;
    let body = body_bytes(blocks);
    let index = index_bytes(index_of(blocks));
    let crc = crc32(unsealed_bytes(blocks));
    lemma_le_bytes_len(1, 2);
    lemma_le_bytes_len(3, 2);
    lemma_u32_round_trip(blocks.len() as u32);
    lemma_i64_round_trip(lowest(blocks));
    lemma_i64_round_trip(highest(blocks));
    lemma_u64_round_trip((32 + body.len()) as u64);
    lemma_u32_round_trip((24 * blocks.len()) as u32);
    lemma_u64_round_trip(all_points(blocks).len() as u64);
    lemma_u32_round_trip(crc);
    lowest_byte_comes_first(1, 2, 0);
    lowest_byte_comes_first(1, 2, 1);
    lowest_byte_comes_first(3, 2, 0);
    lowest_byte_comes_first(3, 2, 1);
    reveal(pow);
    reveal_with_fuel(le_bytes, 3);
    assert(header_bytes(blocks).len() == 32);
    assert(footer_bytes(blocks).len() == 20);
    assert(data.subrange(0, 8) =~= seq![0x54u8, 0x53, 0x44, 0x42, 1, 0, 3, 0]);
    assert(data.subrange(8, 12) =~= le_bytes(blocks.len() as int, 4));
    assert(data.subrange(12, 20) =~= le_bytes(lowest(blocks) as int, 8));
    assert(data.subrange(20, 28) =~= le_bytes(highest(blocks) as int, 8));
    assert(data.subrange(28, 32) =~= seq![0u8, 0, 0, 0]);
    assert(data.subrange(n - 24, n - 16) =~= le_bytes((32 + body.len()) as int, 8));
    assert(data.subrange(n - 16, n - 12) =~= le_bytes((24 * blocks.len()) as int, 4));
    assert(data.subrange(n - 12, n - 4) =~= le_bytes(all_points(blocks).len() as int, 8));
    assert(data.subrange(n - 4, n) =~= le_bytes(crc as int, 4));
    assert(data.take(n - 4) =~= unsealed_bytes(blocks));
}

/// The lowest and the highest timestamp that a table states are reached by a first and a last
/// point of a block, and no such point is lower or higher.
pub proof fn stated_range_is_tight(blocks: Seq<Seq<TimeSeriesPoint>>)
    requires
        blocks_fit(blocks),
        blocks.len() > 0,
    ensures
        forall|i: int|
            0 <= i < blocks.len() ==> lowest(blocks) <= (#[trigger] blocks[i])[0].timestamp,
        forall|i: int|
            0 <= i < blocks.len() ==> (#[trigger] blocks[i]).last().timestamp <= highest(blocks),
        exists|i: int|
            0 <= i < blocks.len() && lowest(blocks) == (#[trigger] blocks[i])[0].timestamp,
        exists|i: int|
            0 <= i < blocks.len() && highest(blocks) == (#[trigger] blocks[i]).last().timestamp,
    decreases blocks.len(),
{
    let before = blocks.drop_last();
    let n = blocks.len() - 1;
    assert(blocks[n] == blocks.last());
    if n == 0 {
        assert(lowest(before) == i64::MAX && highest(before) == i64::MIN);
        assert(lowest(blocks) == blocks[0][0].timestamp);
        assert(highest(blocks) == blocks[0].last().timestamp);
    } else {
        assert(forall|i: int| 0 <= i < n ==> #[trigger] before[i] == blocks[i]);
        stated_range_is_tight(before);
        let i = choose|i: int|
            0 <= i < before.len() && lowest(before) == (#[trigger] before[i])[0].timestamp;
        let j = choose|j: int|
            0 <= j < before.len() && highest(before) == (#[trigger] before[j]).last().timestamp;
        assert(lowest(blocks) == blocks[i][0].timestamp || lowest(blocks)
            == blocks[n][0].timestamp);
        assert(highest(blocks) == blocks[j].last().timestamp || highest(blocks)
            == blocks[n].last().timestamp);
        assert forall|k: int| 0 <= k < blocks.len() implies lowest(blocks) <= (
        #[trigger] blocks[k])[0].timestamp && blocks[k].last().timestamp <= highest(blocks) by {
            if k < n {
                assert(before[k] == blocks[k]);
            }
        }
    }
}

/// A file is opened as a table unless it is shorter than header and footer, does not begin with
/// `TSDB`, or has an index that is shorter than its number of blocks; in this order. Nothing else
/// is looked at, nor the checksum.
pub proof fn what_keeps_a_table_closed(data: Seq<u8>)
    ensures
        ({
            let n = data.len() as int;
            let marked = data.take(4) == seq![0x54u8, 0x53, 0x44, 0x42];
            let whole = 24 * le_value(data.subrange(8, 12)) <= le_value(
                data.subrange(n - 16, n - 12),
            );
            match open_error(data) {
                Some(TableError::FileTooSmall) => n < 56,
                Some(TableError::InvalidMagic) => n >= 56 && !marked,
                Some(TableError::UnexpectedEof) => n >= 56 && marked && !whole,
                None => n >= 56 && marked && whole,
            }
        }),
{
}

/// The index of a table is read where the footer says, 24 bytes for each block of the header.
pub proof fn index_is_read_where_the_footer_says(data: Seq<u8>, i: int)
    requires
        open_error(data) is None,
        index_in_bounds(data),
        0 <= i < le_value(data.subrange(8, 12)),
    ensures
        ({
            let n = data.len() as int;
            let at = (le_value(data.subrange(n - 24, n - 16)) as u64) as usize + 24 * i;
            let entry = parse_index(data)[i];
            &&& parse_index(data).len() == le_value(data.subrange(8, 12))
            &&& 0 <= at && at + 24 <= n
            &&& entry.first_timestamp == as_signed(le_value(data.subrange(at, at + 8))) as i64
            &&& entry.file_offset == le_value(data.subrange(at + 8, at + 16)) as u64
            &&& entry.compressed_size == le_value(data.subrange(at + 16, at + 20)) as u32
            &&& entry.point_count == le_value(data.subrange(at + 20, at + 24)) as u32
        }),
{
    let n = data.len() as int;
    let at = index_start(data) + 24 * i;
    let rest = data.skip(at);
    assert(rest.take(8) =~= data.subrange(at, at + 8));
    assert(rest.subrange(8, 16) =~= data.subrange(at + 8, at + 16));
    assert(rest.subrange(16, 20) =~= data.subrange(at + 16, at + 20));
    assert(rest.subrange(20, 24) =~= data.subrange(at + 20, at + 24));
}

/// Reading a block fails with an error only where one of its two lengths is cut short.
pub proof fn what_keeps_a_block_closed(block: Seq<u8>, count: nat)
    ensures
        parse_block(block, count) matches Some(Err(error)) ==> error == TableError::UnexpectedEof,
        parse_block(block, count) matches Some(Err(_)) <==> block.len() < 4 || {
            let n = le_value(block.take(4));
            4 + n <= block.len() < 8 + n
        },
{
}

/// The index of a table lies inside it if the place and the length that the footer states do.
pub proof fn index_place_is_in_the_footer(data: Seq<u8>)
    requires
        data.len() >= 56,
    ensures
        ({
            let n = data.len() as int;
            let start = (le_value(data.subrange(n - 24, n - 16)) as u64) as usize;
            index_in_bounds(data) <==> start + le_value(data.subrange(n - 16, n - 12)) <= n
        }),
        looks_like_a_table(data) <==> data.take(4) == seq![0x54u8, 0x53, 0x44, 0x42],
{
}

/// A block is read from its two streams, each behind its length, whatever follows them; it cannot
/// be read where one of them does not hold as many timestamps or values.
pub proof fn block_is_read_from_its_streams(
    ts: Seq<u8>,
    values: Seq<u8>,
    rest: Seq<u8>,
    count: nat,
)
    requires
        ts.len() <= u32::MAX,
        values.len() <= u32::MAX,
    ensures
        ({
            let block = le_bytes(ts.len() as int, 4) + ts + le_bytes(values.len() as int, 4)
                + values + rest;
            parse_block(block, count) == match (
                parse_timestamps(unpack(ts), Seq::empty(), count),
                parse_values(unpack(values), Seq::empty(), (0, 0), count),
            ) {
                (Some((times, _)), Some((bits, _, _))) => Some(
                    Ok::<Seq<TimeSeriesPoint>, TableError>(
                        Seq::new(
                            count,
                            |i: int| TimeSeriesPoint { timestamp: times[i], value_bits: bits[i] },
                        ),
                    ),
                ),
                _ => None,
            }
        }),
{
    let block = le_bytes(ts.len() as int, 4) + ts + le_bytes(values.len() as int, 4) + values
        + rest;
    let n = ts.len() as int;
    lemma_u32_round_trip(ts.len() as u32);
    lemma_u32_round_trip(values.len() as u32);
    assert(block.take(4) =~= le_bytes(n, 4));
    assert(block.skip(4).take(n) =~= ts);
    let after = block.skip(4).skip(n);
    assert(after.take(4) =~= le_bytes(values.len() as int, 4));
    assert(after.skip(4).take(values.len() as int) =~= values);
    lemma_parse_timestamps_len(unpack(ts), Seq::empty(), count);
    lemma_parse_values_len(unpack(values), Seq::empty(), (0, 0), count);
    if let Some((times, _)) = parse_timestamps(unpack(ts), Seq::empty(), count) {
        if let Some((bits, _, _)) = parse_values(unpack(values), Seq::empty(), (0, 0), count) {
            assert(paired(times, bits) =~= Seq::new(
                count,
                |i: int| TimeSeriesPoint { timestamp: times[i], value_bits: bits[i] },
            ));
        }
    }
}

/// An index entry leads to the block at its place, with its length and number of points, if that
/// lies inside the file.
pub proof fn entry_leads_to_its_place(data: Seq<u8>, entry: IndexEntry)
    ensures
        ({
            let start = (entry.file_offset as usize) as int;
            let end = start + entry.compressed_size;
            parse_entry_block(data, entry) == if end <= data.len() {
                parse_block(data.subrange(start, end), entry.point_count as nat)
            } else {
                None
            }
        }),
{
}

} // verus!
