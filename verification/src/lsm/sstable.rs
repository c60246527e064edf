//! Sorted tables: writing one as the bytes of a file, and reading it back.
use super::bytes::{
    checksum, get_i64, get_u32, get_u64, le_bytes, lemma_le_bytes_len, lemma_truncated_to_u32,
    put_i64, put_u16, put_u32, put_u64,
};
use super::points::{lemma_within_push, points_within};
use super::table_format::{
    all_points, block_bytes, blocks_of, blocks_up_to, body_bytes, footer_bytes, header_bytes,
    highest, index_bytes, index_in_bounds, index_of, looks_like_a_table, lowest, magic, open_error,
    paired, parse_block, parse_blocks, parse_entry, parse_entry_block, parse_index, sealed_bytes,
    stated_highest, stated_lowest, table_bytes, timestamps_of, unsealed_bytes, values_of,
    zero_bytes, IndexEntry, TableError, FLAG_DELTA_OF_DELTA, FLAG_XOR_FLOAT,
    FOOTER_SIZE, HEADER_SIZE, INDEX_ENTRY_SIZE, VERSION,
};
pub use super::table_format::BLOCK_SIZE;
use crate::compression::bits::{pack, unpack};
use crate::compression::delta::{
    lemma_parse_timestamps_len, lemma_timestamp_stream_len, timestamp_stream, DeltaOfDeltaDecoder,
    DeltaOfDeltaEncoder,
};
use crate::compression::xor_float::{
    lemma_parse_values_len, lemma_value_stream_len, value_stream, XorFloatDecoder, XorFloatEncoder,
};
use crate::types::TimeSeriesPoint;
use vstd::prelude::*;
use vstd::slice::slice_subrange;

verus! {

/// The checksum behind the bytes that it was computed of.
pub fn seal(image: Vec<u8>, crc: u32) -> (sealed: Vec<u8>)
    ensures
        sealed@ == sealed_bytes(image@, crc),
{
    let mut sealed = image;
    put_u32(&mut sealed, crc);
    sealed
}

/// A block is short.
proof fn lemma_block_len(points: Seq<TimeSeriesPoint>)
    requires
        points.len() <= BLOCK_SIZE,
    ensures
        pack(timestamp_stream(timestamps_of(points))).len() <= 8704,
        pack(value_stream(values_of(points))).len() <= 9856,
        block_bytes(points).len() == 8 + pack(timestamp_stream(timestamps_of(points))).len() + pack(
            value_stream(values_of(points)),
        ).len(),
{
    reveal(block_bytes);
    lemma_timestamp_stream_len(timestamps_of(points));
    lemma_value_stream_len(values_of(points));
    let ts = pack(timestamp_stream(timestamps_of(points)));
    let values = pack(value_stream(values_of(points)));
    lemma_le_bytes_len(ts.len() as int, 4);
    lemma_le_bytes_len(values.len() as int, 4);
}

/// A table that is being written. The view is the blocks written so far.
pub struct SSTableWriter {
    image: Vec<u8>,
    index_entries: Vec<IndexEntry>,
    min_timestamp: i64,
    max_timestamp: i64,
    total_points: u64,
    blocks: Ghost<Seq<Seq<TimeSeriesPoint>>>,
}

impl SSTableWriter {
    pub closed spec fn view(&self) -> Seq<Seq<TimeSeriesPoint>> {
        self.blocks@
    }

    /// The image is room for the header and the blocks; the other fields describe the blocks.
    pub closed spec fn wf(&self) -> bool {
        &&& self.image@ == zero_bytes(HEADER_SIZE as nat) + body_bytes(self@)
        &&& self.index_entries@ == index_of(self@)
        &&& self.min_timestamp == lowest(self@)
        &&& self.max_timestamp == highest(self@)
        &&& self.total_points == all_points(self@).len()
    }

    /// Starts a table without points.
    pub fn create() -> (writer: Self)
        ensures
            writer.wf(),
            writer@ == Seq::<Seq<TimeSeriesPoint>>::empty(),
    {
        let mut image: Vec<u8> = Vec::new();
        let mut i: usize = 0;
        while i < HEADER_SIZE
            invariant
                i <= HEADER_SIZE,
                image@ =~= zero_bytes(i as nat),
            decreases HEADER_SIZE - i,
        {
            image.push(0);
            i = i + 1;
        }
        let writer = Self {
            image,
            index_entries: Vec::new(),
            min_timestamp: i64::MAX,
            max_timestamp: i64::MIN,
            total_points: 0,
            blocks: Ghost(Seq::empty()),
        };
        assert(writer.image@ =~= zero_bytes(HEADER_SIZE as nat) + body_bytes(writer@));
        assert(writer.index_entries@ =~= index_of(writer@));
        writer
    }

    /// Appends points, cut into blocks.
    pub fn write_all(&mut self, points: &[TimeSeriesPoint])
        requires
            old(self).wf(),
            all_points(old(self)@).len() + points@.len() <= u64::MAX,
        ensures
            final(self).wf(),
            final(self)@ == old(self)@ + blocks_of(points@),
    {
        let ghost blocks = blocks_of(points@);
        let mut at: usize = 0;
        let ghost mut done: int = 0;
        assert(old(self)@ + blocks.take(0) =~= old(self)@);
        while at < points.len()
            invariant
                self.wf(),
                blocks == blocks_of(points@),
                at <= points@.len(),
                0 <= done <= blocks.len(),
                at == if BLOCK_SIZE * done <= points@.len() {
                    BLOCK_SIZE * done
                } else {
                    points@.len() as int
                },
                at < points@.len() ==> done < blocks.len(),
                at == points@.len() ==> done == blocks.len(),
                self@ == old(self)@ + blocks.take(done),
                all_points(self@).len() + points@.len() - at <= u64::MAX,
            decreases points@.len() - at,
        {
            let end: usize = if points.len() - at < BLOCK_SIZE {
                points.len()
            } else {
                at + BLOCK_SIZE
            };
            let chunk = slice_subrange(points, at, end);
            assert(chunk@ =~= blocks[done]);
            let ghost before = self@;
            self.write_block(chunk);
            proof {
                assert(self@.drop_last() =~= before);
                assert(before.push(chunk@) =~= old(self)@ + blocks.take(done + 1));
                done = done + 1;
            }
            at = end;
        }
        assert(blocks.take(done) =~= blocks);
    }

    /// Appends one block, unless there is nothing to put into it.
    fn write_block(&mut self, points: &[TimeSeriesPoint])
        requires
            old(self).wf(),
            points@.len() <= BLOCK_SIZE,
            all_points(old(self)@).len() + points@.len() <= u64::MAX,
        ensures
            final(self).wf(),
            final(self)@ == if points@.len() == 0 {
                old(self)@
            } else {
                old(self)@.push(points@)
            },
    {
        if points.is_empty() {
            return;
        }
        let ghost after = self@.push(points@);
        proof {
            assert(after.drop_last() =~= self@);
            lemma_block_len(points@);
        }
        let first_ts: i64 = points[0].timestamp;
        let last_ts: i64 = points[points.len() - 1].timestamp;
        if first_ts < self.min_timestamp {
            self.min_timestamp = first_ts;
        }
        if last_ts > self.max_timestamp {
            self.max_timestamp = last_ts;
        }
        self.total_points = self.total_points + points.len() as u64;

        let mut timestamps: Vec<i64> = Vec::new();
        let mut values: Vec<u64> = Vec::new();
        let mut i: usize = 0;
        while i < points.len()
            invariant
                i <= points@.len(),
                timestamps@ =~= timestamps_of(points@).take(i as int),
                values@ =~= values_of(points@).take(i as int),
            decreases points@.len() - i,
        {
            timestamps.push(points[i].timestamp);
            values.push(points[i].value_bits);
            i = i + 1;
        }
        assert(timestamps@ =~= timestamps_of(points@));
        assert(values@ =~= values_of(points@));

        let mut ts_encoder = DeltaOfDeltaEncoder::new();
        ts_encoder.encode_batch(timestamps.as_slice());
        assert(ts_encoder@ =~= timestamps@);
        let ts_compressed = ts_encoder.finish();

        let mut val_encoder = XorFloatEncoder::new();
        val_encoder.encode_batch(values.as_slice());
        assert(val_encoder@ =~= values@);
        let val_compressed = val_encoder.finish();

        let block_start: u64 = self.current_offset();
        put_u32(&mut self.image, ts_compressed.len() as u32);
        self.image.extend_from_slice(ts_compressed.as_slice());
        put_u32(&mut self.image, val_compressed.len() as u32);
        self.image.extend_from_slice(val_compressed.as_slice());
        proof {
            reveal(block_bytes);
        }
        assert(self.image@ =~= zero_bytes(HEADER_SIZE as nat) + body_bytes(after));

        let block_size: usize = 4 + ts_compressed.len() + 4 + val_compressed.len();
        self.index_entries.push(
            IndexEntry {
                first_timestamp: first_ts,
                file_offset: block_start,
                compressed_size: block_size as u32,
                point_count: points.len() as u32,
            },
        );
        proof {
            let i = after.len() - 1;
            assert(after.take(i) =~= old(self)@);
            assert forall|k: int| 0 <= k < i implies #[trigger] index_of(after)[k] == index_of(
                old(self)@,
            )[k] by {
                assert(after.take(k) =~= old(self)@.take(k));
            }
            assert(self.index_entries@ =~= index_of(after));
        }
        self.blocks = Ghost(after);
    }

    /// Where the next block or the index starts.
    fn current_offset(&self) -> (offset: u64)
        requires
            self.image@ == zero_bytes(HEADER_SIZE as nat) + body_bytes(self@),
        ensures
            offset == HEADER_SIZE + body_bytes(self@).len(),
    {
        self.image.len() as u64
    }

    /// The bytes of the finished table.
    pub fn finish(self) -> (file: Vec<u8>)
        requires
            self.wf(),
        ensures
            file@ == table_bytes(self@),
    {
        let ghost blocks = self@;
        let index_offset: u64 = self.current_offset();
        let index_entries = self.index_entries;
        let mut image = self.image;
        let ghost body = image@;

        let mut i: usize = 0;
        assert(index_bytes(index_entries@.take(0)) =~= Seq::<u8>::empty());
        while i < index_entries.len()
            invariant
                i <= index_entries@.len(),
                image@ =~= body + index_bytes(index_entries@.take(i as int)),
                image@.len() == body.len() + INDEX_ENTRY_SIZE * i,
            decreases index_entries@.len() - i,
        {
            let entry: IndexEntry = index_entries[i];
            put_i64(&mut image, entry.first_timestamp);
            put_u64(&mut image, entry.file_offset);
            put_u32(&mut image, entry.compressed_size);
            put_u32(&mut image, entry.point_count);
            proof {
                lemma_le_bytes_len(entry.first_timestamp as int, 8);
                lemma_le_bytes_len(entry.file_offset as int, 8);
                lemma_le_bytes_len(entry.compressed_size as int, 4);
                lemma_le_bytes_len(entry.point_count as int, 4);
                assert(index_entries@.take(i + 1).drop_last() =~= index_entries@.take(i as int));
            }
            i = i + 1;
        }
        assert(index_entries@.take(i as int) =~= index_entries@);
        let index_len: usize = image.len() - index_offset as usize;

        put_u64(&mut image, index_offset);
        put_u32(&mut image, index_len as u32);
        put_u64(&mut image, self.total_points);
        proof {
            lemma_truncated_to_u32(index_len);
        }
        assert(image@ =~= zero_bytes(HEADER_SIZE as nat) + (body_bytes(blocks) + index_bytes(
            index_of(blocks),
        ) + footer_bytes(blocks)));

        let header = Self::header(index_entries.len(), self.min_timestamp, self.max_timestamp);
        assert(header@ == header_bytes(blocks));
        let ghost rest = body_bytes(blocks) + index_bytes(index_of(blocks)) + footer_bytes(blocks);
        proof {
            lemma_header_len(blocks);
        }
        let mut at: usize = 0;
        while at < HEADER_SIZE
            invariant
                at <= HEADER_SIZE,
                header@.len() == HEADER_SIZE,
                image@ =~= header@.take(at as int) + zero_bytes((HEADER_SIZE - at) as nat) + rest,
            decreases HEADER_SIZE - at,
        {
            image.set(at, header[at]);
            at = at + 1;
        }
        assert(image@ =~= unsealed_bytes(blocks));
        let crc: u32 = checksum(image.as_slice());
        proof {
            reveal(table_bytes);
        }
        seal(image, crc)
    }

    /// The header of a table.
    fn header(block_count: usize, min_timestamp: i64, max_timestamp: i64) -> (header: Vec<u8>)
        ensures
            header@ == magic() + le_bytes(VERSION as int, 2) + le_bytes(3, 2) + le_bytes(
                block_count as int,
                4,
            ) + le_bytes(min_timestamp as int, 8) + le_bytes(max_timestamp as int, 8) + zero_bytes(
                4,
            ),
    {
        let mut header: Vec<u8> = Vec::new();
        header.push(0x54);
        header.push(0x53);
        header.push(0x44);
        header.push(0x42);
        assert(header@ =~= magic());
        assert(FLAG_DELTA_OF_DELTA | FLAG_XOR_FLOAT == 3) by (bit_vector);
        put_u16(&mut header, VERSION);
        put_u16(&mut header, FLAG_DELTA_OF_DELTA | FLAG_XOR_FLOAT);
        put_u32(&mut header, block_count as u32);
        put_i64(&mut header, min_timestamp);
        put_i64(&mut header, max_timestamp);
        proof {
            lemma_truncated_to_u32(block_count);
        }
        let ghost before = header@;
        header.push(0);
        header.push(0);
        header.push(0);
        header.push(0);
        assert(header@ =~= before + zero_bytes(4));
        header
    }
}

proof fn lemma_header_len(blocks: Seq<Seq<TimeSeriesPoint>>)
    ensures
        header_bytes(blocks).len() == HEADER_SIZE,
{
    lemma_le_bytes_len(VERSION as int, 2);
    lemma_le_bytes_len(3, 2);
    lemma_le_bytes_len(blocks.len() as int, 4);
    lemma_le_bytes_len(lowest(blocks) as int, 8);
    lemma_le_bytes_len(highest(blocks) as int, 8);
}

/// A table that was read into memory.
pub struct SSTableReader {
    data: Vec<u8>,
    index_entries: Vec<IndexEntry>,
    min_timestamp: i64,
    max_timestamp: i64,
}

impl SSTableReader {
    /// The bytes of the file.
    pub closed spec fn data(&self) -> Seq<u8> {
        self.data@
    }

    /// The index.
    pub closed spec fn entries(&self) -> Seq<IndexEntry> {
        self.index_entries@
    }

    /// The lowest and the highest timestamp that the header states.
    pub closed spec fn stated_range(&self) -> (i64, i64) {
        (self.min_timestamp, self.max_timestamp)
    }

    /// What reading all blocks gives.
    pub open spec fn points(&self) -> Option<Result<Seq<TimeSeriesPoint>, TableError>> {
        parse_blocks(self.data(), self.entries())
    }

    /// What reading the blocks before the first that starts after `end` gives.
    pub open spec fn points_up_to(&self, end: i64) -> Option<
        Result<Seq<TimeSeriesPoint>, TableError>,
    > {
        parse_blocks(
            self.data(),
            self.entries().take(blocks_up_to(self.entries(), end) as int),
        )
    }

    /// What a scan from `start` to `end` gives.
    pub open spec fn range(&self, start: i64, end: i64) -> Option<
        Result<Seq<TimeSeriesPoint>, TableError>,
    > {
        match self.points_up_to(end) {
            Some(Ok(points)) => Some(Ok(points_within(points, start, end))),
            other => other,
        }
    }

    /// Whether `data` can be opened, or be told not to be a table: if it looks like one, its
    /// index must lie inside it.
    pub fn can_open(data: &[u8]) -> (b: bool)
        ensures
            b == (looks_like_a_table(data@) ==> index_in_bounds(data@)),
    {
        if data.len() < HEADER_SIZE + FOOTER_SIZE || !Self::starts_with_magic(data) {
            return true;
        }
        let footer_start: usize = data.len() - FOOTER_SIZE;
        let index_offset = get_u64(slice_subrange(data, footer_start, data.len()));
        let index_length = get_u32(slice_subrange(data, footer_start + 8, data.len()));
        proof {
            let n = data@.len() as int;
            assert(data@.subrange(n - 24, n).take(8) =~= data@.subrange(n - 24, n - 16));
            assert(data@.subrange(n - 16, n).take(4) =~= data@.subrange(n - 16, n - 12));
        }
        match (index_offset, index_length) {
            (Some(offset), Some(length)) => {
                let start: usize = offset as usize;
                start <= data.len() && length as usize <= data.len() - start
            },
            _ => false,
        }
    }

    fn starts_with_magic(data: &[u8]) -> (b: bool)
        requires
            data@.len() >= 4,
        ensures
            b == (data@.take(4) == magic()),
    {
        let b = data[0] == 0x54 && data[1] == 0x53 && data[2] == 0x44 && data[3] == 0x42;
        proof {
            let first = data@.take(4);
            assert(first[0] == data@[0] && first[1] == data@[1] && first[2] == data@[2] && first[3]
                == data@[3]);
            if b {
                assert(first =~= magic());
            }
        }
        b
    }

    /// Opens a table: checks its length and its magic, and reads its index.
    pub fn open(data: Vec<u8>) -> (result: Result<Self, TableError>)
        requires
            looks_like_a_table(data@) ==> index_in_bounds(data@),
        ensures
            match result {
                Ok(reader) => {
                    &&& open_error(data@) is None
                    &&& reader.data() == data@
                    &&& reader.entries() == parse_index(data@)
                    &&& reader.stated_range() == (stated_lowest(data@), stated_highest(data@))
                },
                Err(error) => open_error(data@) == Some(error),
            },
    {
        let n: usize = data.len();
        if n < HEADER_SIZE + FOOTER_SIZE {
            return Err(TableError::FileTooSmall);
        }
        let bytes = data.as_slice();
        if !Self::starts_with_magic(bytes) {
            return Err(TableError::InvalidMagic);
        }
        proof {
            let k = n as int;
            assert(data@.subrange(8, k).take(4) =~= data@.subrange(8, 12));
            assert(data@.subrange(12, k).take(8) =~= data@.subrange(12, 20));
            assert(data@.subrange(20, k).take(8) =~= data@.subrange(20, 28));
            assert(data@.subrange(k - 24, k).take(8) =~= data@.subrange(k - 24, k - 16));
            assert(data@.subrange(k - 16, k).take(4) =~= data@.subrange(k - 16, k - 12));
        }
        let footer_start: usize = n - FOOTER_SIZE;
        let block_count = get_u32(slice_subrange(bytes, 8, n));
        let min_timestamp = get_i64(slice_subrange(bytes, 12, n));
        let max_timestamp = get_i64(slice_subrange(bytes, 20, n));
        let index_offset = get_u64(slice_subrange(bytes, footer_start, n));
        let index_length = get_u32(slice_subrange(bytes, footer_start + 8, n));
        match (block_count, min_timestamp, max_timestamp, index_offset, index_length) {
            (
                Some(block_count),
                Some(min_timestamp),
                Some(max_timestamp),
                Some(index_offset),
                Some(index_length),
            ) => {
                let start: usize = index_offset as usize;
                let index = slice_subrange(bytes, start, start + index_length as usize);
                match Self::read_index(index, block_count) {
                    None => Err(TableError::UnexpectedEof),
                    Some(index_entries) => {
                        proof {
                            assert forall|i: int| 0 <= i < block_count implies
                                #[trigger] index_entries@[i] == parse_index(data@)[i] by {
                                let a = data@.skip(start + INDEX_ENTRY_SIZE * i);
                                let b = index@.skip(INDEX_ENTRY_SIZE * i);
                                assert(a.take(24) =~= b.take(24));
                                lemma_parse_entry_of_prefix(a, b);
                            }
                            assert(index_entries@ =~= parse_index(data@));
                        }
                        Ok(Self { data, index_entries, min_timestamp, max_timestamp })
                    },
                }
            },
            _ => Err(TableError::UnexpectedEof),
        }
    }

    /// Reads the entries of an index; none where it is too short for them.
    fn read_index(index: &[u8], block_count: u32) -> (entries: Option<Vec<IndexEntry>>)
        ensures
            entries is Some <==> INDEX_ENTRY_SIZE * block_count <= index@.len(),
            entries matches Some(v) ==> v@ == Seq::new(
                block_count as nat,
                |i: int| parse_entry(index@.skip(INDEX_ENTRY_SIZE * i)),
            ),
    {
        let mut entries: Vec<IndexEntry> = Vec::new();
        let mut i: u32 = 0;
        let mut at: usize = 0;
        while i < block_count
            invariant
                i <= block_count,
                at == INDEX_ENTRY_SIZE * i,
                at <= index@.len(),
                entries@ == Seq::new(
                    i as nat,
                    |k: int| parse_entry(index@.skip(INDEX_ENTRY_SIZE * k)),
                ),
            decreases block_count - i,
        {
            if index.len() - at < INDEX_ENTRY_SIZE {
                return None;
            }
            let n: usize = index.len();
            let ghost rest = index@.skip(at as int);
            proof {
                let k = n as int;
                assert(index@.subrange(at as int, k).take(8) =~= rest.take(8));
                assert(index@.subrange(at + 8, k).take(8) =~= rest.subrange(8, 16));
                assert(index@.subrange(at + 16, k).take(4) =~= rest.subrange(16, 20));
                assert(index@.subrange(at + 20, k).take(4) =~= rest.subrange(20, 24));
            }
            let first_timestamp = get_i64(slice_subrange(index, at, n));
            let file_offset = get_u64(slice_subrange(index, at + 8, n));
            let compressed_size = get_u32(slice_subrange(index, at + 16, n));
            let point_count = get_u32(slice_subrange(index, at + 20, n));
            match (first_timestamp, file_offset, compressed_size, point_count) {
                (
                    Some(first_timestamp),
                    Some(file_offset),
                    Some(compressed_size),
                    Some(point_count),
                ) => {
                    entries.push(
                        IndexEntry { first_timestamp, file_offset, compressed_size, point_count },
                    );
                },
                _ => {
                    return None;
                },
            }
            i = i + 1;
            at = at + INDEX_ENTRY_SIZE;
            assert(entries@ =~= Seq::new(
                i as nat,
                |k: int| parse_entry(index@.skip(INDEX_ENTRY_SIZE * k)),
            ));
        }
        Some(entries)
    }

    /// The points from `start` to `end`, both inclusive, of the blocks before the first that
    /// starts after `end`.
    pub fn scan_range(&self, start: i64, end: i64) -> (result: Result<
        Vec<TimeSeriesPoint>,
        TableError,
    >)
        requires
            self.points_up_to(end) is Some,
        ensures
            match (self.range(start, end), result) {
                (Some(Ok(points)), Ok(found)) => found@ == points,
                (Some(Err(expected)), Err(error)) => error == expected,
                _ => false,
            },
    {
        let ghost visited = self.entries().take(blocks_up_to(self.entries(), end) as int);
        let mut result: Vec<TimeSeriesPoint> = Vec::new();
        let mut i: usize = 0;
        proof {
            lemma_blocks_up_to(self.entries(), end);
            assert(visited.take(0) =~= Seq::<IndexEntry>::empty());
        }
        while i < self.index_entries.len() && self.index_entries[i].first_timestamp <= end
            invariant
                visited == self.entries().take(blocks_up_to(self.entries(), end) as int),
                blocks_up_to(self.entries(), end) <= self.entries().len(),
                i <= visited.len(),
                forall|k: int| 0 <= k < visited.len() ==> (#[trigger] visited[k]).first_timestamp
                    <= end,
                visited.len() < self.entries().len() ==> self.entries()[visited.len() as int].first_timestamp
                    > end,
                parse_blocks(self.data(), visited) is Some,
                parse_blocks(self.data(), visited.take(i as int)) matches Some(Ok(points))
                    && result@ == points_within(points, start, end),
            decreases self.entries().len() - i,
        {
            let ghost seen = parse_blocks(self.data(), visited.take(i as int))->0->Ok_0;
            proof {
                assert(self.entries()[i as int] == self.index_entries@[i as int]);
                assert(visited.take(i + 1).drop_last() =~= visited.take(i as int));
                lemma_parse_blocks_prefix(self.data(), visited, i + 1);
            }
            match self.read_entry(i) {
                Err(error) => {
                    return Err(error);
                },
                Ok(points) => {
                    let mut k: usize = 0;
                    assert(seen + points@.take(0) =~= seen);
                    while k < points.len()
                        invariant
                            k <= points@.len(),
                            result@ == points_within(seen + points@.take(k as int), start, end),
                        decreases points@.len() - k,
                    {
                        let p: TimeSeriesPoint = points[k];
                        proof {
                            lemma_within_push(seen + points@.take(k as int), p, start, end);
                            assert(seen + points@.take(k + 1) =~= (seen + points@.take(
                                k as int,
                            )).push(p));
                        }
                        if p.timestamp >= start && p.timestamp <= end {
                            result.push(p);
                        }
                        k = k + 1;
                    }
                    assert(points@.take(k as int) =~= points@);
                },
            }
            i = i + 1;
        }
        assert(visited.take(i as int) =~= visited);
        Ok(result)
    }

    /// The points of all blocks.
    pub fn read_all(&self) -> (result: Result<Vec<TimeSeriesPoint>, TableError>)
        requires
            self.points() is Some,
        ensures
            match (self.points(), result) {
                (Some(Ok(points)), Ok(found)) => found@ == points,
                (Some(Err(expected)), Err(error)) => error == expected,
                _ => false,
            },
    {
        let mut result: Vec<TimeSeriesPoint> = Vec::new();
        let mut i: usize = 0;
        assert(self.entries().take(0) =~= Seq::<IndexEntry>::empty());
        while i < self.index_entries.len()
            invariant
                i <= self.entries().len(),
                parse_blocks(self.data(), self.entries()) is Some,
                parse_blocks(self.data(), self.entries().take(i as int)) matches Some(Ok(points))
                    && result@ == points,
            decreases self.entries().len() - i,
        {
            let ghost seen = result@;
            proof {
                assert(self.entries().take(i + 1).drop_last() =~= self.entries().take(i as int));
                lemma_parse_blocks_prefix(self.data(), self.entries(), i + 1);
            }
            match self.read_entry(i) {
                Err(error) => {
                    return Err(error);
                },
                Ok(points) => {
                    result.extend_from_slice(points.as_slice());
                    assert(result@ =~= seen + points@);
                },
            }
            i = i + 1;
        }
        assert(self.entries().take(i as int) =~= self.entries());
        Ok(result)
    }

    /// The points of one block.
    fn read_entry(&self, i: usize) -> (result: Result<Vec<TimeSeriesPoint>, TableError>)
        requires
            i < self.entries().len(),
            parse_entry_block(self.data(), self.entries()[i as int]) is Some,
        ensures
            match (parse_entry_block(self.data(), self.entries()[i as int]), result) {
                (Some(Ok(points)), Ok(found)) => found@ == points,
                (Some(Err(expected)), Err(error)) => error == expected,
                _ => false,
            },
    {
        let entry: IndexEntry = self.index_entries[i];
        let start: usize = entry.file_offset as usize;
        assert(start + entry.compressed_size <= self.data.len());
        let block = slice_subrange(
            self.data.as_slice(),
            start,
            start + entry.compressed_size as usize,
        );
        Self::decode_block(block, entry.point_count as usize)
    }

    /// The points that a block holds.
    fn decode_block(block: &[u8], count: usize) -> (result: Result<Vec<TimeSeriesPoint>, TableError>)
        requires
            parse_block(block@, count as nat) is Some,
        ensures
            match (parse_block(block@, count as nat), result) {
                (Some(Ok(points)), Ok(found)) => found@ == points,
                (Some(Err(expected)), Err(error)) => error == expected,
                _ => false,
            },
    {
        let ts_len: usize = match get_u32(block) {
            None => {
                return Err(TableError::UnexpectedEof);
            },
            Some(len) => len as usize,
        };
        let after_ts_len = slice_subrange(block, 4, block.len());
        assert(after_ts_len@ =~= block@.skip(4));
        let ts_data = slice_subrange(after_ts_len, 0, ts_len);
        assert(ts_data@ =~= after_ts_len@.take(ts_len as int));
        let after_ts = slice_subrange(after_ts_len, ts_len, after_ts_len.len());
        assert(after_ts@ =~= after_ts_len@.skip(ts_len as int));
        let val_len: usize = match get_u32(after_ts) {
            None => {
                return Err(TableError::UnexpectedEof);
            },
            Some(len) => len as usize,
        };
        let after_val_len = slice_subrange(after_ts, 4, after_ts.len());
        assert(after_val_len@ =~= after_ts@.skip(4));
        let val_data = slice_subrange(after_val_len, 0, val_len);
        assert(val_data@ =~= after_val_len@.take(val_len as int));

        let mut ts_decoder = DeltaOfDeltaDecoder::new(ts_data);
        let timestamps = ts_decoder.decode_all(count);
        assert(ts_decoder@ =~= timestamps@);
        let mut val_decoder = XorFloatDecoder::new(val_data);
        let values = val_decoder.decode_all(count);
        assert(val_decoder@ =~= values@);
        proof {
            lemma_parse_timestamps_len(unpack(ts_data@), Seq::empty(), count as nat);
            lemma_parse_values_len(unpack(val_data@), Seq::empty(), (0, 0), count as nat);
        }

        let mut points: Vec<TimeSeriesPoint> = Vec::new();
        let mut i: usize = 0;
        while i < count
            invariant
                i <= count,
                timestamps@.len() == count,
                values@.len() == count,
                points@ =~= paired(timestamps@, values@).take(i as int),
            decreases count - i,
        {
            points.push(TimeSeriesPoint { timestamp: timestamps[i], value_bits: values[i] });
            i = i + 1;
        }
        assert(points@ =~= paired(timestamps@, values@));
        Ok(points)
    }

    /// Whether all blocks can be read, or the first that cannot ends inside a number.
    pub fn can_read_all(&self) -> (b: bool)
        ensures
            b == (self.points() is Some),
    {
        let b = self.can_read_first(self.index_entries.len());
        assert(self.entries().take(self.entries().len() as int) =~= self.entries());
        b
    }

    /// The same for the blocks before the first that starts after `end`.
    pub fn can_scan_up_to(&self, end: i64) -> (b: bool)
        ensures
            b == (self.points_up_to(end) is Some),
    {
        let mut n: usize = 0;
        proof {
            lemma_blocks_up_to(self.entries(), end);
        }
        while n < self.index_entries.len() && self.index_entries[n].first_timestamp <= end
            invariant
                n <= blocks_up_to(self.entries(), end) <= self.entries().len(),
                forall|k: int|
                    0 <= k < blocks_up_to(self.entries(), end) ==> (
                    #[trigger] self.entries()[k]).first_timestamp <= end,
                blocks_up_to(self.entries(), end) < self.entries().len()
                    ==> self.entries()[blocks_up_to(self.entries(), end) as int].first_timestamp > end,
            decreases self.entries().len() - n,
        {
            n = n + 1;
        }
        self.can_read_first(n)
    }

    /// The same for the first `n` blocks.
    fn can_read_first(&self, n: usize) -> (b: bool)
        requires
            n <= self.entries().len(),
        ensures
            b == (parse_blocks(self.data(), self.entries().take(n as int)) is Some),
    {
        let ghost entries = self.entries().take(n as int);
        let mut i: usize = 0;
        assert(entries.take(0) =~= Seq::<IndexEntry>::empty());
        while i < n
            invariant
                n <= self.entries().len(),
                entries == self.entries().take(n as int),
                i <= n,
                parse_blocks(self.data(), entries.take(i as int)) matches Some(Ok(_)),
            decreases n - i,
        {
            proof {
                assert(entries.take(i + 1).drop_last() =~= entries.take(i as int));
                lemma_parse_blocks_prefix(self.data(), entries, i + 1);
            }
            if !self.can_read_entry(i) {
                return false;
            }
            if self.read_entry(i).is_err() {
                return true;
            }
            i = i + 1;
        }
        assert(entries.take(i as int) =~= entries);
        true
    }

    /// Whether one block can be read, or ends inside a number.
    fn can_read_entry(&self, i: usize) -> (b: bool)
        requires
            i < self.entries().len(),
        ensures
            b == (parse_entry_block(self.data(), self.entries()[i as int]) is Some),
    {
        let entry: IndexEntry = self.index_entries[i];
        let start: usize = entry.file_offset as usize;
        let size: usize = entry.compressed_size as usize;
        if start > self.data.len() || size > self.data.len() - start {
            return false;
        }
        let block = slice_subrange(self.data.as_slice(), start, start + size);
        Self::can_decode_block(block, entry.point_count as usize)
    }

    /// Whether a block can be decoded, or ends inside a number.
    fn can_decode_block(block: &[u8], count: usize) -> (b: bool)
        ensures
            b == (parse_block(block@, count as nat) is Some),
    {
        let ts_len: usize = match get_u32(block) {
            None => {
                return true;
            },
            Some(len) => len as usize,
        };
        let after_ts_len = slice_subrange(block, 4, block.len());
        assert(after_ts_len@ =~= block@.skip(4));
        if ts_len > after_ts_len.len() {
            return false;
        }
        let ts_data = slice_subrange(after_ts_len, 0, ts_len);
        assert(ts_data@ =~= after_ts_len@.take(ts_len as int));
        let after_ts = slice_subrange(after_ts_len, ts_len, after_ts_len.len());
        assert(after_ts@ =~= after_ts_len@.skip(ts_len as int));
        let val_len: usize = match get_u32(after_ts) {
            None => {
                return true;
            },
            Some(len) => len as usize,
        };
        let after_val_len = slice_subrange(after_ts, 4, after_ts.len());
        assert(after_val_len@ =~= after_ts@.skip(4));
        if val_len > after_val_len.len() {
            return false;
        }
        let val_data = slice_subrange(after_val_len, 0, val_len);
        assert(val_data@ =~= after_val_len@.take(val_len as int));
        DeltaOfDeltaDecoder::new(ts_data).can_decode(count) && XorFloatDecoder::new(
            val_data,
        ).can_decode(count)
    }
}

/// An entry depends on its own bytes alone.
pub proof fn lemma_parse_entry_of_prefix(a: Seq<u8>, b: Seq<u8>)
    requires
        a.len() >= INDEX_ENTRY_SIZE,
        b.len() >= INDEX_ENTRY_SIZE,
        a.take(INDEX_ENTRY_SIZE as int) == b.take(INDEX_ENTRY_SIZE as int),
    ensures
        parse_entry(a) == parse_entry(b),
{
    let (x, y) = (a.take(24), b.take(24));
    assert(a.take(8) =~= x.take(8) && b.take(8) =~= y.take(8));
    assert(a.subrange(8, 16) =~= x.subrange(8, 16) && b.subrange(8, 16) =~= y.subrange(8, 16));
    assert(a.subrange(16, 20) =~= x.subrange(16, 20) && b.subrange(16, 20) =~= y.subrange(16, 20));
    assert(a.subrange(20, 24) =~= x.subrange(20, 24) && b.subrange(20, 24) =~= y.subrange(20, 24));
}

pub proof fn lemma_blocks_up_to(entries: Seq<IndexEntry>, end: i64)
    ensures
        blocks_up_to(entries, end) <= entries.len(),
        forall|k: int|
            0 <= k < blocks_up_to(entries, end) ==> (#[trigger] entries[k]).first_timestamp <= end,
        blocks_up_to(entries, end) < entries.len() ==> entries[blocks_up_to(
            entries,
            end,
        ) as int].first_timestamp > end,
    decreases entries.len(),
{
    if entries.len() > 0 && entries[0].first_timestamp <= end {
        let rest = entries.skip(1);
        lemma_blocks_up_to(rest, end);
        assert forall|k: int| 0 <= k < blocks_up_to(entries, end) implies (
        #[trigger] entries[k]).first_timestamp <= end by {
            if k > 0 {
                assert(rest[k - 1] == entries[k]);
            }
        }
    }
}

/// Where all blocks can be read, so can the first ones.
pub proof fn lemma_parse_blocks_prefix(data: Seq<u8>, entries: Seq<IndexEntry>, n: int)
    requires
        0 <= n <= entries.len(),
    ensures
        parse_blocks(data, entries) matches Some(Ok(_)) ==> parse_blocks(
            data,
            entries.take(n),
        ) matches Some(Ok(_)),
        parse_blocks(data, entries.take(n)) is None ==> parse_blocks(data, entries) is None,
        parse_blocks(data, entries.take(n)) matches Some(Err(e)) ==> parse_blocks(data, entries)
            == Some(Err::<Seq<TimeSeriesPoint>, TableError>(e)),
    decreases entries.len(),
{
    if n == entries.len() {
        assert(entries.take(n) =~= entries);
    } else {
        lemma_parse_blocks_prefix(data, entries.drop_last(), n);
        assert(entries.drop_last().take(n) =~= entries.take(n));
    }
}

} // verus!
