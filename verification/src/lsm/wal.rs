//! The write-ahead log: one checksummed record for each point.
use super::bytes::{
    as_signed, checksum, crc32, get_i64, get_u32, get_u64, le_bytes, le_value,
    lemma_bytes_of_le_value, lemma_bytes_of_signed, lemma_i64_round_trip, lemma_le_value_bound,
    lemma_powers_of_256, lemma_u32_round_trip, lemma_u64_round_trip, put_i64, put_u32, put_u64,
};
use crate::types::TimeSeriesPoint;
use vstd::prelude::*;
use vstd::slice::slice_subrange;

verus! {

/// The length that a record states: 4 bytes of checksum, 8 of timestamp, 8 of value.
pub const RECORD_LEN: u32 = 20;

/// The bytes that a record's checksum covers.
pub open spec fn payload_bytes(point: TimeSeriesPoint) -> Seq<u8> {
    le_bytes(point.timestamp as int, 8) + le_bytes(point.value_bits as int, 8)
}

/// The record of `point` with the checksum `crc`.
pub open spec fn record_with_checksum(point: TimeSeriesPoint, crc: u32) -> Seq<u8> {
    le_bytes(RECORD_LEN as int, 4) + le_bytes(crc as int, 4) + payload_bytes(point)
}

/// The record of `point`.
pub open spec fn record_bytes(point: TimeSeriesPoint) -> Seq<u8> {
    record_with_checksum(point, crc32(payload_bytes(point)))
}

/// The records of `points`, one after the other.
pub open spec fn log_bytes(points: Seq<TimeSeriesPoint>) -> Seq<u8>
    decreases points.len(),
{
    if points.len() == 0 {
        Seq::empty()
    } else {
        log_bytes(points.drop_last()) + record_bytes(points.last())
    }
}

/// The point that the record at the start of `data` holds, where `computed` is the checksum of
/// its payload. None where the record is cut short, states another length, or states another
/// checksum.
pub open spec fn checked_record(data: Seq<u8>, computed: u32) -> Option<TimeSeriesPoint> {
    if data.len() < 24 || le_value(data.take(4)) != RECORD_LEN || le_value(data.subrange(4, 8))
        != computed {
        None
    } else {
        Some(
            TimeSeriesPoint {
                timestamp: as_signed(le_value(data.subrange(8, 16))) as i64,
                value_bits: le_value(data.subrange(16, 24)) as u64,
            },
        )
    }
}

/// The points of a log, up to the first record that does not hold one.
pub open spec fn replayed(data: Seq<u8>) -> Seq<TimeSeriesPoint>
    decreases data.len(),
{
    if data.len() < 24 {
        Seq::empty()
    } else {
        match checked_record(data, crc32(data.subrange(8, 24))) {
            None => Seq::empty(),
            Some(point) => seq![point] + replayed(data.skip(24)),
        }
    }
}

/// Lays a point out as the bytes that its record's checksum covers.
pub fn payload(point: TimeSeriesPoint) -> (bytes: Vec<u8>)
    ensures
        bytes@ == payload_bytes(point),
{
    let mut bytes: Vec<u8> = Vec::new();
    put_i64(&mut bytes, point.timestamp);
    put_u64(&mut bytes, point.value_bits);
    assert(bytes@ =~= payload_bytes(point));
    bytes
}

/// Lays a point and the checksum of its payload out as a record.
pub fn frame_record(point: TimeSeriesPoint, crc: u32) -> (record: Vec<u8>)
    ensures
        record@ == record_with_checksum(point, crc),
{
    let mut record: Vec<u8> = Vec::new();
    put_u32(&mut record, RECORD_LEN);
    put_u32(&mut record, crc);
    put_i64(&mut record, point.timestamp);
    put_u64(&mut record, point.value_bits);
    assert(record@ =~= record_with_checksum(point, crc));
    record
}

/// Takes the record at the start of `data` apart, given the checksum of its payload.
pub fn parse_record(data: &[u8], computed: u32) -> (point: Option<TimeSeriesPoint>)
    ensures
        point == checked_record(data@, computed),
{
    if data.len() < 24 {
        return None;
    }
    assert(data@.subrange(4, data@.len() as int).take(4) =~= data@.subrange(4, 8));
    assert(data@.subrange(8, data@.len() as int).take(8) =~= data@.subrange(8, 16));
    assert(data@.subrange(16, data@.len() as int).take(8) =~= data@.subrange(16, 24));
    let record_len = get_u32(data);
    let stored_crc = get_u32(slice_subrange(data, 4, data.len()));
    let timestamp = get_i64(slice_subrange(data, 8, data.len()));
    let value_bits = get_u64(slice_subrange(data, 16, data.len()));
    match (record_len, stored_crc, timestamp, value_bits) {
        (Some(record_len), Some(stored_crc), Some(timestamp), Some(value_bits)) => {
            if record_len != RECORD_LEN || stored_crc != computed {
                None
            } else {
                Some(TimeSeriesPoint { timestamp, value_bits })
            }
        },
        _ => None,
    }
}

/// A log that is being written. The view is the bytes that wait to be appended to the file.
pub struct Wal {
    buffer: Vec<u8>,
}

impl Wal {
    pub closed spec fn view(&self) -> Seq<u8> {
        self.buffer@
    }

    /// Starts with nothing to be appended.
    pub fn open() -> (wal: Self)
        ensures
            wal@ == Seq::<u8>::empty(),
    {
        Self { buffer: Vec::new() }
    }

    /// Adds the record of a point.
    pub fn append(&mut self, point: TimeSeriesPoint)
        ensures
            final(self)@ == old(self)@ + record_bytes(point),
    {
        let crc: u32 = checksum(payload(point).as_slice());
        let record = frame_record(point, crc);
        self.buffer.extend_from_slice(record.as_slice());
        assert(self@ =~= old(self)@ + record_bytes(point));
    }

    /// Hands out the bytes that wait to be appended.
    pub fn take_buffered(&mut self) -> (bytes: Vec<u8>)
        ensures
            bytes@ == old(self)@,
            final(self)@ == Seq::<u8>::empty(),
    {
        let mut bytes: Vec<u8> = Vec::new();
        bytes.append(&mut self.buffer);
        assert(bytes@ =~= old(self)@);
        bytes
    }

    /// The points of a log, up to the first record that is cut short or damaged.
    pub fn replay(data: &[u8]) -> (points: Vec<TimeSeriesPoint>)
        ensures
            points@ == replayed(data@),
    {
        let (points, _) = Self::replay_records(data);
        points
    }

    /// How many bytes of a log hold the points that a replay gives. What follows them is cut
    /// short or damaged.
    pub fn whole_len(data: &[u8]) -> (len: usize)
        ensures
            len == 24 * replayed(data@).len(),
            len <= data@.len(),
    {
        let (_, len) = Self::replay_records(data);
        len
    }

    /// The points of a log, and where the record of the last one ends.
    fn replay_records(data: &[u8]) -> (result: (Vec<TimeSeriesPoint>, usize))
        ensures
            result.0@ == replayed(data@),
            result.1 == 24 * replayed(data@).len(),
            result.1 <= data@.len(),
    {
        let mut points: Vec<TimeSeriesPoint> = Vec::new();
        let mut at: usize = 0;
        assert(data@.skip(0) =~= data@);
        assert(points@ + replayed(data@) =~= replayed(data@));
        while data.len() - at >= 24
            invariant_except_break
                at <= data@.len(),
                at == 24 * points@.len(),
                replayed(data@) == points@ + replayed(data@.skip(at as int)),
            ensures
                points@ == replayed(data@),
                at == 24 * points@.len(),
                at <= data@.len(),
            decreases data@.len() - at,
        {
            let cursor = slice_subrange(data, at, data.len());
            assert(cursor@ =~= data@.skip(at as int));
            let computed_crc: u32 = checksum(slice_subrange(cursor, 8, 24));
            match parse_record(cursor, computed_crc) {
                None => {
                    assert(points@ + replayed(cursor@) =~= points@);
                    break;
                },
                Some(point) => {
                    let ghost before = points@;
                    points.push(point);
                    at = at + 24;
                    assert(cursor@.skip(24) =~= data@.skip(at as int));
                    assert(points@ + replayed(data@.skip(at as int)) =~= before + replayed(cursor@));
                },
            }
        }
        (points, at)
    }
}

/// The record of a point is read back as that point.
proof fn lemma_record_round_trip(point: TimeSeriesPoint, tail: Seq<u8>)
    ensures
        record_bytes(point).len() == 24,
        replayed(record_bytes(point) + tail) == seq![point] + replayed(tail),
{
    let payload = payload_bytes(point);
    let crc = crc32(payload);
    let data = record_bytes(point) + tail;
    lemma_u32_round_trip(RECORD_LEN);
    lemma_u32_round_trip(crc);
    lemma_i64_round_trip(point.timestamp);
    lemma_u64_round_trip(point.value_bits);
    assert(data.take(4) =~= le_bytes(RECORD_LEN as int, 4));
    assert(data.subrange(4, 8) =~= le_bytes(crc as int, 4));
    assert(data.subrange(8, 24) =~= payload);
    assert(data.subrange(8, 16) =~= le_bytes(point.timestamp as int, 8));
    assert(data.subrange(16, 24) =~= le_bytes(point.value_bits as int, 8));
    assert(data.skip(24) =~= tail);
}

/// A record that holds a point is the record of that point.
proof fn lemma_record_of_replayed(data: Seq<u8>, point: TimeSeriesPoint)
    requires
        data.len() >= 24,
        checked_record(data, crc32(data.subrange(8, 24))) == Some(point),
    ensures
        data.take(24) == record_bytes(point),
{
    let (time, value) = (data.subrange(8, 16), data.subrange(16, 24));
    let crc = crc32(data.subrange(8, 24));
    lemma_bytes_of_le_value(data.take(4));
    lemma_bytes_of_le_value(data.subrange(4, 8));
    lemma_bytes_of_le_value(time);
    lemma_bytes_of_le_value(value);
    lemma_powers_of_256();
    lemma_le_value_bound(time);
    lemma_le_value_bound(value);
    lemma_bytes_of_signed(le_value(time));
    assert(le_bytes(point.timestamp as int, 8) == time);
    assert(le_bytes(point.value_bits as int, 8) == value);
    assert(payload_bytes(point) =~= data.subrange(8, 24));
    assert(data.take(24) =~= data.take(4) + data.subrange(4, 8) + data.subrange(8, 24));
    assert(record_bytes(point) =~= data.take(24));
}

proof fn lemma_log_of_more(point: TimeSeriesPoint, points: Seq<TimeSeriesPoint>)
    ensures
        log_bytes(seq![point] + points) == record_bytes(point) + log_bytes(points),
{
    log_of_a_sum(seq![point], points);
    reveal_with_fuel(log_bytes, 2);
    assert(seq![point].drop_last() =~= Seq::empty());
    assert(log_bytes(seq![point]) =~= record_bytes(point));
}

/// The log of points behind others is their log behind that of the others.
pub proof fn log_of_a_sum(a: Seq<TimeSeriesPoint>, b: Seq<TimeSeriesPoint>)
    ensures
        log_bytes(a + b) == log_bytes(a) + log_bytes(b),
    decreases b.len(),
{
    if b.len() == 0 {
        assert(a + b =~= a);
        assert(log_bytes(a) + log_bytes(b) =~= log_bytes(a));
    } else {
        log_of_a_sum(a, b.drop_last());
        assert((a + b).drop_last() =~= a + b.drop_last());
        assert(log_bytes(a + b) =~= log_bytes(a) + log_bytes(b));
    }
}

/// The part of a log that a replay reads is the log of the points that it gives. A log that is cut
/// off behind that part holds the same points, and nothing else.
pub proof fn replay_reads_the_log_of_its_points(data: Seq<u8>)
    ensures
        24 * replayed(data).len() <= data.len(),
        data.take((24 * replayed(data).len()) as int) == log_bytes(replayed(data)),
        replayed(data.take((24 * replayed(data).len()) as int)) == replayed(data),
    decreases data.len(),
{
    let points = replayed(data);
    if data.len() < 24 || points.len() == 0 {
        assert(data.take(0) =~= log_bytes(points));
    } else {
        let rest = data.skip(24);
        let point = points[0];
        replay_reads_the_log_of_its_points(rest);
        lemma_record_of_replayed(data, point);
        assert(points.skip(1) =~= replayed(rest));
        assert(points =~= seq![point] + replayed(rest));
        lemma_log_of_more(point, replayed(rest));
        let n = (24 * points.len()) as int;
        assert(data.take(n) =~= data.take(24) + rest.take(n - 24));
    }
    replay_gives_back_the_log(points, Seq::empty());
    assert(log_bytes(points) + Seq::empty() =~= log_bytes(points));
    assert(replayed(Seq::<u8>::empty()) =~= Seq::empty());
    assert(points + Seq::empty() =~= points);
}

/// Replay gives back every point that was appended, in order, and then goes on with whatever
/// follows the records.
pub proof fn replay_gives_back_the_log(points: Seq<TimeSeriesPoint>, tail: Seq<u8>)
    ensures
        replayed(log_bytes(points) + tail) == points + replayed(tail),
        log_bytes(points).len() == 24 * points.len(),
    decreases points.len(),
{
    if points.len() == 0 {
        assert(log_bytes(points) + tail =~= tail);
        assert(points + replayed(tail) =~= replayed(tail));
    } else {
        let record = record_bytes(points.last());
        lemma_record_round_trip(points.last(), tail);
        replay_gives_back_the_log(points.drop_last(), record + tail);
        assert(log_bytes(points) + tail =~= log_bytes(points.drop_last()) + (record + tail));
        assert(points + replayed(tail) =~= points.drop_last() + (seq![points.last()] + replayed(
            tail,
        )));
    }
}

/// A log that was cut off anywhere gives back the points of the records that are whole.
pub proof fn replay_of_a_cut_log(points: Seq<TimeSeriesPoint>, len: int)
    requires
        0 <= len <= log_bytes(points).len(),
    ensures
        replayed(log_bytes(points).take(len)) == points.take(len / 24),
    decreases points.len(),
{
    replay_gives_back_the_log(points, Seq::empty());
    if len == 24 * points.len() {
        assert(log_bytes(points).take(len) =~= log_bytes(points) + Seq::empty());
        assert(replayed(Seq::<u8>::empty()) =~= Seq::empty());
        assert(points.take(len / 24) =~= points + Seq::empty());
    } else {
        let before = points.drop_last();
        replay_gives_back_the_log(before, Seq::empty());
        let whole = log_bytes(before);
        if len < whole.len() {
            replay_of_a_cut_log(before, len);
            assert(log_bytes(points).take(len) =~= whole.take(len));
            assert(points.take(len / 24) =~= before.take(len / 24));
        } else {
            let tail = record_bytes(points.last()).take(len - whole.len());
            lemma_record_round_trip(points.last(), Seq::empty());
            replay_gives_back_the_log(before, tail);
            assert(log_bytes(points).take(len) =~= whole + tail);
            assert(before + replayed(tail) =~= before);
            assert(points.take(len / 24) =~= before);
        }
    }
}

} // verus!
