//! Compression of timestamps by the differences between their differences.
use super::bits::{
    bits_value, int_bits, lemma_bits_value_bound, lemma_cast_is_signed_value, lemma_int_bits_len,
    lemma_int_bits_of_cast, lemma_int_bits_of_masked, lemma_signed_value_of_int_bits,
    lemma_unpack_of_packed, lemma_value_of_int_bits, pack, padding, signed_value, unpack,
    unset_bits, BitBuffer, BitReader,
};
use super::simd::{batch_delta_of_delta, deltas};
use vstd::arithmetic::div_mod::*;
use vstd::arithmetic::power2::*;
use vstd::bits::*;
use vstd::prelude::*;

verus! {

/// The difference, modulo 2^64, between timestamp `i` and the one before it.
pub open spec fn delta_at(ts: Seq<i64>, i: int) -> i64 {
    ts[i].wrapping_sub(ts[i - 1])
}

/// The difference, modulo 2^64, between the difference at `i` and the one before it.
pub open spec fn dod_at(ts: Seq<i64>, i: int) -> i64 {
    delta_at(ts, i).wrapping_sub(delta_at(ts, i - 1))
}

/// The code of a difference between differences: a prefix tells how many bits follow.
pub open spec fn dod_code(dod: i64) -> Seq<bool> {
    if dod == 0 {
        seq![false]
    } else if -63 <= dod <= 64 {
        int_bits(0b10, 2) + int_bits(dod as int, 7)
    } else if -255 <= dod <= 256 {
        int_bits(0b110, 3) + int_bits(dod as int, 9)
    } else if -2047 <= dod <= 2048 {
        int_bits(0b1110, 4) + int_bits(dod as int, 12)
    } else {
        int_bits(0b1111, 4) + int_bits(dod as int, 64)
    }
}

/// The code of timestamp `i`: the first is stored whole, the second as a difference.
pub open spec fn timestamp_code(ts: Seq<i64>, i: int) -> Seq<bool> {
    if i == 0 {
        int_bits(ts[0] as int, 64)
    } else if i == 1 {
        int_bits(delta_at(ts, 1) as int, 64)
    } else {
        dod_code(dod_at(ts, i))
    }
}

/// The codes of all timestamps, one after the other.
pub open spec fn timestamp_stream(ts: Seq<i64>) -> Seq<bool>
    decreases ts.len(),
{
    if ts.len() == 0 {
        Seq::empty()
    } else {
        timestamp_stream(ts.drop_last()) + timestamp_code(ts, ts.len() - 1)
    }
}

/// The number of `n` bits from position `at` on, and the bits after it.
pub open spec fn parse_signed(bits: Seq<bool>, at: int, n: int) -> Option<(i64, Seq<bool>)> {
    if bits.len() < at + n {
        None
    } else {
        Some((signed_value(bits.subrange(at, at + n)) as i64, bits.skip(at + n)))
    }
}

/// The number that the bits of a short code write. Of `n` bits the codes hold the numbers above
/// `-2^(n-1)` up to and with `2^(n-1)`, modulo `2^n`.
pub open spec fn short_value(s: Seq<bool>) -> int {
    if bits_value(s) > pow2((s.len() - 1) as nat) {
        bits_value(s) - pow2(s.len())
    } else {
        bits_value(s) as int
    }
}

/// The number of a short code of `n` bits from position `at` on, and the bits after it.
pub open spec fn parse_short(bits: Seq<bool>, at: int, n: int) -> Option<(i64, Seq<bool>)> {
    if bits.len() < at + n {
        None
    } else {
        Some((short_value(bits.subrange(at, at + n)) as i64, bits.skip(at + n)))
    }
}

/// The difference between differences that `bits` starts with, and the bits after it.
pub open spec fn parse_dod(bits: Seq<bool>) -> Option<(i64, Seq<bool>)> {
    if bits.len() < 1 {
        None
    } else if !bits[0] {
        Some((0i64, bits.skip(1)))
    } else if bits.len() < 2 {
        None
    } else if !bits[1] {
        parse_short(bits, 2, 7)
    } else if bits.len() < 3 {
        None
    } else if !bits[2] {
        parse_short(bits, 3, 9)
    } else if bits.len() < 4 {
        None
    } else if !bits[3] {
        parse_short(bits, 4, 12)
    } else {
        parse_signed(bits, 4, 64)
    }
}

/// The timestamp that follows `done` in `bits`, and the bits after it.
pub open spec fn parse_timestamp(bits: Seq<bool>, done: Seq<i64>) -> Option<(i64, Seq<bool>)> {
    if done.len() == 0 {
        parse_signed(bits, 0, 64)
    } else if done.len() == 1 {
        match parse_signed(bits, 0, 64) {
            None => None,
            Some((delta, rest)) => Some((done[0].wrapping_add(delta), rest)),
        }
    } else {
        match parse_dod(bits) {
            None => None,
            Some((dod, rest)) => {
                let delta = delta_at(done, done.len() - 1).wrapping_add(dod);
                Some((done.last().wrapping_add(delta), rest))
            },
        }
    }
}

/// `done` followed by the next `n` timestamps in `bits`, and the bits after them; none where
/// the bits run out.
pub open spec fn parse_timestamps(bits: Seq<bool>, done: Seq<i64>, n: nat) -> Option<
    (Seq<i64>, Seq<bool>),
>
    decreases n,
{
    if n == 0 {
        Some((done, bits))
    } else {
        match parse_timestamp(bits, done) {
            None => None,
            Some((t, rest)) => parse_timestamps(rest, done.push(t), (n - 1) as nat),
        }
    }
}

pub proof fn lemma_parse_timestamps_len(bits: Seq<bool>, done: Seq<i64>, n: nat)
    ensures
        parse_timestamps(bits, done, n) matches Some((all, _)) ==> all.len() == done.len() + n,
    decreases n,
{
    if n > 0 {
        if let Some((t, rest)) = parse_timestamp(bits, done) {
            lemma_parse_timestamps_len(rest, done.push(t), (n - 1) as nat);
        }
    }
}

/// Compresses timestamps. The view is the sequence of timestamps encoded so far.
pub struct DeltaOfDeltaEncoder {
    prev_timestamp: i64,
    prev_delta: i64,
    buf: BitBuffer,
    /// How many timestamps there were, up to two.
    count: usize,
    encoded: Ghost<Seq<i64>>,
}

impl DeltaOfDeltaEncoder {
    pub closed spec fn view(&self) -> Seq<i64> {
        self.encoded@
    }

    /// The buffer holds the stream of the encoded timestamps, and the other fields their end.
    pub closed spec fn wf(&self) -> bool {
        &&& self.buf.wf()
        &&& self.buf@ == timestamp_stream(self@)
        &&& self.count == if self@.len() < 2 {
            self@.len()
        } else {
            2
        }
        &&& self@.len() >= 1 ==> self.prev_timestamp == self@.last()
        &&& self@.len() >= 2 ==> self.prev_delta == delta_at(self@, self@.len() - 1)
    }

    pub fn new() -> (encoder: Self)
        ensures
            encoder.wf(),
            encoder@ == Seq::<i64>::empty(),
    {
        Self {
            prev_timestamp: 0,
            prev_delta: 0,
            buf: BitBuffer::new(),
            count: 0,
            encoded: Ghost(Seq::empty()),
        }
    }

    /// Appends a timestamp.
    pub fn encode(&mut self, timestamp: i64)
        requires
            old(self).wf(),
        ensures
            final(self).wf(),
            final(self)@ == old(self)@.push(timestamp),
    {
        let ghost after = self@.push(timestamp);
        assert(after.drop_last() =~= self@);
        if self.count == 0 {
            self.buf.write_bits(timestamp as u64, 64);
            proof {
                lemma_int_bits_of_cast(timestamp, 64);
            }
            self.prev_timestamp = timestamp;
        } else if self.count == 1 {
            let delta: i64 = timestamp.wrapping_sub(self.prev_timestamp);
            self.buf.write_bits(delta as u64, 64);
            proof {
                lemma_int_bits_of_cast(delta, 64);
            }
            self.prev_delta = delta;
            self.prev_timestamp = timestamp;
        } else {
            let delta: i64 = timestamp.wrapping_sub(self.prev_timestamp);
            let dod: i64 = delta.wrapping_sub(self.prev_delta);
            assert(dod == dod_at(after, after.len() - 1));
            self.encode_dod(dod);
            self.prev_delta = delta;
            self.prev_timestamp = timestamp;
        }
        if self.count < 2 {
            self.count = self.count + 1;
        }
        self.encoded = Ghost(after);
    }

    /// Writes the code of a difference between differences.
    fn encode_dod(&mut self, dod: i64)
        requires
            old(self).buf.wf(),
        ensures
            final(self).buf.wf(),
            final(self).buf@ == old(self).buf@ + dod_code(dod),
            final(self).prev_timestamp == old(self).prev_timestamp,
            final(self).prev_delta == old(self).prev_delta,
            final(self).count == old(self).count,
            final(self).encoded == old(self).encoded,
    {
        proof {
            lemma2_to64();
        }
        if dod == 0 {
            self.buf.write_bit(false);
        } else if dod >= -63 && dod <= 64 {
            self.buf.write_bits(0b10, 2);
            self.buf.write_bits((dod as u64) & 0x7F, 7);
            proof {
                lemma_int_bits_of_masked(dod, 0x7F, 7);
            }
        } else if dod >= -255 && dod <= 256 {
            self.buf.write_bits(0b110, 3);
            self.buf.write_bits((dod as u64) & 0x1FF, 9);
            proof {
                lemma_int_bits_of_masked(dod, 0x1FF, 9);
            }
        } else if dod >= -2047 && dod <= 2048 {
            self.buf.write_bits(0b1110, 4);
            self.buf.write_bits((dod as u64) & 0xFFF, 12);
            proof {
                lemma_int_bits_of_masked(dod, 0xFFF, 12);
            }
        } else {
            self.buf.write_bits(0b1111, 4);
            self.buf.write_bits(dod as u64, 64);
            proof {
                lemma_int_bits_of_cast(dod, 64);
            }
        }
        assert(self.buf@ =~= old(self).buf@ + dod_code(dod));
    }

    /// Appends timestamps. A fresh encoder takes their differences in one go.
    pub fn encode_batch(&mut self, timestamps: &[i64])
        requires
            old(self).wf(),
        ensures
            final(self).wf(),
            final(self)@ == old(self)@ + timestamps@,
    {
        if timestamps.is_empty() {
            assert(self@ =~= old(self)@ + timestamps@);
            return;
        }
        if self.count == 0 && timestamps.len() >= 3 {
            let ghost ts = timestamps@;
            assert(self.buf@ =~= Seq::<bool>::empty());
            self.buf.write_bits(timestamps[0] as u64, 64);
            let delta0: i64 = timestamps[1].wrapping_sub(timestamps[0]);
            self.buf.write_bits(delta0 as u64, 64);
            self.prev_timestamp = timestamps[1];
            self.prev_delta = delta0;
            self.count = 2;
            proof {
                lemma_int_bits_of_cast(ts[0], 64);
                lemma_int_bits_of_cast(delta0, 64);
                reveal_with_fuel(timestamp_stream, 3);
                assert(ts.take(2).drop_last().drop_last() =~= Seq::<i64>::empty());
                assert(self.buf@ =~= timestamp_stream(ts.take(2)));
            }
            let dods = batch_delta_of_delta(timestamps);
            let mut i: usize = 0;
            while i < dods.len()
                invariant
                    ts == timestamps@,
                    ts.len() >= 3,
                    i <= dods@.len(),
                    dods@ == deltas(deltas(ts)),
                    self.buf.wf(),
                    self.buf@ == timestamp_stream(ts.take(i + 2)),
                    self.count == 2,
                    self.prev_timestamp == ts[i + 1],
                    self.prev_delta == delta_at(ts, i + 1),
                decreases dods@.len() - i,
            {
                let dod: i64 = dods[i];
                let ghost next = ts.take(i + 3);
                assert(dod == dod_at(ts, i + 2)) by {
                    assert(deltas(ts)[i + 1] == delta_at(ts, i + 2));
                    assert(deltas(ts)[i as int] == delta_at(ts, i + 1));
                }
                assert(dod_at(ts, i + 2) == dod_at(next, i + 2));
                assert(next.drop_last() =~= ts.take(i + 2));
                self.encode_dod(dod);
                self.prev_delta = self.prev_delta.wrapping_add(dod);
                self.prev_timestamp = self.prev_timestamp.wrapping_add(self.prev_delta);
                i = i + 1;
            }
            assert(ts.take(i + 2) =~= ts);
            assert(old(self)@ + ts =~= ts);
            self.encoded = Ghost(ts);
        } else {
            let mut i: usize = 0;
            assert(old(self)@ + timestamps@.take(0) =~= old(self)@);
            while i < timestamps.len()
                invariant
                    i <= timestamps@.len(),
                    self.wf(),
                    self@ == old(self)@ + timestamps@.take(i as int),
                decreases timestamps@.len() - i,
            {
                self.encode(timestamps[i]);
                i = i + 1;
                assert(self@ =~= old(self)@ + timestamps@.take(i as int));
            }
            assert(timestamps@.take(i as int) =~= timestamps@);
        }
    }

    /// The compressed bytes.
    pub fn finish(self) -> (bytes: Vec<u8>)
        requires
            self.wf(),
        ensures
            bytes@ == pack(timestamp_stream(self@)),
    {
        self.buf.finish()
    }
}

/// Restores timestamps. The view is the sequence of timestamps decoded so far.
pub struct DeltaOfDeltaDecoder<'a> {
    reader: BitReader<'a>,
    prev_timestamp: i64,
    prev_delta: i64,
    /// How many timestamps there were, up to two.
    count: usize,
    decoded: Ghost<Seq<i64>>,
}

impl<'a> DeltaOfDeltaDecoder<'a> {
    pub closed spec fn view(&self) -> Seq<i64> {
        self.decoded@
    }

    /// The bits that are left to decode.
    pub closed spec fn rest(&self) -> Seq<bool> {
        self.reader@
    }

    pub closed spec fn wf(&self) -> bool {
        &&& self.reader.wf()
        &&& self.count == if self@.len() < 2 {
            self@.len()
        } else {
            2
        }
        &&& self@.len() >= 1 ==> self.prev_timestamp == self@.last()
        &&& self@.len() >= 2 ==> self.prev_delta == delta_at(self@, self@.len() - 1)
    }

    pub fn new(data: &'a [u8]) -> (decoder: Self)
        ensures
            decoder.wf(),
            decoder@ == Seq::<i64>::empty(),
            decoder.rest() == unpack(data@),
    {
        Self {
            reader: BitReader::new(data),
            prev_timestamp: 0,
            prev_delta: 0,
            count: 0,
            decoded: Ghost(Seq::empty()),
        }
    }

    /// Decodes the next `count` timestamps.
    pub fn decode_all(&mut self, count: usize) -> (result: Vec<i64>)
        requires
            old(self).wf(),
            parse_timestamps(old(self).rest(), old(self)@, count as nat) is Some,
        ensures
            final(self).wf(),
            parse_timestamps(old(self).rest(), old(self)@, count as nat) == Some(
                (final(self)@, final(self).rest()),
            ),
            final(self)@ == old(self)@ + result@,
    {
        let mut result: Vec<i64> = Vec::new();
        let mut i: usize = 0;
        assert(old(self)@ + result@ =~= old(self)@);
        while i < count
            invariant
                i <= count,
                self.wf(),
                self@ == old(self)@ + result@,
                parse_timestamps(old(self).rest(), old(self)@, count as nat) is Some,
                parse_timestamps(old(self).rest(), old(self)@, count as nat) == parse_timestamps(
                    self.rest(),
                    self@,
                    (count - i) as nat,
                ),
            decreases count - i,
        {
            let timestamp = self.decode_one();
            result.push(timestamp);
            assert(self@ =~= old(self)@ + result@);
            i = i + 1;
        }
        result
    }

    /// Whether the next `count` timestamps can be decoded before the bits run out.
    pub fn can_decode(&self, count: usize) -> (b: bool)
        requires
            self.wf(),
        ensures
            b == (parse_timestamps(self.rest(), self@, count as nat) is Some),
    {
        let mut probe = Self {
            reader: self.reader,
            prev_timestamp: self.prev_timestamp,
            prev_delta: self.prev_delta,
            count: self.count,
            decoded: self.decoded,
        };
        let mut i: usize = 0;
        while i < count
            invariant
                i <= count,
                probe.wf(),
                parse_timestamps(self.rest(), self@, count as nat) == parse_timestamps(
                    probe.rest(),
                    probe@,
                    (count - i) as nat,
                ),
            decreases count - i,
        {
            if !probe.has_timestamp() {
                return false;
            }
            let _ = probe.decode_one();
            i = i + 1;
        }
        true
    }

    /// Whether one more timestamp can be decoded before the bits run out.
    fn has_timestamp(&self) -> (b: bool)
        requires
            self.wf(),
        ensures
            b == (parse_timestamp(self.rest(), self@) is Some),
    {
        if self.count < 2 {
            return self.reader.has_bits(64);
        }
        let mut reader = self.reader;
        if !reader.has_bits(1) {
            return false;
        }
        if !reader.read_bit() {
            return true;
        }
        if !reader.has_bits(1) {
            return false;
        }
        if !reader.read_bit() {
            return reader.has_bits(7);
        }
        if !reader.has_bits(1) {
            return false;
        }
        if !reader.read_bit() {
            return reader.has_bits(9);
        }
        if !reader.has_bits(1) {
            return false;
        }
        if !reader.read_bit() {
            return reader.has_bits(12);
        }
        reader.has_bits(64)
    }

    /// Decodes the next timestamp.
    fn decode_one(&mut self) -> (timestamp: i64)
        requires
            old(self).wf(),
            parse_timestamp(old(self).rest(), old(self)@) is Some,
        ensures
            final(self).wf(),
            parse_timestamp(old(self).rest(), old(self)@) == Some((timestamp, final(self).rest())),
            final(self)@ == old(self)@.push(timestamp),
    {
        let ghost bits = self.rest();
        if self.count == 0 {
            let raw: u64 = self.reader.read_bits(64);
            let ts: i64 = raw as i64;
            proof {
                lemma_cast_is_signed_value(raw, bits.take(64));
                assert(bits.subrange(0, 64) =~= bits.take(64));
            }
            self.prev_timestamp = ts;
            self.count = self.count + 1;
            self.decoded = Ghost(self.decoded@.push(ts));
            return ts;
        }
        if self.count == 1 {
            let raw: u64 = self.reader.read_bits(64);
            let delta: i64 = raw as i64;
            proof {
                lemma_cast_is_signed_value(raw, bits.take(64));
                assert(bits.subrange(0, 64) =~= bits.take(64));
            }
            self.prev_delta = delta;
            self.prev_timestamp = self.prev_timestamp.wrapping_add(delta);
            self.count = self.count + 1;
            self.decoded = Ghost(self.decoded@.push(self.prev_timestamp));
            return self.prev_timestamp;
        }
        let dod = self.decode_dod();
        self.prev_delta = self.prev_delta.wrapping_add(dod);
        self.prev_timestamp = self.prev_timestamp.wrapping_add(self.prev_delta);
        self.decoded = Ghost(self.decoded@.push(self.prev_timestamp));
        self.prev_timestamp
    }

    /// Decodes a difference between differences.
    fn decode_dod(&mut self) -> (dod: i64)
        requires
            old(self).reader.wf(),
            parse_dod(old(self).reader@) is Some,
        ensures
            final(self).reader.wf(),
            parse_dod(old(self).reader@) == Some((dod, final(self).reader@)),
            final(self).prev_timestamp == old(self).prev_timestamp,
            final(self).prev_delta == old(self).prev_delta,
            final(self).count == old(self).count,
            final(self).decoded == old(self).decoded,
    {
        let ghost bits = self.reader@;
        if !self.reader.read_bit() {
            return 0;
        }
        if !self.reader.read_bit() {
            assert(self.reader@ =~= bits.skip(2));
            assert(bits.skip(2).take(7) =~= bits.subrange(2, 9));
            assert(bits.skip(2).skip(7) =~= bits.skip(9));
            return self.decode_short(7);
        }
        if !self.reader.read_bit() {
            assert(self.reader@ =~= bits.skip(3));
            assert(bits.skip(3).take(9) =~= bits.subrange(3, 12));
            assert(bits.skip(3).skip(9) =~= bits.skip(12));
            return self.decode_short(9);
        }
        if !self.reader.read_bit() {
            assert(self.reader@ =~= bits.skip(4));
            assert(bits.skip(4).take(12) =~= bits.subrange(4, 16));
            assert(bits.skip(4).skip(12) =~= bits.skip(16));
            return self.decode_short(12);
        }
        assert(self.reader@ =~= bits.skip(4));
        assert(bits.skip(4).take(64) =~= bits.subrange(4, 68));
        assert(bits.skip(4).skip(64) =~= bits.skip(68));
        let raw: u64 = self.reader.read_bits(64);
        proof {
            lemma_cast_is_signed_value(raw, bits.subrange(4, 68));
        }
        raw as i64
    }

    /// Decodes the number of a short code. The highest number of its range is written like the
    /// lowest one of two's complement, which the range does not hold.
    fn decode_short(&mut self, num_bits: u8) -> (value: i64)
        requires
            old(self).reader.wf(),
            0 < num_bits <= 12,
            num_bits <= old(self).reader@.len(),
        ensures
            final(self).reader.wf(),
            value == short_value(old(self).reader@.take(num_bits as int)),
            final(self).reader@ == old(self).reader@.skip(num_bits as int),
            final(self).prev_timestamp == old(self).prev_timestamp,
            final(self).prev_delta == old(self).prev_delta,
            final(self).count == old(self).count,
            final(self).decoded == old(self).decoded,
    {
        let ghost taken = self.reader@.take(num_bits as int);
        let value: i64 = self.reader.read_bits_signed(num_bits);
        let highest: i64 = 1i64 << (num_bits - 1);
        proof {
            let m = (num_bits - 1) as u8;
            lemma_bits_value_bound(taken);
            lemma_pow2_unfold(num_bits as nat);
            lemma2_to64();
            if m < 11 {
                lemma_pow2_strictly_increases(m as nat, 11);
            }
            lemma_u64_shl_is_mul(1, m as u64);
            assert(1i64 << m == (1u64 << m) as i64 && (1u64 << m) < 4096) by (bit_vector)
                requires
                    m < 12,
            ;
            assert(highest == pow2(m as nat));
        }
        if value == -highest {
            highest
        } else {
            value
        }
    }
}

/// The codes of the timestamps from `k` on.
spec fn timestamp_codes_from(ts: Seq<i64>, k: int) -> Seq<bool>
    decreases ts.len() - k,
{
    if k >= ts.len() {
        Seq::empty()
    } else {
        timestamp_code(ts, k) + timestamp_codes_from(ts, k + 1)
    }
}

proof fn lemma_stream_splits(ts: Seq<i64>, k: int)
    requires
        0 <= k <= ts.len(),
    ensures
        timestamp_stream(ts) == timestamp_stream(ts.take(k)) + timestamp_codes_from(ts, k),
    decreases ts.len() - k,
{
    if k == ts.len() {
        assert(ts.take(k) =~= ts);
        assert(timestamp_stream(ts) =~= timestamp_stream(ts.take(k)) + timestamp_codes_from(ts, k));
    } else {
        lemma_stream_splits(ts, k + 1);
        assert(ts.take(k + 1).drop_last() =~= ts.take(k));
        assert(timestamp_code(ts.take(k + 1), k) == timestamp_code(ts, k));
        assert(timestamp_stream(ts) =~= timestamp_stream(ts.take(k)) + timestamp_codes_from(ts, k));
    }
}

/// A fixed number of bits of two's complement behind a prefix is read back.
pub proof fn lemma_parse_signed(prefix: Seq<bool>, x: i64, n: nat, tail: Seq<bool>)
    requires
        n > 0,
        -pow2((n - 1) as nat) <= x < pow2((n - 1) as nat),
    ensures
        parse_signed(prefix + int_bits(x as int, n) + tail, prefix.len() as int, n as int) == Some(
            (x, tail),
        ),
{
    let bits = prefix + int_bits(x as int, n) + tail;
    lemma_int_bits_len(x as int, n);
    lemma_signed_value_of_int_bits(x as int, n);
    assert(bits.subrange(prefix.len() as int, (prefix.len() + n) as int) =~= int_bits(x as int, n));
    assert(bits.skip((prefix.len() + n) as int) =~= tail);
}

/// A short code behind a prefix is read back.
pub proof fn lemma_parse_short(prefix: Seq<bool>, x: i64, n: nat, tail: Seq<bool>)
    requires
        0 < n <= 62,
        -pow2((n - 1) as nat) < x <= pow2((n - 1) as nat),
    ensures
        parse_short(prefix + int_bits(x as int, n) + tail, prefix.len() as int, n as int) == Some(
            (x, tail),
        ),
{
    let bits = prefix + int_bits(x as int, n) + tail;
    let p = pow2(n) as int;
    lemma_int_bits_len(x as int, n);
    lemma_value_of_int_bits(x as int, n);
    lemma_pow2_unfold(n);
    lemma_pow2_pos((n - 1) as nat);
    if x >= 0 {
        lemma_small_mod(x as nat, pow2(n));
    } else {
        lemma_fundamental_div_mod_converse(x as int, p, -1, x + p);
    }
    assert(bits.subrange(prefix.len() as int, (prefix.len() + n) as int) =~= int_bits(x as int, n));
    assert(bits.skip((prefix.len() + n) as int) =~= tail);
}

pub proof fn lemma_prefixes()
    ensures
        int_bits(0b10, 2) == seq![true, false],
        int_bits(0b110, 3) == seq![true, true, false],
        int_bits(0b1110, 4) == seq![true, true, true, false],
        int_bits(0b1111, 4) == seq![true, true, true, true],
{
    reveal_with_fuel(int_bits, 5);
    assert(int_bits(0b10, 2) =~= seq![true, false]);
    assert(int_bits(0b110, 3) =~= seq![true, true, false]);
    assert(int_bits(0b1110, 4) =~= seq![true, true, true, false]);
    assert(int_bits(0b1111, 4) =~= seq![true, true, true, true]);
}

/// Every difference between differences is read back.
pub proof fn dod_round_trip(dod: i64, tail: Seq<bool>)
    ensures
        parse_dod(dod_code(dod) + tail) == Some((dod, tail)),
{
    lemma_prefixes();
    lemma2_to64();
    lemma2_to64_rest();
    let bits = dod_code(dod) + tail;
    if dod == 0 {
        assert(bits.skip(1) =~= tail);
    } else if -63 <= dod <= 64 {
        let prefix = int_bits(0b10, 2);
        lemma_parse_short(prefix, dod, 7, tail);
        assert(bits =~= prefix + int_bits(dod as int, 7) + tail);
        assert(bits[0] == prefix[0] && bits[1] == prefix[1]);
    } else if -255 <= dod <= 256 {
        let prefix = int_bits(0b110, 3);
        lemma_parse_short(prefix, dod, 9, tail);
        assert(bits =~= prefix + int_bits(dod as int, 9) + tail);
        assert(bits[0] == prefix[0] && bits[1] == prefix[1] && bits[2] == prefix[2]);
    } else if -2047 <= dod <= 2048 {
        let prefix = int_bits(0b1110, 4);
        lemma_parse_short(prefix, dod, 12, tail);
        assert(bits =~= prefix + int_bits(dod as int, 12) + tail);
        assert(bits[0] == prefix[0] && bits[1] == prefix[1] && bits[2] == prefix[2] && bits[3]
            == prefix[3]);
    } else {
        let prefix = int_bits(0b1111, 4);
        lemma_parse_signed(prefix, dod, 64, tail);
        assert(bits =~= prefix + int_bits(dod as int, 64) + tail);
        assert(bits[0] == prefix[0] && bits[1] == prefix[1] && bits[2] == prefix[2] && bits[3]
            == prefix[3]);
    }
}

/// One code is read back as its timestamp.
proof fn lemma_parse_of_code(ts: Seq<i64>, k: int, tail: Seq<bool>)
    requires
        0 <= k < ts.len(),
    ensures
        parse_timestamp(timestamp_code(ts, k) + tail, ts.take(k)) == Some((ts[k], tail)),
{
    let bits = timestamp_code(ts, k) + tail;
    let none = Seq::<bool>::empty();
    lemma2_to64_rest();
    if k == 0 {
        lemma_parse_signed(none, ts[0], 64, tail);
        assert(bits =~= none + int_bits(ts[0] as int, 64) + tail);
    } else if k == 1 {
        let delta = delta_at(ts, 1);
        lemma_parse_signed(none, delta, 64, tail);
        assert(bits =~= none + int_bits(delta as int, 64) + tail);
        assert(ts[0].wrapping_add(delta) == ts[1]);
    } else {
        let dod = dod_at(ts, k);
        let before = delta_at(ts, k - 1);
        dod_round_trip(dod, tail);
        assert(delta_at(ts.take(k), k - 1) == before);
        assert(before.wrapping_add(dod) == delta_at(ts, k));
        assert(ts[k - 1].wrapping_add(delta_at(ts, k)) == ts[k]);
    }
}

/// The codes of the timestamps from `k` on are read back.
proof fn lemma_parse_of_codes(ts: Seq<i64>, k: int, tail: Seq<bool>)
    requires
        0 <= k <= ts.len(),
    ensures
        parse_timestamps(timestamp_codes_from(ts, k) + tail, ts.take(k), (ts.len() - k) as nat)
            == Some((ts, tail)),
    decreases ts.len() - k,
{
    let bits = timestamp_codes_from(ts, k) + tail;
    if k == ts.len() {
        assert(bits =~= tail);
        assert(ts.take(k) =~= ts);
    } else {
        let after = timestamp_codes_from(ts, k + 1) + tail;
        assert(bits =~= timestamp_code(ts, k) + after);
        lemma_parse_of_code(ts, k, after);
        lemma_parse_of_codes(ts, k + 1, tail);
        assert(ts.take(k).push(ts[k]) =~= ts.take(k + 1));
    }
}

/// Decoding the compressed bytes gives every sequence of timestamps back.
pub proof fn timestamps_round_trip(ts: Seq<i64>)
    ensures
        parse_timestamps(unpack(pack(timestamp_stream(ts))), Seq::empty(), ts.len()) == Some(
            (ts, unset_bits(padding(timestamp_stream(ts).len()))),
        ),
{
    let stream = timestamp_stream(ts);
    lemma_unpack_of_packed(stream);
    lemma_stream_splits(ts, 0);
    assert(ts.take(0) =~= Seq::<i64>::empty());
    assert(timestamp_codes_from(ts, 0) =~= stream);
    lemma_parse_of_codes(ts, 0, unset_bits(padding(stream.len())));
}

/// A timestamp takes at most 68 bits.
pub proof fn lemma_timestamp_stream_len(ts: Seq<i64>)
    ensures
        timestamp_stream(ts).len() <= 68 * ts.len(),
    decreases ts.len(),
{
    if ts.len() > 0 {
        lemma_timestamp_stream_len(ts.drop_last());
        let i = ts.len() - 1;
        let dod = dod_at(ts, i);
        lemma_prefixes();
        lemma_int_bits_len(ts[0] as int, 64);
        lemma_int_bits_len(delta_at(ts, 1) as int, 64);
        lemma_int_bits_len(dod as int, 7);
        lemma_int_bits_len(dod as int, 9);
        lemma_int_bits_len(dod as int, 12);
        lemma_int_bits_len(dod as int, 64);
    }
}

/// From the third on, a timestamp at a constant interval takes a single bit.
pub proof fn constant_interval_takes_one_bit_each(ts: Seq<i64>)
    requires
        ts.len() >= 2,
        forall|i: int| 2 <= i < ts.len() ==> #[trigger] delta_at(ts, i) == delta_at(ts, 1),
    ensures
        timestamp_stream(ts).len() == 128 + (ts.len() - 2),
    decreases ts.len(),
{
    let before = ts.drop_last();
    if ts.len() == 2 {
        reveal_with_fuel(timestamp_stream, 3);
        lemma_int_bits_len(ts[0] as int, 64);
        lemma_int_bits_len(delta_at(ts, 1) as int, 64);
    } else {
        assert forall|i: int| 2 <= i < before.len() implies #[trigger] delta_at(before, i)
            == delta_at(before, 1) by {
            assert(delta_at(ts, i) == delta_at(ts, 1));
        }
        constant_interval_takes_one_bit_each(before);
        let i = ts.len() - 1;
        assert(delta_at(ts, i) == delta_at(ts, 1));
        assert(i - 1 >= 2 ==> delta_at(ts, i - 1) == delta_at(ts, 1));
        assert(dod_at(ts, i) == 0);
    }
}

} // verus!
