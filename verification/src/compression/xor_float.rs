//! Compression of doubles by the bits in which neighbours differ.
//!
//! A double is handled as its IEEE 754 bit pattern.
use super::bits::{
    bits_value, int_bits, lemma_bits_value_bound, lemma_int_bits_len, lemma_unpack_of_packed,
    lemma_value_of_int_bits, pack, padding, unpack, unset_bits, BitBuffer, BitReader,
};
use super::simd::{batch_xor_values, xors};
use vstd::arithmetic::div_mod::*;
use vstd::arithmetic::power2::*;
use vstd::bits::*;
use vstd::prelude::*;
use vstd::std_specs::bits::{
    axiom_u64_leading_zeros, axiom_u64_trailing_zeros, u64_leading_zeros, u64_trailing_zeros,
};

verus! {

/// What stands for a window before one was stored: no word but zero fits it.
pub open spec fn no_window() -> (int, int) {
    (64, 0)
}

/// Whether `x` has at least the window's leading and trailing zeros. A window is the pair of
/// the two counts.
pub open spec fn fits_window(x: u64, window: (int, int)) -> bool {
    u64_leading_zeros(x) >= window.0 && u64_trailing_zeros(x) >= window.1
}

/// The leading zeros of a window that is stored for `x`: as many as five bits can count.
pub open spec fn stored_leading(x: u64) -> int {
    if u64_leading_zeros(x) < 31 {
        u64_leading_zeros(x)
    } else {
        31
    }
}

/// The code of an exclusive or: unset for zero, else the bits inside the window, which is
/// stored first where the last one is too narrow. Of the number of bits inside a window, six bits
/// are stored, which are unset for the whole word.
pub open spec fn xor_code(x: u64, window: (int, int)) -> Seq<bool> {
    let leading = stored_leading(x);
    let trailing = u64_trailing_zeros(x) as int;
    let meaningful = 64 - leading - trailing;
    if x == 0 {
        seq![false]
    } else if fits_window(x, window) {
        seq![true, false] + int_bits(
            x as int / (pow2(window.1 as nat) as int),
            (64 - window.0 - window.1) as nat,
        )
    } else {
        seq![true, true] + int_bits(leading, 5) + int_bits(meaningful, 6) + int_bits(
            x as int / (pow2(trailing as nat) as int),
            meaningful as nat,
        )
    }
}

/// The window after the exclusive or `x` was coded.
pub open spec fn next_window(x: u64, window: (int, int)) -> (int, int) {
    if x == 0 || fits_window(x, window) {
        window
    } else {
        (stored_leading(x), u64_trailing_zeros(x) as int)
    }
}

/// The window after all `values` were coded.
pub open spec fn window_after(values: Seq<u64>) -> (int, int)
    decreases values.len(),
{
    if values.len() <= 1 {
        no_window()
    } else {
        next_window(
            values.last() ^ values[values.len() - 2],
            window_after(values.drop_last()),
        )
    }
}

/// The code of value `i`: the first is stored whole.
pub open spec fn value_code(values: Seq<u64>, i: int) -> Seq<bool> {
    if i == 0 {
        int_bits(values[0] as int, 64)
    } else {
        xor_code(values[i] ^ values[i - 1], window_after(values.take(i)))
    }
}

/// The codes of all values, one after the other.
pub open spec fn value_stream(values: Seq<u64>) -> Seq<bool>
    decreases values.len(),
{
    if values.len() == 0 {
        Seq::empty()
    } else {
        value_stream(values.drop_last()) + value_code(values, values.len() - 1)
    }
}

/// The value that follows `done` in `bits`, the window after it, and the bits after it. None
/// where the bits run out, or where a stored window does not fit into a word.
pub open spec fn parse_value(bits: Seq<bool>, done: Seq<u64>, window: (int, int)) -> Option<
    (u64, (int, int), Seq<bool>),
> {
    if done.len() == 0 {
        if bits.len() < 64 {
            None
        } else {
            Some((bits_value(bits.take(64)) as u64, window, bits.skip(64)))
        }
    } else if bits.len() < 1 {
        None
    } else if !bits[0] {
        Some((done.last(), window, bits.skip(1)))
    } else if bits.len() < 2 {
        None
    } else if !bits[1] {
        parse_meaningful(bits.skip(2), done.last(), window)
    } else if bits.len() < 13 {
        None
    } else {
        let leading = bits_value(bits.subrange(2, 7)) as int;
        let stored = bits_value(bits.subrange(7, 13)) as int;
        let meaningful = if leading == 0 && stored == 0 {
            64
        } else {
            stored
        };
        if leading + meaningful > 64 {
            None
        } else {
            parse_meaningful(bits.skip(13), done.last(), (leading, 64 - leading - meaningful))
        }
    }
}

/// The value that differs from `last` in the bits inside the window.
pub open spec fn parse_meaningful(bits: Seq<bool>, last: u64, window: (int, int)) -> Option<
    (u64, (int, int), Seq<bool>),
> {
    let meaningful = 64 - window.0 - window.1;
    if bits.len() < meaningful {
        None
    } else {
        let x = (bits_value(bits.take(meaningful)) * pow2(window.1 as nat)) as u64;
        Some((last ^ x, window, bits.skip(meaningful)))
    }
}

/// `done` followed by the next `n` values in `bits`, the window after them, and the bits after
/// them.
pub open spec fn parse_values(
    bits: Seq<bool>,
    done: Seq<u64>,
    window: (int, int),
    n: nat,
) -> Option<(Seq<u64>, (int, int), Seq<bool>)>
    decreases n,
{
    if n == 0 {
        Some((done, window, bits))
    } else {
        match parse_value(bits, done, window) {
            None => None,
            Some((v, next, rest)) => parse_values(rest, done.push(v), next, (n - 1) as nat),
        }
    }
}

pub proof fn lemma_parse_values_len(bits: Seq<bool>, done: Seq<u64>, window: (int, int), n: nat)
    ensures
        parse_values(bits, done, window, n) matches Some((all, _, _)) ==> all.len() == done.len()
            + n,
    decreases n,
{
    if n > 0 {
        if let Some((v, next, rest)) = parse_value(bits, done, window) {
            lemma_parse_values_len(rest, done.push(v), next, (n - 1) as nat);
        }
    }
}

/// Whether a window leaves room for a bit between its zeros.
pub open spec fn is_window(window: (int, int)) -> bool {
    0 <= window.0 <= 31 && 0 <= window.1 && window.0 + window.1 < 64
}

/// The window of a stream is none, or leaves room for a bit.
pub proof fn stream_has_a_window(values: Seq<u64>)
    ensures
        window_after(values) == no_window() || is_window(window_after(values)),
    decreases values.len(),
{
    if values.len() > 1 {
        stream_has_a_window(values.drop_last());
        let x = values.last() ^ values[values.len() - 2];
        if x != 0 {
            lemma_meaningful_bits(x);
        }
    }
}

/// A word that is not zero has a bit between its leading and its trailing zeros.
pub proof fn lemma_meaningful_bits(x: u64)
    requires
        x != 0,
    ensures
        0 <= u64_leading_zeros(x),
        0 <= u64_trailing_zeros(x),
        u64_leading_zeros(x) + u64_trailing_zeros(x) <= 63,
{
    axiom_u64_leading_zeros(x);
    axiom_u64_trailing_zeros(x);
    let lowest = u64_trailing_zeros(x) as u64;
    assert((x >> lowest) & 1u64 == 1u64);
}

/// Compresses doubles. The view is the sequence of bit patterns encoded so far.
pub struct XorFloatEncoder {
    prev_bits: u64,
    prev_leading: u8,
    prev_trailing: u8,
    buf: BitBuffer,
    first: bool,
    encoded: Ghost<Seq<u64>>,
}

impl XorFloatEncoder {
    pub closed spec fn view(&self) -> Seq<u64> {
        self.encoded@
    }

    spec fn window(&self) -> (int, int) {
        (self.prev_leading as int, self.prev_trailing as int)
    }

    /// The buffer holds the stream of the encoded values, and the other fields their end.
    pub closed spec fn wf(&self) -> bool {
        &&& self.buf.wf()
        &&& self.buf@ == value_stream(self@)
        &&& self.first == (self@.len() == 0)
        &&& !self.first ==> self.prev_bits == self@.last()
        &&& self.window() == window_after(self@)
    }

    pub fn new() -> (encoder: Self)
        ensures
            encoder.wf(),
            encoder@ == Seq::<u64>::empty(),
    {
        Self {
            prev_bits: 0,
            prev_leading: 64,
            prev_trailing: 0,
            buf: BitBuffer::new(),
            first: true,
            encoded: Ghost(Seq::empty()),
        }
    }

    /// Appends a double, given by its bit pattern.
    pub fn encode(&mut self, bits: u64)
        requires
            old(self).wf(),
        ensures
            final(self).wf(),
            final(self)@ == old(self)@.push(bits),
    {
        if self.first {
            let ghost after = self@.push(bits);
            assert(after.drop_last() =~= self@);
            self.buf.write_bits(bits, 64);
            self.prev_bits = bits;
            self.first = false;
            self.encoded = Ghost(after);
            return;
        }
        let xor: u64 = bits ^ self.prev_bits;
        proof {
            let last = self.prev_bits;
            assert(last ^ (bits ^ last) == bits) by (bit_vector);
        }
        self.encode_xor(xor);
    }

    /// Appends doubles. A fresh encoder takes their exclusive ors in one go.
    pub fn encode_batch(&mut self, values: &[u64])
        requires
            old(self).wf(),
        ensures
            final(self).wf(),
            final(self)@ == old(self)@ + values@,
    {
        if values.is_empty() {
            assert(self@ =~= old(self)@ + values@);
            return;
        }
        if self.first && values.len() >= 2 {
            let ghost all = values@;
            self.encode(values[0]);
            assert(self@ =~= all.take(1));
            let differences = batch_xor_values(values);
            let mut i: usize = 0;
            while i < differences.len()
                invariant
                    all == values@,
                    all.len() >= 2,
                    i <= differences@.len(),
                    differences@ == xors(all),
                    self.wf(),
                    self@ == all.take(i + 1),
                decreases differences@.len() - i,
            {
                proof {
                    let (a, b) = (all[i as int], all[i + 1]);
                    assert(a ^ (b ^ a) == b) by (bit_vector);
                    assert(all.take(i + 1).push(b) =~= all.take(i + 2));
                }
                self.encode_xor(differences[i]);
                i = i + 1;
            }
            assert(all.take(i + 1) =~= all);
            assert(old(self)@ + all =~= all);
        } else {
            let mut i: usize = 0;
            assert(old(self)@ + values@.take(0) =~= old(self)@);
            while i < values.len()
                invariant
                    i <= values@.len(),
                    self.wf(),
                    self@ == old(self)@ + values@.take(i as int),
                decreases values@.len() - i,
            {
                self.encode(values[i]);
                i = i + 1;
                assert(self@ =~= old(self)@ + values@.take(i as int));
            }
            assert(values@.take(i as int) =~= values@);
        }
    }

    /// Appends a double, given by the exclusive or of its bit pattern with the last one.
    pub fn encode_xor(&mut self, xor: u64)
        requires
            old(self).wf(),
            old(self)@.len() > 0,
        ensures
            final(self).wf(),
            final(self)@ == old(self)@.push(old(self)@.last() ^ xor),
    {
        let ghost next = self.prev_bits ^ xor;
        proof {
            let last = self.prev_bits;
            assert((last ^ xor) ^ last == xor) by (bit_vector);
            stream_has_a_window(self@);
            value_appends_its_exclusive_or(self@, next);
        }
        if xor == 0 {
            self.buf.write_bit(false);
        } else {
            proof {
                lemma_meaningful_bits(xor);
            }
            self.buf.write_bit(true);
            let leading: u8 = xor.leading_zeros() as u8;
            let trailing: u8 = xor.trailing_zeros() as u8;
            if leading >= self.prev_leading && trailing >= self.prev_trailing {
                assert(is_window(self.window()));
                self.buf.write_bit(false);
                let meaningful_bits: u8 = 64 - self.prev_leading - self.prev_trailing;
                let value_shifted: u64 = xor >> self.prev_trailing;
                proof {
                    lemma_u64_shr_is_div(xor, self.prev_trailing as u64);
                }
                self.buf.write_bits(value_shifted, meaningful_bits);
            } else {
                let leading: u8 = if leading < 31 {
                    leading
                } else {
                    31
                };
                self.buf.write_bit(true);
                self.buf.write_bits(leading as u64, 5);
                let meaningful_bits: u8 = 64 - leading - trailing;
                self.buf.write_bits(meaningful_bits as u64, 6);
                let value_shifted: u64 = xor >> trailing;
                proof {
                    lemma_u64_shr_is_div(xor, trailing as u64);
                }
                self.buf.write_bits(value_shifted, meaningful_bits);
                self.prev_leading = leading;
                self.prev_trailing = trailing;
            }
        }
        assert(self.buf@ =~= old(self).buf@ + xor_code(xor, old(self).window()));
        self.prev_bits = self.prev_bits ^ xor;
        self.encoded = Ghost(old(self)@.push(next));
    }

    /// The compressed bytes.
    pub fn finish(self) -> (bytes: Vec<u8>)
        requires
            self.wf(),
        ensures
            bytes@ == pack(value_stream(self@)),
    {
        self.buf.finish()
    }
}

/// A number of `n` bits is read whole.
proof fn lemma_read_whole(value: u64, taken: Seq<bool>)
    requires
        taken.len() <= 64,
        value == bits_value(taken) % pow2(64),
    ensures
        value == bits_value(taken),
        value < pow2(taken.len()),
{
    lemma_bits_value_bound(taken);
    if taken.len() < 64 {
        lemma_pow2_strictly_increases(taken.len(), 64);
    }
    lemma_small_mod(bits_value(taken), pow2(64));
}

/// Shifting the bits inside a window to their place loses none.
pub proof fn lemma_shift_into_window(value: u64, meaningful: nat, trailing: u8)
    requires
        value < pow2(meaningful),
        meaningful + trailing <= 64,
        trailing < 64,
    ensures
        value << trailing == value * pow2(trailing as nat),
        value * pow2(trailing as nat) <= u64::MAX,
{
    let p = pow2(trailing as nat);
    lemma_pow2_pos(trailing as nat);
    lemma_pow2_adds(meaningful, trailing as nat);
    lemma2_to64_rest();
    if meaningful + trailing < 64 {
        lemma_pow2_strictly_increases(meaningful + trailing as nat, 64);
    }
    assert(value * p < pow2(meaningful) * p) by (nonlinear_arith)
        requires
            value < pow2(meaningful),
            p > 0,
    ;
    lemma_u64_shl_is_mul(value, trailing as u64);
}

/// Restores doubles. The view is the sequence of bit patterns decoded so far.
pub struct XorFloatDecoder<'a> {
    reader: BitReader<'a>,
    prev_bits: u64,
    prev_leading: u8,
    prev_trailing: u8,
    first: bool,
    decoded: Ghost<Seq<u64>>,
}

impl<'a> XorFloatDecoder<'a> {
    pub closed spec fn view(&self) -> Seq<u64> {
        self.decoded@
    }

    /// The bits that are left to decode.
    pub closed spec fn rest(&self) -> Seq<bool> {
        self.reader@
    }

    /// The window of the last value.
    pub closed spec fn window(&self) -> (int, int) {
        (self.prev_leading as int, self.prev_trailing as int)
    }

    pub closed spec fn wf(&self) -> bool {
        &&& self.reader.wf()
        &&& self.first == (self@.len() == 0)
        &&& !self.first ==> self.prev_bits == self@.last()
        &&& self.prev_leading + self.prev_trailing <= 64
        &&& self.prev_trailing < 64
    }

    pub fn new(data: &'a [u8]) -> (decoder: Self)
        ensures
            decoder.wf(),
            decoder@ == Seq::<u64>::empty(),
            decoder.window() == (0int, 0int),
            decoder.rest() == unpack(data@),
    {
        Self {
            reader: BitReader::new(data),
            prev_bits: 0,
            prev_leading: 0,
            prev_trailing: 0,
            first: true,
            decoded: Ghost(Seq::empty()),
        }
    }

    /// Decodes the bit patterns of the next `count` doubles.
    pub fn decode_all(&mut self, count: usize) -> (result: Vec<u64>)
        requires
            old(self).wf(),
            parse_values(
                old(self).rest(),
                old(self)@,
                old(self).window(),
                count as nat,
            ) is Some,
        ensures
            final(self).wf(),
            parse_values(old(self).rest(), old(self)@, old(self).window(), count as nat) == Some(
                (final(self)@, final(self).window(), final(self).rest()),
            ),
            final(self)@ == old(self)@ + result@,
    {
        let mut result: Vec<u64> = Vec::new();
        let mut i: usize = 0;
        assert(old(self)@ + result@ =~= old(self)@);
        while i < count
            invariant
                i <= count,
                self.wf(),
                self@ == old(self)@ + result@,
                parse_values(
                    old(self).rest(),
                    old(self)@,
                    old(self).window(),
                    count as nat,
                ) is Some,
                parse_values(old(self).rest(), old(self)@, old(self).window(), count as nat)
                    == parse_values(self.rest(), self@, self.window(), (count - i) as nat),
            decreases count - i,
        {
            let value = self.decode_one();
            result.push(value);
            assert(self@ =~= old(self)@ + result@);
            i = i + 1;
        }
        result
    }

    /// Whether the next `count` doubles can be decoded.
    pub fn can_decode(&self, count: usize) -> (b: bool)
        requires
            self.wf(),
        ensures
            b == (parse_values(self.rest(), self@, self.window(), count as nat) is Some),
    {
        let mut probe = Self {
            reader: self.reader,
            prev_bits: self.prev_bits,
            prev_leading: self.prev_leading,
            prev_trailing: self.prev_trailing,
            first: self.first,
            decoded: self.decoded,
        };
        let mut i: usize = 0;
        while i < count
            invariant
                i <= count,
                probe.wf(),
                parse_values(self.rest(), self@, self.window(), count as nat) == parse_values(
                    probe.rest(),
                    probe@,
                    probe.window(),
                    (count - i) as nat,
                ),
            decreases count - i,
        {
            if !probe.has_value() {
                return false;
            }
            let _ = probe.decode_one();
            i = i + 1;
        }
        true
    }

    /// Whether one more double can be decoded.
    fn has_value(&self) -> (b: bool)
        requires
            self.wf(),
        ensures
            b == (parse_value(self.rest(), self@, self.window()) is Some),
    {
        if self.first {
            return self.reader.has_bits(64);
        }
        let ghost bits = self.reader@;
        let mut reader = self.reader;
        if !reader.has_bits(1) {
            return false;
        }
        if !reader.read_bit() {
            return true;
        }
        if !reader.has_bits(1) {
            return false;
        }
        if !reader.read_bit() {
            return reader.has_bits(64 - self.prev_leading - self.prev_trailing);
        }
        if !reader.has_bits(11) {
            return false;
        }
        let leading: u64 = reader.read_bits(5);
        let stored: u64 = reader.read_bits(6);
        proof {
            assert(bits.skip(1).skip(1).take(5) =~= bits.subrange(2, 7));
            assert(bits.skip(1).skip(1).skip(5).take(6) =~= bits.subrange(7, 13));
            lemma_read_whole(leading, bits.subrange(2, 7));
            lemma_read_whole(stored, bits.subrange(7, 13));
            lemma2_to64();
        }
        let meaningful: u64 = if leading == 0 && stored == 0 {
            64
        } else {
            stored
        };
        leading + meaningful <= 64 && reader.has_bits(meaningful as u8)
    }

    /// Decodes the bit pattern of the next double.
    fn decode_one(&mut self) -> (value: u64)
        requires
            old(self).wf(),
            parse_value(old(self).rest(), old(self)@, old(self).window()) is Some,
        ensures
            final(self).wf(),
            parse_value(old(self).rest(), old(self)@, old(self).window()) == Some(
                (value, final(self).window(), final(self).rest()),
            ),
            final(self)@ == old(self)@.push(value),
    {
        let ghost bits = self.rest();
        if self.first {
            self.prev_bits = self.reader.read_bits(64);
            proof {
                lemma_read_whole(self.prev_bits, bits.take(64));
            }
            self.first = false;
            self.decoded = Ghost(self.decoded@.push(self.prev_bits));
            return self.prev_bits;
        }
        if !self.reader.read_bit() {
            self.decoded = Ghost(self.decoded@.push(self.prev_bits));
            return self.prev_bits;
        }
        let meaningful_bits: u8;
        if !self.reader.read_bit() {
            assert(self.reader@ =~= bits.skip(2));
            meaningful_bits = 64 - self.prev_leading - self.prev_trailing;
        } else {
            let leading_read: u64 = self.reader.read_bits(5);
            let meaningful_read: u64 = self.reader.read_bits(6);
            proof {
                assert(bits.skip(1).skip(1).take(5) =~= bits.subrange(2, 7));
                assert(bits.skip(1).skip(1).skip(5).take(6) =~= bits.subrange(7, 13));
                lemma_read_whole(leading_read, bits.subrange(2, 7));
                lemma_read_whole(meaningful_read, bits.subrange(7, 13));
                lemma2_to64();
                assert(self.reader@ =~= bits.skip(13));
            }
            let leading: u8 = leading_read as u8;
            meaningful_bits = if leading_read == 0 && meaningful_read == 0 {
                64
            } else {
                meaningful_read as u8
            };
            let trailing: u8 = 64 - leading - meaningful_bits;
            self.prev_leading = leading;
            self.prev_trailing = trailing;
        }
        let ghost inside = self.reader@;
        let value_shifted: u64 = self.reader.read_bits(meaningful_bits);
        proof {
            lemma_read_whole(value_shifted, inside.take(meaningful_bits as int));
            lemma_shift_into_window(value_shifted, meaningful_bits as nat, self.prev_trailing);
        }
        let xor: u64 = value_shifted << self.prev_trailing;
        self.prev_bits = self.prev_bits ^ xor;
        self.decoded = Ghost(self.decoded@.push(self.prev_bits));
        self.prev_bits
    }
}

/// The codes of the values from `k` on.
spec fn value_codes_from(values: Seq<u64>, k: int) -> Seq<bool>
    decreases values.len() - k,
{
    if k >= values.len() {
        Seq::empty()
    } else {
        value_code(values, k) + value_codes_from(values, k + 1)
    }
}

proof fn lemma_value_stream_splits(values: Seq<u64>, k: int)
    requires
        0 <= k <= values.len(),
    ensures
        value_stream(values) == value_stream(values.take(k)) + value_codes_from(values, k),
    decreases values.len() - k,
{
    if k == values.len() {
        assert(values.take(k) =~= values);
        assert(value_stream(values) =~= value_stream(values.take(k)) + value_codes_from(values, k));
    } else {
        lemma_value_stream_splits(values, k + 1);
        assert(values.take(k + 1).drop_last() =~= values.take(k));
        assert(values.take(k + 1).take(k) =~= values.take(k));
        assert(value_code(values.take(k + 1), k) == value_code(values, k));
        assert(value_stream(values) =~= value_stream(values.take(k)) + value_codes_from(values, k));
    }
}

/// A word is less than the power of two above its highest bit.
pub proof fn lemma_leading_zeros(x: u64)
    ensures
        0 <= u64_leading_zeros(x) <= 64,
        x < pow2((64 - u64_leading_zeros(x)) as nat),
    decreases x,
{
    reveal(u64_leading_zeros);
    axiom_u64_leading_zeros(x);
    if x == 0 {
        lemma2_to64();
    } else {
        lemma_leading_zeros(x / 2);
        lemma_pow2_unfold((64 - u64_leading_zeros(x)) as nat);
    }
}

/// Shifting trailing zeros out and in again changes nothing.
pub proof fn lemma_trailing_zeros(x: u64, trailing: u8)
    requires
        trailing <= u64_trailing_zeros(x),
        trailing < 64,
    ensures
        (x >> trailing) << trailing == x,
{
    axiom_u64_trailing_zeros(x);
    let zeros = u64_trailing_zeros(x) as u64;
    let above = (64 - zeros) as u64;
    assert((x >> trailing) << trailing == x) by (bit_vector)
        requires
            x << above == 0,
            above == 64 - zeros,
            zeros <= 64,
            trailing <= zeros,
            trailing < 64,
    ;
}

/// The bits inside a window that a word fits are read back as the word.
proof fn lemma_parse_of_meaningful(x: u64, last: u64, window: (int, int), tail: Seq<bool>)
    requires
        is_window(window),
        fits_window(x, window),
    ensures
        ({
            let inside = int_bits(
                x as int / (pow2(window.1 as nat) as int),
                (64 - window.0 - window.1) as nat,
            );
            parse_meaningful(inside + tail, last, window) == Some((last ^ x, window, tail))
        }),
{
    let meaningful = (64 - window.0 - window.1) as nat;
    let trailing = window.1 as u8;
    let p = pow2(window.1 as nat);
    let value = x >> trailing;
    let inside = int_bits(x as int / (p as int), meaningful);
    lemma_leading_zeros(x);
    lemma_trailing_zeros(x, trailing);
    lemma_u64_shr_is_div(x, trailing as u64);
    lemma_pow2_pos(window.1 as nat);
    lemma_pow2_adds(window.1 as nat, meaningful);
    let above = (64 - u64_leading_zeros(x)) as nat;
    if above < 64 - window.0 {
        lemma_pow2_strictly_increases(above, (64 - window.0) as nat);
    }
    assert(p * pow2(meaningful) == pow2((64 - window.0) as nat));
    lemma_multiply_divide_lt(x as int, p as int, pow2(meaningful) as int);
    lemma_int_bits_len(x as int / (p as int), meaningful);
    lemma_value_of_int_bits(x as int / (p as int), meaningful);
    lemma_small_mod(value as nat, pow2(meaningful));
    lemma_shift_into_window(value, meaningful, trailing);
    assert((inside + tail).take(meaningful as int) =~= inside);
    assert((inside + tail).skip(meaningful as int) =~= tail);
}

/// The window that a decoder holds: before one was stored, the whole word.
pub open spec fn decoding_window(window: (int, int)) -> (int, int) {
    if window == no_window() {
        (0, 0)
    } else {
        window
    }
}

/// The code of an exclusive or is read back.
proof fn lemma_parse_of_xor_code(x: u64, done: Seq<u64>, window: (int, int), tail: Seq<bool>)
    requires
        done.len() > 0,
        window == no_window() || is_window(window),
    ensures
        parse_value(xor_code(x, window) + tail, done, decoding_window(window)) == Some(
            (done.last() ^ x, decoding_window(next_window(x, window)), tail),
        ),
{
    let bits = xor_code(x, window) + tail;
    let last = done.last();
    if x == 0 {
        assert(last ^ 0 == last) by (bit_vector);
        assert(bits.skip(1) =~= tail);
    } else if fits_window(x, window) {
        lemma_leading_zeros(x);
        axiom_u64_leading_zeros(x);
        lemma_parse_of_meaningful(x, last, window, tail);
        let inside = int_bits(
            x as int / (pow2(window.1 as nat) as int),
            (64 - window.0 - window.1) as nat,
        );
        assert(bits.skip(2) =~= inside + tail);
    } else {
        let next = next_window(x, window);
        let meaningful = 64 - next.0 - next.1;
        let inside = int_bits(x as int / (pow2(next.1 as nat) as int), meaningful as nat);
        lemma_meaningful_bits(x);
        lemma_parse_of_meaningful(x, last, next, tail);
        lemma_int_bits_len(next.0, 5);
        lemma_int_bits_len(meaningful, 6);
        lemma_value_of_int_bits(next.0, 5);
        lemma_value_of_int_bits(meaningful, 6);
        lemma2_to64();
        lemma_small_mod(next.0 as nat, 32);
        if meaningful < 64 {
            lemma_small_mod(meaningful as nat, 64);
        }
        assert(bits.subrange(2, 7) =~= int_bits(next.0, 5));
        assert(bits.subrange(7, 13) =~= int_bits(meaningful, 6));
        assert(bits.skip(13) =~= inside + tail);
    }
}

/// One code is read back as its value.
proof fn lemma_parse_of_value_code(values: Seq<u64>, k: int, tail: Seq<bool>)
    requires
        0 <= k < values.len(),
    ensures
        parse_value(
            value_code(values, k) + tail,
            values.take(k),
            decoding_window(window_after(values.take(k))),
        ) == Some((values[k], decoding_window(window_after(values.take(k + 1))), tail)),
{
    let bits = value_code(values, k) + tail;
    if k == 0 {
        lemma2_to64_rest();
        lemma_int_bits_len(values[0] as int, 64);
        lemma_value_of_int_bits(values[0] as int, 64);
        lemma_small_mod(values[0] as nat, pow2(64));
        assert(bits.take(64) =~= int_bits(values[0] as int, 64));
        assert(bits.skip(64) =~= tail);
    } else {
        let (last, v) = (values[k - 1], values[k]);
        stream_has_a_window(values.take(k));
        lemma_parse_of_xor_code(v ^ last, values.take(k), window_after(values.take(k)), tail);
        assert(last ^ (v ^ last) == v) by (bit_vector);
        assert(values.take(k + 1).drop_last() =~= values.take(k));
    }
}

proof fn lemma_parse_of_value_codes(values: Seq<u64>, k: int, tail: Seq<bool>)
    requires
        0 <= k <= values.len(),
    ensures
        parse_values(
            value_codes_from(values, k) + tail,
            values.take(k),
            decoding_window(window_after(values.take(k))),
            (values.len() - k) as nat,
        ) == Some((values, decoding_window(window_after(values)), tail)),
    decreases values.len() - k,
{
    let bits = value_codes_from(values, k) + tail;
    if k == values.len() {
        assert(bits =~= tail);
        assert(values.take(k) =~= values);
    } else {
        let after = value_codes_from(values, k + 1) + tail;
        assert(bits =~= value_code(values, k) + after);
        lemma_parse_of_value_code(values, k, after);
        lemma_parse_of_value_codes(values, k + 1, tail);
        assert(values.take(k).push(values[k]) =~= values.take(k + 1));
    }
}

/// Decoding the compressed bytes gives every sequence of doubles back, bit by bit.
pub proof fn values_round_trip(values: Seq<u64>)
    ensures
        parse_values(
            unpack(pack(value_stream(values))),
            Seq::empty(),
            (0, 0),
            values.len(),
        ) == Some(
            (
                values,
                decoding_window(window_after(values)),
                unset_bits(padding(value_stream(values).len())),
            ),
        ),
{
    let stream = value_stream(values);
    lemma_unpack_of_packed(stream);
    lemma_value_stream_splits(values, 0);
    assert(values.take(0) =~= Seq::<u64>::empty());
    assert(value_codes_from(values, 0) =~= stream);
    lemma_parse_of_value_codes(values, 0, unset_bits(padding(stream.len())));
}

/// A double takes at most 77 bits.
pub proof fn lemma_value_stream_len(values: Seq<u64>)
    ensures
        value_stream(values).len() <= 77 * values.len(),
    decreases values.len(),
{
    if values.len() > 0 {
        lemma_value_stream_len(values.drop_last());
        let i = values.len() - 1;
        lemma_int_bits_len(values[0] as int, 64);
        if i > 0 {
            let x = values[i] ^ values[i - 1];
            let window = window_after(values.take(i));
            stream_has_a_window(values.take(i));
            if x != 0 {
                lemma_meaningful_bits(x);
                let next = next_window(x, window);
                let p = pow2(next.1 as nat) as int;
                lemma_int_bits_len(next.0, 5);
                lemma_int_bits_len(64 - next.0 - next.1, 6);
                lemma_int_bits_len(x as int / p, (64 - next.0 - next.1) as nat);
            }
        }
    }
}

/// Encoding a double appends the code of its exclusive or with the one before it, and encoding
/// that exclusive or is encoding the double.
pub proof fn value_appends_its_exclusive_or(values: Seq<u64>, next: u64)
    requires
        values.len() > 0,
    ensures
        value_stream(values.push(next)) == value_stream(values) + xor_code(
            next ^ values.last(),
            window_after(values),
        ),
        window_after(values.push(next)) == next_window(next ^ values.last(), window_after(values)),
        values.push(values.last() ^ (values.last() ^ next)) == values.push(next),
{
    let last = values.last();
    assert(last ^ (last ^ next) == next) by (bit_vector);
    assert(values.push(next).drop_last() =~= values);
    assert(values.push(next).take(values.len() as int) =~= values);
}

/// A double that differs from the one before it inside the window takes two bits and those of the
/// window.
pub proof fn value_inside_the_window_is_short(values: Seq<u64>, next: u64)
    requires
        values.len() > 0,
        is_window(window_after(values)),
        next != values.last(),
        fits_window(next ^ values.last(), window_after(values)),
    ensures
        ({
            let window = window_after(values);
            value_stream(values.push(next)).len() == value_stream(values).len() + 66 - window.0
                - window.1
        }),
{
    let window = window_after(values);
    let x = next ^ values.last();
    let (a, b) = (next, values.last());
    assert(a ^ b == 0 ==> a == b) by (bit_vector);
    assert(values.push(next).drop_last() =~= values);
    assert(values.push(next).take(values.len() as int) =~= values);
    lemma_int_bits_len(
        x as int / (pow2(window.1 as nat) as int),
        (64 - window.0 - window.1) as nat,
    );
}

/// From the second on, a repeated double takes a single bit.
pub proof fn repeated_value_takes_one_bit_each(values: Seq<u64>)
    requires
        values.len() >= 1,
        forall|i: int| 0 <= i < values.len() ==> #[trigger] values[i] == values[0],
    ensures
        value_stream(values).len() == 64 + (values.len() - 1),
    decreases values.len(),
{
    let before = values.drop_last();
    if values.len() == 1 {
        reveal_with_fuel(value_stream, 2);
        lemma_int_bits_len(values[0] as int, 64);
    } else {
        assert forall|i: int| 0 <= i < before.len() implies #[trigger] before[i] == before[0] by {
            assert(values[i] == values[0]);
        }
        repeated_value_takes_one_bit_each(before);
        let i = values.len() - 1;
        let v = values[0];
        assert(values[i] == v && values[i - 1] == v);
        assert(v ^ v == 0) by (bit_vector);
    }
}

} // verus!
