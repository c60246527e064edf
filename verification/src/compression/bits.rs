//! Streams of bits, most significant bit first, packed into bytes.
use vstd::arithmetic::div_mod::*;
use vstd::arithmetic::power2::*;
use vstd::bits::*;
use vstd::prelude::*;

verus! {

/// Bit `k` of `b`, counted from the least significant one.
pub open spec fn bit_at(b: u8, k: int) -> bool {
    (b >> (k as u8)) & 1 == 1
}

/// The bits of `bytes`, each byte from its most significant bit down.
pub open spec fn unpack(bytes: Seq<u8>) -> Seq<bool> {
    Seq::new(8 * bytes.len(), |i: int| bit_at(bytes[i / 8], 7 - i % 8))
}

/// The number that `s` writes in base two.
pub open spec fn bits_value(s: Seq<bool>) -> nat
    decreases s.len(),
{
    if s.len() == 0 {
        0
    } else {
        2 * bits_value(s.drop_last()) + if s.last() {
            1nat
        } else {
            0nat
        }
    }
}

/// The number that `s` writes in two's complement.
pub open spec fn signed_value(s: Seq<bool>) -> int {
    if bits_value(s) >= pow2((s.len() - 1) as nat) {
        bits_value(s) - pow2(s.len())
    } else {
        bits_value(s) as int
    }
}

/// The `n` low-order bits of `x` in two's complement.
pub open spec fn int_bits(x: int, n: nat) -> Seq<bool>
    decreases n,
{
    if n == 0 {
        Seq::empty()
    } else {
        int_bits(x / 2, (n - 1) as nat).push(x % 2 == 1)
    }
}

/// `n` bits that are all unset.
pub open spec fn unset_bits(n: nat) -> Seq<bool> {
    Seq::new(n, |i: int| false)
}

/// How many unset bits fill `len` bits up to a whole number of bytes.
pub open spec fn padding(len: nat) -> nat {
    ((8 - len % 8) % 8) as nat
}

/// The bytes that hold `bits`, the last one filled up with unset bits.
pub open spec fn pack(bits: Seq<bool>) -> Seq<u8> {
    let padded = bits + unset_bits(padding(bits.len()));
    Seq::new(
        padded.len() / 8,
        |i: int| bits_value(padded.subrange(8 * i, 8 * i + 8)) as u8,
    )
}

pub proof fn lemma_int_bits_len(x: int, n: nat)
    ensures
        int_bits(x, n).len() == n,
    decreases n,
{
    if n > 0 {
        lemma_int_bits_len(x / 2, (n - 1) as nat);
    }
}

/// The remainder modulo `2p` is made of the lowest bit and the remainder of the half modulo `p`.
proof fn lemma_mod_by_halves(x: int, p: int)
    requires
        p > 0,
    ensures
        x % (2 * p) == 2 * ((x / 2) % p) + x % 2,
{
    let q = x / 2;
    lemma_fundamental_div_mod(q, p);
    assert(2 * (p * (q / p)) == (q / p) * (2 * p)) by (nonlinear_arith);
    lemma_fundamental_div_mod_converse(x, 2 * p, q / p, 2 * (q % p) + x % 2);
}

/// Reading the low-order bits of a number back gives it modulo a power of two.
pub proof fn lemma_value_of_int_bits(x: int, n: nat)
    ensures
        bits_value(int_bits(x, n)) == x % (pow2(n) as int),
    decreases n,
{
    if n == 0 {
        lemma2_to64();
        assert(x % 1 == 0);
    } else {
        let m = (n - 1) as nat;
        lemma_value_of_int_bits(x / 2, m);
        lemma_pow2_unfold(n);
        lemma_pow2_pos(m);
        lemma_mod_by_halves(x, pow2(m) as int);
        assert(int_bits(x, n).drop_last() =~= int_bits(x / 2, m));
    }
}

/// Numbers that agree modulo a power of two have the same low-order bits.
pub proof fn lemma_int_bits_congruent(x: int, y: int, n: nat)
    requires
        x % (pow2(n) as int) == y % (pow2(n) as int),
    ensures
        int_bits(x, n) == int_bits(y, n),
    decreases n,
{
    if n > 0 {
        let m = (n - 1) as nat;
        lemma_pow2_unfold(n);
        lemma_pow2_pos(m);
        lemma_mod_by_halves(x, pow2(m) as int);
        lemma_mod_by_halves(y, pow2(m) as int);
        lemma_int_bits_congruent(x / 2, y / 2, m);
    }
}

pub proof fn lemma_bits_value_bound(s: Seq<bool>)
    ensures
        bits_value(s) < pow2(s.len()),
    decreases s.len(),
{
    if s.len() == 0 {
        lemma2_to64();
    } else {
        lemma_bits_value_bound(s.drop_last());
        lemma_pow2_unfold(s.len());
    }
}

/// Two's complement gives back every number that fits.
pub proof fn lemma_signed_value_of_int_bits(x: int, n: nat)
    requires
        n > 0,
        -pow2((n - 1) as nat) <= x < pow2((n - 1) as nat),
    ensures
        signed_value(int_bits(x, n)) == x,
{
    lemma_value_of_int_bits(x, n);
    lemma_int_bits_len(x, n);
    lemma_pow2_unfold(n);
    let p = pow2(n) as int;
    if x >= 0 {
        lemma_small_mod(x as nat, p as nat);
    } else {
        lemma_fundamental_div_mod_converse(x, p, -1, x + p);
    }
}

proof fn lemma_byte_value(b: u8)
    ensures
        bits_value(Seq::new(8, |j: int| bit_at(b, 7 - j))) == b,
{
    let s = Seq::new(8, |j: int| bit_at(b, 7 - j));
    reveal_with_fuel(bits_value, 9);
    assert(s.drop_last().drop_last().drop_last().drop_last().drop_last().drop_last().drop_last().drop_last().len()
        == 0);
    assert(b == 128 * ((b >> 7) & 1) + 64 * ((b >> 6) & 1) + 32 * ((b >> 5) & 1) + 16 * ((b >> 4)
        & 1) + 8 * ((b >> 3) & 1) + 4 * ((b >> 2) & 1) + 2 * ((b >> 1) & 1) + ((b >> 0) & 1))
        by (bit_vector);
    assert(forall|k: u8| k < 8 ==> #[trigger] ((b >> k) & 1) == 0 || (b >> k) & 1 == 1)
        by (bit_vector);
}

/// Bytes are determined by their bits.
proof fn lemma_pack_of_unpacked(bytes: Seq<u8>, bits: Seq<bool>)
    requires
        unpack(bytes) == bits + unset_bits(padding(bits.len())),
    ensures
        bytes == pack(bits),
{
    let padded = bits + unset_bits(padding(bits.len()));
    assert(padded.len() == 8 * bytes.len());
    assert forall|i: int| 0 <= i < bytes.len() implies bytes[i] == #[trigger] pack(bits)[i] by {
        let part = Seq::new(8, |j: int| bit_at(bytes[i], 7 - j));
        assert(padded.subrange(8 * i, 8 * i + 8) =~= part) by {
            assert forall|j: int| 0 <= j < 8 implies padded.subrange(8 * i, 8 * i + 8)[j]
                == #[trigger] part[j] by {
                assert(unpack(bytes)[8 * i + j] == bit_at(bytes[(8 * i + j) / 8], 7 - (8 * i + j) % 8));
            }
        }
        lemma_byte_value(bytes[i]);
    }
    assert(bytes =~= pack(bits));
}

/// Bits are determined by the byte that they make up.
proof fn lemma_byte_bits(s: Seq<bool>)
    requires
        s.len() == 8,
    ensures
        forall|j: int| 0 <= j < 8 ==> bit_at(bits_value(s) as u8, 7 - j) == #[trigger] s[j],
{
    let one = |b: bool| if b { 1u8 } else { 0u8 };
    let (b0, b1, b2, b3) = (one(s[0]), one(s[1]), one(s[2]), one(s[3]));
    let (b4, b5, b6, b7) = (one(s[4]), one(s[5]), one(s[6]), one(s[7]));
    reveal_with_fuel(bits_value, 9);
    assert(s.drop_last().drop_last().drop_last().drop_last().drop_last().drop_last().drop_last().drop_last().len()
        == 0);
    let v = bits_value(s) as u8;
    assert(v == 128 * b0 + 64 * b1 + 32 * b2 + 16 * b3 + 8 * b4 + 4 * b5 + 2 * b6 + b7);
    assert((v >> 7) & 1 == b0 && (v >> 6) & 1 == b1 && (v >> 5) & 1 == b2 && (v >> 4) & 1 == b3 && (
    v >> 3) & 1 == b4 && (v >> 2) & 1 == b5 && (v >> 1) & 1 == b6 && (v >> 0) & 1 == b7)
        by (bit_vector)
        requires
            b0 <= 1,
            b1 <= 1,
            b2 <= 1,
            b3 <= 1,
            b4 <= 1,
            b5 <= 1,
            b6 <= 1,
            b7 <= 1,
            v == 128 * b0 + 64 * b1 + 32 * b2 + 16 * b3 + 8 * b4 + 4 * b5 + 2 * b6 + b7,
    ;
}

/// Unpacking what was packed gives the bits back, followed by the padding.
pub proof fn lemma_unpack_of_packed(bits: Seq<bool>)
    ensures
        unpack(pack(bits)) == bits + unset_bits(padding(bits.len())),
{
    let padded = bits + unset_bits(padding(bits.len()));
    assert(padded.len() % 8 == 0);
    assert forall|i: int| 0 <= i < padded.len() implies #[trigger] unpack(pack(bits))[i]
        == padded[i] by {
        let part = padded.subrange(8 * (i / 8), 8 * (i / 8) + 8);
        lemma_byte_bits(part);
        assert(part[i % 8] == padded[i]);
    }
    assert(unpack(pack(bits)) =~= padded);
}

/// A signed number has the low-order bits of the unsigned number that it is cast to.
pub proof fn lemma_int_bits_of_cast(x: i64, n: nat)
    requires
        n <= 64,
    ensures
        int_bits((x as u64) as int, n) == int_bits(x as int, n),
{
    assert(x >= 0 ==> x as u64 == x) by (bit_vector);
    assert(x < 0 ==> x as u64 == x + 0x1_0000_0000_0000_0000) by (bit_vector);
    lemma2_to64_rest();
    if x < 0 {
        let p = pow2(n) as int;
        let m = pow2((64 - n) as nat) as int;
        lemma_pow2_pos(n);
        lemma_pow2_adds(n, (64 - n) as nat);
        assert(p * m == m * p) by (nonlinear_arith);
        lemma_mod_multiples_vanish(m, x as int, p);
        lemma_int_bits_congruent(x as int, x + pow2(64), n);
    }
}

/// Masking a number keeps the low-order bits under the mask.
pub proof fn lemma_int_bits_of_masked(x: i64, mask: u64, n: nat)
    requires
        0 < n <= 12,
        mask == pow2(n) - 1,
    ensures
        int_bits(((x as u64) & mask) as int, n) == int_bits(x as int, n),
{
    let u = x as u64;
    lemma_u64_low_bits_mask_is_mod(u, n);
    lemma2_to64();
    if n < 12 {
        lemma_pow2_strictly_increases(n, 12);
    }
    lemma_pow2_pos(n);
    lemma_mod_twice(u as int, pow2(n) as int);
    lemma_int_bits_congruent((u & mask) as int, u as int, n);
    lemma_int_bits_of_cast(x, n);
}

/// A cast to a signed number reads the bits in two's complement.
pub proof fn lemma_cast_is_signed_value(raw: u64, taken: Seq<bool>)
    requires
        taken.len() == 64,
        raw == bits_value(taken) % pow2(64),
    ensures
        raw as i64 == signed_value(taken),
{
    lemma2_to64_rest();
    lemma_bits_value_bound(taken);
    lemma_small_mod(bits_value(taken), pow2(64));
    assert(raw < 0x8000_0000_0000_0000 ==> raw as i64 == raw) by (bit_vector);
    assert(raw >= 0x8000_0000_0000_0000 ==> raw as i64 == raw - 0x1_0000_0000_0000_0000)
        by (bit_vector);
}

/// How the sign bit of a number of `n` bits is tested and spread.
proof fn lemma_sign_extension(raw: u64, n: u8, taken: Seq<bool>)
    requires
        0 < n <= 64,
        taken.len() == n,
        raw == bits_value(taken) % pow2(64),
    ensures
        raw == bits_value(taken),
        raw & (1u64 << ((n - 1) as u8)) == 0 ==> raw as i64 == signed_value(taken),
        raw & (1u64 << ((n - 1) as u8)) != 0 ==> signed_value(taken) < 0,
        n < 64 ==> 1u64 << n > 0,
        n < 64 && raw & (1u64 << ((n - 1) as u8)) != 0 ==> (raw | !(((1u64 << n) - 1) as u64)) as i64
            == signed_value(taken),
{
    lemma_bits_value_bound(taken);
    lemma2_to64();
    lemma2_to64_rest();
    let m = (n - 1) as u8;
    lemma_pow2_unfold(n as nat);
    if n < 64 {
        lemma_pow2_strictly_increases(n as nat, 64);
        lemma_u64_shl_is_mul(1, n as u64);
    }
    lemma_small_mod(bits_value(taken), pow2(64));
    if m < 63 {
        lemma_pow2_strictly_increases(m as nat, 63);
    }
    lemma_u64_shl_is_mul(1, m as u64);
    let half = 1u64 << m;
    if n < 64 {
        let whole = 1u64 << n;
        assert(raw < whole ==> (raw & half != 0 <==> raw >= half)) by (bit_vector)
            requires
                m < 63,
                n == m + 1,
                half == 1u64 << m,
                whole == 1u64 << n,
        ;
        assert(raw < whole && raw >= half ==> (raw | !((whole - 1) as u64)) as i64 == raw - whole)
            by (bit_vector)
            requires
                m < 63,
                n == m + 1,
                half == 1u64 << m,
                whole == 1u64 << n,
        ;
        assert(half < 0x8000_0000_0000_0000 ==> half as i64 == half) by (bit_vector);
    } else {
        assert(raw & half != 0 <==> raw >= half) by (bit_vector)
            requires
                half == 1u64 << 63u8,
        ;
    }
    assert(raw < 0x8000_0000_0000_0000 ==> raw as i64 == raw) by (bit_vector);
}

/// A writer of single bits.
pub struct BitBuffer {
    bytes: Vec<u8>,
    current_byte: u8,
    bit_pos: u8,
}

impl BitBuffer {
    /// Fewer than eight bits wait in the current byte, and the rest of it is unset.
    pub closed spec fn wf(&self) -> bool {
        &&& self.bit_pos < 8
        &&& forall|k: u8| k < 8 - self.bit_pos ==> #[trigger] (self.current_byte >> k) & 1 == 0
    }

    /// The bits written so far.
    pub closed spec fn view(&self) -> Seq<bool> {
        unpack(self.bytes@) + Seq::new(
            self.bit_pos as nat,
            |i: int| bit_at(self.current_byte, 7 - i),
        )
    }

    pub fn new() -> (buffer: Self)
        ensures
            buffer.wf(),
            buffer@ == Seq::<bool>::empty(),
    {
        let buffer = Self { bytes: Vec::new(), current_byte: 0, bit_pos: 0 };
        assert(forall|k: u8| k < 8 ==> #[trigger] (0u8 >> k) & 1 == 0) by (bit_vector);
        assert(buffer@ =~= Seq::<bool>::empty());
        buffer
    }

    /// Appends one bit.
    pub fn write_bit(&mut self, bit: bool)
        requires
            old(self).wf(),
        ensures
            final(self).wf(),
            final(self)@ == old(self)@.push(bit),
    {
        let ghost before = self.current_byte;
        let ghost pos = self.bit_pos;
        if bit {
            self.current_byte = self.current_byte | (1u8 << (7 - self.bit_pos));
        }
        let ghost after = self.current_byte;
        proof {
            let m = (7 - pos) as u8;
            assert(forall|k: u8|
                m < 8 && k < 8 ==> #[trigger] ((before | (1u8 << m)) >> k) & 1 == (if k == m {
                    1u8
                } else {
                    (before >> k) & 1
                })) by (bit_vector);
            assert(forall|k: u8| #[trigger] (before >> k) & 1 == 0 || (before >> k) & 1 == 1)
                by (bit_vector);
            assert((before >> m) & 1 == 0);
            assert(forall|k: u8|
                k < 8 ==> #[trigger] (after >> k) & 1 == (if k == m {
                    if bit {
                        1u8
                    } else {
                        0u8
                    }
                } else {
                    (before >> k) & 1
                }));
        }
        self.bit_pos = self.bit_pos + 1;
        let ghost written = Seq::new(self.bit_pos as nat, |i: int| bit_at(after, 7 - i));
        assert(unpack(self.bytes@) + written =~= old(self)@.push(bit));
        if self.bit_pos == 8 {
            let ghost whole = self.bytes@;
            self.bytes.push(self.current_byte);
            self.current_byte = 0;
            self.bit_pos = 0;
            assert(forall|k: u8| k < 8 ==> #[trigger] (0u8 >> k) & 1 == 0) by (bit_vector);
            assert(unpack(self.bytes@) =~= unpack(whole) + written);
            assert(self@ =~= unpack(self.bytes@));
        }
    }

    /// Appends the `num_bits` low-order bits of `value`.
    pub fn write_bits(&mut self, value: u64, num_bits: u8)
        requires
            old(self).wf(),
            num_bits <= 64,
        ensures
            final(self).wf(),
            final(self)@ == old(self)@ + int_bits(value as int, num_bits as nat),
    {
        let mut i: u8 = num_bits;
        assert(self@ =~= old(self)@ + int_bits((value >> i) as int, 0));
        while i > 0
            invariant
                self.wf(),
                i <= num_bits <= 64,
                self@ == old(self)@ + int_bits((value >> i) as int, (num_bits - i) as nat),
            decreases i,
        {
            let ghost prefix = int_bits((value >> i) as int, (num_bits - i) as nat);
            i = i - 1;
            let w: u64 = value >> i;
            self.write_bit(w & 1 == 1);
            proof {
                assert(w & 1 == w % 2) by (bit_vector);
                if i < 63 {
                    assert((value >> i) / 2 == value >> ((i + 1) as u8)) by (bit_vector)
                        requires
                            i < 63,
                    ;
                } else {
                    assert(int_bits(w as int / 2, 0) =~= prefix);
                }
                assert(int_bits(w as int, (num_bits - i) as nat) == prefix.push(w % 2 == 1));
                assert(self@ =~= old(self)@ + prefix.push(w % 2 == 1));
            }
        }
        assert(value >> 0u8 == value) by (bit_vector);
    }

    /// The bytes that hold the written bits, the last one filled up with unset bits.
    pub fn finish(self) -> (bytes: Vec<u8>)
        requires
            self.wf(),
        ensures
            bytes@ == pack(self@),
    {
        let mut bytes = self.bytes;
        if self.bit_pos > 0 {
            bytes.push(self.current_byte);
        }
        proof {
            let bits = self@;
            assert(unpack(bytes@) =~= bits + unset_bits(padding(bits.len())));
            lemma_pack_of_unpacked(bytes@, bits);
        }
        bytes
    }
}

/// A reader of single bits.
#[derive(Clone, Copy)]
pub struct BitReader<'a> {
    data: &'a [u8],
    byte_pos: usize,
    bit_pos: u8,
}

impl<'a> BitReader<'a> {
    pub closed spec fn wf(&self) -> bool {
        &&& self.bit_pos < 8
        &&& self.byte_pos <= self.data@.len()
        &&& self.byte_pos == self.data@.len() ==> self.bit_pos == 0
    }

    /// The bits that are left to read.
    pub closed spec fn view(&self) -> Seq<bool> {
        unpack(self.data@).skip(8 * self.byte_pos + self.bit_pos)
    }

    pub fn new(data: &'a [u8]) -> (reader: Self)
        ensures
            reader.wf(),
            reader@ == unpack(data@),
    {
        let reader = Self { data, byte_pos: 0, bit_pos: 0 };
        assert(reader@ =~= unpack(data@));
        reader
    }

    /// Whether `num_bits` more bits can be read.
    pub fn has_bits(&self, num_bits: u8) -> (b: bool)
        requires
            self.wf(),
            num_bits <= 64,
        ensures
            b == (num_bits <= self@.len()),
    {
        let bytes_left: usize = self.data.len() - self.byte_pos;
        bytes_left > 8 || 8 * bytes_left >= num_bits as usize + self.bit_pos as usize
    }

    /// Takes the next bit.
    pub fn read_bit(&mut self) -> (bit: bool)
        requires
            old(self).wf(),
            old(self)@.len() > 0,
        ensures
            final(self).wf(),
            bit == old(self)@[0],
            final(self)@ == old(self)@.skip(1),
    {
        let bit = (self.data[self.byte_pos] >> (7 - self.bit_pos)) & 1 == 1;
        self.bit_pos = self.bit_pos + 1;
        if self.bit_pos == 8 {
            self.byte_pos = self.byte_pos + 1;
            self.bit_pos = 0;
        }
        assert(self@ =~= old(self)@.skip(1));
        bit
    }

    /// Takes the next `num_bits` bits as an unsigned number, of which 64 bits are kept.
    pub fn read_bits(&mut self, num_bits: u8) -> (value: u64)
        requires
            old(self).wf(),
            num_bits <= old(self)@.len(),
        ensures
            final(self).wf(),
            value == bits_value(old(self)@.take(num_bits as int)) % pow2(64),
            final(self)@ == old(self)@.skip(num_bits as int),
    {
        let ghost all = self@;
        let mut value: u64 = 0;
        let mut i: u8 = 0;
        proof {
            lemma2_to64();
            lemma2_to64_rest();
            assert(all.skip(0) =~= all);
            assert(bits_value(all.take(0)) == 0);
        }
        while i < num_bits
            invariant
                self.wf(),
                i <= num_bits <= all.len(),
                pow2(64) == 0x1_0000_0000_0000_0000,
                self@ == all.skip(i as int),
                value == bits_value(all.take(i as int)) % pow2(64),
            decreases num_bits - i,
        {
            let bit = self.read_bit();
            let low: u64 = if bit {
                1
            } else {
                0
            };
            let ghost before = value;
            value = (value << 1) | low;
            proof {
                assert(low == 0 || low == 1 ==> ((before << 1) | low) == (2 * before + low)
                    % 0x1_0000_0000_0000_0000) by (bit_vector);
                assert(all.take(i + 1).drop_last() =~= all.take(i as int));
                assert(all.skip(i as int).skip(1) =~= all.skip(i + 1));
                let v = bits_value(all.take(i as int)) as int;
                lemma_fundamental_div_mod(v, pow2(64) as int);
            }
            i = i + 1;
        }
        value
    }

    /// Takes the next `num_bits` bits as a number in two's complement.
    pub fn read_bits_signed(&mut self, num_bits: u8) -> (value: i64)
        requires
            old(self).wf(),
            0 < num_bits <= 64,
            num_bits <= old(self)@.len(),
            num_bits == 64 ==> signed_value(old(self)@.take(64)) >= 0,
        ensures
            final(self).wf(),
            value == signed_value(old(self)@.take(num_bits as int)),
            final(self)@ == old(self)@.skip(num_bits as int),
    {
        let ghost taken = self@.take(num_bits as int);
        let raw = self.read_bits(num_bits);
        let sign_bit: u64 = 1u64 << (num_bits - 1);
        proof {
            lemma_sign_extension(raw, num_bits, taken);
        }
        if raw & sign_bit != 0 {
            (raw | !((1u64 << num_bits) - 1)) as i64
        } else {
            raw as i64
        }
    }
}

} // verus!
