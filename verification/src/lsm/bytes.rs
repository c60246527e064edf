//! Numbers as little-endian bytes, and checksums.
use byteorder::{LittleEndian, ReadBytesExt, WriteBytesExt};
use crc32fast::Hasher;
use vstd::arithmetic::div_mod::*;
use vstd::arithmetic::power::*;
use vstd::prelude::*;

verus! {

/// The `n` low-order bytes of `x` in two's complement, the lowest first.
pub open spec fn le_bytes(x: int, n: nat) -> Seq<u8>
    decreases n,
{
    if n == 0 {
        Seq::empty()
    } else {
        seq![(x % 256) as u8] + le_bytes(x / 256, (n - 1) as nat)
    }
}

/// The number whose bytes are `s`, the lowest first.
pub open spec fn le_value(s: Seq<u8>) -> nat
    decreases s.len(),
{
    if s.len() == 0 {
        0
    } else {
        s[0] as nat + 256 * le_value(s.skip(1))
    }
}

/// The number that `x`, of 64 bits, is in two's complement.
pub open spec fn as_signed(x: nat) -> int {
    if x < 0x8000_0000_0000_0000 {
        x as int
    } else {
        x - 0x1_0000_0000_0000_0000
    }
}

pub proof fn lemma_le_bytes_len(x: int, n: nat)
    ensures
        le_bytes(x, n).len() == n,
    decreases n,
{
    if n > 0 {
        lemma_le_bytes_len(x / 256, (n - 1) as nat);
    }
}

/// Reading the low-order bytes of a number back gives it modulo a power of 256.
pub proof fn lemma_value_of_le_bytes(x: int, n: nat)
    ensures
        le_value(le_bytes(x, n)) == x % pow(256, n),
    decreases n,
{
    if n == 0 {
        reveal(pow);
        assert(x % 1 == 0);
    } else {
        let m = (n - 1) as nat;
        let p = pow(256, m);
        lemma_value_of_le_bytes(x / 256, m);
        lemma_pow_positive(256, m);
        reveal(pow);
        assert(le_bytes(x, n).skip(1) =~= le_bytes(x / 256, m));
        lemma_mod_by_bytes(x, p);
    }
}

/// Numbers that agree modulo a power of 256 have the same low-order bytes.
pub proof fn lemma_le_bytes_congruent(x: int, y: int, n: nat)
    requires
        x % pow(256, n) == y % pow(256, n),
    ensures
        le_bytes(x, n) == le_bytes(y, n),
    decreases n,
{
    if n > 0 {
        let m = (n - 1) as nat;
        let p = pow(256, m);
        lemma_pow_positive(256, m);
        reveal(pow);
        lemma_mod_by_bytes(x, p);
        lemma_mod_by_bytes(y, p);
        lemma_le_bytes_congruent(x / 256, y / 256, m);
    }
}

/// The bytes of a number that was read are those that it was read from.
pub proof fn lemma_bytes_of_le_value(s: Seq<u8>)
    ensures
        le_bytes(le_value(s) as int, s.len()) == s,
    decreases s.len(),
{
    if s.len() == 0 {
        assert(le_bytes(0, 0) =~= s);
    } else {
        let rest = s.skip(1);
        lemma_bytes_of_le_value(rest);
        let v = le_value(s) as int;
        lemma_fundamental_div_mod_converse(v, 256, le_value(rest) as int, s[0] as int);
        assert(seq![s[0]] + rest =~= s);
    }
}

/// A number of 64 bits has the same bytes in two's complement.
pub proof fn lemma_bytes_of_signed(x: nat)
    requires
        x < 0x1_0000_0000_0000_0000,
    ensures
        i64::MIN <= as_signed(x) <= i64::MAX,
        le_bytes(as_signed(x), 8) == le_bytes(x as int, 8),
{
    lemma_powers_of_256();
    let p = 0x1_0000_0000_0000_0000;
    lemma_small_mod(x, p as nat);
    if x >= 0x8000_0000_0000_0000 {
        lemma_fundamental_div_mod_converse(x - p, p, -1, x as int);
    }
    lemma_le_bytes_congruent(as_signed(x), x as int, 8);
}

/// Bytes write no number above those of their length.
pub proof fn lemma_le_value_bound(s: Seq<u8>)
    ensures
        le_value(s) < pow(256, s.len()),
    decreases s.len(),
{
    reveal(pow);
    if s.len() > 0 {
        lemma_le_value_bound(s.skip(1));
    }
}

/// The remainder modulo `256p` is made of the lowest byte and the remainder of the rest modulo
/// `p`.
proof fn lemma_mod_by_bytes(x: int, p: int)
    requires
        p > 0,
    ensures
        x % (256 * p) == 256 * ((x / 256) % p) + x % 256,
{
    let q = x / 256;
    lemma_fundamental_div_mod(q, p);
    assert(256 * (p * (q / p)) == (q / p) * (256 * p)) by (nonlinear_arith);
    lemma_fundamental_div_mod_converse(x, 256 * p, q / p, 256 * (q % p) + x % 256);
}

/// A number that is cut down to 32 bits keeps its four low-order bytes.
pub proof fn lemma_truncated_to_u32(x: usize)
    ensures
        le_bytes((x as u32) as int, 4) == le_bytes(x as int, 4),
{
    assert((x as u32) as int == x as int % 0x1_0000_0000) by (bit_vector);
    lemma_powers_of_256();
    lemma_mod_twice(x as int, 0x1_0000_0000);
    lemma_le_bytes_congruent((x as u32) as int, x as int, 4);
}

pub proof fn lemma_powers_of_256()
    ensures
        pow(256, 2) == 0x1_0000,
        pow(256, 4) == 0x1_0000_0000,
        pow(256, 8) == 0x1_0000_0000_0000_0000,
{
    reveal(pow);
    reveal_with_fuel(pow, 9);
}

/// An unsigned number of 32 bits is read back.
pub proof fn lemma_u32_round_trip(x: u32)
    ensures
        le_bytes(x as int, 4).len() == 4,
        le_value(le_bytes(x as int, 4)) == x,
{
    lemma_le_bytes_len(x as int, 4);
    lemma_value_of_le_bytes(x as int, 4);
    lemma_powers_of_256();
    lemma_small_mod(x as nat, 0x1_0000_0000);
}

/// An unsigned number of 64 bits is read back.
pub proof fn lemma_u64_round_trip(x: u64)
    ensures
        le_bytes(x as int, 8).len() == 8,
        le_value(le_bytes(x as int, 8)) == x,
{
    lemma_le_bytes_len(x as int, 8);
    lemma_value_of_le_bytes(x as int, 8);
    lemma_powers_of_256();
    lemma_small_mod(x as nat, 0x1_0000_0000_0000_0000);
}

/// A signed number of 64 bits is read back.
pub proof fn lemma_i64_round_trip(x: i64)
    ensures
        le_bytes(x as int, 8).len() == 8,
        as_signed(le_value(le_bytes(x as int, 8))) == x,
{
    lemma_le_bytes_len(x as int, 8);
    lemma_value_of_le_bytes(x as int, 8);
    lemma_powers_of_256();
    let p = 0x1_0000_0000_0000_0000;
    if x >= 0 {
        lemma_small_mod(x as nat, p as nat);
    } else {
        lemma_fundamental_div_mod_converse(x as int, p, -1, x + p);
    }
}

/// Appends a number with byteorder's `WriteBytesExt::write_u16::<LittleEndian>`, which writes its
/// two bytes, the lowest first. Writing into a vector appends and does not fail.
#[verifier::external_body]
pub(crate) fn put_u16(out: &mut Vec<u8>, n: u16)
    ensures
        final(out)@ == old(out)@ + le_bytes(n as int, 2),
{
    out.write_u16::<LittleEndian>(n).unwrap();
}

/// Appends a number with byteorder's `WriteBytesExt::write_u32::<LittleEndian>`, which writes its
/// four bytes, the lowest first. Writing into a vector appends and does not fail.
#[verifier::external_body]
pub(crate) fn put_u32(out: &mut Vec<u8>, n: u32)
    ensures
        final(out)@ == old(out)@ + le_bytes(n as int, 4),
{
    out.write_u32::<LittleEndian>(n).unwrap();
}

/// Appends a number with byteorder's `WriteBytesExt::write_u64::<LittleEndian>`, which writes its
/// eight bytes, the lowest first. Writing into a vector appends and does not fail.
#[verifier::external_body]
pub(crate) fn put_u64(out: &mut Vec<u8>, n: u64)
    ensures
        final(out)@ == old(out)@ + le_bytes(n as int, 8),
{
    out.write_u64::<LittleEndian>(n).unwrap();
}

/// Appends a number with byteorder's `WriteBytesExt::write_i64::<LittleEndian>`, which writes the
/// eight bytes of its two's complement, the lowest first. Writing into a vector appends and does
/// not fail.
#[verifier::external_body]
pub(crate) fn put_i64(out: &mut Vec<u8>, n: i64)
    ensures
        final(out)@ == old(out)@ + le_bytes(n as int, 8),
{
    out.write_i64::<LittleEndian>(n).unwrap();
}

/// Reads the number that `cursor` starts with by byteorder's
/// `ReadBytesExt::read_u32::<LittleEndian>`, which takes four bytes as the number's, the lowest
/// first. It fails exactly where there are fewer.
#[verifier::external_body]
pub(crate) fn get_u32(cursor: &[u8]) -> (n: Option<u32>)
    ensures
        n is Some <==> cursor@.len() >= 4,
        n matches Some(v) ==> v == le_value(cursor@.take(4)),
{
    let mut reader = cursor;
    reader.read_u32::<LittleEndian>().ok()
}

/// Reads the number that `cursor` starts with by byteorder's
/// `ReadBytesExt::read_u64::<LittleEndian>`, which takes eight bytes as the number's, the lowest
/// first. It fails exactly where there are fewer.
#[verifier::external_body]
pub(crate) fn get_u64(cursor: &[u8]) -> (n: Option<u64>)
    ensures
        n is Some <==> cursor@.len() >= 8,
        n matches Some(v) ==> v == le_value(cursor@.take(8)),
{
    let mut reader = cursor;
    reader.read_u64::<LittleEndian>().ok()
}

/// Reads the number that `cursor` starts with by byteorder's
/// `ReadBytesExt::read_i64::<LittleEndian>`, which takes eight bytes as those of the number's two's
/// complement, the lowest first. It fails exactly where there are fewer.
#[verifier::external_body]
pub(crate) fn get_i64(cursor: &[u8]) -> (n: Option<i64>)
    ensures
        n is Some <==> cursor@.len() >= 8,
        n matches Some(v) ==> v == as_signed(le_value(cursor@.take(8))),
{
    let mut reader = cursor;
    reader.read_i64::<LittleEndian>().ok()
}

/// The CRC-32 (IEEE) checksum of `data`, as crc32fast computes it.
pub uninterp spec fn crc32(data: Seq<u8>) -> u32;

/// Feeds `data` to a fresh crc32fast `Hasher` (`new`, `update`, `finalize`) and returns its
/// checksum, which depends on the bytes alone.
#[verifier::external_body]
pub(crate) fn checksum(data: &[u8]) -> (crc: u32)
    ensures
        crc == crc32(data@),
{
    let mut hasher = Hasher::new();
    hasher.update(data);
    hasher.finalize()
}

} // verus!
