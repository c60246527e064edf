//! What the codes of timestamps and doubles look like, bit by bit.
use super::bits::{
    bits_value, int_bits, lemma_int_bits_len, lemma_unpack_of_packed, lemma_value_of_int_bits, pack,
    unpack,
};
use super::delta::{
    delta_at, dod_at, dod_code, lemma_parse_short, lemma_parse_signed, lemma_prefixes, parse_dod,
    parse_timestamp, parse_timestamps, timestamp_code, timestamp_stream,
};
use super::xor_float::{
    fits_window, is_window, lemma_leading_zeros, lemma_meaningful_bits, lemma_shift_into_window,
    lemma_trailing_zeros, next_window, no_window, parse_value, parse_values, stream_has_a_window,
    value_appends_its_exclusive_or, value_stream, window_after, xor_code,
};
use vstd::arithmetic::div_mod::*;
use vstd::arithmetic::power2::*;
use vstd::bits::*;
use vstd::prelude::*;
use vstd::std_specs::bits::{u64_leading_zeros, u64_trailing_zeros};

verus! {

/// Bits fill bytes from the most significant one down, as few bytes as hold them, and what is left
/// of the last byte is unset.
pub proof fn bits_fill_bytes_from_the_top(bits: Seq<bool>)
    ensures
        pack(bits).len() == (bits.len() + 7) / 8,
        forall|i: int|
            0 <= i < bits.len() ==> (#[trigger] bits[i] <==> (pack(bits)[i / 8] >> ((7 - i
                % 8) as u8)) & 1 == 1),
        forall|i: int|
            bits.len() <= i < 8 * pack(bits).len() ==> (#[trigger] (pack(bits)[i / 8] >> ((7 - i
                % 8) as u8)) & 1) != 1,
{
    let bytes = pack(bits);
    lemma_unpack_of_packed(bits);
    assert forall|i: int| 0 <= i < bits.len() implies (#[trigger] bits[i] <==> (bytes[i / 8] >> ((7
        - i % 8) as u8)) & 1 == 1) by {
        assert(unpack(bytes)[i] == bits[i]);
    }
    assert forall|i: int| bits.len() <= i < 8 * bytes.len() implies (#[trigger] (bytes[i / 8] >> ((7
        - i % 8) as u8)) & 1) != 1 by {
        assert(!unpack(bytes)[i]);
    }
}

/// Bits behind others stand for the lower powers of two.
pub proof fn bits_have_places(bits: Seq<bool>, more: Seq<bool>)
    ensures
        bits_value(seq![true]) == 1,
        bits_value(seq![false]) == 0,
        bits_value(bits + more) == bits_value(bits) * pow2(more.len()) + bits_value(more),
    decreases more.len(),
{
    reveal_with_fuel(bits_value, 2);
    if more.len() == 0 {
        assert(bits + more =~= bits);
        lemma2_to64();
    } else {
        let before = more.drop_last();
        bits_have_places(bits, before);
        assert((bits + more).drop_last() =~= bits + before);
        lemma_pow2_unfold(more.len());
        let (v, p) = (bits_value(bits) as int, pow2(before.len()) as int);
        assert(2 * (v * p) == v * (2 * p)) by (nonlinear_arith);
    }
}

/// The first timestamp is stored whole, the second as its difference from the first, and each
/// later one as the code of the change of that difference; all modulo 2^64.
pub proof fn timestamp_adds_its_code(ts: Seq<i64>, t: i64)
    ensures
        ({
            let n = ts.len() as int;
            let stream = timestamp_stream(ts);
            let more = timestamp_stream(ts.push(t));
            let code = more.skip(stream.len() as int);
            &&& more == stream + code
            &&& n == 0 ==> code.len() == 64 && bits_value(code) == (t as int) % (pow2(64) as int)
            &&& n == 1 ==> code.len() == 64 && bits_value(code) == (t - ts[0]) % (pow2(64) as int)
            &&& n >= 2 ==> exists|dod: i64|
                {
                    &&& code == #[trigger] dod_code(dod)
                    &&& (dod - ((t - ts[n - 1]) - (ts[n - 1] - ts[n - 2]))) % (pow2(64) as int) == 0
                }
        }),
{
    let n = ts.len() as int;
    let all = ts.push(t);
    let stream = timestamp_stream(ts);
    let code = timestamp_code(all, n);
    lemma2_to64_rest();
    assert(all.drop_last() =~= ts);
    assert(timestamp_stream(all).skip(stream.len() as int) =~= code);
    if n == 0 {
        lemma_int_bits_len(t as int, 64);
        lemma_value_of_int_bits(t as int, 64);
    } else if n == 1 {
        let delta = delta_at(all, 1);
        lemma_int_bits_len(delta as int, 64);
        lemma_value_of_int_bits(delta as int, 64);
        lemma_wrapping(t, ts[0]);
    } else {
        let dod = dod_at(all, n);
        let (a, b) = (delta_at(all, n), delta_at(all, n - 1));
        lemma_wrapping(t, ts[n - 1]);
        lemma_wrapping(ts[n - 1], ts[n - 2]);
        lemma_wrapping(a, b);
        assert(code == dod_code(dod));
    }
}

/// A wrapping difference differs from the difference by no more than a multiple of 2^64.
proof fn lemma_wrapping(a: i64, b: i64)
    ensures
        ({
            let w = a.wrapping_sub(b);
            let d = a - b;
            &&& w == d || w == d + 0x1_0000_0000_0000_0000 || w == d - 0x1_0000_0000_0000_0000
            &&& (w as int) % 0x1_0000_0000_0000_0000 == d % 0x1_0000_0000_0000_0000
        }),
{
}

/// A change of the difference takes 1 bit if it is zero, and otherwise 9, 12, 16 or 68 bits, by the
/// smallest range that holds it: the prefix tells which, and the other bits are the change, modulo
/// a power of two.
pub proof fn code_of_a_change(dod: i64)
    ensures
        ({
            let code = dod_code(dod);
            let x = dod as int;
            if x == 0 {
                code == seq![false]
            } else if -63 <= x <= 64 {
                code.len() == 9 && code.take(2) == seq![true, false] && bits_value(code.skip(2))
                    == x % 128
            } else if -255 <= x <= 256 {
                code.len() == 12 && code.take(3) == seq![true, true, false] && bits_value(
                    code.skip(3),
                ) == x % 512
            } else if -2047 <= x <= 2048 {
                code.len() == 16 && code.take(4) == seq![true, true, true, false] && bits_value(
                    code.skip(4),
                ) == x % 4096
            } else {
                code.len() == 68 && code.take(4) == seq![true, true, true, true] && bits_value(
                    code.skip(4),
                ) == x % 0x1_0000_0000_0000_0000
            }
        }),
{
    let code = dod_code(dod);
    let x = dod as int;
    lemma_prefixes();
    lemma2_to64();
    lemma2_to64_rest();
    lemma_int_bits_len(x, 7);
    lemma_int_bits_len(x, 9);
    lemma_int_bits_len(x, 12);
    lemma_int_bits_len(x, 64);
    lemma_value_of_int_bits(x, 7);
    lemma_value_of_int_bits(x, 9);
    lemma_value_of_int_bits(x, 12);
    lemma_value_of_int_bits(x, 64);
    if x == 0 {
    } else if -63 <= x <= 64 {
        assert(code.take(2) =~= seq![true, false]);
        assert(code.skip(2) =~= int_bits(x, 7));
    } else if -255 <= x <= 256 {
        assert(code.take(3) =~= seq![true, true, false]);
        assert(code.skip(3) =~= int_bits(x, 9));
    } else if -2047 <= x <= 2048 {
        assert(code.take(4) =~= seq![true, true, true, false]);
        assert(code.skip(4) =~= int_bits(x, 12));
    } else {
        assert(code.take(4) =~= seq![true, true, true, true]);
        assert(code.skip(4) =~= int_bits(x, 64));
    }
}

/// A code is read by its prefix, also where a shorter code would do.
pub proof fn every_code_of_a_change_is_read(dod: i64, tail: Seq<bool>)
    ensures
        parse_dod(seq![false] + tail) == Some((0i64, tail)),
        -63 <= dod <= 64 ==> parse_dod(seq![true, false] + int_bits(dod as int, 7) + tail) == Some(
            (dod, tail),
        ),
        -255 <= dod <= 256 ==> parse_dod(
            seq![true, true, false] + int_bits(dod as int, 9) + tail,
        ) == Some((dod, tail)),
        -2047 <= dod <= 2048 ==> parse_dod(
            seq![true, true, true, false] + int_bits(dod as int, 12) + tail,
        ) == Some((dod, tail)),
        parse_dod(seq![true, true, true, true] + int_bits(dod as int, 64) + tail) == Some(
            (dod, tail),
        ),
{
    lemma2_to64();
    lemma2_to64_rest();
    lemma_int_bits_len(dod as int, 7);
    lemma_int_bits_len(dod as int, 9);
    lemma_int_bits_len(dod as int, 12);
    lemma_int_bits_len(dod as int, 64);
    assert((seq![false] + tail).skip(1) =~= tail);
    if -63 <= dod <= 64 {
        lemma_parse_short(seq![true, false], dod, 7, tail);
    }
    if -255 <= dod <= 256 {
        lemma_parse_short(seq![true, true, false], dod, 9, tail);
    }
    if -2047 <= dod <= 2048 {
        lemma_parse_short(seq![true, true, true, false], dod, 12, tail);
    }
    lemma_parse_signed(seq![true, true, true, true], dod, 64, tail);
}

/// A code that is cut short is not read.
pub proof fn cut_code_of_a_change_is_not_read(dod: i64, n: int)
    requires
        0 <= n < dod_code(dod).len(),
    ensures
        parse_dod(dod_code(dod).take(n)) is None,
{
    let code = dod_code(dod);
    let cut = code.take(n);
    code_of_a_change(dod);
    if dod != 0 {
        let k = if -63 <= dod <= 64 {
            2int
        } else if -255 <= dod <= 256 {
            3int
        } else {
            4int
        };
        assert forall|i: int| 0 <= i < k && i < n implies cut[i] == #[trigger] code.take(k)[i] by {}
        assert(n > 0 ==> cut[0] == code.take(k)[0]);
        assert(n > 1 ==> cut[1] == code.take(k)[1]);
        assert(n > 2 && k > 2 ==> cut[2] == code.take(k)[2]);
        assert(n > 3 && k > 3 ==> cut[3] == code.take(k)[3]);
    }
}

/// The first double is stored whole. Each later one is stored as its exclusive or with the one
/// before it: a single unset bit where they are equal; two bits and those inside the window where
/// it has at least the window's leading and trailing zeros; and otherwise two bits, five for the
/// leading zeros, at most 31, six for the number of bits between the zeros, and these bits, which
/// are the next window.
pub proof fn value_adds_its_code(values: Seq<u64>, next: u64)
    ensures
        ({
            let stream = value_stream(values);
            let more = value_stream(values.push(next));
            let code = more.skip(stream.len() as int);
            let (before, after) = (window_after(values), window_after(values.push(next)));
            &&& more == stream + code
            &&& values.len() == 0 ==> {
                &&& code.len() == 64
                &&& bits_value(code) == next
                &&& after == (64int, 0int)
            }
            &&& values.len() > 0 ==> {
                let x = next ^ values.last();
                let (leading, trailing) = (u64_leading_zeros(x), u64_trailing_zeros(x) as int);
                if x == 0 {
                    &&& code == seq![false]
                    &&& after == before
                } else if leading >= before.0 && trailing >= before.1 {
                    &&& code.len() == 66 - before.0 - before.1
                    &&& code.take(2) == seq![true, false]
                    &&& bits_value(code.skip(2)) * pow2(before.1 as nat) == x
                    &&& after == before
                } else {
                    let kept = if leading < 31 {
                        leading
                    } else {
                        31
                    };
                    let inside = 64 - kept - trailing;
                    &&& code.len() == 13 + inside
                    &&& code.take(2) == seq![true, true]
                    &&& bits_value(code.subrange(2, 7)) == kept
                    &&& bits_value(code.subrange(7, 13)) == inside % 64
                    &&& bits_value(code.skip(13)) * pow2(trailing as nat) == x
                    &&& after == (kept, trailing)
                }
            }
        }),
{
    let stream = value_stream(values);
    let all = values.push(next);
    let code = value_stream(all).skip(stream.len() as int);
    assert(all.drop_last() =~= values);
    if values.len() == 0 {
        lemma_int_bits_len(next as int, 64);
        lemma_value_of_int_bits(next as int, 64);
        lemma2_to64_rest();
        lemma_small_mod(next as nat, pow2(64));
        assert(code =~= int_bits(next as int, 64));
    } else {
        let x = next ^ values.last();
        let window = window_after(values);
        value_appends_its_exclusive_or(values, next);
        stream_has_a_window(values);
        assert(code =~= xor_code(x, window));
        lemma_xor_code(x, window);
    }
}

proof fn lemma_inside(x: u64, window: (int, int))
    requires
        is_window(window),
        fits_window(x, window),
    ensures
        ({
            let inside = int_bits(
                x as int / (pow2(window.1 as nat) as int),
                (64 - window.0 - window.1) as nat,
            );
            &&& inside.len() == 64 - window.0 - window.1
            &&& bits_value(inside) * pow2(window.1 as nat) == x
        }),
{
    let meaningful = (64 - window.0 - window.1) as nat;
    let trailing = window.1 as u8;
    let p = pow2(window.1 as nat);
    let value = x >> trailing;
    lemma_leading_zeros(x);
    lemma_trailing_zeros(x, trailing);
    lemma_u64_shr_is_div(x, trailing as u64);
    lemma_pow2_pos(window.1 as nat);
    lemma_pow2_adds(window.1 as nat, meaningful);
    let above = (64 - u64_leading_zeros(x)) as nat;
    if above < 64 - window.0 {
        lemma_pow2_strictly_increases(above, (64 - window.0) as nat);
    }
    lemma_multiply_divide_lt(x as int, p as int, pow2(meaningful) as int);
    lemma_int_bits_len(x as int / (p as int), meaningful);
    lemma_value_of_int_bits(x as int / (p as int), meaningful);
    lemma_small_mod(value as nat, pow2(meaningful));
    lemma_shift_into_window(value, meaningful, trailing);
}

proof fn lemma_xor_code(x: u64, window: (int, int))
    requires
        window == no_window() || is_window(window),
    ensures
        ({
            let code = xor_code(x, window);
            let after = next_window(x, window);
            let (leading, trailing) = (u64_leading_zeros(x), u64_trailing_zeros(x) as int);
            if x == 0 {
                &&& code == seq![false]
                &&& after == window
            } else if leading >= window.0 && trailing >= window.1 {
                &&& code.len() == 66 - window.0 - window.1
                &&& code.take(2) == seq![true, false]
                &&& bits_value(code.skip(2)) * pow2(window.1 as nat) == x
                &&& after == window
            } else {
                let kept = if leading < 31 {
                    leading
                } else {
                    31
                };
                let inside = 64 - kept - trailing;
                &&& code.len() == 13 + inside
                &&& code.take(2) == seq![true, true]
                &&& bits_value(code.subrange(2, 7)) == kept
                &&& bits_value(code.subrange(7, 13)) == inside % 64
                &&& bits_value(code.skip(13)) * pow2(trailing as nat) == x
                &&& after == (kept, trailing)
            }
        }),
{
    let code = xor_code(x, window);
    if x == 0 {
    } else if fits_window(x, window) {
        lemma_meaningful_bits(x);
        lemma_inside(x, window);
        assert(code.take(2) =~= seq![true, false]);
        assert(code.skip(2) =~= int_bits(
            x as int / (pow2(window.1 as nat) as int),
            (64 - window.0 - window.1) as nat,
        ));
    } else {
        let next = next_window(x, window);
        let inside = 64 - next.0 - next.1;
        lemma_meaningful_bits(x);
        lemma_inside(x, next);
        lemma_int_bits_len(next.0, 5);
        lemma_int_bits_len(inside, 6);
        lemma_value_of_int_bits(next.0, 5);
        lemma_value_of_int_bits(inside, 6);
        lemma2_to64();
        lemma_small_mod(next.0 as nat, 32);
        assert(code.take(2) =~= seq![true, true]);
        assert(code.subrange(2, 7) =~= int_bits(next.0, 5));
        assert(code.subrange(7, 13) =~= int_bits(inside, 6));
        assert(code.skip(13) =~= int_bits(x as int / (pow2(next.1 as nat) as int), inside as nat));
    }
}

/// A code is read by its first bits: a single unset bit repeats the last double; behind two bits
/// stand those inside the last window; and behind two others the leading zeros, the number of bits
/// between the zeros, and these bits, which are placed above the trailing zeros and say where the
/// double differs from the last one. Of that number, 64 is written as zero where there are no
/// leading zeros.
pub proof fn every_code_of_a_value_is_read(
    done: Seq<u64>,
    window: (int, int),
    leading: int,
    inside: nat,
    bits: u64,
    tail: Seq<bool>,
)
    requires
        done.len() > 0,
    ensures
        parse_value(seq![false] + tail, done, window) == Some((done.last(), window, tail)),
        window.0 >= 0 && 0 <= window.1 < 64 && window.0 + inside + window.1 == 64 && bits < pow2(
            inside,
        ) ==> parse_value(
            seq![true, false] + int_bits(bits as int, inside) + tail,
            done,
            window,
        ) == Some((done.last() ^ ((bits * pow2(window.1 as nat)) as u64), window, tail)),
        0 <= leading <= 31 && 0 < inside && leading + inside <= 64 && bits < pow2(inside)
            ==> parse_value(
            seq![true, true] + int_bits(leading, 5) + int_bits(inside as int, 6) + int_bits(
                bits as int,
                inside,
            ) + tail,
            done,
            window,
        ) == Some(
            (
                done.last() ^ ((bits * pow2((64 - leading - inside) as nat)) as u64),
                (leading, 64 - leading - inside),
                tail,
            ),
        ),
{
    let short = int_bits(bits as int, inside);
    let last = done.last();
    assert((seq![false] + tail).skip(1) =~= tail);
    lemma_int_bits_len(bits as int, inside);
    lemma_value_of_int_bits(bits as int, inside);
    if bits < pow2(inside) {
        lemma_small_mod(bits as nat, pow2(inside));
    }
    assert((short + tail).take(inside as int) =~= short);
    assert((short + tail).skip(inside as int) =~= tail);
    let a = seq![true, false] + short + tail;
    assert(a.skip(2) =~= short + tail);
    if 0 <= leading <= 31 && 0 < inside && leading + inside <= 64 {
        let b = seq![true, true] + int_bits(leading, 5) + int_bits(inside as int, 6) + short + tail;
        lemma_int_bits_len(leading, 5);
        lemma_int_bits_len(inside as int, 6);
        lemma_value_of_int_bits(leading, 5);
        lemma_value_of_int_bits(inside as int, 6);
        lemma2_to64();
        lemma_small_mod(leading as nat, 32);
        if inside < 64 {
            lemma_small_mod(inside, 64);
        }
        assert(b.subrange(2, 7) =~= int_bits(leading, 5));
        assert(b.subrange(7, 13) =~= int_bits(inside as int, 6));
        assert(b.skip(13) =~= short + tail);
    }
}

/// Decoding some timestamps and then some more is decoding all of them.
pub proof fn timestamps_are_decoded_in_turn(bits: Seq<bool>, done: Seq<i64>, n: nat, more: nat)
    ensures
        parse_timestamps(bits, done, n + more) == match parse_timestamps(bits, done, n) {
            Some((some, rest)) => parse_timestamps(rest, some, more),
            None => None,
        },
    decreases n,
{
    if n > 0 {
        if let Some((t, rest)) = parse_timestamp(bits, done) {
            timestamps_are_decoded_in_turn(rest, done.push(t), (n - 1) as nat, more);
        }
    }
}

/// Decoding some doubles and then some more is decoding all of them.
pub proof fn values_are_decoded_in_turn(
    bits: Seq<bool>,
    done: Seq<u64>,
    window: (int, int),
    n: nat,
    more: nat,
)
    ensures
        parse_values(bits, done, window, n + more) == match parse_values(bits, done, window, n) {
            Some((some, between, rest)) => parse_values(rest, some, between, more),
            None => None,
        },
    decreases n,
{
    if n > 0 {
        if let Some((v, between, rest)) = parse_value(bits, done, window) {
            values_are_decoded_in_turn(rest, done.push(v), between, (n - 1) as nat, more);
        }
    }
}

} // verus!
