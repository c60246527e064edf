//! Differences between neighbours, computed for a whole slice at once.
//!
//! The batch functions work on four neighbours at a time, which is the shape that a 256-bit
//! vector unit takes; the scalar ones work on one pair at a time. Both compute the same.
use vstd::prelude::*;

verus! {

/// The differences, modulo 2^64, between consecutive elements.
pub open spec fn deltas(input: Seq<i64>) -> Seq<i64> {
    Seq::new(
        if input.len() == 0 {
            0
        } else {
            (input.len() - 1) as nat
        },
        |i: int| input[i + 1].wrapping_sub(input[i]),
    )
}

/// The exclusive ors of consecutive bit patterns.
pub open spec fn xors(input: Seq<u64>) -> Seq<u64> {
    Seq::new(
        if input.len() == 0 {
            0
        } else {
            (input.len() - 1) as nat
        },
        |i: int| input[i + 1] ^ input[i],
    )
}

/// Appends the differences between consecutive elements, four at a time.
fn wide_delta_i64_inner(input: &[i64], output: &mut Vec<i64>)
    ensures
        final(output)@ == old(output)@ + deltas(input@),
{
    let len: usize = input.len();
    if len < 2 {
        assert(output@ =~= old(output)@ + deltas(input@));
        return;
    }
    let chunks: usize = (len - 1) / 4;
    let mut chunk: usize = 0;
    while chunk < chunks
        invariant
            len == input@.len(),
            chunk <= chunks,
            4 * chunks <= len - 1,
            output@ =~= old(output)@ + deltas(input@).take(4 * chunk),
        decreases chunks - chunk,
    {
        let i: usize = chunk * 4;
        let lanes: [i64; 4] = [
            input[i + 1].wrapping_sub(input[i]),
            input[i + 2].wrapping_sub(input[i + 1]),
            input[i + 3].wrapping_sub(input[i + 2]),
            input[i + 4].wrapping_sub(input[i + 3]),
        ];
        output.push(lanes[0]);
        output.push(lanes[1]);
        output.push(lanes[2]);
        output.push(lanes[3]);
        chunk = chunk + 1;
    }
    let mut i: usize = chunks * 4;
    while i < len - 1
        invariant
            len == input@.len(),
            i <= len - 1,
            output@ =~= old(output)@ + deltas(input@).take(i as int),
        decreases len - i,
    {
        output.push(input[i + 1].wrapping_sub(input[i]));
        i = i + 1;
    }
    assert(deltas(input@).take(i as int) =~= deltas(input@));
}

/// Appends the exclusive ors of consecutive bit patterns, four at a time.
fn wide_xor_u64_inner(input: &[u64], output: &mut Vec<u64>)
    ensures
        final(output)@ == old(output)@ + xors(input@),
{
    let len: usize = input.len();
    if len < 2 {
        assert(output@ =~= old(output)@ + xors(input@));
        return;
    }
    let chunks: usize = (len - 1) / 4;
    let mut chunk: usize = 0;
    while chunk < chunks
        invariant
            len == input@.len(),
            chunk <= chunks,
            4 * chunks <= len - 1,
            output@ =~= old(output)@ + xors(input@).take(4 * chunk),
        decreases chunks - chunk,
    {
        let i: usize = chunk * 4;
        let lanes: [u64; 4] = [
            input[i + 1] ^ input[i],
            input[i + 2] ^ input[i + 1],
            input[i + 3] ^ input[i + 2],
            input[i + 4] ^ input[i + 3],
        ];
        output.push(lanes[0]);
        output.push(lanes[1]);
        output.push(lanes[2]);
        output.push(lanes[3]);
        chunk = chunk + 1;
    }
    let mut i: usize = chunks * 4;
    while i < len - 1
        invariant
            len == input@.len(),
            i <= len - 1,
            output@ =~= old(output)@ + xors(input@).take(i as int),
        decreases len - i,
    {
        output.push(input[i + 1] ^ input[i]);
        i = i + 1;
    }
    assert(xors(input@).take(i as int) =~= xors(input@));
}

/// The differences between consecutive timestamps, one pair at a time.
pub fn scalar_delta_i64(input: &[i64]) -> (output: Vec<i64>)
    ensures
        output@ == deltas(input@),
{
    let mut output: Vec<i64> = Vec::new();
    let mut i: usize = 1;
    assert(output@ =~= deltas(input@).take(0));
    while i < input.len()
        invariant
            1 <= i,
            input@.len() > 0 ==> i <= input@.len(),
            input@.len() > 0 ==> output@ =~= deltas(input@).take(i - 1),
            input@.len() == 0 ==> output@ =~= Seq::<i64>::empty(),
        decreases input@.len() - i,
    {
        output.push(input[i].wrapping_sub(input[i - 1]));
        i = i + 1;
    }
    assert(output@ =~= deltas(input@));
    output
}

/// The exclusive ors of consecutive doubles' bit patterns, one pair at a time.
pub fn scalar_xor_f64(input: &[u64]) -> (output: Vec<u64>)
    ensures
        output@ == xors(input@),
{
    let mut output: Vec<u64> = Vec::new();
    let mut i: usize = 1;
    assert(output@ =~= xors(input@).take(0));
    while i < input.len()
        invariant
            1 <= i,
            input@.len() > 0 ==> i <= input@.len(),
            input@.len() > 0 ==> output@ =~= xors(input@).take(i - 1),
            input@.len() == 0 ==> output@ =~= Seq::<u64>::empty(),
        decreases input@.len() - i,
    {
        output.push(input[i] ^ input[i - 1]);
        i = i + 1;
    }
    assert(output@ =~= xors(input@));
    output
}

/// The differences between consecutive differences, one pair at a time.
pub fn scalar_batch_dod(timestamps: &[i64]) -> (dods: Vec<i64>)
    ensures
        dods@ == deltas(deltas(timestamps@)),
{
    if timestamps.len() < 3 {
        let dods: Vec<i64> = Vec::new();
        assert(dods@ =~= deltas(deltas(timestamps@)));
        return dods;
    }
    let first = scalar_delta_i64(timestamps);
    scalar_delta_i64(first.as_slice())
}

/// The differences between consecutive differences of a timestamp slice; none for fewer than
/// three timestamps.
pub fn batch_delta_of_delta(timestamps: &[i64]) -> (dods: Vec<i64>)
    ensures
        dods@ == deltas(deltas(timestamps@)),
{
    let mut dods: Vec<i64> = Vec::new();
    if timestamps.len() < 3 {
        assert(dods@ =~= deltas(deltas(timestamps@)));
        return dods;
    }
    let mut first: Vec<i64> = Vec::with_capacity(timestamps.len() - 1);
    wide_delta_i64_inner(timestamps, &mut first);
    assert(first@ =~= deltas(timestamps@));
    wide_delta_i64_inner(first.as_slice(), &mut dods);
    assert(dods@ =~= deltas(deltas(timestamps@)));
    dods
}

/// The exclusive ors of consecutive doubles' bit patterns; none for fewer than two.
pub fn batch_xor_values(values: &[u64]) -> (result: Vec<u64>)
    ensures
        result@ == xors(values@),
{
    let mut result: Vec<u64> = Vec::new();
    if values.len() < 2 {
        assert(result@ =~= xors(values@));
        return result;
    }
    wide_xor_u64_inner(values, &mut result);
    assert(result@ =~= xors(values@));
    result
}

/// The differences between consecutive timestamps; none for fewer than two.
pub fn batch_delta(timestamps: &[i64]) -> (result: Vec<i64>)
    ensures
        result@ == deltas(timestamps@),
{
    let mut result: Vec<i64> = Vec::new();
    if timestamps.len() < 2 {
        assert(result@ =~= deltas(timestamps@));
        return result;
    }
    wide_delta_i64_inner(timestamps, &mut result);
    assert(result@ =~= deltas(timestamps@));
    result
}

/// Timestamps at a constant interval have no second differences but zero.
pub proof fn constant_interval_has_zero_dods(timestamps: Seq<i64>, interval: i64)
    requires
        forall|i: int|
            0 <= i < deltas(timestamps).len() ==> #[trigger] deltas(timestamps)[i] == interval,
    ensures
        forall|i: int|
            0 <= i < deltas(deltas(timestamps)).len() ==> #[trigger] deltas(deltas(timestamps))[i]
                == 0,
{
    let first = deltas(timestamps);
    assert forall|i: int| 0 <= i < deltas(first).len() implies #[trigger] deltas(first)[i]
        == 0 by {
        assert(first[i + 1] == interval && first[i] == interval);
    }
}

/// There is one difference fewer than elements, none for no elements, and each leads from an element
/// to the next one.
pub proof fn differences_lead_to_the_next(input: Seq<i64>)
    ensures
        deltas(input).len() == if input.len() == 0 {
            0
        } else {
            input.len() - 1
        },
        forall|i: int|
            0 <= i < input.len() - 1 ==> input[i].wrapping_add(#[trigger] deltas(input)[i])
                == input[i + 1],
{
}

/// There is one exclusive or fewer than elements, none for no elements, and each leads from an
/// element to the next one.
pub proof fn exclusive_ors_lead_to_the_next(input: Seq<u64>)
    ensures
        xors(input).len() == if input.len() == 0 {
            0
        } else {
            input.len() - 1
        },
        forall|i: int|
            0 <= i < input.len() - 1 ==> input[i] ^ (#[trigger] xors(input)[i]) == input[i + 1],
{
    assert forall|i: int| 0 <= i < input.len() - 1 implies input[i] ^ (#[trigger] xors(input)[i])
        == input[i + 1] by {
        let (a, b) = (input[i], input[i + 1]);
        assert(a ^ (b ^ a) == b) by (bit_vector);
    }
}

} // verus!
