//! Sequences of points: their order, and what is newest in them.
use crate::types::TimeSeriesPoint;
use vstd::prelude::*;

verus! {

/// Whether the timestamps do not decrease.
pub open spec fn sorted(s: Seq<TimeSeriesPoint>) -> bool {
    forall|i: int, j: int| 0 <= i <= j < s.len() ==> s[i].timestamp <= s[j].timestamp
}

/// Whether the timestamps increase.
pub open spec fn strictly_sorted(s: Seq<TimeSeriesPoint>) -> bool {
    forall|i: int, j: int| 0 <= i < j < s.len() ==> s[i].timestamp < s[j].timestamp
}

/// The last value that `s` gives to each timestamp.
pub open spec fn newest(s: Seq<TimeSeriesPoint>) -> Map<i64, u64>
    decreases s.len(),
{
    if s.len() == 0 {
        Map::empty()
    } else {
        newest(s.drop_last()).insert(s.last().timestamp, s.last().value_bits)
    }
}

/// The points of `s` at timestamp `t`, in their order.
pub open spec fn points_at(s: Seq<TimeSeriesPoint>, t: i64) -> Seq<TimeSeriesPoint>
    decreases s.len(),
{
    if s.len() == 0 {
        Seq::empty()
    } else if s.last().timestamp == t {
        points_at(s.drop_last(), t).push(s.last())
    } else {
        points_at(s.drop_last(), t)
    }
}

/// The points of `s` from `start` to `end`, both inclusive, in their order.
pub open spec fn points_within(s: Seq<TimeSeriesPoint>, start: i64, end: i64) -> Seq<
    TimeSeriesPoint,
>
    decreases s.len(),
{
    if s.len() == 0 {
        Seq::empty()
    } else if start <= s.last().timestamp <= end {
        points_within(s.drop_last(), start, end).push(s.last())
    } else {
        points_within(s.drop_last(), start, end)
    }
}

/// The points of `s` at timestamps that `taken` does not hold, in their order.
pub open spec fn points_beside(s: Seq<TimeSeriesPoint>, taken: Set<i64>) -> Seq<TimeSeriesPoint>
    decreases s.len(),
{
    if s.len() == 0 {
        Seq::empty()
    } else if !taken.contains(s.last().timestamp) {
        points_beside(s.drop_last(), taken).push(s.last())
    } else {
        points_beside(s.drop_last(), taken)
    }
}

/// `s` with `p` behind the last point that is not later.
pub open spec fn insert_sorted(s: Seq<TimeSeriesPoint>, p: TimeSeriesPoint) -> Seq<TimeSeriesPoint>
    decreases s.len(),
{
    if s.len() == 0 || s.last().timestamp <= p.timestamp {
        s.push(p)
    } else {
        insert_sorted(s.drop_last(), p).push(s.last())
    }
}

/// The points of `s` by timestamp; those at one timestamp keep their order.
pub open spec fn sort_points(s: Seq<TimeSeriesPoint>) -> Seq<TimeSeriesPoint>
    decreases s.len(),
{
    if s.len() == 0 {
        Seq::empty()
    } else {
        insert_sorted(sort_points(s.drop_last()), s.last())
    }
}

/// The points of `m` by timestamp.
pub open spec fn map_points(m: Map<i64, u64>) -> Seq<TimeSeriesPoint> {
    choose|s: Seq<TimeSeriesPoint>| #[trigger] strictly_sorted(s) && newest(s) == m
}

/// The points of a memory table and of tables, by timestamp, where the memory table's win.
pub open spec fn merge_points(mem: Seq<TimeSeriesPoint>, sst: Seq<TimeSeriesPoint>) -> Seq<
    TimeSeriesPoint,
> {
    sort_points(mem + points_beside(sst, newest(mem).dom()))
}

// Facts about the selections.
pub proof fn lemma_at_add(a: Seq<TimeSeriesPoint>, b: Seq<TimeSeriesPoint>, t: i64)
    ensures
        points_at(a + b, t) == points_at(a, t) + points_at(b, t),
    decreases b.len(),
{
    if b.len() == 0 {
        assert(a + b =~= a);
        assert(points_at(a, t) + points_at(b, t) =~= points_at(a, t));
    } else {
        assert((a + b).drop_last() =~= a + b.drop_last());
        lemma_at_add(a, b.drop_last(), t);
        assert(points_at(a + b, t) =~= points_at(a, t) + points_at(b, t));
    }
}

pub proof fn lemma_at_push(s: Seq<TimeSeriesPoint>, p: TimeSeriesPoint, t: i64)
    ensures
        points_at(s.push(p), t) == if p.timestamp == t {
            points_at(s, t).push(p)
        } else {
            points_at(s, t)
        },
{
    assert(s.push(p).drop_last() =~= s);
}

pub proof fn lemma_newest_push(s: Seq<TimeSeriesPoint>, p: TimeSeriesPoint)
    ensures
        newest(s.push(p)) == newest(s).insert(p.timestamp, p.value_bits),
{
    assert(s.push(p).drop_last() =~= s);
}

pub proof fn lemma_within_push(s: Seq<TimeSeriesPoint>, p: TimeSeriesPoint, start: i64, end: i64)
    ensures
        points_within(s.push(p), start, end) == if start <= p.timestamp <= end {
            points_within(s, start, end).push(p)
        } else {
            points_within(s, start, end)
        },
{
    assert(s.push(p).drop_last() =~= s);
}

pub proof fn lemma_beside_push(s: Seq<TimeSeriesPoint>, p: TimeSeriesPoint, taken: Set<i64>)
    ensures
        points_beside(s.push(p), taken) == if !taken.contains(p.timestamp) {
            points_beside(s, taken).push(p)
        } else {
            points_beside(s, taken)
        },
{
    assert(s.push(p).drop_last() =~= s);
}

/// What is newest at a timestamp is the last point there.
pub proof fn lemma_newest_is_last_at(s: Seq<TimeSeriesPoint>, t: i64)
    ensures
        newest(s).contains_key(t) <==> points_at(s, t).len() > 0,
        newest(s).contains_key(t) ==> points_at(s, t).last() == (TimeSeriesPoint {
            timestamp: t,
            value_bits: newest(s)[t],
        }),
    decreases s.len(),
{
    if s.len() > 0 {
        lemma_newest_is_last_at(s.drop_last(), t);
    }
}

/// Sequences with the same points at each timestamp, in the same order, have the same newest.
pub proof fn lemma_newest_by_timestamp(a: Seq<TimeSeriesPoint>, b: Seq<TimeSeriesPoint>)
    requires
        forall|t: i64| #[trigger] points_at(a, t) == points_at(b, t),
    ensures
        newest(a) == newest(b),
{
    assert forall|t: i64| #[trigger] newest(a).contains_key(t) == newest(b).contains_key(t) && (
    newest(a).contains_key(t) ==> newest(a)[t] == newest(b)[t]) by {
        assert(points_at(a, t) == points_at(b, t));
        lemma_newest_is_last_at(a, t);
        lemma_newest_is_last_at(b, t);
    }
    assert(newest(a) =~= newest(b));
}

pub proof fn lemma_newest_add(a: Seq<TimeSeriesPoint>, b: Seq<TimeSeriesPoint>)
    ensures
        newest(a + b) == newest(a).union_prefer_right(newest(b)),
    decreases b.len(),
{
    if b.len() == 0 {
        assert(a + b =~= a);
        assert(newest(a).union_prefer_right(newest(b)) =~= newest(a));
    } else {
        assert((a + b).drop_last() =~= a + b.drop_last());
        lemma_newest_add(a, b.drop_last());
        assert(newest(a + b) =~= newest(a).union_prefer_right(newest(b)));
    }
}

/// Of the points beside some timestamps, there are none at these and all at the others.
pub proof fn lemma_at_beside(s: Seq<TimeSeriesPoint>, taken: Set<i64>, t: i64)
    ensures
        points_at(points_beside(s, taken), t) == if taken.contains(t) {
            Seq::empty()
        } else {
            points_at(s, t)
        },
    decreases s.len(),
{
    if s.len() > 0 {
        lemma_at_beside(s.drop_last(), taken, t);
        lemma_at_push(points_beside(s.drop_last(), taken), s.last(), t);
    }
}

proof fn lemma_points_at_of_insert(s: Seq<TimeSeriesPoint>, p: TimeSeriesPoint, t: i64)
    requires
        sorted(s),
    ensures
        points_at(insert_sorted(s, p), t) == points_at(s.push(p), t),
    decreases s.len(),
{
    lemma_at_push(s, p, t);
    if s.len() > 0 && s.last().timestamp > p.timestamp {
        let before = s.drop_last();
        lemma_points_at_of_insert(before, p, t);
        lemma_at_push(before, p, t);
        lemma_at_push(insert_sorted(before, p), s.last(), t);
        if p.timestamp == t {
            assert(points_at(s, t) == points_at(before, t));
        }
    }
}

proof fn lemma_insert_is_sorted(s: Seq<TimeSeriesPoint>, p: TimeSeriesPoint)
    requires
        sorted(s),
    ensures
        sorted(insert_sorted(s, p)),
        insert_sorted(s, p).len() == s.len() + 1,
        forall|i: int|
            0 <= i <= s.len() ==> (#[trigger] insert_sorted(s, p)[i]).timestamp <= p.timestamp || (
            s.len() > 0 && insert_sorted(s, p)[i].timestamp <= s.last().timestamp),
    decreases s.len(),
{
    if s.len() > 0 && s.last().timestamp > p.timestamp {
        let before = s.drop_last();
        lemma_insert_is_sorted(before, p);
        let inserted = insert_sorted(before, p);
        assert forall|i: int| 0 <= i < inserted.len() implies (#[trigger] inserted[i]).timestamp
            <= s.last().timestamp by {
            if before.len() > 0 {
                assert(before.last() == s[s.len() - 2]);
            }
        }
    }
}

/// Sorting orders the points by timestamp and keeps, at each timestamp, their order.
pub proof fn sort_is_stable(s: Seq<TimeSeriesPoint>)
    ensures
        sorted(sort_points(s)),
        sort_points(s).len() == s.len(),
        forall|t: i64| #[trigger] points_at(sort_points(s), t) == points_at(s, t),
    decreases s.len(),
{
    if s.len() > 0 {
        let before = sort_points(s.drop_last());
        sort_is_stable(s.drop_last());
        lemma_insert_is_sorted(before, s.last());
        assert forall|t: i64| #[trigger] points_at(sort_points(s), t) == points_at(s, t) by {
            lemma_points_at_of_insert(before, s.last(), t);
            lemma_at_push(before, s.last(), t);
            assert(points_at(before, t) == points_at(s.drop_last(), t));
        }
    }
}

proof fn lemma_at_member(s: Seq<TimeSeriesPoint>, i: int)
    requires
        0 <= i < s.len(),
    ensures
        points_at(s, s[i].timestamp).len() > 0,
    decreases s.len(),
{
    if i < s.len() - 1 {
        lemma_at_member(s.drop_last(), i);
    }
}

proof fn lemma_at_all(s: Seq<TimeSeriesPoint>, t: i64)
    ensures
        forall|i: int| 0 <= i < points_at(s, t).len() ==> (#[trigger] points_at(s, t)[i]).timestamp == t,
        points_at(s, t).len() > 0 ==> exists|i: int|
            0 <= i < s.len() && (#[trigger] s[i]).timestamp == t,
    decreases s.len(),
{
    if s.len() > 0 {
        lemma_at_all(s.drop_last(), t);
        if s.last().timestamp == t {
            assert(s[s.len() - 1].timestamp == t);
        } else if points_at(s.drop_last(), t).len() > 0 {
            let i = choose|i: int|
                0 <= i < s.drop_last().len() && (#[trigger] s.drop_last()[i]).timestamp == t;
            assert(s[i].timestamp == t);
        }
    }
}

/// A stable sort is determined: two sorted sequences with the same points at each timestamp, in
/// the same order, are the same.
pub proof fn sorted_is_unique(a: Seq<TimeSeriesPoint>, b: Seq<TimeSeriesPoint>)
    requires
        sorted(a),
        sorted(b),
        forall|t: i64| #[trigger] points_at(a, t) == points_at(b, t),
    ensures
        a == b,
    decreases a.len(),
{
    if a.len() == 0 {
        if b.len() > 0 {
            lemma_at_member(b, 0);
            assert(points_at(a, b[0].timestamp) == points_at(b, b[0].timestamp));
        }
        assert(a =~= b);
    } else {
        let t = a.last().timestamp;
        lemma_at_member(a, a.len() - 1);
        assert(points_at(a, t) == points_at(b, t));
        lemma_at_all(b, t);
        let u = b.last().timestamp;
        lemma_at_member(b, b.len() - 1);
        assert(points_at(a, u) == points_at(b, u));
        lemma_at_all(a, u);
        assert(t == u) by {
            let i = choose|i: int| 0 <= i < b.len() && (#[trigger] b[i]).timestamp == t;
            let j = choose|j: int| 0 <= j < a.len() && (#[trigger] a[j]).timestamp == u;
            assert(b[i].timestamp <= b[b.len() - 1].timestamp);
            assert(a[j].timestamp <= a[a.len() - 1].timestamp);
        }
        assert(points_at(a, t).last() == a.last());
        assert(points_at(b, t).last() == b.last());
        assert forall|x: i64| #[trigger] points_at(a.drop_last(), x) == points_at(
            b.drop_last(),
            x,
        ) by {
            assert(points_at(a, x) == points_at(b, x));
            if x == t {
                assert(points_at(a, x).drop_last() =~= points_at(a.drop_last(), x));
                assert(points_at(b, x).drop_last() =~= points_at(b.drop_last(), x));
            }
        }
        sorted_is_unique(a.drop_last(), b.drop_last());
        assert(a =~= a.drop_last().push(a.last()));
        assert(b =~= b.drop_last().push(b.last()));
    }
}

/// A sequence that is sorted, with the points of `s` at each timestamp, is the sort of `s`.
pub proof fn lemma_is_sort(r: Seq<TimeSeriesPoint>, s: Seq<TimeSeriesPoint>)
    requires
        sorted(r),
        forall|t: i64| #[trigger] points_at(r, t) == points_at(s, t),
    ensures
        r == sort_points(s),
{
    sort_is_stable(s);
    assert forall|t: i64| #[trigger] points_at(r, t) == points_at(sort_points(s), t) by {
        assert(points_at(r, t) == points_at(s, t));
        assert(points_at(sort_points(s), t) == points_at(s, t));
    }
    sorted_is_unique(r, sort_points(s));
}

/// Where timestamps increase, there is at most one point at each.
pub proof fn lemma_strict_at(s: Seq<TimeSeriesPoint>, t: i64)
    requires
        strictly_sorted(s),
    ensures
        points_at(s, t) == if newest(s).contains_key(t) {
            seq![TimeSeriesPoint { timestamp: t, value_bits: newest(s)[t] }]
        } else {
            Seq::empty()
        },
    decreases s.len(),
{
    if s.len() > 0 {
        lemma_strict_at(s.drop_last(), t);
        if s.last().timestamp == t {
            if newest(s.drop_last()).contains_key(t) {
                lemma_newest_is_last_at(s.drop_last(), t);
                lemma_at_all(s.drop_last(), t);
                let i = choose|i: int|
                    0 <= i < s.drop_last().len() && (#[trigger] s.drop_last()[i]).timestamp == t;
                assert(s[i].timestamp < s[s.len() - 1].timestamp);
            }
            assert(points_at(s, t) =~= seq![s.last()]);
        }
    }
}

pub proof fn lemma_strict_member(s: Seq<TimeSeriesPoint>, i: int)
    requires
        strictly_sorted(s),
        0 <= i < s.len(),
    ensures
        newest(s).contains_key(s[i].timestamp),
        newest(s)[s[i].timestamp] == s[i].value_bits,
    decreases s.len(),
{
    if i < s.len() - 1 {
        lemma_strict_member(s.drop_last(), i);
    }
}

/// What lies within a range comes from somewhere.
proof fn lemma_within_member(s: Seq<TimeSeriesPoint>, start: i64, end: i64, k: int)
    requires
        0 <= k < points_within(s, start, end).len(),
    ensures
        exists|i: int| 0 <= i < s.len() && #[trigger] s[i] == points_within(s, start, end)[k],
    decreases s.len(),
{
    let before = points_within(s.drop_last(), start, end);
    if k < before.len() {
        lemma_within_member(s.drop_last(), start, end, k);
        let i = choose|i: int|
            0 <= i < s.drop_last().len() && #[trigger] s.drop_last()[i] == before[k];
        assert(s[i] == points_within(s, start, end)[k]);
    } else {
        assert(s[s.len() - 1] == points_within(s, start, end)[k]);
    }
}

/// Where timestamps increase, they do so within a range.
pub proof fn lemma_within_is_strict(s: Seq<TimeSeriesPoint>, start: i64, end: i64)
    requires
        strictly_sorted(s),
    ensures
        strictly_sorted(points_within(s, start, end)),
    decreases s.len(),
{
    if s.len() > 0 {
        let before = points_within(s.drop_last(), start, end);
        lemma_within_is_strict(s.drop_last(), start, end);
        assert forall|k: int| 0 <= k < before.len() implies (#[trigger] before[k]).timestamp
            < s.last().timestamp by {
            lemma_within_member(s.drop_last(), start, end, k);
            let i = choose|i: int|
                0 <= i < s.drop_last().len() && #[trigger] s.drop_last()[i] == before[k];
            assert(s[i].timestamp < s[s.len() - 1].timestamp);
        }
    }
}

/// Sorted points are sorted within a range.
pub proof fn lemma_within_is_sorted(s: Seq<TimeSeriesPoint>, start: i64, end: i64)
    requires
        sorted(s),
    ensures
        sorted(points_within(s, start, end)),
    decreases s.len(),
{
    if s.len() > 0 {
        let before = points_within(s.drop_last(), start, end);
        lemma_within_is_sorted(s.drop_last(), start, end);
        assert forall|k: int| 0 <= k < before.len() implies (#[trigger] before[k]).timestamp
            <= s.last().timestamp by {
            lemma_within_member(s.drop_last(), start, end, k);
            let i = choose|i: int|
                0 <= i < s.drop_last().len() && #[trigger] s.drop_last()[i] == before[k];
            assert(s[i].timestamp <= s[s.len() - 1].timestamp);
        }
    }
}

/// Of the points within a range, there are all at its timestamps and none at others.
pub proof fn lemma_at_within(s: Seq<TimeSeriesPoint>, start: i64, end: i64, t: i64)
    ensures
        points_at(points_within(s, start, end), t) == if start <= t <= end {
            points_at(s, t)
        } else {
            Seq::empty()
        },
    decreases s.len(),
{
    if s.len() > 0 {
        lemma_at_within(s.drop_last(), start, end, t);
        lemma_at_push(points_within(s.drop_last(), start, end), s.last(), t);
    }
}

pub proof fn lemma_within_add(
    a: Seq<TimeSeriesPoint>,
    b: Seq<TimeSeriesPoint>,
    start: i64,
    end: i64,
)
    ensures
        points_within(a + b, start, end) == points_within(a, start, end) + points_within(
            b,
            start,
            end,
        ),
    decreases b.len(),
{
    if b.len() == 0 {
        assert(a + b =~= a);
        assert(points_within(a, start, end) + points_within(b, start, end) =~= points_within(
            a,
            start,
            end,
        ));
    } else {
        assert((a + b).drop_last() =~= a + b.drop_last());
        lemma_within_add(a, b.drop_last(), start, end);
        assert(points_within(a + b, start, end) =~= points_within(a, start, end) + points_within(
            b,
            start,
            end,
        ));
    }
}

/// Points that list each entry of a map once, by timestamp, are the points of the map.
pub proof fn lemma_listing_is_map_points(s: Seq<TimeSeriesPoint>, m: Map<i64, u64>)
    requires
        strictly_sorted(s),
        forall|i: int|
            0 <= i < s.len() ==> m.contains_key((#[trigger] s[i]).timestamp) && m[s[i].timestamp]
                == s[i].value_bits,
        forall|t: i64| #[trigger]
            m.contains_key(t) ==> exists|i: int|
                0 <= i < s.len() && (#[trigger] s[i]).timestamp == t,
    ensures
        newest(s) == m,
        s == map_points(m),
{
    assert forall|t: i64| #[trigger] newest(s).contains_key(t) == m.contains_key(t) && (m.contains_key(
        t,
    ) ==> newest(s)[t] == m[t]) by {
        if m.contains_key(t) {
            let i = choose|i: int| 0 <= i < s.len() && (#[trigger] s[i]).timestamp == t;
            lemma_strict_member(s, i);
        }
        lemma_newest_is_last_at(s, t);
        lemma_at_all(s, t);
    }
    assert(newest(s) =~= m);
    lemma_is_map_points(s);
}

/// Points whose timestamps increase are determined by their map.
pub proof fn lemma_is_map_points(s: Seq<TimeSeriesPoint>)
    requires
        strictly_sorted(s),
    ensures
        s == map_points(newest(s)),
{
    let r = map_points(newest(s));
    assert(strictly_sorted(r) && newest(r) == newest(s));
    assert forall|t: i64| #[trigger] points_at(s, t) == points_at(r, t) by {
        lemma_strict_at(s, t);
        lemma_strict_at(r, t);
    }
    assert(sorted(s));
    assert(sorted(r));
    sorted_is_unique(s, r);
}

pub proof fn lemma_nothing_at(s: Seq<TimeSeriesPoint>, t: i64)
    requires
        forall|i: int| 0 <= i < s.len() ==> (#[trigger] s[i]).timestamp != t,
    ensures
        points_at(s, t) == Seq::<TimeSeriesPoint>::empty(),
{
    lemma_at_all(s, t);
    assert(points_at(s, t) =~= Seq::<TimeSeriesPoint>::empty());
}

/// Of a merge, the points at a timestamp are those of the memory table, or else of the tables.
pub proof fn lemma_at_merge(mem: Seq<TimeSeriesPoint>, sst: Seq<TimeSeriesPoint>, t: i64)
    ensures
        sorted(merge_points(mem, sst)),
        points_at(merge_points(mem, sst), t) == if newest(mem).contains_key(t) {
            points_at(mem, t)
        } else {
            points_at(sst, t)
        },
{
    let beside = points_beside(sst, newest(mem).dom());
    sort_is_stable(mem + beside);
    lemma_at_add(mem, beside, t);
    lemma_at_beside(sst, newest(mem).dom(), t);
    lemma_newest_is_last_at(mem, t);
    assert(points_at(mem + beside, t) =~= if newest(mem).contains_key(t) {
        points_at(mem, t)
    } else {
        points_at(sst, t)
    });
    assert(points_at(sort_points(mem + beside), t) == points_at(mem + beside, t));
}

/// A merge does not depend on whether the points of the tables were sorted before.
pub proof fn lemma_merge_of_sorted(mem: Seq<TimeSeriesPoint>, sst: Seq<TimeSeriesPoint>)
    ensures
        merge_points(mem, sort_points(sst)) == merge_points(mem, sst),
{
    let (a, b) = (merge_points(mem, sort_points(sst)), merge_points(mem, sst));
    sort_is_stable(sst);
    lemma_at_merge(mem, sort_points(sst), 0);
    lemma_at_merge(mem, sst, 0);
    assert forall|t: i64| #[trigger] points_at(a, t) == points_at(b, t) by {
        lemma_at_merge(mem, sort_points(sst), t);
        lemma_at_merge(mem, sst, t);
        assert(points_at(sort_points(sst), t) == points_at(sst, t));
    }
    sorted_is_unique(a, b);
}

/// Only finitely many timestamps have a newest value.
pub proof fn lemma_newest_is_finite(s: Seq<TimeSeriesPoint>)
    ensures
        newest(s).dom().finite(),
    decreases s.len(),
{
    if s.len() > 0 {
        lemma_newest_is_finite(s.drop_last());
    }
}

/// The points of a finite map list it by timestamp.
pub proof fn map_points_list_the_map(m: Map<i64, u64>)
    requires
        m.dom().finite(),
    ensures
        strictly_sorted(map_points(m)),
        newest(map_points(m)) == m,
    decreases m.dom().len(),
{
    if m.dom().len() == 0 {
        assert(m =~= newest(Seq::empty()));
        assert(strictly_sorted(Seq::empty()));
    } else {
        let t = m.dom().choose();
        let rest = m.remove(t);
        map_points_list_the_map(rest);
        let p = TimeSeriesPoint { timestamp: t, value_bits: m[t] };
        let before = map_points(rest).push(p);
        let s = sort_points(before);
        sort_is_stable(before);
        lemma_newest_push(map_points(rest), p);
        lemma_newest_by_timestamp(s, before);
        assert(newest(s) =~= m);
        assert forall|i: int, j: int| 0 <= i < j < s.len() implies s[i].timestamp
            < s[j].timestamp by {
            if s[i].timestamp == s[j].timestamp {
                let u = s[i].timestamp;
                lemma_two_at(s, i, j);
                assert(points_at(s, u) == points_at(before, u));
                lemma_at_push(map_points(rest), p, u);
                lemma_strict_at(map_points(rest), u);
            }
        }
        assert(strictly_sorted(s) && newest(s) == m);
    }
}

pub proof fn lemma_two_at(s: Seq<TimeSeriesPoint>, i: int, j: int)
    requires
        0 <= i < j < s.len(),
        s[i].timestamp == s[j].timestamp,
    ensures
        points_at(s, s[i].timestamp).len() >= 2,
    decreases s.len(),
{
    if j < s.len() - 1 {
        lemma_two_at(s.drop_last(), i, j);
    } else {
        lemma_at_member(s.drop_last(), i);
    }
}

/// Merges two sorted runs; at one timestamp, the points of the first come first.
fn merge_runs(a: &Vec<TimeSeriesPoint>, b: &Vec<TimeSeriesPoint>) -> (merged: Vec<TimeSeriesPoint>)
    requires
        sorted(a@),
        sorted(b@),
    ensures
        merged@ == sort_points(a@ + b@),
{
    let mut merged: Vec<TimeSeriesPoint> = Vec::new();
    let mut ai: usize = 0;
    let mut bi: usize = 0;
    while ai < a.len() || bi < b.len()
        invariant
            sorted(a@),
            sorted(b@),
            ai <= a@.len(),
            bi <= b@.len(),
            sorted(merged@),
            forall|i: int|
                0 <= i < merged@.len() && ai < a@.len() ==> (#[trigger] merged@[i]).timestamp
                    <= a@[ai as int].timestamp,
            forall|i: int|
                0 <= i < merged@.len() && bi < b@.len() ==> (#[trigger] merged@[i]).timestamp
                    <= b@[bi as int].timestamp,
            forall|i: int|
                0 <= i < bi && ai < a@.len() ==> (#[trigger] b@[i]).timestamp
                    < a@[ai as int].timestamp,
            forall|t: i64| #[trigger]
                points_at(merged@, t) == points_at(a@.take(ai as int), t) + points_at(
                    b@.take(bi as int),
                    t,
                ),
        decreases a@.len() - ai + b@.len() - bi,
    {
        let ghost before = merged@;
        if bi == b.len() || (ai < a.len() && a[ai].timestamp <= b[bi].timestamp) {
            let p: TimeSeriesPoint = a[ai];
            merged.push(p);
            assert forall|t: i64| #[trigger] points_at(merged@, t) == points_at(
                a@.take(ai + 1),
                t,
            ) + points_at(b@.take(bi as int), t) by {
                lemma_at_push(before, p, t);
                lemma_at_push(a@.take(ai as int), p, t);
                assert(a@.take(ai + 1) =~= a@.take(ai as int).push(p));
                assert(points_at(before, t) == points_at(a@.take(ai as int), t) + points_at(
                    b@.take(bi as int),
                    t,
                ));
                if p.timestamp == t {
                    lemma_nothing_at(b@.take(bi as int), t);
                }
                assert(points_at(merged@, t) =~= points_at(a@.take(ai + 1), t) + points_at(
                    b@.take(bi as int),
                    t,
                ));
            }
            ai = ai + 1;
        } else {
            let p: TimeSeriesPoint = b[bi];
            merged.push(p);
            assert forall|t: i64| #[trigger] points_at(merged@, t) == points_at(
                a@.take(ai as int),
                t,
            ) + points_at(b@.take(bi + 1), t) by {
                lemma_at_push(before, p, t);
                lemma_at_push(b@.take(bi as int), p, t);
                assert(b@.take(bi + 1) =~= b@.take(bi as int).push(p));
                assert(points_at(before, t) == points_at(a@.take(ai as int), t) + points_at(
                    b@.take(bi as int),
                    t,
                ));
                assert(points_at(merged@, t) =~= points_at(a@.take(ai as int), t) + points_at(
                    b@.take(bi + 1),
                    t,
                ));
            }
            bi = bi + 1;
        }
    }
    proof {
        assert(a@.take(ai as int) =~= a@);
        assert(b@.take(bi as int) =~= b@);
        assert forall|t: i64| #[trigger] points_at(merged@, t) == points_at(a@ + b@, t) by {
            lemma_at_add(a@, b@, t);
        }
        lemma_is_sort(merged@, a@ + b@);
    }
    merged
}

/// Sorts points by timestamp; those at one timestamp keep their order.
pub fn sort_by_timestamp(points: &[TimeSeriesPoint]) -> (result: Vec<TimeSeriesPoint>)
    ensures
        result@ == sort_points(points@),
    decreases points@.len(),
{
    let len: usize = points.len();
    if len < 2 {
        let mut result: Vec<TimeSeriesPoint> = Vec::new();
        if len == 1 {
            result.push(points[0]);
        }
        assert(result@ =~= points@);
        proof {
            lemma_is_sort(result@, points@);
        }
        return result;
    }
    let mid: usize = len / 2;
    let (left, right) = points.split_at(mid);
    let a = sort_by_timestamp(left);
    let b = sort_by_timestamp(right);
    proof {
        sort_is_stable(left@);
        sort_is_stable(right@);
    }
    let result = merge_runs(&a, &b);
    proof {
        sort_is_stable(a@ + b@);
        assert(left@ + right@ =~= points@);
        assert forall|t: i64| #[trigger] points_at(result@, t) == points_at(points@, t) by {
            lemma_at_add(a@, b@, t);
            lemma_at_add(left@, right@, t);
            assert(points_at(a@, t) == points_at(left@, t));
            assert(points_at(b@, t) == points_at(right@, t));
        }
        lemma_is_sort(result@, points@);
    }
    result
}

/// Keeps, of sorted points, the last one at each timestamp.
pub fn keep_latest(points: &Vec<TimeSeriesPoint>) -> (result: Vec<TimeSeriesPoint>)
    requires
        sorted(points@),
    ensures
        result@ == map_points(newest(points@)),
{
    let mut result: Vec<TimeSeriesPoint> = Vec::new();
    let mut i: usize = 0;
    assert(points@.take(0) =~= Seq::<TimeSeriesPoint>::empty());
    while i < points.len()
        invariant
            sorted(points@),
            i <= points@.len(),
            strictly_sorted(result@),
            newest(result@) == newest(points@.take(i as int)),
            i == 0 <==> result@.len() == 0,
            i > 0 ==> result@.last().timestamp == points@[i - 1].timestamp,
        decreases points@.len() - i,
    {
        let p: TimeSeriesPoint = points[i];
        let ghost before = result@;
        proof {
            lemma_newest_push(points@.take(i as int), p);
            assert(points@.take(i + 1) =~= points@.take(i as int).push(p));
        }
        if i > 0 && points[i - 1].timestamp == p.timestamp {
            let _ = result.pop();
            result.push(p);
            proof {
                lemma_newest_push(before.drop_last(), p);
                assert(newest(result@) =~= newest(before).insert(p.timestamp, p.value_bits));
            }
        } else {
            result.push(p);
            proof {
                lemma_newest_push(before, p);
                if i > 0 {
                    assert(points@[i - 1].timestamp <= points@[i as int].timestamp);
                }
            }
        }
        i = i + 1;
    }
    proof {
        assert(points@.take(i as int) =~= points@);
        lemma_is_map_points(result@);
    }
    result
}

/// The last point at a timestamp gives its newest value, and without a point it has none.
pub proof fn last_point_is_newest(s: Seq<TimeSeriesPoint>, t: i64)
    ensures
        newest(s).contains_key(t) <==> exists|i: int|
            0 <= i < s.len() && (#[trigger] s[i]).timestamp == t,
        forall|i: int|
            0 <= i < s.len() && (#[trigger] s[i]).timestamp == t && (forall|j: int|
                i < j < s.len() ==> (#[trigger] s[j]).timestamp != t) ==> newest(s)[t]
                == s[i].value_bits,
    decreases s.len(),
{
    if s.len() > 0 {
        let before = s.drop_last();
        let n = s.len() - 1;
        last_point_is_newest(before, t);
        assert(s[n] == s.last());
        assert(forall|i: int| 0 <= i < n ==> #[trigger] before[i] == s[i]);
        assert forall|i: int|
            0 <= i < s.len() && (#[trigger] s[i]).timestamp == t && (forall|j: int|
                i < j < s.len() ==> (
                #[trigger] s[j]).timestamp != t) implies newest(s)[t] == s[i].value_bits by {
            if i < n {
                assert(s[n].timestamp != t);
                assert(before[i].timestamp == t);
                assert(forall|j: int| i < j < n ==> (#[trigger] before[j]).timestamp != t);
            }
        }
        if newest(before).contains_key(t) {
            let i = choose|i: int| 0 <= i < before.len() && (#[trigger] before[i]).timestamp == t;
            assert(s[i].timestamp == t);
        }
        if exists|i: int| 0 <= i < s.len() && (#[trigger] s[i]).timestamp == t {
            let i = choose|i: int| 0 <= i < s.len() && (#[trigger] s[i]).timestamp == t;
            if i < n {
                assert(before[i].timestamp == t);
            }
        }
    }
}

/// The points at a timestamp, within a range, or beside some timestamps, are all those whose
/// timestamps are, in their order.
pub proof fn selections_are_by_timestamp(
    s: Seq<TimeSeriesPoint>,
    t: i64,
    start: i64,
    end: i64,
    taken: Set<i64>,
)
    ensures
        points_at(s, t) == s.filter(|p: TimeSeriesPoint| p.timestamp == t),
        points_within(s, start, end) == s.filter(
            |p: TimeSeriesPoint| start <= p.timestamp && p.timestamp <= end,
        ),
        points_beside(s, taken) == s.filter(|p: TimeSeriesPoint| !taken.contains(p.timestamp)),
    decreases s.len(),
{
    reveal(Seq::filter);
    if s.len() > 0 {
        selections_are_by_timestamp(s.drop_last(), t, start, end, taken);
    }
}

} // verus!
