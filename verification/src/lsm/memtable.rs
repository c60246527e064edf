//! The newest points, in memory.
use super::points::{
    lemma_listing_is_map_points, lemma_within_is_strict, lemma_within_push, map_points, newest,
    points_within, strictly_sorted,
};
use crate::types::TimeSeriesPoint;
use std::collections::BTreeMap;
use vstd::prelude::*;
use vstd::std_specs::btree::{increasing_seq, spec_btree_map_iter};
use vstd::std_specs::cmp::OrdSpec;
use vstd::std_specs::iter::IteratorSpec;

verus! {

broadcast use vstd::std_specs::btree::group_btree_axioms;

/// What an entry is taken to occupy: 16 bytes of key and value, about 48 of tree.
pub const ENTRY_SIZE: usize = 64;

/// Points by timestamp. The view is the value at each timestamp.
pub struct MemTable {
    entries: BTreeMap<i64, u64>,
    size_bytes: usize,
    capacity: usize,
}

impl MemTable {
    pub closed spec fn view(&self) -> Map<i64, u64> {
        self.entries@
    }

    /// How many bytes the table may occupy before it is full.
    pub closed spec fn capacity(&self) -> usize {
        self.capacity
    }

    /// The occupied size is that of the entries, or the highest number where that is higher.
    pub closed spec fn wf(&self) -> bool {
        &&& self@.dom().finite()
        &&& self.size_bytes == if ENTRY_SIZE * self@.len() <= usize::MAX {
            ENTRY_SIZE * self@.len()
        } else {
            usize::MAX as int
        }
    }

    pub fn new(capacity: usize) -> (table: Self)
        ensures
            table.wf(),
            table@ == Map::<i64, u64>::empty(),
            table.capacity() == capacity,
    {
        Self { entries: BTreeMap::new(), size_bytes: 0, capacity }
    }

    /// Sets the value at the point's timestamp.
    pub fn insert(&mut self, point: TimeSeriesPoint)
        requires
            old(self).wf(),
        ensures
            final(self).wf(),
            final(self)@ == old(self)@.insert(point.timestamp, point.value_bits),
            final(self)@.len() == if old(self)@.contains_key(point.timestamp) {
                old(self)@.len()
            } else {
                old(self)@.len() + 1
            },
            final(self).capacity() == old(self).capacity(),
    {
        let is_new = self.entries.insert(point.timestamp, point.value_bits).is_none();
        if is_new {
            self.size_bytes = self.size_bytes.saturating_add(ENTRY_SIZE);
        }
    }

    /// Whether the entries occupy all of the capacity.
    pub fn is_full(&self) -> (b: bool)
        requires
            self.wf(),
        ensures
            b == (ENTRY_SIZE * self@.len() >= self.capacity()),
            b == (64 * self@.len() >= self.capacity()),
    {
        self.size_bytes >= self.capacity
    }

    /// Whether the entries would occupy all of the capacity with one at `timestamp`.
    pub fn is_full_with(&self, timestamp: i64) -> (b: bool)
        requires
            self.wf(),
        ensures
            forall|value_bits: u64|
                b == (ENTRY_SIZE * (#[trigger] self@.insert(timestamp, value_bits)).len()
                    >= self.capacity()),
    {
        if self.entries.contains_key(&timestamp) {
            self.size_bytes >= self.capacity
        } else {
            self.size_bytes.saturating_add(ENTRY_SIZE) >= self.capacity
        }
    }

    /// How many timestamps have a value.
    pub fn len(&self) -> (n: usize)
        ensures
            n == self@.len(),
    {
        self.entries.len()
    }

    pub fn is_empty(&self) -> (b: bool)
        ensures
            b == (self@ == Map::<i64, u64>::empty()),
    {
        let b = self.entries.is_empty();
        proof {
            if self@.is_empty() {
                assert(self@ =~= Map::<i64, u64>::empty());
            }
        }
        b
    }

    /// Takes all points out, by timestamp.
    pub fn drain_sorted(&mut self) -> (points: Vec<TimeSeriesPoint>)
        requires
            old(self).wf(),
        ensures
            strictly_sorted(points@),
            newest(points@) == old(self)@,
            points@ == map_points(old(self)@),
            final(self).wf(),
            final(self)@ == Map::<i64, u64>::empty(),
            final(self).capacity() == old(self).capacity(),
    {
        let points = self.scan_all();
        self.entries.clear();
        self.size_bytes = 0;
        points
    }

    /// The points from `start` to `end`, both inclusive, by timestamp.
    pub fn scan_range(&self, start: i64, end: i64) -> (points: Vec<TimeSeriesPoint>)
        requires
            start <= end || self@ == Map::<i64, u64>::empty(),
        ensures
            strictly_sorted(map_points(self@)),
            newest(map_points(self@)) == self@,
            strictly_sorted(points@),
            points@ == points_within(map_points(self@), start, end),
    {
        let mut points: Vec<TimeSeriesPoint> = Vec::new();
        let iter = self.entries.iter();
        let ghost items = iter.remaining();
        let ghost mut seen: Seq<TimeSeriesPoint> = Seq::empty();
        proof {
            self.lemma_items_increase(items);
        }
        for (timestamp, value_bits) in it: iter
            invariant
                it.seq() == items,
                seen.len() == it.index(),
                forall|i: int| 0 <= i < seen.len() ==> #[trigger] seen[i] == item_point(items[i]),
                points@ == points_within(seen, start, end),
        {
            let point = TimeSeriesPoint { timestamp: *timestamp, value_bits: *value_bits };
            proof {
                lemma_within_push(seen, point, start, end);
                seen = seen.push(point);
            }
            if start <= *timestamp && *timestamp <= end {
                points.push(point);
            }
        }
        proof {
            self.lemma_items_are_points(items, seen);
            lemma_within_is_strict(seen, start, end);
        }
        points
    }

    /// All points, by timestamp.
    pub fn scan_all(&self) -> (points: Vec<TimeSeriesPoint>)
        ensures
            strictly_sorted(points@),
            newest(points@) == self@,
            points@ == map_points(self@),
    {
        let mut points: Vec<TimeSeriesPoint> = Vec::new();
        let iter = self.entries.iter();
        let ghost items = iter.remaining();
        proof {
            self.lemma_items_increase(items);
        }
        for (timestamp, value_bits) in it: iter
            invariant
                it.seq() == items,
                points@.len() == it.index(),
                forall|i: int|
                    0 <= i < points@.len() ==> #[trigger] points@[i] == item_point(items[i]),
        {
            points.push(TimeSeriesPoint { timestamp: *timestamp, value_bits: *value_bits });
        }
        proof {
            self.lemma_items_are_points(items, points@);
        }
        points
    }

    /// Only finitely many timestamps have a value.
    pub proof fn entries_are_finite(&self)
        requires
            self.wf(),
        ensures
            self@.dom().finite(),
    {
    }

    proof fn lemma_items_increase(&self, items: Seq<(&i64, &u64)>)
        requires
            increasing_seq(items.map_values(|kv: (&i64, &u64)| *kv.0)),
        ensures
            forall|i: int, j: int| 0 <= i < j < items.len() ==> *items[i].0 < *items[j].0,
    {
        let keys = items.map_values(|kv: (&i64, &u64)| *kv.0);
        assert forall|i: int, j: int| 0 <= i < j < items.len() implies *items[i].0 < *items[j].0 by {
            assert(keys[i].cmp_spec(&keys[j]) is Less);
        }
    }

    proof fn lemma_items_are_points(&self, items: Seq<(&i64, &u64)>, points: Seq<TimeSeriesPoint>)
        requires
            items == spec_btree_map_iter(&self.entries).remaining(),
            forall|i: int, j: int| 0 <= i < j < items.len() ==> *items[i].0 < *items[j].0,
            points.len() == items.len(),
            forall|i: int| 0 <= i < points.len() ==> #[trigger] points[i] == item_point(items[i]),
        ensures
            strictly_sorted(points),
            newest(points) == self@,
            points == map_points(self@),
    {
        assert forall|i: int| 0 <= i < points.len() implies self@.contains_key(
            (#[trigger] points[i]).timestamp,
        ) && self@[points[i].timestamp] == points[i].value_bits by {
            assert(points[i] == item_point(items[i]));
            assert(self.entries@.contains_key(*items[i].0));
        }
        assert forall|t: i64| #[trigger] self@.contains_key(t) implies exists|i: int|
            0 <= i < points.len() && (#[trigger] points[i]).timestamp == t by {
            assert(items.contains((&t, &self.entries@[t])));
            let i = choose|i: int| 0 <= i < items.len() && items[i] == (&t, &self.entries@[t]);
            assert(points[i].timestamp == t);
        }
        lemma_listing_is_map_points(points, self@);
    }
}

/// The point of a map's item.
spec fn item_point(item: (&i64, &u64)) -> TimeSeriesPoint {
    TimeSeriesPoint { timestamp: *item.0, value_bits: *item.1 }
}

} // verus!
