//! Per-key aggregate statistics in tenths of a unit.
//!
//! `Stats` is the mathematical model: unbounded integers folded over a sample
//! set. `DataPoint` is the executable representative, sized so that overflow
//! is ruled out by the callers' bounds.

use vstd::prelude::*;

verus! {

/// The mathematical model of per-key statistics: all values are in
/// tenths of a unit.
pub struct Stats {
    pub min: int,
    pub max: int,
    pub count: int,
    pub sum: int,
}

/// Statistics of a single sample.
pub open spec fn stats_one(v: int) -> Stats {
    Stats { min: v, max: v, count: 1, sum: v }
}

/// Fold one more sample into existing statistics.
pub open spec fn stats_add(s: Stats, v: int) -> Stats {
    Stats {
        min: if v < s.min { v } else { s.min },
        max: if v > s.max { v } else { s.max },
        count: s.count + 1,
        sum: s.sum + v,
    }
}

/// Combine the statistics of two disjoint sample sets.
pub open spec fn stats_merge(a: Stats, b: Stats) -> Stats {
    Stats {
        min: if a.min <= b.min { a.min } else { b.min },
        max: if a.max >= b.max { a.max } else { b.max },
        count: a.count + b.count,
        sum: a.sum + b.sum,
    }
}

/// Statistics as any run of the pipeline produces them: at least one sample,
/// and a sum strictly above the representable minimum.
pub open spec fn stats_ok(s: Stats) -> bool {
    &&& s.count >= 1
    &&& s.sum > i64::MIN
}

/// Law: combining statistics is commutative.
pub proof fn lemma_stats_merge_comm(a: Stats, b: Stats)
    ensures
        stats_merge(a, b) == stats_merge(b, a),
{
}

/// Law: combining statistics is associative.
pub proof fn lemma_stats_merge_assoc(a: Stats, b: Stats, c: Stats)
    ensures
        stats_merge(stats_merge(a, b), c) == stats_merge(a, stats_merge(b, c)),
{
}

/// Law: merging a single sample's statistics is the same as folding the
/// sample in directly.
pub proof fn lemma_stats_merge_one(a: Stats, v: int)
    ensures
        stats_merge(a, stats_one(v)) == stats_add(a, v),
{
}

/// Law: folding a sample distributes over a merge on the right.
pub proof fn lemma_stats_merge_add(a: Stats, b: Stats, v: int)
    ensures
        stats_merge(a, stats_add(b, v)) == stats_add(stats_merge(a, b), v),
{
}

/// Executable per-key statistics: minimum, maximum, count and sum of the
/// samples seen so far, all values in tenths of a unit. The sum is kept at
/// twice the sample width so that accumulation cannot overflow for any
/// buffer the pipeline accepts.
#[derive(Debug, Clone, Copy)]
pub struct DataPoint {
    min: i32,
    max: i32,
    count: u32,
    sum: i64,
}

impl View for DataPoint {
    type V = Stats;

    closed spec fn view(&self) -> Stats {
        Stats {
            min: self.min as int,
            max: self.max as int,
            count: self.count as int,
            sum: self.sum as int,
        }
    }
}

impl DataPoint {
    /// Statistics of a single sample.
    pub fn new(val: i32) -> (r: Self)
        ensures
            r@ == stats_one(val as int),
    {
        Self { min: val, max: val, count: 1, sum: val as i64 }
    }

    /// Fold one more sample into these statistics.
    pub fn add_sample(&mut self, val: i32)
        requires
            old(self)@.count < u32::MAX,
            i64::MIN <= old(self)@.sum + val,
            old(self)@.sum + val <= i64::MAX,
        ensures
            final(self)@ == stats_add(old(self)@, val as int),
    {
        self.min = if val < self.min { val } else { self.min };
        self.max = if val > self.max { val } else { self.max };
        self.sum = self.sum + val as i64;
        self.count = self.count + 1;
    }

    /// Combine another key's-worth of statistics into these, as the merge
    /// step does for a key seen in more than one chunk.
    pub fn merge_with(&mut self, other: &DataPoint)
        requires
            old(self)@.count + other@.count <= u32::MAX,
            i64::MIN <= old(self)@.sum + other@.sum,
            old(self)@.sum + other@.sum <= i64::MAX,
        ensures
            final(self)@ == stats_merge(old(self)@, other@),
    {
        self.min = if self.min <= other.min { self.min } else { other.min };
        self.max = if self.max >= other.max { self.max } else { other.max };
        self.sum = self.sum + other.sum;
        self.count = self.count + other.count;
    }

    /// The smallest sample, in tenths.
    pub fn min(&self) -> (r: i32)
        ensures
            r as int == self@.min,
    {
        self.min
    }

    /// The largest sample, in tenths.
    pub fn max(&self) -> (r: i32)
        ensures
            r as int == self@.max,
    {
        self.max
    }

    /// The number of samples.
    pub fn count(&self) -> (r: u32)
        ensures
            r as int == self@.count,
    {
        self.count
    }

    /// The sum of the samples, in tenths.
    pub fn sum(&self) -> (r: i64)
        ensures
            r as int == self@.sum,
    {
        self.sum
    }
}

} // verus!
