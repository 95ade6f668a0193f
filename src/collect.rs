//! The decisions of a collection run over a height range: which height to
//! fetch next, when to pause between batches, what to do with each fetch
//! result, and the statistics of the whole run. The caller performs the
//! fetches, the pauses and the writes.
use vstd::prelude::*;
use crate::model::{buckets_valid, shapes_view, ShapeStats, TxShape};
use crate::rpc::FetchError;

verus! {

/// What the caller does next.
#[derive(Clone, Copy, Debug, PartialEq, Eq)]
pub enum CollectStep {
    /// Fetch the block at this height, then call `record`.
    Fetch(u32),
    /// A batch is complete and heights remain: wait the configured delay.
    Pause,
    /// Every height was handled: store `range_stats` for the range.
    Finish,
}

/// What became of each height so far.
#[derive(Clone, Copy, Debug, PartialEq, Eq)]
pub struct CollectCounts {
    /// Heights whose block was fetched.
    pub fetched: u32,
    /// Heights that had no data yet.
    pub skipped: u32,
    /// Heights whose fetch failed.
    pub failed: u32,
}

pub struct RunView {
    pub low: u32,
    pub high: u32,
    pub batch_size: u32,
    pub next: u32,
    pub paused: bool,
    pub shapes: Seq<TxShape>,
    pub counts: CollectCounts,
}

/// The state of a collection run over `[low, high)`.
pub struct CollectRun {
    low: u32,
    high: u32,
    batch_size: u32,
    next: u32,
    paused: bool,
    shapes: Vec<TxShape>,
    counts: CollectCounts,
}

impl View for CollectRun {
    type V = RunView;

    closed spec fn view(&self) -> RunView {
        RunView {
            low: self.low,
            high: self.high,
            batch_size: self.batch_size,
            next: self.next,
            paused: self.paused,
            shapes: self.shapes@,
            counts: self.counts,
        }
    }
}

/// A batch has just been completed at `v.next`, and heights remain.
pub open spec fn at_batch_end(v: RunView) -> bool {
    v.low < v.next < v.high && (v.next - v.low) % (v.batch_size as int) == 0
}

impl CollectRun {
    /// The run's invariants: the cursor stays in the range, every handled
    /// height is counted once, and every shape has a valid size bucket.
    pub closed spec fn wf(&self) -> bool {
        &&& self.batch_size > 0
        &&& self.low <= self.next
        &&& (self.low <= self.high ==> self.next <= self.high)
        &&& (self.low > self.high ==> self.next == self.low)
        &&& self.counts.fetched + self.counts.skipped + self.counts.failed == self.next - self.low
        &&& buckets_valid(self.shapes@)
    }

    /// A run over `[low, high)` in batches of `batch_size` heights.
    pub fn new(low: u32, high: u32, batch_size: u32) -> (r: CollectRun)
        requires
            batch_size > 0,
        ensures
            r.wf(),
            r@ == (RunView {
                low,
                high,
                batch_size,
                next: low,
                paused: false,
                shapes: Seq::empty(),
                counts: CollectCounts { fetched: 0, skipped: 0, failed: 0 },
            }),
    {
        CollectRun {
            low,
            high,
            batch_size,
            next: low,
            paused: false,
            shapes: Vec::new(),
            counts: CollectCounts { fetched: 0, skipped: 0, failed: 0 },
        }
    }

    /// The next thing to do. Heights are fetched one at a time in order;
    /// after each complete batch that is not the last, one pause.
    pub fn step(&mut self) -> (r: CollectStep)
        requires
            old(self).wf(),
        ensures
            final(self).wf(),
            old(self)@.next >= old(self)@.high ==> r == CollectStep::Finish && final(self)@ == old(
                self,
            )@,
            old(self)@.next < old(self)@.high && at_batch_end(old(self)@) && !old(self)@.paused
                ==> r == CollectStep::Pause && final(self)@ == (RunView {
                paused: true,
                ..old(self)@
            }),
            old(self)@.next < old(self)@.high && !(at_batch_end(old(self)@) && !old(self)@.paused)
                ==> r == CollectStep::Fetch(old(self)@.next) && final(self)@ == old(self)@,
    {
        if self.next >= self.high {
            return CollectStep::Finish;
        }
        let boundary = self.low < self.next && (self.next - self.low) % self.batch_size == 0;
        if boundary && !self.paused {
            self.paused = true;
            return CollectStep::Pause;
        }
        CollectStep::Fetch(self.next)
    }

    /// Takes the result of fetching the current height and moves on. Fetched
    /// shapes join the run's total; the block's own statistics are returned
    /// for writing only when no row exists for the height yet. No data skips
    /// the height; an error abandons it, and so does a shape with an invalid
    /// size bucket.
    pub fn record(
        &mut self,
        outcome: &Result<Option<Vec<TxShape>>, FetchError>,
        row_exists: bool,
    ) -> (r: Option<ShapeStats>)
        requires
            old(self).wf(),
            old(self)@.next < old(self)@.high,
        ensures
            final(self).wf(),
            final(self)@.next == old(self)@.next + 1,
            final(self)@.paused == false,
            final(self)@.low == old(self)@.low && final(self)@.high == old(self)@.high
                && final(self)@.batch_size == old(self)@.batch_size,
            match outcome {
                Ok(Some(v)) => if buckets_valid(v@) {
                    &&& final(self)@.shapes == old(self)@.shapes + v@
                    &&& final(self)@.counts == CollectCounts {
                        fetched: (old(self)@.counts.fetched + 1) as u32,
                        ..old(self)@.counts
                    }
                    &&& (row_exists ==> r is None)
                    &&& (!row_exists ==> (r matches Some(s) && s.wf() && s@ == shapes_view(v@)))
                } else {
                    &&& final(self)@.shapes == old(self)@.shapes
                    &&& final(self)@.counts == CollectCounts {
                        failed: (old(self)@.counts.failed + 1) as u32,
                        ..old(self)@.counts
                    }
                    &&& r is None
                },
                Ok(None) => {
                    &&& final(self)@.shapes == old(self)@.shapes
                    &&& final(self)@.counts == CollectCounts {
                        skipped: (old(self)@.counts.skipped + 1) as u32,
                        ..old(self)@.counts
                    }
                    &&& r is None
                },
                Err(_) => {
                    &&& final(self)@.shapes == old(self)@.shapes
                    &&& final(self)@.counts == CollectCounts {
                        failed: (old(self)@.counts.failed + 1) as u32,
                        ..old(self)@.counts
                    }
                    &&& r is None
                },
            },
    {
        let mut result: Option<ShapeStats> = None;
        match outcome {
            Ok(Some(v)) => {
                if shapes_valid(v.as_slice()) {
                    let ghost before = self.shapes@;
                    let mut i: usize = 0;
                    while i < v.len()
                        invariant
                            0 <= i <= v@.len(),
                            buckets_valid(v@),
                            buckets_valid(before),
                            self.shapes@ == before + v@.subrange(0, i as int),
                            self.low == old(self).low,
                            self.high == old(self).high,
                            self.batch_size == old(self).batch_size,
                            self.next == old(self).next,
                            self.paused == old(self).paused,
                            self.counts == old(self).counts,
                        decreases v@.len() - i,
                    {
                        self.shapes.push(v[i]);
                        i += 1;
                        assert(self.shapes@ =~= before + v@.subrange(0, i as int));
                    }
                    assert(v@.subrange(0, i as int) == v@);
                    assert(buckets_valid(self.shapes@)) by {
                        assert forall|k: int| 0 <= k < self.shapes@.len() implies #[trigger] self.shapes@[k].size_bucket <= 5 by {
                            if k >= before.len() {
                                assert(self.shapes@[k] == v@[k - before.len()]);
                            }
                        }
                    }
                    self.counts.fetched = self.counts.fetched + 1;
                    if !row_exists {
                        result = Some(ShapeStats::from_shapes(v.as_slice()));
                    }
                } else {
                    self.counts.failed = self.counts.failed + 1;
                }
            },
            Ok(None) => {
                self.counts.skipped = self.counts.skipped + 1;
            },
            Err(_) => {
                self.counts.failed = self.counts.failed + 1;
            },
        }
        self.next = self.next + 1;
        self.paused = false;
        result
    }

    /// What became of the heights handled so far.
    pub fn counts(&self) -> (r: CollectCounts)
        ensures
            r == self@.counts,
    {
        self.counts
    }

    /// Statistics of every transaction fetched in the run.
    pub fn range_stats(&self) -> (r: ShapeStats)
        requires
            self.wf(),
        ensures
            r.wf(),
            r@ == shapes_view(self@.shapes),
    {
        ShapeStats::from_shapes(self.shapes.as_slice())
    }
}

/// Whether every shape has a size bucket in 0 to 5.
pub fn shapes_valid(shapes: &[TxShape]) -> (r: bool)
    ensures
        r == buckets_valid(shapes@),
{
    let mut i: usize = 0;
    while i < shapes.len()
        invariant
            0 <= i <= shapes@.len(),
            forall|k: int| 0 <= k < i ==> #[trigger] shapes@[k].size_bucket <= 5,
        decreases shapes@.len() - i,
    {
        if shapes[i].size_bucket > 5 {
            return false;
        }
        i += 1;
    }
    true
}

} // verus!
