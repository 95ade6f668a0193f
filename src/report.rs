//! Report computations over stored statistics: summary windows ending at
//! the highest stored height, per-range reports that say whether the range
//! holds any stored block, and signed differences between two ranges.
use vstd::prelude::*;
use crate::model::{ShapeStats, StatsView};
use crate::storage::{aggregate_rows, aggregate_spec, StorageError, StoredRow};

verus! {

/// Blocks counted per day by the summary windows: one every ten minutes.
pub const BLOCKS_PER_DAY: u32 = 144;

/// The largest element of a non-empty sequence of heights.
pub open spec fn is_max(s: Seq<u32>, m: u32) -> bool {
    &&& exists|i: int| 0 <= i < s.len() && s[i] == m
    &&& forall|i: int| 0 <= i < s.len() ==> s[i] <= m
}

/// The highest of the given heights; `None` when there are none.
pub fn max_height(heights: &[u32]) -> (r: Option<u32>)
    ensures
        heights@.len() == 0 <==> r is None,
        r matches Some(m) ==> is_max(heights@, m),
{
    if heights.len() == 0 {
        return None;
    }
    let mut m = heights[0];
    let mut i: usize = 1;
    while i < heights.len()
        invariant
            1 <= i <= heights@.len(),
            exists|k: int| 0 <= k < i && heights@[k] == m,
            forall|k: int| 0 <= k < i ==> heights@[k] <= m,
        decreases heights@.len() - i,
    {
        if heights[i] > m {
            m = heights[i];
        }
        i += 1;
    }
    Some(m)
}

/// A closed window of heights `[start, end]`.
#[derive(Clone, Copy, Debug, PartialEq, Eq)]
pub struct Window {
    pub start: u32,
    pub end: u32,
}

/// The window of the last `days` days: from `days` days of blocks before the
/// highest stored height (or height 0) up to that height. No window when no
/// height is stored.
pub fn summary_window(max_height: Option<u32>, days: u32) -> (r: Option<Window>)
    ensures
        max_height is None ==> r is None,
        max_height matches Some(m) ==> (r matches Some(w) && w.end == m && w.start as int == (if m
            >= days as int * BLOCKS_PER_DAY {
            m - days as int * BLOCKS_PER_DAY
        } else {
            0
        })),
{
    match max_height {
        None => None,
        Some(m) => {
            let span: u64 = days as u64 * BLOCKS_PER_DAY as u64;
            let start: u32 = if m as u64 >= span {
                (m as u64 - span) as u32
            } else {
                0
            };
            Some(Window { start, end: m })
        },
    }
}

/// The window of the last seven days.
pub fn weekly_window(max_height: Option<u32>) -> (r: Option<Window>)
    ensures
        max_height is None ==> r is None,
        max_height matches Some(m) ==> (r matches Some(w) && w.end == m && w.start as int == (if m
            >= 7 * BLOCKS_PER_DAY {
            m - 7 * BLOCKS_PER_DAY
        } else {
            0
        })),
{
    summary_window(max_height, 7)
}

/// The statistics of a range `[low, high)`, with whether any block of the
/// range is stored at all: an unstored range is not a range of zero
/// transactions.
pub struct RangeReport {
    pub low: u32,
    pub high: u32,
    pub has_data: bool,
    pub stats: ShapeStats,
}

/// The report of a range from its stored heights and its stored rows.
pub fn range_report(low: u32, high: u32, heights: &[u32], rows: &[StoredRow]) -> (r: Result<
    RangeReport,
    StorageError,
>)
    ensures
        match r {
            Ok(rep) => rep.low == low && rep.high == high && rep.has_data == (heights@.len() > 0)
                && rep.stats.wf() && aggregate_spec(rows@) == Ok::<StatsView, StorageError>(
                rep.stats@,
            ),
            Err(e) => aggregate_spec(rows@) == Err::<StatsView, StorageError>(e),
        },
{
    let stats = match aggregate_rows(rows) {
        Ok(s) => s,
        Err(e) => {
            return Err(e);
        },
    };
    Ok(RangeReport { low, high, has_data: heights.len() > 0, stats })
}

/// Two range reports and the signed differences, second minus first.
pub struct DiffReport {
    pub range_a: RangeReport,
    pub range_b: RangeReport,
    pub n_txs_delta: i128,
    pub with_transparent_delta: i128,
    pub with_shielded_delta: i128,
}

/// The difference of range `b` over range `a`.
pub fn range_diff(range_a: RangeReport, range_b: RangeReport) -> (r: DiffReport)
    ensures
        r.range_a == range_a,
        r.range_b == range_b,
        r.n_txs_delta == range_b.stats.n_txs - range_a.stats.n_txs,
        r.with_transparent_delta == range_b.stats.with_transparent - range_a.stats.with_transparent,
        r.with_shielded_delta == range_b.stats.with_shielded - range_a.stats.with_shielded,
{
    let n_txs_delta = range_b.stats.n_txs as i128 - range_a.stats.n_txs as i128;
    let with_transparent_delta = range_b.stats.with_transparent as i128
        - range_a.stats.with_transparent as i128;
    let with_shielded_delta = range_b.stats.with_shielded as i128
        - range_a.stats.with_shielded as i128;
    DiffReport { range_a, range_b, n_txs_delta, with_transparent_delta, with_shielded_delta }
}

} // verus!
