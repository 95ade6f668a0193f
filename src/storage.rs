//! The stored form of aggregate statistics: one row per block height or per
//! collected range, with its three histograms as text.
use vstd::prelude::*;
use crate::codec::{
    decode_histogram, decode_numbers, enc_array, enc_object, encode_histogram, encode_numbers,
    lemma_enc_array_injective, lemma_enc_object_injective, KeyStyle,
};
use crate::model::{empty_view, merge_view, ShapeStats, StatsView};

verus! {

/// One stored row of statistics. Heights and range bounds are the table's keys
/// and are not part of the row.
#[derive(Clone, Debug, PartialEq, Eq)]
pub struct StoredRow {
    pub n_txs: u64,
    /// Text of the (inputs, outputs) histogram, `{"1_2":3,...}`.
    pub vin_vout_hist: Vec<u8>,
    /// Text of the size-bucket counts, `[n,n,n,n,n,n]`.
    pub size_bucket_hist: Vec<u8>,
    /// Text of the version histogram, `{"4":3,...}`.
    pub version_hist: Vec<u8>,
    pub with_transparent: u64,
    pub with_shielded: u64,
}

/// Why stored statistics could not be read.
#[derive(Clone, Copy, Debug, PartialEq, Eq)]
pub enum StorageError {
    /// A row is not the stored form of any valid statistics.
    CorruptRow,
    /// The transaction count of a range does not fit in 64 bits.
    CountOverflow,
}

/// `row` is the stored form of `s`.
pub open spec fn row_of(row: StoredRow, s: ShapeStats) -> bool {
    &&& row.n_txs == s.n_txs
    &&& row.with_transparent == s.with_transparent
    &&& row.with_shielded == s.with_shielded
    &&& row.vin_vout_hist@ == enc_object(s.vin_vout_hist.entry_seq(), KeyStyle::Pair)
    &&& row.size_bucket_hist@ == enc_array(s.size_bucket_hist@)
    &&& row.version_hist@ == enc_object(s.version_hist.entry_seq(), KeyStyle::Plain)
}

/// The stored form of statistics.
pub fn encode_row(stats: &ShapeStats) -> (r: StoredRow)
    ensures
        row_of(r, *stats),
{
    StoredRow {
        n_txs: stats.n_txs,
        vin_vout_hist: encode_histogram(&stats.vin_vout_hist, KeyStyle::Pair),
        size_bucket_hist: encode_numbers(stats.size_bucket_hist.as_slice()),
        version_hist: encode_histogram(&stats.version_hist, KeyStyle::Plain),
        with_transparent: stats.with_transparent,
        with_shielded: stats.with_shielded,
    }
}

/// Reads statistics back from a row. A row is accepted exactly when it is
/// the stored form of valid statistics, which are then given back.
pub fn decode_row(row: &StoredRow) -> (r: Result<ShapeStats, StorageError>)
    ensures
        r matches Ok(s) ==> s.wf() && row_of(*row, s),
        r matches Err(e) ==> e == StorageError::CorruptRow,
        forall|s: ShapeStats| #[trigger]
            row_of(*row, s) && s.wf() ==> (r matches Ok(t) && t@ == s@),
{
    proof {
        assert forall|s: ShapeStats| #[trigger] row_of(*row, s) && s.wf() implies s.size_bucket_hist@.len()
            > 0 && crate::codec::encodes(
            row.vin_vout_hist@,
            s.vin_vout_hist.entry_seq(),
            KeyStyle::Pair,
        ) && crate::codec::encodes(
            row.version_hist@,
            s.version_hist.entry_seq(),
            KeyStyle::Plain,
        ) by {
            s.vin_vout_hist.lemma_entry_seq();
            s.version_hist.lemma_entry_seq();
        }
    }
    let vin_vout_hist = match decode_histogram(row.vin_vout_hist.as_slice(), KeyStyle::Pair) {
        Some(h) => h,
        None => {
            return Err(StorageError::CorruptRow);
        },
    };
    let version_hist = match decode_histogram(row.version_hist.as_slice(), KeyStyle::Plain) {
        Some(h) => h,
        None => {
            return Err(StorageError::CorruptRow);
        },
    };
    let nums = match decode_numbers(row.size_bucket_hist.as_slice()) {
        Some(v) => v,
        None => {
            return Err(StorageError::CorruptRow);
        },
    };
    if nums.len() != 6 {
        return Err(StorageError::CorruptRow);
    }
    let size_bucket_hist: [u64; 6] = [nums[0], nums[1], nums[2], nums[3], nums[4], nums[5]];
    assert(size_bucket_hist@ =~= nums@);
    let n = row.n_txs;
    let total: u128 = size_bucket_hist[0] as u128 + size_bucket_hist[1] as u128
        + size_bucket_hist[2] as u128 + size_bucket_hist[3] as u128 + size_bucket_hist[4] as u128
        + size_bucket_hist[5] as u128;
    proof {
        assert forall|t: ShapeStats| #[trigger] row_of(*row, t) && t.wf() implies total == n as u128
            && vin_vout_hist@ == t.vin_vout_hist@ && version_hist@ == t.version_hist@ by {
            vin_vout_hist.lemma_entry_seq();
            version_hist.lemma_entry_seq();
            t.vin_vout_hist.lemma_entry_seq();
            t.version_hist.lemma_entry_seq();
            assert(size_bucket_hist@ == t.size_bucket_hist@);
            assert forall|i: int| 0 <= i < 6 implies size_bucket_hist[i] == t.size_bucket_hist[i] by {
                assert(size_bucket_hist@[i] == t.size_bucket_hist@[i]);
            }
        }
    }
    if total != n as u128 || row.with_transparent > n || row.with_shielded > n
        || !vin_vout_hist.counts_at_most(n) || !version_hist.counts_at_most(n) {
        return Err(StorageError::CorruptRow);
    }
    let s = ShapeStats {
        n_txs: n,
        vin_vout_hist,
        size_bucket_hist,
        version_hist,
        with_transparent: row.with_transparent,
        with_shielded: row.with_shielded,
    };
    proof {
        assert forall|t: ShapeStats| #[trigger] row_of(*row, t) && t.wf() implies s@ == t@ by {
            s.vin_vout_hist.lemma_entry_seq();
            s.version_hist.lemma_entry_seq();
            t.vin_vout_hist.lemma_entry_seq();
            t.version_hist.lemma_entry_seq();
            assert(s.size_bucket_hist@ == t.size_bucket_hist@);
            assert(s@.size_hist =~= t@.size_hist) by {
                assert forall|i: int| 0 <= i < 6 implies s.size_bucket_hist[i] == t.size_bucket_hist[i] by {
                    assert(s.size_bucket_hist@[i] == t.size_bucket_hist@[i]);
                }
            }
        }
    }
    Ok(s)
}

/// Writing statistics as a row and reading that row back gives statistics
/// equal to the written ones on every field: a row is the stored form of at
/// most one valid value.
pub proof fn lemma_row_round_trip(written: ShapeStats, row: StoredRow, read: ShapeStats)
    requires
        written.wf(),
        read.wf(),
        row_of(row, written),
        row_of(row, read),
    ensures
        read@ == written@,
{
    written.vin_vout_hist.lemma_entry_seq();
    written.version_hist.lemma_entry_seq();
    read.vin_vout_hist.lemma_entry_seq();
    read.version_hist.lemma_entry_seq();
    lemma_enc_object_injective(
        written.vin_vout_hist.entry_seq(),
        read.vin_vout_hist.entry_seq(),
        KeyStyle::Pair,
    );
    lemma_enc_object_injective(
        written.version_hist.entry_seq(),
        read.version_hist.entry_seq(),
        KeyStyle::Plain,
    );
    lemma_enc_array_injective(written.size_bucket_hist@, read.size_bucket_hist@);
    assert(read@.size_hist =~= written@.size_hist) by {
        assert forall|i: int| 0 <= i < 6 implies read.size_bucket_hist[i]
            == written.size_bucket_hist[i] by {
            assert(read.size_bucket_hist@[i] == written.size_bucket_hist@[i]);
        }
    }
}

/// The statistics that a row stores, if it is the stored form of any.
pub open spec fn row_view(row: StoredRow) -> Option<StatsView> {
    if exists|s: ShapeStats| #[trigger] row_of(row, s) && s.wf() {
        Some((choose|s: ShapeStats| #[trigger] row_of(row, s) && s.wf())@)
    } else {
        None
    }
}

/// Merging the statistics stored in `rows`, in order: the first row that
/// stores none is an error, and so is a transaction count past `u64::MAX`.
pub open spec fn aggregate_spec(rows: Seq<StoredRow>) -> Result<StatsView, StorageError>
    decreases rows.len(),
{
    if rows.len() == 0 {
        Ok(empty_view())
    } else {
        match aggregate_spec(rows.drop_last()) {
            Err(e) => Err(e),
            Ok(acc) => match row_view(rows.last()) {
                None => Err(StorageError::CorruptRow),
                Some(v) => if acc.n_txs + v.n_txs > u64::MAX {
                    Err(StorageError::CountOverflow)
                } else {
                    Ok(merge_view(acc, v))
                },
            },
        }
    }
}

/// Merges the statistics of the given rows (those of the blocks of a
/// range). No row at all gives the statistics of no transaction.
pub fn aggregate_rows(rows: &[StoredRow]) -> (r: Result<ShapeStats, StorageError>)
    ensures
        match r {
            Ok(s) => s.wf() && aggregate_spec(rows@) == Ok::<StatsView, StorageError>(s@),
            Err(e) => aggregate_spec(rows@) == Err::<StatsView, StorageError>(e),
        },
{
    let mut acc = ShapeStats::empty();
    let mut i: usize = 0;
    while i < rows.len()
        invariant
            0 <= i <= rows@.len(),
            acc.wf(),
            aggregate_spec(rows@.subrange(0, i as int)) == Ok::<StatsView, StorageError>(acc@),
        decreases rows@.len() - i,
    {
        let ghost pre = rows@.subrange(0, i as int);
        let ghost post = rows@.subrange(0, i + 1);
        assert(post.drop_last() == pre);
        assert(post.last() == rows@[i as int]);
        let s = match decode_row(&rows[i]) {
            Ok(s) => s,
            Err(e) => {
                proof {
                    assert(row_view(rows@[i as int]) is None);
                    assert(aggregate_spec(post) == Err::<StatsView, StorageError>(e));
                    lemma_aggregate_err_sticky(rows@, i + 1);
                }
                return Err(e);
            },
        };
        proof {
            let c = choose|c: ShapeStats| #[trigger] row_of(rows@[i as int], c) && c.wf();
            assert(row_view(rows@[i as int]) == Some(c@));
            assert(s@ == c@);
        }
        if acc.n_txs > u64::MAX - s.n_txs {
            proof {
                assert(aggregate_spec(post) == Err::<StatsView, StorageError>(StorageError::CountOverflow));
                lemma_aggregate_err_sticky(rows@, i + 1);
            }
            return Err(StorageError::CountOverflow);
        }
        acc = acc.merge(&s);
        i += 1;
    }
    assert(rows@.subrange(0, i as int) == rows@);
    Ok(acc)
}

proof fn lemma_aggregate_err_sticky(rows: Seq<StoredRow>, i: int)
    requires
        0 <= i <= rows.len(),
        aggregate_spec(rows.subrange(0, i)) is Err,
    ensures
        aggregate_spec(rows) == aggregate_spec(rows.subrange(0, i)),
    decreases rows.len() - i,
{
    if i < rows.len() {
        let post = rows.subrange(0, i + 1);
        assert(post.drop_last() == rows.subrange(0, i));
        lemma_aggregate_err_sticky(rows, i + 1);
    } else {
        assert(rows.subrange(0, i) == rows);
    }
}

} // verus!
