//! Transaction shapes and the statistics aggregated from them.
use vstd::prelude::*;
use crate::hist::{add_count, counts_bounded, sum_maps, Histogram};

verus! {

/// Structural metadata of one transaction: counts only, no values or addresses.
#[derive(Clone, Copy, Debug, PartialEq, Eq, Hash)]
pub struct TxShape {
    /// Number of transparent inputs.
    pub n_vin: u32,
    /// Number of transparent outputs.
    pub n_vout: u32,
    /// Number of Sprout joinsplits.
    pub n_joinsplit: u32,
    /// Number of Sapling spends.
    pub n_sapling_spend: u32,
    /// Number of Sapling outputs.
    pub n_sapling_output: u32,
    /// Number of Orchard actions.
    pub n_orchard_action: u32,
    /// Size bucket, 0 to 5.
    pub size_bucket: u8,
    /// Transaction version.
    pub version: u32,
}

impl TxShape {
    pub open spec fn spec_has_transparent(&self) -> bool {
        self.n_vin > 0 || self.n_vout > 0
    }

    pub open spec fn spec_has_shielded(&self) -> bool {
        self.n_joinsplit > 0 || self.n_sapling_spend > 0 || self.n_sapling_output > 0
            || self.n_orchard_action > 0
    }

    /// Whether the transaction has a transparent input or output.
    #[verifier::when_used_as_spec(spec_has_transparent)]
    pub fn has_transparent(&self) -> (r: bool)
        ensures
            r == self.spec_has_transparent(),
    {
        self.n_vin > 0 || self.n_vout > 0
    }

    /// Whether the transaction has any shielded component.
    #[verifier::when_used_as_spec(spec_has_shielded)]
    pub fn has_shielded(&self) -> (r: bool)
        ensures
            r == self.spec_has_shielded(),
    {
        self.n_joinsplit > 0 || self.n_sapling_spend > 0 || self.n_sapling_output > 0
            || self.n_orchard_action > 0
    }
}

/// The composite histogram key of an (inputs, outputs) pair.
pub open spec fn pair_key(n_vin: u32, n_vout: u32) -> u64 {
    (n_vin as int * 0x1_0000_0000 + n_vout as int) as u64
}

/// The composite histogram key of an (inputs, outputs) pair: inputs in the
/// high 32 bits, outputs in the low 32 bits.
pub fn vin_vout_key(n_vin: u32, n_vout: u32) -> (r: u64)
    ensures
        r == pair_key(n_vin, n_vout),
        r as int == n_vin as int * 0x1_0000_0000 + n_vout as int,
{
    assert(n_vin as int * 0x1_0000_0000 + n_vout as int <= u64::MAX) by (nonlinear_arith)
        requires
            n_vin <= u32::MAX,
            n_vout <= u32::MAX,
    ;
    (n_vin as u64) * 0x1_0000_0000u64 + (n_vout as u64)
}

/// Every shape of `s` has a size bucket in 0 to 5.
pub open spec fn buckets_valid(s: Seq<TxShape>) -> bool {
    forall|i: int| 0 <= i < s.len() ==> #[trigger] s[i].size_bucket <= 5
}

pub open spec fn count_transparent(s: Seq<TxShape>) -> nat
    decreases s.len(),
{
    if s.len() == 0 {
        0
    } else {
        count_transparent(s.drop_last()) + if s.last().spec_has_transparent() {
            1nat
        } else {
            0nat
        }
    }
}

pub open spec fn count_shielded(s: Seq<TxShape>) -> nat
    decreases s.len(),
{
    if s.len() == 0 {
        0
    } else {
        count_shielded(s.drop_last()) + if s.last().spec_has_shielded() {
            1nat
        } else {
            0nat
        }
    }
}

/// Number of shapes of `s` in size bucket `b`.
pub open spec fn count_bucket(s: Seq<TxShape>, b: int) -> nat
    decreases s.len(),
{
    if s.len() == 0 {
        0
    } else {
        count_bucket(s.drop_last(), b) + if s.last().size_bucket == b {
            1nat
        } else {
            0nat
        }
    }
}

/// Histogram of (inputs, outputs) pairs of `s`.
pub open spec fn vin_vout_of(s: Seq<TxShape>) -> Map<u64, nat>
    decreases s.len(),
{
    if s.len() == 0 {
        Map::empty()
    } else {
        add_count(vin_vout_of(s.drop_last()), pair_key(s.last().n_vin, s.last().n_vout), 1)
    }
}

/// Histogram of versions of `s`.
pub open spec fn versions_of(s: Seq<TxShape>) -> Map<u64, nat>
    decreases s.len(),
{
    if s.len() == 0 {
        Map::empty()
    } else {
        add_count(versions_of(s.drop_last()), s.last().version as u64, 1)
    }
}

/// The mathematical content of a `ShapeStats`.
pub struct StatsView {
    pub n_txs: nat,
    pub vin_vout: Map<u64, nat>,
    pub size_hist: Seq<nat>,
    pub versions: Map<u64, nat>,
    pub with_transparent: nat,
    pub with_shielded: nat,
}

/// The statistics of a sequence of shapes.
pub open spec fn shapes_view(s: Seq<TxShape>) -> StatsView {
    StatsView {
        n_txs: s.len(),
        vin_vout: vin_vout_of(s),
        size_hist: Seq::new(6, |b: int| count_bucket(s, b)),
        versions: versions_of(s),
        with_transparent: count_transparent(s),
        with_shielded: count_shielded(s),
    }
}

/// Field-wise sum of two statistics; histograms are summed key-wise.
pub open spec fn merge_view(a: StatsView, b: StatsView) -> StatsView {
    StatsView {
        n_txs: a.n_txs + b.n_txs,
        vin_vout: sum_maps(a.vin_vout, b.vin_vout),
        size_hist: Seq::new(6, |i: int| a.size_hist[i] + b.size_hist[i]),
        versions: sum_maps(a.versions, b.versions),
        with_transparent: a.with_transparent + b.with_transparent,
        with_shielded: a.with_shielded + b.with_shielded,
    }
}

/// The statistics of no transaction at all.
pub open spec fn empty_view() -> StatsView {
    StatsView {
        n_txs: 0,
        vin_vout: Map::empty(),
        size_hist: Seq::new(6, |i: int| 0nat),
        versions: Map::empty(),
        with_transparent: 0,
        with_shielded: 0,
    }
}

proof fn lemma_concat_drop_last(s1: Seq<TxShape>, s2: Seq<TxShape>)
    requires
        s2.len() > 0,
    ensures
        (s1 + s2).drop_last() == s1 + s2.drop_last(),
        (s1 + s2).last() == s2.last(),
{
    assert((s1 + s2).drop_last() =~= s1 + s2.drop_last());
}

proof fn lemma_counts_concat(s1: Seq<TxShape>, s2: Seq<TxShape>)
    ensures
        count_transparent(s1 + s2) == count_transparent(s1) + count_transparent(s2),
        count_shielded(s1 + s2) == count_shielded(s1) + count_shielded(s2),
        forall|b: int| #[trigger]
            count_bucket(s1 + s2, b) == count_bucket(s1, b) + count_bucket(s2, b),
        vin_vout_of(s1 + s2) == sum_maps(vin_vout_of(s1), vin_vout_of(s2)),
        versions_of(s1 + s2) == sum_maps(versions_of(s1), versions_of(s2)),
    decreases s2.len(),
{
    if s2.len() == 0 {
        assert(s1 + s2 =~= s1);
        assert(vin_vout_of(s1) =~= sum_maps(vin_vout_of(s1), Map::empty()));
        assert(versions_of(s1) =~= sum_maps(versions_of(s1), Map::empty()));
    } else {
        lemma_concat_drop_last(s1, s2);
        lemma_counts_concat(s1, s2.drop_last());
        assert forall|b: int| #[trigger]
            count_bucket(s1 + s2, b) == count_bucket(s1, b) + count_bucket(s2, b) by {
            assert(count_bucket(s1 + s2.drop_last(), b) == count_bucket(s1, b) + count_bucket(
                s2.drop_last(),
                b,
            ));
        }
        assert(vin_vout_of(s1 + s2) =~= sum_maps(vin_vout_of(s1), vin_vout_of(s2)));
        assert(versions_of(s1 + s2) =~= sum_maps(versions_of(s1), versions_of(s2)));
    }
}

/// Building statistics from two shape sequences and merging them gives the
/// statistics built from their concatenation, on every field; the size
/// histogram, from which the entropy is computed, is itself such a field.
pub proof fn lemma_merge_build(s1: Seq<TxShape>, s2: Seq<TxShape>)
    ensures
        merge_view(shapes_view(s1), shapes_view(s2)) == shapes_view(s1 + s2),
{
    lemma_counts_concat(s1, s2);
    let m = merge_view(shapes_view(s1), shapes_view(s2));
    let b = shapes_view(s1 + s2);
    assert(m.size_hist =~= b.size_hist);
}

/// Sum of the six size-bucket counts.
pub open spec fn bucket_total(h: [u64; 6]) -> int {
    h[0] as int + h[1] as int + h[2] as int + h[3] as int + h[4] as int + h[5] as int
}

/// Aggregate shape statistics of a block or a range of blocks. The size
/// entropy is not stored: it is a function of `size_bucket_hist`.
#[derive(Debug)]
pub struct ShapeStats {
    /// Number of transactions.
    pub n_txs: u64,
    /// Count per (inputs, outputs) pair, keyed by `vin_vout_key`.
    pub vin_vout_hist: Histogram,
    /// Count per size bucket.
    pub size_bucket_hist: [u64; 6],
    /// Count per transaction version.
    pub version_hist: Histogram,
    /// Transactions with a transparent component.
    pub with_transparent: u64,
    /// Transactions with a shielded component.
    pub with_shielded: u64,
}

impl View for ShapeStats {
    type V = StatsView;

    open spec fn view(&self) -> StatsView {
        StatsView {
            n_txs: self.n_txs as nat,
            vin_vout: self.vin_vout_hist@,
            size_hist: Seq::new(6, |i: int| self.size_bucket_hist[i] as nat),
            versions: self.version_hist@,
            with_transparent: self.with_transparent as nat,
            with_shielded: self.with_shielded as nat,
        }
    }
}

impl ShapeStats {
    /// The invariants of aggregate statistics: the size buckets add up to
    /// the transaction count, and no other count exceeds it.
    pub open spec fn wf(&self) -> bool {
        &&& self.vin_vout_hist.wf()
        &&& self.version_hist.wf()
        &&& bucket_total(self.size_bucket_hist) == self.n_txs
        &&& self.with_transparent <= self.n_txs
        &&& self.with_shielded <= self.n_txs
        &&& counts_bounded(self.vin_vout_hist@, self.n_txs as int)
        &&& counts_bounded(self.version_hist@, self.n_txs as int)
    }

    /// Statistics of no transaction.
    pub fn empty() -> (r: ShapeStats)
        ensures
            r.wf(),
            r@ == empty_view(),
    {
        let r = ShapeStats {
            n_txs: 0,
            vin_vout_hist: Histogram::new(),
            size_bucket_hist: [0u64; 6],
            version_hist: Histogram::new(),
            with_transparent: 0,
            with_shielded: 0,
        };
        assert(r@.size_hist =~= empty_view().size_hist);
        r
    }

    /// Statistics of a list of shapes, in one pass.
    pub fn from_shapes(shapes: &[TxShape]) -> (r: ShapeStats)
        requires
            buckets_valid(shapes@),
        ensures
            r.wf(),
            r@ == shapes_view(shapes@),
    {
        let mut n_txs: u64 = 0;
        let mut vin_vout_hist = Histogram::new();
        let mut size_bucket_hist = [0u64; 6];
        let mut version_hist = Histogram::new();
        let mut with_transparent: u64 = 0;
        let mut with_shielded: u64 = 0;
        let mut i: usize = 0;
        while i < shapes.len()
            invariant
                0 <= i <= shapes@.len(),
                buckets_valid(shapes@),
                n_txs == i,
                vin_vout_hist.wf(),
                version_hist.wf(),
                vin_vout_hist@ == vin_vout_of(shapes@.subrange(0, i as int)),
                version_hist@ == versions_of(shapes@.subrange(0, i as int)),
                counts_bounded(vin_vout_hist@, i as int),
                counts_bounded(version_hist@, i as int),
                forall|b: int|
                    0 <= b < 6 ==> #[trigger] size_bucket_hist[b] as nat == count_bucket(
                        shapes@.subrange(0, i as int),
                        b,
                    ),
                bucket_total(size_bucket_hist) == i,
                with_transparent as nat == count_transparent(shapes@.subrange(0, i as int)),
                with_shielded as nat == count_shielded(shapes@.subrange(0, i as int)),
                with_transparent <= i,
                with_shielded <= i,
            decreases shapes@.len() - i,
        {
            let s = shapes[i];
            let ghost pre = shapes@.subrange(0, i as int);
            let ghost post = shapes@.subrange(0, i + 1);
            assert(post.drop_last() == pre);
            assert(post.last() == s);
            vin_vout_hist.add(vin_vout_key(s.n_vin, s.n_vout), 1);
            version_hist.add(s.version as u64, 1);
            let b = s.size_bucket as usize;
            assert(b < 6);
            size_bucket_hist[b] = size_bucket_hist[b] + 1;
            if s.has_transparent() {
                with_transparent = with_transparent + 1;
            }
            if s.has_shielded() {
                with_shielded = with_shielded + 1;
            }
            n_txs = n_txs + 1;
            i = i + 1;
        }
        assert(shapes@.subrange(0, i as int) == shapes@);
        let r = ShapeStats {
            n_txs,
            vin_vout_hist,
            size_bucket_hist,
            version_hist,
            with_transparent,
            with_shielded,
        };
        assert(r@.size_hist =~= shapes_view(shapes@).size_hist);
        r
    }

    /// Field-wise sum of two statistics; histograms are summed key-wise.
    pub fn merge(&self, other: &ShapeStats) -> (r: ShapeStats)
        requires
            self.wf(),
            other.wf(),
            self.n_txs + other.n_txs <= u64::MAX,
        ensures
            r.wf(),
            r@ == merge_view(self@, other@),
    {
        let mut vin_vout_hist = self.vin_vout_hist.copy();
        vin_vout_hist.merge_from(&other.vin_vout_hist);
        let mut version_hist = self.version_hist.copy();
        version_hist.merge_from(&other.version_hist);
        let a = &self.size_bucket_hist;
        let b = &other.size_bucket_hist;
        let r = ShapeStats {
            n_txs: self.n_txs + other.n_txs,
            vin_vout_hist,
            size_bucket_hist: [
                a[0] + b[0],
                a[1] + b[1],
                a[2] + b[2],
                a[3] + b[3],
                a[4] + b[4],
                a[5] + b[5],
            ],
            version_hist,
            with_transparent: self.with_transparent + other.with_transparent,
            with_shielded: self.with_shielded + other.with_shielded,
        };
        assert(r@.size_hist =~= merge_view(self@, other@).size_hist);
        r
    }
}

} // verus!
