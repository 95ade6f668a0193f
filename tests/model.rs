use zcash_txshape::model::{vin_vout_key, ShapeStats, TxShape};
use zcash_txshape::util::size_bucket;

fn shape(n_vin: u32, n_vout: u32, n_sapling_spend: u32, size: u32, version: u32) -> TxShape {
    TxShape {
        n_vin,
        n_vout,
        n_joinsplit: 0,
        n_sapling_spend,
        n_sapling_output: 0,
        n_orchard_action: 0,
        size_bucket: size_bucket(size),
        version,
    }
}

#[test]
fn test_shape_has_transparent_shielded() {
    let s = TxShape {
        n_vin: 1,
        n_vout: 0,
        n_joinsplit: 0,
        n_sapling_spend: 0,
        n_sapling_output: 0,
        n_orchard_action: 0,
        size_bucket: 0,
        version: 4,
    };
    assert!(s.has_transparent());
    assert!(!s.has_shielded());
}

#[test]
fn test_shape_stats_from_shapes() {
    let shapes = vec![
        TxShape {
            n_vin: 1,
            n_vout: 2,
            n_joinsplit: 0,
            n_sapling_spend: 0,
            n_sapling_output: 0,
            n_orchard_action: 0,
            size_bucket: size_bucket(300),
            version: 4,
        },
        TxShape {
            n_vin: 1,
            n_vout: 2,
            n_joinsplit: 0,
            n_sapling_spend: 0,
            n_sapling_output: 0,
            n_orchard_action: 0,
            size_bucket: size_bucket(300),
            version: 4,
        },
    ];
    let stats = ShapeStats::from_shapes(&shapes);
    assert_eq!(stats.n_txs, 2);
    assert_eq!(stats.vin_vout_hist.get(vin_vout_key(1, 2)), Some(2));
    assert_eq!(stats.with_transparent, 2);
}

#[test]
fn test_size_bucket() {
    assert_eq!(size_bucket(0), 0);
    assert_eq!(size_bucket(256), 0);
    assert_eq!(size_bucket(257), 1);
    assert_eq!(size_bucket(512), 1);
    assert_eq!(size_bucket(1024), 2);
    assert_eq!(size_bucket(4096), 4);
    assert_eq!(size_bucket(5000), 5);
}

#[test]
fn size_bucket_is_bounded_and_never_decreases() {
    let sizes = [0u32, 1, 255, 256, 257, 511, 512, 513, 1024, 1025, 2048, 2049, 4096, 4097, 100_000, u32::MAX];
    let mut last = 0u8;
    for s in sizes {
        let b = size_bucket(s);
        assert!(b <= 5);
        assert!(b >= last);
        last = b;
    }
    assert_eq!(size_bucket(2048), 3);
    assert_eq!(size_bucket(2049), 4);
    assert_eq!(size_bucket(u32::MAX), 5);
}

#[test]
fn shielded_counts_any_shielded_component() {
    let mut s = shape(0, 0, 0, 10, 5);
    assert!(!s.has_shielded());
    assert!(!s.has_transparent());
    s.n_orchard_action = 2;
    assert!(s.has_shielded());
    s.n_orchard_action = 0;
    s.n_joinsplit = 1;
    assert!(s.has_shielded());
    s.n_vout = 1;
    assert!(s.has_transparent());
}

#[test]
fn vin_vout_key_packs_both_counts() {
    assert_eq!(vin_vout_key(1, 2), (1u64 << 32) | 2);
    assert_eq!(vin_vout_key(0, 0), 0);
    assert_eq!(vin_vout_key(u32::MAX, u32::MAX), u64::MAX);
}

#[test]
fn from_shapes_fills_every_histogram() {
    let shapes = vec![shape(1, 2, 0, 300, 4), shape(0, 0, 2, 5000, 5), shape(1, 2, 1, 100, 4)];
    let stats = ShapeStats::from_shapes(&shapes);
    assert_eq!(stats.n_txs, 3);
    assert_eq!(stats.size_bucket_hist, [1, 1, 0, 0, 0, 1]);
    assert_eq!(stats.vin_vout_hist.get(vin_vout_key(1, 2)), Some(2));
    assert_eq!(stats.vin_vout_hist.get(vin_vout_key(0, 0)), Some(1));
    assert_eq!(stats.vin_vout_hist.get(vin_vout_key(2, 1)), None);
    assert_eq!(stats.version_hist.get(4), Some(2));
    assert_eq!(stats.version_hist.get(5), Some(1));
    assert_eq!(stats.with_transparent, 2);
    assert_eq!(stats.with_shielded, 2);
}

#[test]
fn empty_stats_are_all_zero() {
    let stats = ShapeStats::from_shapes(&[]);
    assert_eq!(stats.n_txs, 0);
    assert_eq!(stats.size_bucket_hist, [0; 6]);
    assert_eq!(stats.vin_vout_hist.len(), 0);
    assert_eq!(stats.version_hist.len(), 0);
    let e = ShapeStats::empty();
    assert_eq!(e.n_txs, 0);
    assert_eq!(e.with_transparent, 0);
    assert_eq!(e.with_shielded, 0);
}

#[test]
fn merge_of_builds_equals_build_of_concatenation() {
    let s1 = vec![shape(1, 2, 0, 300, 4), shape(0, 0, 1, 600, 5)];
    let s2 = vec![shape(1, 2, 0, 3000, 4), shape(3, 1, 0, 10, 6), shape(0, 0, 1, 600, 5)];
    let merged = ShapeStats::from_shapes(&s1).merge(&ShapeStats::from_shapes(&s2));
    let mut all = s1.clone();
    all.extend(s2.iter().copied());
    let direct = ShapeStats::from_shapes(&all);
    assert_eq!(merged.n_txs, direct.n_txs);
    assert_eq!(merged.size_bucket_hist, direct.size_bucket_hist);
    assert_eq!(merged.with_transparent, direct.with_transparent);
    assert_eq!(merged.with_shielded, direct.with_shielded);
    assert_eq!(merged.vin_vout_hist.entries(), direct.vin_vout_hist.entries());
    assert_eq!(merged.version_hist.entries(), direct.version_hist.entries());
    assert_eq!(merged.vin_vout_hist.get(vin_vout_key(1, 2)), Some(2));
    assert_eq!(merged.version_hist.get(5), Some(2));
}
