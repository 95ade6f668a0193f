use zcash_txshape::model::{ShapeStats, TxShape};
use zcash_txshape::report::{max_height, range_diff, range_report, summary_window, weekly_window, Window};
use zcash_txshape::storage::encode_row;
use zcash_txshape::util::size_bucket;

fn sample_stats() -> ShapeStats {
    let shapes = vec![
        TxShape {
            n_vin: 1,
            n_vout: 2,
            n_joinsplit: 0,
            n_sapling_spend: 0,
            n_sapling_output: 0,
            n_orchard_action: 0,
            size_bucket: size_bucket(300),
            version: 4,
        },
        TxShape {
            n_vin: 0,
            n_vout: 0,
            n_joinsplit: 0,
            n_sapling_spend: 1,
            n_sapling_output: 1,
            n_orchard_action: 0,
            size_bucket: size_bucket(500),
            version: 4,
        },
    ];
    ShapeStats::from_shapes(&shapes)
}

#[test]
fn report_daily_empty_db() {
    let heights: Vec<u32> = Vec::new();
    assert_eq!(max_height(&heights), None);
    assert_eq!(summary_window(max_height(&heights), 7), None);
    assert_eq!(weekly_window(None), None);
}

#[test]
fn report_range_diff() {
    let row = encode_row(&sample_stats());
    let a = range_report(0, 1, &[0], &[row.clone()]).unwrap();
    let b = range_report(1, 2, &[1], &[row]).unwrap();
    let d = range_diff(a, b);
    assert_eq!(d.n_txs_delta, 0);
    assert_eq!(d.with_transparent_delta, 0);
    assert_eq!(d.with_shielded_delta, 0);
    assert!(d.range_a.has_data && d.range_b.has_data);
    assert_eq!(d.range_a.stats.size_bucket_hist, d.range_b.stats.size_bucket_hist);
}

#[test]
fn diff_flags_range_without_stored_blocks() {
    let a = range_report(0, 10, &[], &[]).unwrap();
    let b = range_report(10, 20, &[12], &[encode_row(&sample_stats())]).unwrap();
    let d = range_diff(a, b);
    assert!(!d.range_a.has_data);
    assert!(d.range_b.has_data);
    assert_eq!(d.range_a.stats.n_txs, 0);
    assert_eq!(d.n_txs_delta, 2);
    assert_eq!(d.with_transparent_delta, 1);
    assert_eq!(d.with_shielded_delta, 1);
    let back = range_diff(d.range_b, d.range_a);
    assert_eq!(back.n_txs_delta, -2);
}

#[test]
fn summary_window_ends_at_highest_height() {
    assert_eq!(max_height(&[5, 900, 17]), Some(900));
    assert_eq!(summary_window(Some(1000), 1), Some(Window { start: 856, end: 1000 }));
    assert_eq!(summary_window(Some(100), 7), Some(Window { start: 0, end: 100 }));
    assert_eq!(summary_window(Some(u32::MAX), u32::MAX), Some(Window { start: 0, end: u32::MAX }));
    assert_eq!(weekly_window(Some(20000)), Some(Window { start: 20000 - 1008, end: 20000 }));
    assert_eq!(summary_window(Some(0), 7), Some(Window { start: 0, end: 0 }));
}
