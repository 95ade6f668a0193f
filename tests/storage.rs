use zcash_txshape::codec::{decode_histogram, decode_numbers, encode_histogram, encode_numbers, KeyStyle};
use zcash_txshape::hist::Histogram;
use zcash_txshape::model::{vin_vout_key, ShapeStats, TxShape};
use zcash_txshape::storage::{aggregate_rows, decode_row, encode_row, StorageError, StoredRow};
use zcash_txshape::util::size_bucket;

fn sample_stats() -> ShapeStats {
    let shapes = vec![
        TxShape {
            n_vin: 1,
            n_vout: 2,
            n_joinsplit: 0,
            n_sapling_spend: 0,
            n_sapling_output: 0,
            n_orchard_action: 0,
            size_bucket: size_bucket(300),
            version: 4,
        },
        TxShape {
            n_vin: 0,
            n_vout: 0,
            n_joinsplit: 0,
            n_sapling_spend: 1,
            n_sapling_output: 1,
            n_orchard_action: 0,
            size_bucket: size_bucket(500),
            version: 4,
        },
    ];
    ShapeStats::from_shapes(&shapes)
}

#[test]
fn storage_upsert_and_get_block_stats() {
    let stats = sample_stats();
    let row = encode_row(&stats);
    let loaded = decode_row(&row).unwrap();
    assert_eq!(loaded.n_txs, stats.n_txs);
    assert_eq!(loaded.with_transparent, 1);
    assert_eq!(loaded.with_shielded, 1);
    assert_eq!(loaded.size_bucket_hist, stats.size_bucket_hist);
    assert_eq!(loaded.vin_vout_hist.entries(), stats.vin_vout_hist.entries());
    assert_eq!(loaded.version_hist.entries(), stats.version_hist.entries());
}

#[test]
fn storage_aggregate_range() {
    let rows = vec![encode_row(&sample_stats()), encode_row(&sample_stats())];
    let agg = aggregate_rows(&rows).unwrap();
    assert_eq!(agg.n_txs, 2 + 2);
    assert_eq!(agg.with_transparent, 2);
    assert_eq!(agg.with_shielded, 2);
    assert_eq!(agg.size_bucket_hist, [0, 4, 0, 0, 0, 0]);
    assert_eq!(agg.version_hist.get(4), Some(4));
    assert_eq!(agg.vin_vout_hist.get(vin_vout_key(1, 2)), Some(2));
    assert_eq!(agg.vin_vout_hist.get(vin_vout_key(0, 0)), Some(2));
}

#[test]
fn aggregate_of_no_rows_is_empty() {
    let agg = aggregate_rows(&[]).unwrap();
    assert_eq!(agg.n_txs, 0);
    assert_eq!(agg.with_transparent, 0);
    assert_eq!(agg.with_shielded, 0);
    assert_eq!(agg.size_bucket_hist, [0; 6]);
    assert_eq!(agg.vin_vout_hist.len(), 0);
    assert_eq!(agg.version_hist.len(), 0);
}

#[test]
fn row_texts_are_json_histograms() {
    let row = encode_row(&sample_stats());
    assert_eq!(row.n_txs, 2);
    assert_eq!(String::from_utf8(row.vin_vout_hist.clone()).unwrap(), "{\"1_2\":1,\"0_0\":1}");
    assert_eq!(String::from_utf8(row.size_bucket_hist.clone()).unwrap(), "[0,2,0,0,0,0]");
    assert_eq!(String::from_utf8(row.version_hist.clone()).unwrap(), "{\"4\":2}");
}

#[test]
fn histogram_text_round_trips_exactly() {
    let mut h = Histogram::new();
    h.add(vin_vout_key(4294967295, 0), 7);
    h.add(vin_vout_key(0, 12), 18446744073709551615);
    h.add(vin_vout_key(10, 10), 0);
    let text = encode_histogram(&h, KeyStyle::Pair);
    assert_eq!(
        String::from_utf8(text.clone()).unwrap(),
        "{\"4294967295_0\":7,\"0_12\":18446744073709551615,\"10_10\":0}"
    );
    let back = decode_histogram(&text, KeyStyle::Pair).unwrap();
    assert_eq!(back.entries(), h.entries());
    let empty = encode_histogram(&Histogram::new(), KeyStyle::Plain);
    assert_eq!(empty, b"{}".to_vec());
    assert_eq!(decode_histogram(&empty, KeyStyle::Plain).unwrap().len(), 0);
}

#[test]
fn histogram_text_rejects_non_canonical_input() {
    assert!(decode_histogram(b"{\"01\":2}", KeyStyle::Plain).is_none());
    assert!(decode_histogram(b"{\"1\":02}", KeyStyle::Plain).is_none());
    assert!(decode_histogram(b"{\"1\":2,\"1\":3}", KeyStyle::Plain).is_none());
    assert!(decode_histogram(b"{\"1\": 2}", KeyStyle::Plain).is_none());
    assert!(decode_histogram(b"{\"1\":2,}", KeyStyle::Plain).is_none());
    assert!(decode_histogram(b"{\"1\":18446744073709551616}", KeyStyle::Plain).is_none());
    assert!(decode_histogram(b"{\"4294967296_0\":1}", KeyStyle::Pair).is_none());
    assert!(decode_histogram(b"{\"12\":1}", KeyStyle::Pair).is_none());
    assert!(decode_histogram(b"{\"4\":1}x", KeyStyle::Plain).is_none());
    assert_eq!(decode_histogram(b"{\"4\":1,\"5\":3}", KeyStyle::Plain).unwrap().entries(), &vec![(4, 1), (5, 3)]);
}

#[test]
fn number_list_text_round_trips() {
    let v = vec![0u64, 5, 18446744073709551615, 10, 0, 1];
    let text = encode_numbers(&v);
    assert_eq!(String::from_utf8(text.clone()).unwrap(), "[0,5,18446744073709551615,10,0,1]");
    assert_eq!(decode_numbers(&text).unwrap(), v);
    assert!(decode_numbers(b"[]").is_none());
    assert!(decode_numbers(b"[1,,2]").is_none());
    assert!(decode_numbers(b"[007]").is_none());
}

#[test]
fn corrupt_rows_are_refused() {
    let mut row = encode_row(&sample_stats());
    row.size_bucket_hist = b"[0,2,0,0,0]".to_vec();
    assert_eq!(decode_row(&row).err(), Some(StorageError::CorruptRow));
    let mut row = encode_row(&sample_stats());
    row.n_txs = 3;
    assert_eq!(decode_row(&row).err(), Some(StorageError::CorruptRow));
    let mut row = encode_row(&sample_stats());
    row.with_shielded = 5;
    assert_eq!(decode_row(&row).err(), Some(StorageError::CorruptRow));
    let mut row = encode_row(&sample_stats());
    row.version_hist = b"not json".to_vec();
    assert_eq!(decode_row(&row).err(), Some(StorageError::CorruptRow));
    let rows = vec![encode_row(&sample_stats()), row];
    assert_eq!(aggregate_rows(&rows).err(), Some(StorageError::CorruptRow));
}

#[test]
fn aggregate_refuses_count_overflow() {
    let big = StoredRow {
        n_txs: u64::MAX,
        vin_vout_hist: b"{}".to_vec(),
        size_bucket_hist: format!("[{},0,0,0,0,0]", u64::MAX).into_bytes(),
        version_hist: b"{}".to_vec(),
        with_transparent: 0,
        with_shielded: 0,
    };
    assert!(decode_row(&big).is_ok());
    let rows = vec![big.clone(), big];
    assert_eq!(aggregate_rows(&rows).err(), Some(StorageError::CountOverflow));
}
