use zcash_txshape::collect::{CollectRun, CollectStep};
use zcash_txshape::config::{
    default_batch_delay_ms, default_batch_size, default_config_toml, default_timeout_secs, CollectorConfig,
    Config, ConfigError, NodeConfig, StorageConfig,
};
use zcash_txshape::model::TxShape;
use zcash_txshape::range::{parse_range, trimmed, RangeError};
use zcash_txshape::rpc::FetchError;

fn config(url: &str, batch_size: u32) -> Config {
    Config {
        node: NodeConfig {
            rpc_url: url.to_string(),
            rpc_user: None,
            rpc_password: None,
            timeout_secs: default_timeout_secs(),
        },
        storage: StorageConfig { db_path: "txshape.db".to_string() },
        collector: CollectorConfig { batch_size, batch_delay_ms: default_batch_delay_ms() },
    }
}

fn tx(n_vin: u32) -> TxShape {
    TxShape {
        n_vin,
        n_vout: 1,
        n_joinsplit: 0,
        n_sapling_spend: 0,
        n_sapling_output: 0,
        n_orchard_action: 0,
        size_bucket: 1,
        version: 4,
    }
}

#[test]
fn parse_range_accepts_start_dot_dot_end() {
    assert_eq!(parse_range("0..1000"), Ok((0, 1000)));
    assert_eq!(parse_range("  50000 .. 50100\n"), Ok((50000, 50100)));
    assert_eq!(parse_range("+5..007"), Ok((5, 7)));
    assert_eq!(parse_range("1..4294967295"), Ok((1, 4294967295)));
}

#[test]
fn parse_range_errors() {
    assert_eq!(parse_range("1000"), Err(RangeError::MissingSeparator));
    assert_eq!(parse_range(""), Err(RangeError::MissingSeparator));
    assert_eq!(parse_range("a..5"), Err(RangeError::InvalidStart));
    assert_eq!(parse_range("..5"), Err(RangeError::InvalidStart));
    assert_eq!(parse_range("-1..5"), Err(RangeError::InvalidStart));
    assert_eq!(parse_range("4294967296..5"), Err(RangeError::InvalidStart));
    assert_eq!(parse_range("1..2..3"), Err(RangeError::InvalidEnd));
    assert_eq!(parse_range("1.."), Err(RangeError::InvalidEnd));
    assert_eq!(parse_range("5..5"), Err(RangeError::EmptyRange));
    assert_eq!(parse_range("9..3"), Err(RangeError::EmptyRange));
}

#[test]
fn config_validation() {
    assert_eq!(config("http://127.0.0.1:8232", 10).validate(), Ok(()));
    assert_eq!(config("", 10).validate(), Err(ConfigError::EmptyRpcUrl));
    assert_eq!(config("", 0).validate(), Err(ConfigError::EmptyRpcUrl));
    assert_eq!(config("http://node", 0).validate(), Err(ConfigError::ZeroBatchSize));
    assert_eq!(default_batch_size(), 10);
    assert_eq!(default_timeout_secs(), 30);
    assert_eq!(default_batch_delay_ms(), 500);
    assert!(default_config_toml().contains("[node]"));
    assert!(default_config_toml().contains("batch_size = 10"));
}

#[test]
fn collect_run_batches_and_pauses() {
    let mut run = CollectRun::new(10, 15, 2);
    let mut steps = Vec::new();
    loop {
        let s = run.step();
        steps.push(s);
        match s {
            CollectStep::Fetch(h) => {
                let outcome = match h {
                    10 => Ok(Some(vec![tx(1), tx(2)])),
                    11 => Ok(None),
                    12 => Err(FetchError::Transport),
                    13 => Ok(Some(vec![tx(3)])),
                    _ => Ok(Some(Vec::new())),
                };
                let written = run.record(&outcome, h == 13);
                match h {
                    10 => assert_eq!(written.unwrap().n_txs, 2),
                    14 => assert_eq!(written.unwrap().n_txs, 0),
                    _ => assert!(written.is_none()),
                }
            }
            CollectStep::Pause => {}
            CollectStep::Finish => break,
        }
    }
    assert_eq!(
        steps,
        vec![
            CollectStep::Fetch(10),
            CollectStep::Fetch(11),
            CollectStep::Pause,
            CollectStep::Fetch(12),
            CollectStep::Fetch(13),
            CollectStep::Pause,
            CollectStep::Fetch(14),
            CollectStep::Finish,
        ]
    );
    let counts = run.counts();
    assert_eq!((counts.fetched, counts.skipped, counts.failed), (3, 1, 1));
    let total = run.range_stats();
    assert_eq!(total.n_txs, 3);
    assert_eq!(total.with_transparent, 3);
}

#[test]
fn collect_run_over_empty_range_finishes_at_once() {
    let mut run = CollectRun::new(5, 5, 3);
    assert_eq!(run.step(), CollectStep::Finish);
    assert_eq!(run.range_stats().n_txs, 0);
}

#[test]
fn collect_run_abandons_invalid_shapes() {
    let mut run = CollectRun::new(0, 1, 1);
    assert_eq!(run.step(), CollectStep::Fetch(0));
    let mut bad = tx(1);
    bad.size_bucket = 9;
    assert!(run.record(&Ok(Some(vec![bad])), false).is_none());
    assert_eq!(run.counts().failed, 1);
    assert_eq!(run.step(), CollectStep::Finish);
}

#[test]
fn trimmed_drops_unicode_white_space() {
    assert_eq!(trimmed("\u{3000} a b\u{a0}\n"), "a b");
    assert_eq!(trimmed(" \t "), "");
    assert_eq!(trimmed("x"), "x");
}
