//! Run configuration: the node to ask, where statistics are stored, and
//! the batching of a collection run.
use vstd::prelude::*;

verus! {

/// How to reach the node.
#[derive(Clone, Debug)]
pub struct NodeConfig {
    /// URL of the node's RPC endpoint.
    pub rpc_url: String,
    /// User name for basic authentication.
    pub rpc_user: Option<String>,
    /// Password for basic authentication.
    pub rpc_password: Option<String>,
    /// Request timeout in seconds.
    pub timeout_secs: u64,
}

/// Where statistics are stored.
#[derive(Clone, Debug)]
pub struct StorageConfig {
    /// Path of the database file.
    pub db_path: String,
}

/// Batching of a collection run.
#[derive(Clone, Copy, Debug)]
pub struct CollectorConfig {
    /// Heights fetched per batch.
    pub batch_size: u32,
    /// Pause between batches, in milliseconds.
    pub batch_delay_ms: u64,
}

/// The whole configuration.
#[derive(Clone, Debug)]
pub struct Config {
    pub node: NodeConfig,
    pub storage: StorageConfig,
    pub collector: CollectorConfig,
}

/// Why a configuration was refused.
#[derive(Clone, Copy, Debug, PartialEq, Eq)]
pub enum ConfigError {
    /// The node URL is empty.
    EmptyRpcUrl,
    /// The batch size is zero.
    ZeroBatchSize,
}

/// Request timeout when none is configured.
pub fn default_timeout_secs() -> (r: u64)
    ensures
        r == 30,
{
    30
}

/// Batch size when none is configured.
pub fn default_batch_size() -> (r: u32)
    ensures
        r == 10,
{
    10
}

/// Pause between batches when none is configured.
pub fn default_batch_delay_ms() -> (r: u64)
    ensures
        r == 500,
{
    500
}

impl Config {
    /// Checks the configuration: the node URL must not be empty, and the
    /// batch size must be positive.
    pub fn validate(&self) -> (r: Result<(), ConfigError>)
        ensures
            self.node.rpc_url@.len() == 0 ==> r == Err::<(), ConfigError>(ConfigError::EmptyRpcUrl),
            self.node.rpc_url@.len() > 0 && self.collector.batch_size == 0 ==> r == Err::<
                (),
                ConfigError,
            >(ConfigError::ZeroBatchSize),
            self.node.rpc_url@.len() > 0 && self.collector.batch_size > 0 ==> r is Ok,
    {
        if self.node.rpc_url.as_str().unicode_len() == 0 {
            return Err(ConfigError::EmptyRpcUrl);
        }
        if self.collector.batch_size == 0 {
            return Err(ConfigError::ZeroBatchSize);
        }
        Ok(())
    }
}

/// A commented example configuration file.
pub const DEFAULT_CONFIG_TOML: &'static str = "
# Zcash node RPC (read-only). Use a local zcashd or a trusted endpoint.
[node]
rpc_url = \"http://127.0.0.1:8232\"
# rpc_user = \"user\"
# rpc_password = \"pass\"
timeout_secs = 30

[storage]
db_path = \"txshape.db\"

[collector]
batch_size = 10
batch_delay_ms = 500
";

/// A commented example configuration file, for use when none is present.
pub fn default_config_toml() -> (r: &'static str)
    ensures
        r@ == DEFAULT_CONFIG_TOML@,
{
    DEFAULT_CONFIG_TOML
}

} // verus!
