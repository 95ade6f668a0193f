//! Structural statistics of blockchain transactions: the shape of each
//! transaction (counts of inputs, outputs and shielded parts, size bucket,
//! version), histograms aggregated per block and per range, their stored
//! text form, the reading of the node's replies with its fallback, the
//! decisions of a batched collection run, and report computations.
use vstd::prelude::*;

pub mod auth;
pub mod codec;
pub mod collect;
pub mod config;
pub mod decimal;
pub mod hist;
pub mod model;
pub mod range;
pub mod report;
pub mod rpc;
pub mod storage;
pub mod util;

verus! {
}
