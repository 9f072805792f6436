//! A single-process embedded key-value store over an append-only record log,
//! together with the wire codec and command layer that front it.

use vstd::prelude::*;

pub mod cmd;
pub mod cmder;
pub mod engine;
pub mod error;
pub mod kv;
pub mod laws;
pub mod num;
pub mod parser;
pub mod record;
pub mod resp;
pub mod server;

verus! {

/// Number of stale bytes on disk that triggers a compaction run.
pub const COMPACTION_THRESHOLD: u64 = 100;

} // verus!
