//! Live request-log statistics: incremental tailing of newline-delimited
//! structured log files, a bounded-lookback preload pass, and per-endpoint
//! latency/error aggregation with floor-indexed percentile queries.

pub mod clock;
pub mod command;
pub mod ingest;
pub mod preload;
pub mod record;
pub mod stats;
pub mod tail;
pub mod text;
