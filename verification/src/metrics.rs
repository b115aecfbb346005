//! Pluggable metrics sink. The engine reports observations through a
//! [`MetricsSink`]; exporters implement it. [`NoopSink`] records nothing.

use std::sync::Arc;
use vstd::prelude::*;

verus! {

/// Per-batch observation, emitted once per delivered (non-empty) batch.
pub struct ShardMetrics<'a> {
    pub shard_id: &'a str,
    /// Records delivered in this batch.
    pub records: u64,
    /// Total payload bytes delivered in this batch.
    pub bytes: u64,
    /// Consumer lag in milliseconds, when known.
    pub millis_behind_latest: Option<i64>,
}

/// Sink for engine metrics. Every method has a no-op default, so an
/// implementor overrides only what it exports.
pub trait MetricsSink: Send + Sync {
    /// A batch of records was delivered on a shard.
    fn on_batch(&self, _m: &ShardMetrics<'_>) {
    }

    /// A shard reached its end and was completed.
    fn on_shard_end(&self, _shard_id: &str) {
    }

    /// The stream's shard list was described.
    fn on_describe_stream(&self) {
    }

    /// This worker acquired a lease.
    fn on_lease_acquired(&self, _shard_id: &str) {
    }
}

/// The sink that records nothing.
pub struct NoopSink;

impl MetricsSink for NoopSink {

}

/// A metrics sink shared across the fleet.
pub type SharedMetricsSink = Arc<dyn MetricsSink>;

/// A shared [`NoopSink`], ready to be handed out as a shared metrics sink.
pub fn noop_sink() -> (sink: Arc<NoopSink>)
    ensures
        *sink == NoopSink,
{
    Arc::new(NoopSink)
}

/// How often metrics are exported when no interval is configured, in
/// milliseconds.
pub const DEFAULT_EXPORT_INTERVAL_MS: u64 = 10_000;

/// The export interval: the configured number of milliseconds, or the
/// default when none (or none that parses) is configured.
pub fn export_interval_ms(configured: Option<u64>) -> (ms: u64)
    ensures
        ms == match configured {
            Some(v) => v,
            None => DEFAULT_EXPORT_INTERVAL_MS,
        },
{
    match configured {
        Some(v) => v,
        None => DEFAULT_EXPORT_INTERVAL_MS,
    }
}

} // verus!
