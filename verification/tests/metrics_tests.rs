use ddb_streams_consumer::metrics::{export_interval_ms, noop_sink, MetricsSink, NoopSink, ShardMetrics};
use std::sync::Mutex;

type CapturedBatch = (String, u64, u64, Option<i64>);

#[derive(Default)]
struct Capture {
    batches: Mutex<Vec<CapturedBatch>>,
    describes: Mutex<u64>,
}

impl MetricsSink for Capture {
    fn on_batch(&self, m: &ShardMetrics<'_>) {
        self.batches.lock().unwrap().push((
            m.shard_id.to_string(),
            m.records,
            m.bytes,
            m.millis_behind_latest,
        ));
    }
    fn on_describe_stream(&self) {
        *self.describes.lock().unwrap() += 1;
    }
}

#[test]
fn sink_receives_batch_and_lag() {
    let c = Capture::default();
    c.on_batch(&ShardMetrics { shard_id: "s0", records: 3, bytes: 120, millis_behind_latest: Some(450) });
    c.on_describe_stream();
    let b = c.batches.lock().unwrap();
    assert_eq!(b.len(), 1);
    assert_eq!(b[0], ("s0".to_string(), 3, 120, Some(450)));
    assert_eq!(*c.describes.lock().unwrap(), 1);
}

#[test]
fn noop_sink_is_inert() {
    let s = NoopSink;
    s.on_batch(&ShardMetrics { shard_id: "s", records: 1, bytes: 1, millis_behind_latest: Some(0) });
    s.on_shard_end("s");
    s.on_describe_stream();
}

#[test]
fn shared_noop_sink_is_usable_as_a_trait_object() {
    let shared: std::sync::Arc<dyn MetricsSink> = noop_sink();
    shared.on_lease_acquired("s");
    shared.on_shard_end("s");
}

#[test]
fn export_interval_defaults_to_ten_seconds() {
    assert_eq!(export_interval_ms(None), 10_000);
    assert_eq!(export_interval_ms(Some(2_500)), 2_500);
}
