# ddb-streams-consumer

A DynamoDB Streams consumer core, verified with Verus: the ordering engine
(parent shard before child, each shard's records in sequence order,
checkpointing as it goes), lease taking across workers, the sidecar/client
line protocol, and the decisions of the stream reader.

Layout:

- `src/engine.rs` — `Scheduler::run` and the `StreamSource`, `LeaseStore`,
  `RecordProcessor` traits with their abstract models. The run's contract
  states, over the processor's callback history: parent before child,
  strictly increasing sequence numbers per shard, each batch exactly the
  source's read from the shard's checkpoint, a shard ends only on a read that
  closes it, every shard starts at most once and its deliveries and end follow
  its start with nothing else in between, every started shard ends, the lease
  store is written once per delivered batch (a checkpoint at its last record)
  and once per end (a completion), in that order and nothing else, and the
  final checkpoints stand at the last delivered records.
- `src/coordinator.rs`, `src/taker.rs` — expiry by lease-counter freshness and
  the choice of leases to take (free leases first, else one steal from the
  most loaded worker, up to the fair share and the cap).
- `src/protocol.rs` — client messages as newline-framed JSON; framing and
  reading a line back.
- `src/source.rs` — the reader's decision table between service calls,
  iterator reuse (the cursor table), error classification and how a read's result is assembled.
- `src/ipc.rs` — what the sidecar does with each line from the client, and
  which sequence number a batch waits on.
- `src/record.rs`, `src/metrics.rs` — the change-record model and the metrics
  sink interface.
- `app/` — the unverified shell: AWS SDK calls, tokio stdio, OpenTelemetry,
  and the serde encodings of the library's wire types.
