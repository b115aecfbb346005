//! A DynamoDB Streams consumer core: shard ordering (parent before child,
//! in-sequence delivery per shard), lease taking across workers, the
//! sidecar/client wire framing and the pure decisions of the stream reader.

pub mod coordinator;
pub mod engine;
pub mod ipc;
pub mod metrics;
pub mod protocol;
pub mod record;
pub mod source;
pub mod taker;

pub use engine::{
    LeaseStore, Record, RecordBatch, RecordProcessor, Scheduler, SequenceNumber, ShardId,
    ShardMeta, StreamSource,
};
