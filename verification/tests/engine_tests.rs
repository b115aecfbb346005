use ddb_streams_consumer::{
    LeaseStore, Record, RecordBatch, RecordProcessor, Scheduler, SequenceNumber, ShardId,
    ShardMeta, StreamSource,
};
use std::cell::RefCell;
use std::collections::HashMap;
use std::rc::Rc;

struct InMemSource {
    metas: Vec<ShardMeta>,
    data: HashMap<ShardId, Vec<Record>>,
}

impl StreamSource for InMemSource {
    fn describe_shards(&self) -> Vec<ShardMeta> {
        self.metas.clone()
    }
    fn get_records(&self, shard: &ShardId, after: Option<SequenceNumber>) -> RecordBatch {
        let all = self.data.get(shard).cloned().unwrap_or_default();
        let records: Vec<Record> = all
            .into_iter()
            .filter(|r| after.map_or(true, |a| r.seq > a))
            .collect();
        RecordBatch { records, shard_end: true }
    }
}

#[derive(Default)]
struct InMemLeases {
    checkpoints: HashMap<ShardId, SequenceNumber>,
    complete: HashMap<ShardId, bool>,
}

impl LeaseStore for InMemLeases {
    fn checkpoint(&mut self, shard: &ShardId, seq: SequenceNumber) {
        self.checkpoints.insert(shard.clone(), seq);
    }
    fn last_checkpoint(&self, shard: &ShardId) -> Option<SequenceNumber> {
        self.checkpoints.get(shard).copied()
    }
    fn mark_complete(&mut self, shard: &ShardId) {
        self.complete.insert(shard.clone(), true);
    }
    fn is_complete(&self, shard: &ShardId) -> bool {
        *self.complete.get(shard).unwrap_or(&false)
    }
}

#[derive(Default)]
struct RecordingProcessor {
    events: Vec<String>,
}

impl RecordProcessor for RecordingProcessor {
    fn initialize(&mut self, shard: &ShardId) {
        self.events.push(format!("init:{shard}"));
    }
    fn process_records(&mut self, records: &[Record]) {
        for r in records {
            self.events.push(format!("rec:{}:{}", r.shard_id, r.seq));
        }
    }
    fn shard_ended(&mut self, shard: &ShardId) {
        self.events.push(format!("end:{shard}"));
    }
}

fn rec(shard: &str, seq: SequenceNumber) -> Record {
    Record { shard_id: shard.to_string(), seq, data: vec![] }
}

#[test]
fn parent_before_child_ordering() {
    let mut data = HashMap::new();
    data.insert("shard-parent".to_string(), vec![rec("shard-parent", 1), rec("shard-parent", 2)]);
    data.insert("shard-child".to_string(), vec![rec("shard-child", 3), rec("shard-child", 4)]);

    let source = InMemSource {
        metas: vec![
            ShardMeta { id: "shard-child".into(), parent: Some("shard-parent".into()) },
            ShardMeta { id: "shard-parent".into(), parent: None },
        ],
        data,
    };

    let mut proc = RecordingProcessor::default();
    let mut sched = Scheduler::new(source, InMemLeases::default());
    sched.run(&mut proc);

    assert_eq!(
        proc.events,
        vec![
            "init:shard-parent",
            "rec:shard-parent:1",
            "rec:shard-parent:2",
            "end:shard-parent",
            "init:shard-child",
            "rec:shard-child:3",
            "rec:shard-child:4",
            "end:shard-child",
        ],
        "child must not be touched until parent reaches SHARD_END + checkpoint"
    );
}

#[test]
fn per_shard_sequence_order() {
    let mut data = HashMap::new();
    data.insert("s".to_string(), vec![rec("s", 10), rec("s", 11), rec("s", 12)]);
    let source = InMemSource {
        metas: vec![ShardMeta { id: "s".into(), parent: None }],
        data,
    };
    let mut proc = RecordingProcessor::default();
    let mut sched = Scheduler::new(source, InMemLeases::default());
    sched.run(&mut proc);
    assert_eq!(proc.events, vec!["init:s", "rec:s:10", "rec:s:11", "rec:s:12", "end:s"]);
}

#[test]
fn resumes_after_an_existing_checkpoint() {
    let mut data = HashMap::new();
    data.insert("s".to_string(), vec![rec("s", 10), rec("s", 11), rec("s", 12)]);
    let source = InMemSource { metas: vec![ShardMeta { id: "s".into(), parent: None }], data };
    let mut leases = InMemLeases::default();
    leases.checkpoint(&"s".to_string(), 10);
    let mut proc = RecordingProcessor::default();
    let mut sched = Scheduler::new(source, leases);
    sched.run(&mut proc);
    assert_eq!(proc.events, vec!["init:s", "rec:s:11", "rec:s:12", "end:s"]);
}

#[test]
fn orphan_child_waits_and_the_run_returns() {
    let mut data = HashMap::new();
    data.insert("c".to_string(), vec![rec("c", 1)]);
    data.insert("p".to_string(), vec![rec("p", 5)]);
    let source = InMemSource {
        metas: vec![
            ShardMeta { id: "c".into(), parent: Some("missing".into()) },
            ShardMeta { id: "p".into(), parent: None },
        ],
        data,
    };
    let mut proc = RecordingProcessor::default();
    let mut sched = Scheduler::new(source, InMemLeases::default());
    sched.run(&mut proc);
    assert_eq!(proc.events, vec!["init:p", "rec:p:5", "end:p"]);
}

#[test]
fn completed_shards_are_not_processed_again() {
    let mut data = HashMap::new();
    data.insert("p".to_string(), vec![rec("p", 1)]);
    data.insert("c".to_string(), vec![rec("c", 2)]);
    let source = InMemSource {
        metas: vec![
            ShardMeta { id: "p".into(), parent: None },
            ShardMeta { id: "c".into(), parent: Some("p".into()) },
        ],
        data,
    };
    let mut leases = InMemLeases::default();
    leases.mark_complete(&"p".to_string());
    let mut proc = RecordingProcessor::default();
    let mut sched = Scheduler::new(source, leases);
    sched.run(&mut proc);
    assert_eq!(proc.events, vec!["init:c", "rec:c:2", "end:c"]);
}

#[test]
fn grandchild_follows_child_follows_parent() {
    let mut data = HashMap::new();
    data.insert("g".to_string(), vec![rec("g", 7)]);
    data.insert("c".to_string(), vec![rec("c", 5)]);
    data.insert("p".to_string(), vec![rec("p", 3)]);
    let source = InMemSource {
        metas: vec![
            ShardMeta { id: "g".into(), parent: Some("c".into()) },
            ShardMeta { id: "c".into(), parent: Some("p".into()) },
            ShardMeta { id: "p".into(), parent: None },
        ],
        data,
    };
    let mut proc = RecordingProcessor::default();
    let mut sched = Scheduler::new(source, InMemLeases::default());
    sched.run(&mut proc);
    assert_eq!(
        proc.events,
        vec!["init:p", "rec:p:3", "end:p", "init:c", "rec:c:5", "end:c", "init:g", "rec:g:7", "end:g"]
    );
}

#[test]
fn empty_closed_shard_just_ends() {
    let source = InMemSource { metas: vec![ShardMeta { id: "e".into(), parent: None }], data: HashMap::new() };
    let mut proc = RecordingProcessor::default();
    let mut sched = Scheduler::new(source, InMemLeases::default());
    sched.run(&mut proc);
    assert_eq!(proc.events, vec!["init:e", "end:e"]);
}

/// Hands out one record per read; the read of the last record closes the shard.
struct OneAtATime {
    metas: Vec<ShardMeta>,
    data: HashMap<ShardId, Vec<Record>>,
}

impl StreamSource for OneAtATime {
    fn describe_shards(&self) -> Vec<ShardMeta> {
        self.metas.clone()
    }
    fn get_records(&self, shard: &ShardId, after: Option<SequenceNumber>) -> RecordBatch {
        let all = self.data.get(shard).cloned().unwrap_or_default();
        let rest: Vec<Record> = all.into_iter().filter(|r| after.map_or(true, |a| r.seq > a)).collect();
        let shard_end = rest.len() <= 1;
        RecordBatch { records: rest.into_iter().take(1).collect(), shard_end }
    }
}

#[derive(Default)]
struct RecordingLeases {
    inner: InMemLeases,
    writes: Rc<RefCell<Vec<String>>>,
}

impl LeaseStore for RecordingLeases {
    fn checkpoint(&mut self, shard: &ShardId, seq: SequenceNumber) {
        self.writes.borrow_mut().push(format!("ckpt:{shard}:{seq}"));
        self.inner.checkpoint(shard, seq);
    }
    fn last_checkpoint(&self, shard: &ShardId) -> Option<SequenceNumber> {
        self.inner.last_checkpoint(shard)
    }
    fn mark_complete(&mut self, shard: &ShardId) {
        self.writes.borrow_mut().push(format!("done:{shard}"));
        self.inner.mark_complete(shard);
    }
    fn is_complete(&self, shard: &ShardId) -> bool {
        self.inner.is_complete(shard)
    }
}

#[test]
fn checkpoints_after_every_batch_then_completes() {
    let mut data = HashMap::new();
    data.insert("s".to_string(), vec![rec("s", 10), rec("s", 11), rec("s", 12)]);
    let source = OneAtATime { metas: vec![ShardMeta { id: "s".into(), parent: None }], data };
    let writes = Rc::new(RefCell::new(Vec::new()));
    let leases = RecordingLeases { inner: InMemLeases::default(), writes: writes.clone() };
    let mut proc = RecordingProcessor::default();
    let mut sched = Scheduler::new(source, leases);
    sched.run(&mut proc);
    assert_eq!(proc.events, vec!["init:s", "rec:s:10", "rec:s:11", "rec:s:12", "end:s"]);
    assert_eq!(*writes.borrow(), vec!["ckpt:s:10", "ckpt:s:11", "ckpt:s:12", "done:s"]);
}
