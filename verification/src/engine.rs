//! The ordering engine: shard graph, parent-before-child scheduling and
//! in-sequence delivery with checkpointing.
//!
//! The stream and the lease/checkpoint state sit behind [`StreamSource`] and
//! [`LeaseStore`]; the customer's logic sits behind [`RecordProcessor`]. Each
//! trait carries an abstract model (its spec functions) and states its methods
//! over it; the [`Scheduler`] is verified against those models. A verified
//! implementation overrides the spec functions with its own model and proves
//! the methods' contracts. The spec functions' default leaves the model
//! unspecified, so implementations written outside Verus compile unchanged;
//! for those, the method contracts are what the scheduler assumes of them.

use vstd::prelude::*;

verus! {

pub type ShardId = String;

/// A position within a shard. Sequence numbers increase along a shard.
pub type SequenceNumber = u64;

#[derive(Clone, Debug)]
pub struct Record {
    pub shard_id: ShardId,
    pub seq: SequenceNumber,
    pub data: Vec<u8>,
}

/// The mathematical value of a [`Record`].
pub struct RecordView {
    pub shard_id: Seq<char>,
    pub seq: u64,
    pub data: Seq<u8>,
}

impl View for Record {
    type V = RecordView;

    open spec fn view(&self) -> RecordView {
        RecordView { shard_id: self.shard_id@, seq: self.seq, data: self.data@ }
    }
}

/// Shard lineage as reported when the stream is described.
#[derive(Clone, Debug)]
pub struct ShardMeta {
    pub id: ShardId,
    pub parent: Option<ShardId>,
}

/// The mathematical value of a [`ShardMeta`].
pub struct ShardMetaView {
    pub id: Seq<char>,
    pub parent: Option<Seq<char>>,
}

pub open spec fn opt_str_view(o: Option<String>) -> Option<Seq<char>> {
    match o {
        Some(s) => Some(s@),
        None => None,
    }
}

impl View for ShardMeta {
    type V = ShardMetaView;

    open spec fn view(&self) -> ShardMetaView {
        ShardMetaView { id: self.id@, parent: opt_str_view(self.parent) }
    }
}

pub struct RecordBatch {
    pub records: Vec<Record>,
    /// True when the shard is closed: no more records will arrive.
    pub shard_end: bool,
}

/// The mathematical value of a [`RecordBatch`].
pub struct BatchView {
    pub records: Seq<RecordView>,
    pub shard_end: bool,
}

pub open spec fn records_view(rs: Seq<Record>) -> Seq<RecordView> {
    rs.map_values(|r: Record| r@)
}

pub open spec fn shards_view(ms: Seq<ShardMeta>) -> Seq<ShardMetaView> {
    ms.map_values(|m: ShardMeta| m@)
}

impl View for RecordBatch {
    type V = BatchView;

    open spec fn view(&self) -> BatchView {
        BatchView { records: records_view(self.records@), shard_end: self.shard_end }
    }
}

/// The stream side. Its model is the shard graph it reports and what a read
/// of a shard after a position returns.
pub trait StreamSource {
    /// The shards that [`StreamSource::describe_shards`] reports (the default
    /// leaves it unspecified).
    closed spec fn shard_graph(&self) -> Seq<ShardMetaView> {
        arbitrary()
    }

    /// The batch that [`StreamSource::get_records`] returns for a shard and a
    /// position (`None`: from the start of the shard). The default leaves it
    /// unspecified.
    closed spec fn read(&self, shard: Seq<char>, after: Option<u64>) -> BatchView {
        arbitrary()
    }

    fn describe_shards(&self) -> (shards: Vec<ShardMeta>)
        ensures
            shards_view(shards@) == self.shard_graph(),
    ;

    /// Return the records after `after` (exclusive); `None` reads from the start.
    fn get_records(&self, shard: &ShardId, after: Option<SequenceNumber>) -> (batch: RecordBatch)
        ensures
            batch@ == self.read(shard@, after),
    ;
}

/// Lease and checkpoint state. Its model is the checkpoint of each shard and
/// the set of shards marked complete.
pub trait LeaseStore {
    /// The checkpoint of each shard that has one (the default leaves it
    /// unspecified).
    closed spec fn checkpoints(&self) -> Map<Seq<char>, u64> {
        arbitrary()
    }

    /// The shards marked complete (the default leaves it unspecified).
    closed spec fn completed(&self) -> Set<Seq<char>> {
        arbitrary()
    }

    /// The writes made to the store, oldest first (the default leaves it
    /// unspecified).
    closed spec fn writes(&self) -> Seq<LeaseWrite> {
        arbitrary()
    }

    fn checkpoint(&mut self, shard: &ShardId, seq: SequenceNumber)
        ensures
            final(self).checkpoints() == old(self).checkpoints().insert(shard@, seq),
            final(self).completed() == old(self).completed(),
            final(self).writes() == old(self).writes().push(LeaseWrite::Checkpointed(shard@, seq)),
    ;

    fn last_checkpoint(&self, shard: &ShardId) -> (seq: Option<SequenceNumber>)
        ensures
            seq == (if self.checkpoints().contains_key(shard@) {
                Some(self.checkpoints()[shard@])
            } else {
                None::<u64>
            }),
    ;

    fn mark_complete(&mut self, shard: &ShardId)
        ensures
            final(self).checkpoints() == old(self).checkpoints(),
            final(self).completed() == old(self).completed().insert(shard@),
            final(self).writes() == old(self).writes().push(LeaseWrite::Completed(shard@)),
    ;

    fn is_complete(&self, shard: &ShardId) -> (done: bool)
        ensures
            done == self.completed().contains(shard@),
    ;
}

/// One write to a [`LeaseStore`].
pub enum LeaseWrite {
    Checkpointed(Seq<char>, u64),
    Completed(Seq<char>),
}

/// One callback that a [`RecordProcessor`] received.
pub enum ProcessorEvent {
    Initialized(Seq<char>),
    Delivered(Seq<RecordView>),
    Ended(Seq<char>),
}

/// Customer business logic. Its model is the history of callbacks received.
pub trait RecordProcessor {
    /// The callbacks received, oldest first (the default leaves it
    /// unspecified).
    closed spec fn history(&self) -> Seq<ProcessorEvent> {
        arbitrary()
    }

    fn initialize(&mut self, shard: &ShardId)
        ensures
            final(self).history() == old(self).history().push(ProcessorEvent::Initialized(shard@)),
    ;

    fn process_records(&mut self, records: &[Record])
        ensures
            final(self).history() == old(self).history().push(
                ProcessorEvent::Delivered(records_view(records@)),
            ),
    ;

    fn shard_ended(&mut self, shard: &ShardId)
        ensures
            final(self).history() == old(self).history().push(ProcessorEvent::Ended(shard@)),
    ;
}

/// A shard may start when it is not complete and it has no parent or its
/// parent is complete.
pub open spec fn eligible_spec(meta: ShardMetaView, done: Set<Seq<char>>) -> bool {
    &&& !done.contains(meta.id)
    &&& match meta.parent {
        None => true,
        Some(p) => done.contains(p),
    }
}

/// Records of `shard`, strictly after the position `after`, in increasing
/// sequence order.
pub open spec fn records_forward(rs: Seq<RecordView>, shard: Seq<char>, after: Option<u64>) -> bool {
    &&& forall|i: int| 0 <= i < rs.len() ==> (#[trigger] rs[i]).shard_id == shard
    &&& forall|i: int|
        0 <= i < rs.len() ==> match after {
            Some(a) => (#[trigger] rs[i]).seq > a,
            None => true,
        }
    &&& forall|i: int, j: int| 0 <= i < j < rs.len() ==> (#[trigger] rs[i]).seq < (#[trigger] rs[j]).seq
}

/// A read of `shard` after `after` returns records of that shard, strictly
/// after the position, in increasing sequence order.
pub open spec fn reads_forward(b: BatchView, shard: Seq<char>, after: Option<u64>) -> bool {
    records_forward(b.records, shard, after)
}

/// The sources that [`Scheduler::run`] drains: every read moves forward, and
/// a read of an open shard returns at least one record. (A source that can
/// return an empty batch for a shard that is still open would make the run
/// poll that shard forever.)
pub open spec fn well_behaved<S: StreamSource>(source: S) -> bool {
    forall|shard: Seq<char>, after: Option<u64>|
        {
            let b = #[trigger] source.read(shard, after);
            &&& reads_forward(b, shard, after)
            &&& (b.records.len() > 0 || b.shard_end)
        }
}

// ---------------------------------------------------------------------------
// The history of a run: what the processor received, read as a log.
// ---------------------------------------------------------------------------

/// `shard` ended at some position of `log` before `i`.
pub open spec fn ended_before(log: Seq<ProcessorEvent>, i: int, shard: Seq<char>) -> bool {
    exists|l: int| 0 <= l < i && #[trigger] log[l] == ProcessorEvent::Ended(shard)
}

/// `shard` was initialized at some position of `log` before `i`.
pub open spec fn initialized_before(log: Seq<ProcessorEvent>, i: int, shard: Seq<char>) -> bool {
    exists|l: int| 0 <= l < i && #[trigger] log[l] == ProcessorEvent::Initialized(shard)
}

/// `shard` is complete at position `i` of `log`, given the shards `c0` that
/// were complete before the log began.
pub open spec fn done_before(
    c0: Set<Seq<char>>,
    log: Seq<ProcessorEvent>,
    i: int,
    shard: Seq<char>,
) -> bool {
    c0.contains(shard) || ended_before(log, i, shard)
}

pub open spec fn done_set(c0: Set<Seq<char>>, log: Seq<ProcessorEvent>, i: int) -> Set<
    Seq<char>,
> {
    Set::new(|shard: Seq<char>| done_before(c0, log, i, shard))
}

/// The `a`-th record of the `i`-th callback, which delivered records.
pub open spec fn is_delivery(log: Seq<ProcessorEvent>, i: int, a: int) -> bool {
    &&& 0 <= i < log.len()
    &&& log[i] is Delivered
    &&& 0 <= a < log[i]->Delivered_0.len()
}

pub open spec fn delivery(log: Seq<ProcessorEvent>, i: int, a: int) -> RecordView {
    log[i]->Delivered_0[a]
}

/// Parent before child: a shard is initialized only when it is listed in the
/// shard graph and is eligible there: not yet complete, and its parent (if
/// any) complete.
pub open spec fn starts_only_when_eligible(
    g: Seq<ShardMetaView>,
    c0: Set<Seq<char>>,
    log: Seq<ProcessorEvent>,
) -> bool {
    forall|i: int|
        0 <= i < log.len() && (#[trigger] log[i]) is Initialized ==> exists|j: int|
            0 <= j < g.len() && g[j].id == log[i]->Initialized_0 && eligible_spec(
                #[trigger] g[j],
                done_set(c0, log, i),
            )
}

/// Records are delivered only for a shard that was initialized earlier and
/// is not complete.
pub open spec fn delivers_only_open_shards(c0: Set<Seq<char>>, log: Seq<ProcessorEvent>) -> bool {
    forall|i: int, a: int|
        is_delivery(log, i, a) ==> {
            let shard = (#[trigger] delivery(log, i, a)).shard_id;
            initialized_before(log, i, shard) && !done_before(c0, log, i, shard)
        }
}

/// A shard ends only after it was initialized and while it is not complete.
pub open spec fn ends_only_open_shards(c0: Set<Seq<char>>, log: Seq<ProcessorEvent>) -> bool {
    forall|i: int|
        0 <= i < log.len() && (#[trigger] log[i]) is Ended ==> {
            let shard = log[i]->Ended_0;
            initialized_before(log, i, shard) && !done_before(c0, log, i, shard)
        }
}

/// Per shard, records are delivered in strictly increasing sequence order,
/// within a batch and across batches.
pub open spec fn delivered_in_order(log: Seq<ProcessorEvent>) -> bool {
    forall|i: int, a: int, j: int, b: int|
        #![trigger delivery(log, i, a), delivery(log, j, b)]
        is_delivery(log, i, a) && is_delivery(log, j, b) && (i < j || (i == j && a < b))
            && delivery(log, i, a).shard_id == delivery(log, j, b).shard_id ==> delivery(
            log,
            i,
            a,
        ).seq < delivery(log, j, b).seq
}

/// Nothing at or before a shard's earlier checkpoint is delivered again.
pub open spec fn delivered_after_checkpoints(
    k0: Map<Seq<char>, u64>,
    log: Seq<ProcessorEvent>,
) -> bool {
    forall|i: int, a: int|
        is_delivery(log, i, a) && k0.contains_key(
            (#[trigger] delivery(log, i, a)).shard_id,
        ) ==> delivery(log, i, a).seq > k0[delivery(log, i, a).shard_id]
}

/// Every delivered record is covered by its shard's checkpoint.
pub open spec fn checkpoints_cover(log: Seq<ProcessorEvent>, ckpts: Map<Seq<char>, u64>) -> bool {
    forall|i: int, a: int|
        is_delivery(log, i, a) ==> ckpts.contains_key((#[trigger] delivery(log, i, a)).shard_id)
            && delivery(log, i, a).seq <= ckpts[delivery(log, i, a).shard_id]
}

/// Checkpoints never move backwards.
pub open spec fn checkpoints_forward(k0: Map<Seq<char>, u64>, ckpts: Map<Seq<char>, u64>) -> bool {
    forall|s: Seq<char>|
        #[trigger] k0.contains_key(s) ==> ckpts.contains_key(s) && ckpts[s] >= k0[s]
}

/// Each checkpoint is either the earlier one, untouched, or the sequence
/// number of a record that was delivered.
pub open spec fn checkpoints_delivered(
    k0: Map<Seq<char>, u64>,
    log: Seq<ProcessorEvent>,
    ckpts: Map<Seq<char>, u64>,
) -> bool {
    forall|s: Seq<char>|
        #[trigger] ckpts.contains_key(s) ==> (k0.contains_key(s) && ckpts[s] == k0[s]) || exists|
            i: int,
            a: int,
        |
            is_delivery(log, i, a) && (#[trigger] delivery(log, i, a)).shard_id == s && delivery(
                log,
                i,
                a,
            ).seq == ckpts[s]
}

/// What holds of a run's log and the lease store at every step.
pub open spec fn run_invariant(
    g: Seq<ShardMetaView>,
    c0: Set<Seq<char>>,
    k0: Map<Seq<char>, u64>,
    log: Seq<ProcessorEvent>,
    completed: Set<Seq<char>>,
    ckpts: Map<Seq<char>, u64>,
) -> bool {
    &&& starts_only_when_eligible(g, c0, log)
    &&& delivers_only_open_shards(c0, log)
    &&& ends_only_open_shards(c0, log)
    &&& delivered_in_order(log)
    &&& delivered_after_checkpoints(k0, log)
    &&& completed == done_set(c0, log, log.len() as int)
    &&& checkpoints_cover(log, ckpts)
    &&& checkpoints_forward(k0, ckpts)
    &&& checkpoints_delivered(k0, log, ckpts)
}

/// The number of listed shards that are not complete.
pub open spec fn pending(g: Seq<ShardMetaView>, done: Set<Seq<char>>) -> nat
    decreases g.len(),
{
    if g.len() == 0 {
        0
    } else {
        pending(g.drop_last(), done) + if done.contains(g.last().id) {
            0nat
        } else {
            1nat
        }
    }
}

proof fn lemma_pending_shrinks(g: Seq<ShardMetaView>, d1: Set<Seq<char>>, d2: Set<Seq<char>>, k: int)
    requires
        d1.subset_of(d2),
        0 <= k < g.len() ==> !d1.contains(g[k].id) && d2.contains(g[k].id),
    ensures
        pending(g, d2) <= pending(g, d1),
        0 <= k < g.len() ==> pending(g, d2) < pending(g, d1),
    decreases g.len(),
{
    if g.len() > 0 {
        let k2 = if k == g.len() - 1 { -1 } else { k };
        lemma_pending_shrinks(g.drop_last(), d1, d2, k2);
        if 0 <= k < g.len() - 1 {
            assert(g.drop_last()[k] == g[k]);
        }
    }
}

proof fn lemma_push_prefix(log: Seq<ProcessorEvent>, e: ProcessorEvent, i: int, s: Seq<char>)
    requires
        0 <= i <= log.len(),
    ensures
        ended_before(log.push(e), i, s) == ended_before(log, i, s),
        initialized_before(log.push(e), i, s) == initialized_before(log, i, s),
{
    if ended_before(log, i, s) {
        let l = choose|l: int| 0 <= l < i && log[l] == ProcessorEvent::Ended(s);
        assert(log.push(e)[l] == log[l]);
    }
    if ended_before(log.push(e), i, s) {
        let l = choose|l: int| 0 <= l < i && log.push(e)[l] == ProcessorEvent::Ended(s);
        assert(log.push(e)[l] == log[l]);
    }
    if initialized_before(log, i, s) {
        let l = choose|l: int| 0 <= l < i && log[l] == ProcessorEvent::Initialized(s);
        assert(log.push(e)[l] == log[l]);
    }
    if initialized_before(log.push(e), i, s) {
        let l = choose|l: int| 0 <= l < i && log.push(e)[l] == ProcessorEvent::Initialized(s);
        assert(log.push(e)[l] == log[l]);
    }
}

proof fn lemma_push_last(log: Seq<ProcessorEvent>, e: ProcessorEvent, s: Seq<char>)
    ensures
        ended_before(log.push(e), log.len() + 1int, s) == (ended_before(log, log.len() as int, s)
            || e == ProcessorEvent::Ended(s)),
        initialized_before(log.push(e), log.len() + 1int, s) == (initialized_before(
            log,
            log.len() as int,
            s,
        ) || e == ProcessorEvent::Initialized(s)),
{
    let n = log.len() as int;
    lemma_push_prefix(log, e, n, s);
    let l2 = log.push(e);
    assert(l2[n] == e);
    if ended_before(l2, n + 1, s) && !ended_before(log, n, s) {
        let l = choose|l: int| 0 <= l < n + 1 && l2[l] == ProcessorEvent::Ended(s);
        if l < n {
            assert(l2[l] == log[l]);
        }
    }
    if e == ProcessorEvent::Ended(s) {
        assert(l2[n] == ProcessorEvent::Ended(s));
    }
    if ended_before(log, n, s) {
        let l = choose|l: int| 0 <= l < n && log[l] == ProcessorEvent::Ended(s);
        assert(l2[l] == log[l]);
    }
    if initialized_before(l2, n + 1, s) && !initialized_before(log, n, s) {
        let l = choose|l: int| 0 <= l < n + 1 && l2[l] == ProcessorEvent::Initialized(s);
        if l < n {
            assert(l2[l] == log[l]);
        }
    }
    if e == ProcessorEvent::Initialized(s) {
        assert(l2[n] == ProcessorEvent::Initialized(s));
    }
    if initialized_before(log, n, s) {
        let l = choose|l: int| 0 <= l < n && log[l] == ProcessorEvent::Initialized(s);
        assert(l2[l] == log[l]);
    }
}

/// What a read of `shard` continues from: its checkpoint, if it has one.
pub open spec fn resume_position(ckpts: Map<Seq<char>, u64>, shard: Seq<char>) -> Option<u64> {
    if ckpts.contains_key(shard) {
        Some(ckpts[shard])
    } else {
        None
    }
}

proof fn lemma_push_past(c0: Set<Seq<char>>, log: Seq<ProcessorEvent>, e: ProcessorEvent)
    ensures
        forall|i: int| 0 <= i < log.len() ==> #[trigger] log.push(e)[i] == log[i],
        forall|i: int, s: Seq<char>|
            0 <= i <= log.len() ==> (#[trigger] ended_before(log.push(e), i, s) == ended_before(
                log,
                i,
                s,
            )),
        forall|i: int, s: Seq<char>|
            0 <= i <= log.len() ==> (#[trigger] initialized_before(log.push(e), i, s)
                == initialized_before(log, i, s)),
        forall|i: int| 0 <= i <= log.len() ==> #[trigger] done_set(c0, log.push(e), i) == done_set(c0, log, i),
        forall|i: int, a: int|
            0 <= i < log.len() ==> (#[trigger] is_delivery(log.push(e), i, a) == is_delivery(log, i, a)
                && delivery(log.push(e), i, a) == delivery(log, i, a)),
{
    let nl = log.push(e);
    assert forall|i: int, s: Seq<char>| 0 <= i <= log.len() implies (#[trigger] ended_before(nl, i, s)
        == ended_before(log, i, s)) && initialized_before(nl, i, s) == initialized_before(log, i, s) by {
        lemma_push_prefix(log, e, i, s);
    }
    assert forall|i: int, s: Seq<char>| 0 <= i <= log.len() implies (#[trigger] initialized_before(nl, i, s)
        == initialized_before(log, i, s)) by {
        lemma_push_prefix(log, e, i, s);
    }
    assert forall|i: int| 0 <= i <= log.len() implies #[trigger] done_set(c0, nl, i) == done_set(c0, log, i) by {
        assert forall|s: Seq<char>| done_set(c0, nl, i).contains(s) == done_set(c0, log, i).contains(s) by {
            lemma_push_prefix(log, e, i, s);
        }
        assert(done_set(c0, nl, i) =~= done_set(c0, log, i));
    }
    assert forall|i: int, a: int| 0 <= i < log.len() implies (#[trigger] is_delivery(nl, i, a)
        == is_delivery(log, i, a) && delivery(nl, i, a) == delivery(log, i, a)) by {
        assert(nl[i] == log[i]);
    }
}

proof fn lemma_step_initialize(
    g: Seq<ShardMetaView>,
    c0: Set<Seq<char>>,
    k0: Map<Seq<char>, u64>,
    log: Seq<ProcessorEvent>,
    completed: Set<Seq<char>>,
    ckpts: Map<Seq<char>, u64>,
    j: int,
)
    requires
        run_invariant(g, c0, k0, log, completed, ckpts),
        0 <= j < g.len(),
        eligible_spec(g[j], completed),
    ensures
        ({
            let nl = log.push(ProcessorEvent::Initialized(g[j].id));
            &&& run_invariant(g, c0, k0, nl, completed, ckpts)
            &&& initialized_before(nl, nl.len() as int, g[j].id)
            &&& !done_before(c0, nl, nl.len() as int, g[j].id)
        }),
{
    let s = g[j].id;
    let e = ProcessorEvent::Initialized(s);
    let nl = log.push(e);
    let n = log.len() as int;
    lemma_push_past(c0, log, e);
    assert(nl[n] == e);
    assert forall|x: Seq<char>| completed.contains(x) == done_set(c0, nl, n + 1).contains(x) by {
        lemma_push_last(log, e, x);
    }
    assert(completed =~= done_set(c0, nl, n + 1));
    lemma_push_last(log, e, s);
    assert(starts_only_when_eligible(g, c0, nl)) by {
        assert forall|i: int| 0 <= i < nl.len() && (#[trigger] nl[i]) is Initialized implies exists|jj: int|
            0 <= jj < g.len() && g[jj].id == nl[i]->Initialized_0 && eligible_spec(
                #[trigger] g[jj],
                done_set(c0, nl, i),
            ) by {
            if i == n {
                assert(done_set(c0, nl, n) == done_set(c0, log, n));
                assert(g[j].id == nl[i]->Initialized_0 && eligible_spec(g[j], done_set(c0, nl, i)));
            } else {
                assert(nl[i] == log[i]);
            }
        }
    }
    assert(delivers_only_open_shards(c0, nl)) by {
        assert forall|i: int, a: int| is_delivery(nl, i, a) implies {
            let shard = (#[trigger] delivery(nl, i, a)).shard_id;
            initialized_before(nl, i, shard) && !done_before(c0, nl, i, shard)
        } by {
            assert(i < n);
            assert(is_delivery(log, i, a));
            let shard = delivery(log, i, a).shard_id;
            assert(done_set(c0, nl, i).contains(shard) == done_set(c0, log, i).contains(shard));
        }
    }
    assert(ends_only_open_shards(c0, nl)) by {
        assert forall|i: int| 0 <= i < nl.len() && (#[trigger] nl[i]) is Ended implies {
            let shard = nl[i]->Ended_0;
            initialized_before(nl, i, shard) && !done_before(c0, nl, i, shard)
        } by {
            assert(i < n);
            assert(nl[i] == log[i]);
            let shard = log[i]->Ended_0;
            assert(done_set(c0, nl, i).contains(shard) == done_set(c0, log, i).contains(shard));
        }
    }
    assert(delivered_in_order(nl)) by {
        assert forall|i: int, a: int, jj: int, b: int|
            #![trigger delivery(nl, i, a), delivery(nl, jj, b)]
            is_delivery(nl, i, a) && is_delivery(nl, jj, b) && (i < jj || (i == jj && a < b))
                && delivery(nl, i, a).shard_id == delivery(nl, jj, b).shard_id implies delivery(
                nl,
                i,
                a,
            ).seq < delivery(nl, jj, b).seq by {
            assert(i < n && jj < n);
            assert(is_delivery(log, i, a) && is_delivery(log, jj, b));
        }
    }
    assert(delivered_after_checkpoints(k0, nl)) by {
        assert forall|i: int, a: int|
            is_delivery(nl, i, a) && k0.contains_key(
                (#[trigger] delivery(nl, i, a)).shard_id,
            ) implies delivery(nl, i, a).seq > k0[delivery(nl, i, a).shard_id] by {
            assert(i < n);
            assert(is_delivery(log, i, a));
        }
    }
    assert(checkpoints_cover(nl, ckpts)) by {
        assert forall|i: int, a: int| is_delivery(nl, i, a) implies ckpts.contains_key(
            (#[trigger] delivery(nl, i, a)).shard_id,
        ) && delivery(nl, i, a).seq <= ckpts[delivery(nl, i, a).shard_id] by {
            assert(i < n);
            assert(is_delivery(log, i, a));
        }
    }
    assert(checkpoints_delivered(k0, nl, ckpts)) by {
        assert forall|x: Seq<char>| #[trigger] ckpts.contains_key(x) implies (k0.contains_key(x)
            && ckpts[x] == k0[x]) || exists|i: int, a: int|
            is_delivery(nl, i, a) && (#[trigger] delivery(nl, i, a)).shard_id == x && delivery(
                nl,
                i,
                a,
            ).seq == ckpts[x] by {
            if !(k0.contains_key(x) && ckpts[x] == k0[x]) {
                let (i, a) = choose|i: int, a: int|
                    is_delivery(log, i, a) && (#[trigger] delivery(log, i, a)).shard_id == x
                        && delivery(log, i, a).seq == ckpts[x];
                assert(is_delivery(nl, i, a) && delivery(nl, i, a) == delivery(log, i, a));
            }
        }
    }
}

proof fn lemma_step_deliver(
    g: Seq<ShardMetaView>,
    c0: Set<Seq<char>>,
    k0: Map<Seq<char>, u64>,
    log: Seq<ProcessorEvent>,
    completed: Set<Seq<char>>,
    ckpts: Map<Seq<char>, u64>,
    s: Seq<char>,
    rs: Seq<RecordView>,
    m: u64,
    k: int,
)
    requires
        run_invariant(g, c0, k0, log, completed, ckpts),
        initialized_before(log, log.len() as int, s),
        !done_before(c0, log, log.len() as int, s),
        records_forward(rs, s, resume_position(ckpts, s)),
        0 <= k < rs.len(),
        rs[k].seq == m,
        forall|x: int| 0 <= x < rs.len() ==> (#[trigger] rs[x]).seq <= m,
    ensures
        ({
            let nl = log.push(ProcessorEvent::Delivered(rs));
            &&& run_invariant(g, c0, k0, nl, completed, ckpts.insert(s, m))
            &&& initialized_before(nl, nl.len() as int, s)
            &&& !done_before(c0, nl, nl.len() as int, s)
        }),
        ckpts.contains_key(s) ==> m > ckpts[s],
{
    let e = ProcessorEvent::Delivered(rs);
    let nl = log.push(e);
    let n = log.len() as int;
    let k2 = ckpts.insert(s, m);
    lemma_push_past(c0, log, e);
    assert(nl[n] == e);
    assert forall|x: Seq<char>| completed.contains(x) == done_set(c0, nl, n + 1).contains(x) by {
        lemma_push_last(log, e, x);
    }
    assert(completed =~= done_set(c0, nl, n + 1));
    lemma_push_last(log, e, s);
    assert(rs[k] == rs[k]);
    assert(starts_only_when_eligible(g, c0, nl)) by {
        assert forall|i: int| 0 <= i < nl.len() && (#[trigger] nl[i]) is Initialized implies exists|jj: int|
            0 <= jj < g.len() && g[jj].id == nl[i]->Initialized_0 && eligible_spec(
                #[trigger] g[jj],
                done_set(c0, nl, i),
            ) by {
            assert(i < n);
            assert(nl[i] == log[i]);
        }
    }
    assert(delivers_only_open_shards(c0, nl)) by {
        assert forall|i: int, a: int| is_delivery(nl, i, a) implies {
            let shard = (#[trigger] delivery(nl, i, a)).shard_id;
            initialized_before(nl, i, shard) && !done_before(c0, nl, i, shard)
        } by {
            if i < n {
                assert(is_delivery(log, i, a));
                let shard = delivery(log, i, a).shard_id;
                assert(done_set(c0, nl, i).contains(shard) == done_set(c0, log, i).contains(shard));
            } else {
                assert(delivery(nl, i, a) == rs[a]);
                assert(done_set(c0, nl, n).contains(s) == done_set(c0, log, n).contains(s));
            }
        }
    }
    assert(ends_only_open_shards(c0, nl)) by {
        assert forall|i: int| 0 <= i < nl.len() && (#[trigger] nl[i]) is Ended implies {
            let shard = nl[i]->Ended_0;
            initialized_before(nl, i, shard) && !done_before(c0, nl, i, shard)
        } by {
            assert(i < n);
            assert(nl[i] == log[i]);
            let shard = log[i]->Ended_0;
            assert(done_set(c0, nl, i).contains(shard) == done_set(c0, log, i).contains(shard));
        }
    }
    assert(delivered_in_order(nl)) by {
        assert forall|i: int, a: int, jj: int, b: int|
            #![trigger delivery(nl, i, a), delivery(nl, jj, b)]
            is_delivery(nl, i, a) && is_delivery(nl, jj, b) && (i < jj || (i == jj && a < b))
                && delivery(nl, i, a).shard_id == delivery(nl, jj, b).shard_id implies delivery(
                nl,
                i,
                a,
            ).seq < delivery(nl, jj, b).seq by {
            if jj < n {
                assert(is_delivery(log, i, a) && is_delivery(log, jj, b));
            } else if i < n {
                assert(is_delivery(log, i, a));
                assert(delivery(nl, jj, b) == rs[b]);
                assert(ckpts.contains_key(s));
            } else {
                assert(delivery(nl, i, a) == rs[a]);
                assert(delivery(nl, jj, b) == rs[b]);
            }
        }
    }
    assert(delivered_after_checkpoints(k0, nl)) by {
        assert forall|i: int, a: int|
            is_delivery(nl, i, a) && k0.contains_key(
                (#[trigger] delivery(nl, i, a)).shard_id,
            ) implies delivery(nl, i, a).seq > k0[delivery(nl, i, a).shard_id] by {
            if i < n {
                assert(is_delivery(log, i, a));
            } else {
                assert(delivery(nl, i, a) == rs[a]);
                assert(k0.contains_key(s));
                assert(ckpts.contains_key(s));
            }
        }
    }
    if ckpts.contains_key(s) {
        assert(rs[k].seq > ckpts[s]);
    }
    assert(checkpoints_cover(nl, k2)) by {
        assert forall|i: int, a: int| is_delivery(nl, i, a) implies k2.contains_key(
            (#[trigger] delivery(nl, i, a)).shard_id,
        ) && delivery(nl, i, a).seq <= k2[delivery(nl, i, a).shard_id] by {
            if i < n {
                assert(is_delivery(log, i, a));
            } else {
                assert(delivery(nl, i, a) == rs[a]);
            }
        }
    }
    assert(checkpoints_forward(k0, k2)) by {
        assert forall|x: Seq<char>| #[trigger] k0.contains_key(x) implies k2.contains_key(x) && k2[x]
            >= k0[x] by {
            assert(ckpts.contains_key(x));
        }
    }
    assert(checkpoints_delivered(k0, nl, k2)) by {
        assert forall|x: Seq<char>| #[trigger] k2.contains_key(x) implies (k0.contains_key(x) && k2[x]
            == k0[x]) || exists|i: int, a: int|
            is_delivery(nl, i, a) && (#[trigger] delivery(nl, i, a)).shard_id == x && delivery(
                nl,
                i,
                a,
            ).seq == k2[x] by {
            if x == s {
                assert(is_delivery(nl, n, k) && delivery(nl, n, k) == rs[k]);
            } else if !(k0.contains_key(x) && k2[x] == k0[x]) {
                assert(ckpts.contains_key(x));
                let (i, a) = choose|i: int, a: int|
                    is_delivery(log, i, a) && (#[trigger] delivery(log, i, a)).shard_id == x
                        && delivery(log, i, a).seq == ckpts[x];
                assert(is_delivery(nl, i, a) && delivery(nl, i, a) == delivery(log, i, a));
            }
        }
    }
}

proof fn lemma_step_end(
    g: Seq<ShardMetaView>,
    c0: Set<Seq<char>>,
    k0: Map<Seq<char>, u64>,
    log: Seq<ProcessorEvent>,
    completed: Set<Seq<char>>,
    ckpts: Map<Seq<char>, u64>,
    s: Seq<char>,
)
    requires
        run_invariant(g, c0, k0, log, completed, ckpts),
        initialized_before(log, log.len() as int, s),
        !done_before(c0, log, log.len() as int, s),
    ensures
        ({
            let nl = log.push(ProcessorEvent::Ended(s));
            &&& run_invariant(g, c0, k0, nl, completed.insert(s), ckpts)
            &&& done_before(c0, nl, nl.len() as int, s)
        }),
{
    let e = ProcessorEvent::Ended(s);
    let nl = log.push(e);
    let n = log.len() as int;
    lemma_push_past(c0, log, e);
    assert(nl[n] == e);
    assert forall|x: Seq<char>| completed.insert(s).contains(x) == done_set(c0, nl, n + 1).contains(x) by {
        lemma_push_last(log, e, x);
    }
    assert(completed.insert(s) =~= done_set(c0, nl, n + 1));
    lemma_push_last(log, e, s);
    assert(starts_only_when_eligible(g, c0, nl)) by {
        assert forall|i: int| 0 <= i < nl.len() && (#[trigger] nl[i]) is Initialized implies exists|jj: int|
            0 <= jj < g.len() && g[jj].id == nl[i]->Initialized_0 && eligible_spec(
                #[trigger] g[jj],
                done_set(c0, nl, i),
            ) by {
            assert(i < n);
            assert(nl[i] == log[i]);
        }
    }
    assert(delivers_only_open_shards(c0, nl)) by {
        assert forall|i: int, a: int| is_delivery(nl, i, a) implies {
            let shard = (#[trigger] delivery(nl, i, a)).shard_id;
            initialized_before(nl, i, shard) && !done_before(c0, nl, i, shard)
        } by {
            assert(i < n);
            assert(is_delivery(log, i, a));
            let shard = delivery(log, i, a).shard_id;
            assert(done_set(c0, nl, i).contains(shard) == done_set(c0, log, i).contains(shard));
        }
    }
    assert(ends_only_open_shards(c0, nl)) by {
        assert forall|i: int| 0 <= i < nl.len() && (#[trigger] nl[i]) is Ended implies {
            let shard = nl[i]->Ended_0;
            initialized_before(nl, i, shard) && !done_before(c0, nl, i, shard)
        } by {
            if i < n {
                assert(nl[i] == log[i]);
                let shard = log[i]->Ended_0;
                assert(done_set(c0, nl, i).contains(shard) == done_set(c0, log, i).contains(shard));
            } else {
                assert(done_set(c0, nl, n).contains(s) == done_set(c0, log, n).contains(s));
            }
        }
    }
    assert(delivered_in_order(nl)) by {
        assert forall|i: int, a: int, jj: int, b: int|
            #![trigger delivery(nl, i, a), delivery(nl, jj, b)]
            is_delivery(nl, i, a) && is_delivery(nl, jj, b) && (i < jj || (i == jj && a < b))
                && delivery(nl, i, a).shard_id == delivery(nl, jj, b).shard_id implies delivery(
                nl,
                i,
                a,
            ).seq < delivery(nl, jj, b).seq by {
            assert(i < n && jj < n);
            assert(is_delivery(log, i, a) && is_delivery(log, jj, b));
        }
    }
    assert(delivered_after_checkpoints(k0, nl)) by {
        assert forall|i: int, a: int|
            is_delivery(nl, i, a) && k0.contains_key(
                (#[trigger] delivery(nl, i, a)).shard_id,
            ) implies delivery(nl, i, a).seq > k0[delivery(nl, i, a).shard_id] by {
            assert(i < n);
            assert(is_delivery(log, i, a));
        }
    }
    assert(checkpoints_cover(nl, ckpts)) by {
        assert forall|i: int, a: int| is_delivery(nl, i, a) implies ckpts.contains_key(
            (#[trigger] delivery(nl, i, a)).shard_id,
        ) && delivery(nl, i, a).seq <= ckpts[delivery(nl, i, a).shard_id] by {
            assert(i < n);
            assert(is_delivery(log, i, a));
        }
    }
    assert(checkpoints_delivered(k0, nl, ckpts)) by {
        assert forall|x: Seq<char>| #[trigger] ckpts.contains_key(x) implies (k0.contains_key(x)
            && ckpts[x] == k0[x]) || exists|i: int, a: int|
            is_delivery(nl, i, a) && (#[trigger] delivery(nl, i, a)).shard_id == x && delivery(
                nl,
                i,
                a,
            ).seq == ckpts[x] by {
            if !(k0.contains_key(x) && ckpts[x] == k0[x]) {
                let (i, a) = choose|i: int, a: int|
                    is_delivery(log, i, a) && (#[trigger] delivery(log, i, a)).shard_id == x
                        && delivery(log, i, a).seq == ckpts[x];
                assert(is_delivery(nl, i, a) && delivery(nl, i, a) == delivery(log, i, a));
            }
        }
    }
}

// ---------------------------------------------------------------------------
// What was read: each delivery is the source's read from where its shard
// stood, and a shard ends only on a read that says it is closed.
// ---------------------------------------------------------------------------

/// Where `shard` stands after the first `i` events of the log: the sequence
/// number of the last record delivered for it, or its checkpoint from before
/// the run.
pub open spec fn position_at(
    k0: Map<Seq<char>, u64>,
    log: Seq<ProcessorEvent>,
    i: int,
    shard: Seq<char>,
) -> Option<u64>
    decreases i,
{
    if i <= 0 {
        resume_position(k0, shard)
    } else {
        match log[i - 1] {
            ProcessorEvent::Delivered(rs) => if rs.len() > 0 && rs.last().shard_id == shard {
                Some(rs.last().seq)
            } else {
                position_at(k0, log, i - 1, shard)
            },
            _ => position_at(k0, log, i - 1, shard),
        }
    }
}

/// No record is skipped or invented: each delivered batch is exactly what
/// the source returns for its shard, read from where that shard stood.
pub open spec fn delivers_source_reads<S: StreamSource>(
    src: S,
    k0: Map<Seq<char>, u64>,
    log: Seq<ProcessorEvent>,
) -> bool {
    forall|i: int|
        0 <= i < log.len() && (#[trigger] log[i]) is Delivered ==> {
            let rs = log[i]->Delivered_0;
            &&& rs.len() > 0
            &&& rs == src.read(rs[0].shard_id, position_at(k0, log, i, rs[0].shard_id)).records
        }
}

/// The read behind the end of `shard` at position `i` of the log said the
/// shard is closed: either the batch just delivered came from a read that
/// closed the shard, or a read from where the shard stands returns nothing
/// and closes it.
pub open spec fn closed_read<S: StreamSource>(
    src: S,
    k0: Map<Seq<char>, u64>,
    log: Seq<ProcessorEvent>,
    i: int,
    shard: Seq<char>,
) -> bool {
    ||| {
        let b = src.read(shard, position_at(k0, log, i - 1, shard));
        &&& i >= 1
        &&& log[i - 1] == ProcessorEvent::Delivered(b.records)
        &&& b.shard_end
    }
    ||| {
        let b = src.read(shard, position_at(k0, log, i, shard));
        &&& b.records.len() == 0
        &&& b.shard_end
    }
}

/// A shard ends only when the source said it is closed, after everything
/// read before was delivered.
pub open spec fn ends_only_when_closed<S: StreamSource>(
    src: S,
    k0: Map<Seq<char>, u64>,
    log: Seq<ProcessorEvent>,
) -> bool {
    forall|i: int|
        0 <= i < log.len() && (#[trigger] log[i]) is Ended ==> closed_read(
            src,
            k0,
            log,
            i,
            log[i]->Ended_0,
        )
}

/// Each checkpoint stands where its shard stands: at the last record
/// delivered for it.
pub open spec fn checkpoints_at_positions(
    k0: Map<Seq<char>, u64>,
    log: Seq<ProcessorEvent>,
    ckpts: Map<Seq<char>, u64>,
) -> bool {
    forall|shard: Seq<char>|
        #[trigger] resume_position(ckpts, shard) == position_at(k0, log, log.len() as int, shard)
}

pub open spec fn read_invariant<S: StreamSource>(
    src: S,
    k0: Map<Seq<char>, u64>,
    log: Seq<ProcessorEvent>,
    ckpts: Map<Seq<char>, u64>,
) -> bool {
    &&& delivers_source_reads(src, k0, log)
    &&& ends_only_when_closed(src, k0, log)
    &&& checkpoints_at_positions(k0, log, ckpts)
}

/// Every shard started in the log also ended there, but for `open`, the one
/// being drained.
pub open spec fn started_shards_end_but(log: Seq<ProcessorEvent>, open: Option<Seq<char>>) -> bool {
    forall|i: int|
        0 <= i < log.len() && (#[trigger] log[i]) is Initialized ==> ended_before(
            log,
            log.len() as int,
            log[i]->Initialized_0,
        ) || open == Some(log[i]->Initialized_0)
}

/// Every shard started in the log also ended there.
pub open spec fn started_shards_end(log: Seq<ProcessorEvent>) -> bool {
    started_shards_end_but(log, None)
}

proof fn lemma_position_push(
    k0: Map<Seq<char>, u64>,
    log: Seq<ProcessorEvent>,
    e: ProcessorEvent,
    i: int,
    s: Seq<char>,
)
    requires
        0 <= i <= log.len(),
    ensures
        position_at(k0, log.push(e), i, s) == position_at(k0, log, i, s),
    decreases i,
{
    if i > 0 {
        assert(log.push(e)[i - 1] == log[i - 1]);
        lemma_position_push(k0, log, e, i - 1, s);
    }
}

proof fn lemma_positions_after_push(k0: Map<Seq<char>, u64>, log: Seq<ProcessorEvent>, e: ProcessorEvent)
    ensures
        forall|i: int, s: Seq<char>|
            0 <= i <= log.len() ==> #[trigger] position_at(k0, log.push(e), i, s) == position_at(
                k0,
                log,
                i,
                s,
            ),
        forall|s: Seq<char>|
            #[trigger] position_at(k0, log.push(e), log.len() + 1int, s) == match e {
                ProcessorEvent::Delivered(rs) => if rs.len() > 0 && rs.last().shard_id == s {
                    Some(rs.last().seq)
                } else {
                    position_at(k0, log, log.len() as int, s)
                },
                _ => position_at(k0, log, log.len() as int, s),
            },
{
    assert forall|i: int, s: Seq<char>| 0 <= i <= log.len() implies #[trigger] position_at(
        k0,
        log.push(e),
        i,
        s,
    ) == position_at(k0, log, i, s) by {
        lemma_position_push(k0, log, e, i, s);
    }
    assert forall|s: Seq<char>| #[trigger] position_at(k0, log.push(e), log.len() + 1int, s) == match e {
        ProcessorEvent::Delivered(rs) => if rs.len() > 0 && rs.last().shard_id == s {
            Some(rs.last().seq)
        } else {
            position_at(k0, log, log.len() as int, s)
        },
        _ => position_at(k0, log, log.len() as int, s),
    } by {
        lemma_position_push(k0, log, e, log.len() as int, s);
        assert(log.push(e)[log.len() as int] == e);
    }
}

/// The read facts survive appending an event, for the part of the log that
/// was there.
proof fn lemma_reads_past<S: StreamSource>(
    src: S,
    k0: Map<Seq<char>, u64>,
    log: Seq<ProcessorEvent>,
    e: ProcessorEvent,
)
    requires
        delivers_source_reads(src, k0, log),
        ends_only_when_closed(src, k0, log),
    ensures
        forall|i: int|
            0 <= i < log.len() && (#[trigger] log.push(e)[i]) is Delivered ==> {
                let rs = log.push(e)[i]->Delivered_0;
                &&& rs.len() > 0
                &&& rs == src.read(
                    rs[0].shard_id,
                    position_at(k0, log.push(e), i, rs[0].shard_id),
                ).records
            },
        forall|i: int|
            0 <= i < log.len() && (#[trigger] log.push(e)[i]) is Ended ==> closed_read(
                src,
                k0,
                log.push(e),
                i,
                log.push(e)[i]->Ended_0,
            ),
{
    let nl = log.push(e);
    lemma_positions_after_push(k0, log, e);
    assert forall|i: int| 0 <= i < log.len() && (#[trigger] nl[i]) is Delivered implies {
        let rs = nl[i]->Delivered_0;
        &&& rs.len() > 0
        &&& rs == src.read(rs[0].shard_id, position_at(k0, nl, i, rs[0].shard_id)).records
    } by {
        assert(nl[i] == log[i]);
    }
    assert forall|i: int| 0 <= i < log.len() && (#[trigger] nl[i]) is Ended implies closed_read(
        src,
        k0,
        nl,
        i,
        nl[i]->Ended_0,
    ) by {
        assert(nl[i] == log[i]);
        if i >= 1 {
            assert(nl[i - 1] == log[i - 1]);
        }
    }
}

proof fn lemma_reads_initialize<S: StreamSource>(
    src: S,
    k0: Map<Seq<char>, u64>,
    log: Seq<ProcessorEvent>,
    ckpts: Map<Seq<char>, u64>,
    s: Seq<char>,
)
    requires
        read_invariant(src, k0, log, ckpts),
        started_shards_end(log),
    ensures
        read_invariant(src, k0, log.push(ProcessorEvent::Initialized(s)), ckpts),
        started_shards_end_but(log.push(ProcessorEvent::Initialized(s)), Some(s)),
{
    let e = ProcessorEvent::Initialized(s);
    let nl = log.push(e);
    lemma_reads_past(src, k0, log, e);
    lemma_positions_after_push(k0, log, e);
    assert(nl[log.len() as int] == e);
    assert forall|x: Seq<char>| #[trigger] resume_position(ckpts, x) == position_at(
        k0,
        nl,
        nl.len() as int,
        x,
    ) by {
        assert(resume_position(ckpts, x) == position_at(k0, log, log.len() as int, x));
    }
    assert forall|i: int| 0 <= i < nl.len() && (#[trigger] nl[i]) is Initialized implies ended_before(
        nl,
        nl.len() as int,
        nl[i]->Initialized_0,
    ) || Some(s) == Some(nl[i]->Initialized_0) by {
        if i < log.len() {
            assert(nl[i] == log[i]);
            lemma_push_last(log, e, log[i]->Initialized_0);
        }
    }
}

proof fn lemma_reads_deliver<S: StreamSource>(
    src: S,
    k0: Map<Seq<char>, u64>,
    log: Seq<ProcessorEvent>,
    ckpts: Map<Seq<char>, u64>,
    s: Seq<char>,
    rs: Seq<RecordView>,
    m: u64,
    k: int,
)
    requires
        read_invariant(src, k0, log, ckpts),
        started_shards_end_but(log, Some(s)),
        rs == src.read(s, resume_position(ckpts, s)).records,
        records_forward(rs, s, resume_position(ckpts, s)),
        0 <= k < rs.len(),
        rs[k].seq == m,
        forall|x: int| 0 <= x < rs.len() ==> (#[trigger] rs[x]).seq <= m,
    ensures
        read_invariant(src, k0, log.push(ProcessorEvent::Delivered(rs)), ckpts.insert(s, m)),
        started_shards_end_but(log.push(ProcessorEvent::Delivered(rs)), Some(s)),
        rs.last().seq == m,
        rs[0].shard_id == s,
{
    let e = ProcessorEvent::Delivered(rs);
    let nl = log.push(e);
    let n = log.len() as int;
    let k2 = ckpts.insert(s, m);
    lemma_reads_past(src, k0, log, e);
    lemma_positions_after_push(k0, log, e);
    assert(nl[n] == e);
    // The highest sequence number of a sorted batch is its last.
    assert(rs.last() == rs[rs.len() - 1]);
    if k < rs.len() - 1 {
        assert(rs[k].seq < rs[rs.len() - 1].seq);
    }
    assert(rs.last().seq == m);
    assert(rs[0].shard_id == s);
    assert(rs.last().shard_id == s);
    assert(delivers_source_reads(src, k0, nl)) by {
        assert forall|i: int| 0 <= i < nl.len() && (#[trigger] nl[i]) is Delivered implies {
            let r = nl[i]->Delivered_0;
            &&& r.len() > 0
            &&& r == src.read(r[0].shard_id, position_at(k0, nl, i, r[0].shard_id)).records
        } by {
            if i == n {
                assert(position_at(k0, nl, n, s) == position_at(k0, log, n, s));
                assert(resume_position(ckpts, s) == position_at(k0, log, n, s));
            }
        }
    }
    assert(ends_only_when_closed(src, k0, nl)) by {
        assert forall|i: int| 0 <= i < nl.len() && (#[trigger] nl[i]) is Ended implies closed_read(
            src,
            k0,
            nl,
            i,
            nl[i]->Ended_0,
        ) by {
            assert(i < n);
        }
    }
    assert forall|x: Seq<char>| #[trigger] resume_position(k2, x) == position_at(
        k0,
        nl,
        nl.len() as int,
        x,
    ) by {
        assert(resume_position(ckpts, x) == position_at(k0, log, log.len() as int, x));
    }
    assert forall|i: int| 0 <= i < nl.len() && (#[trigger] nl[i]) is Initialized implies ended_before(
        nl,
        nl.len() as int,
        nl[i]->Initialized_0,
    ) || Some(s) == Some(nl[i]->Initialized_0) by {
        assert(i < n);
        assert(nl[i] == log[i]);
        lemma_push_last(log, e, log[i]->Initialized_0);
    }
}

proof fn lemma_reads_end<S: StreamSource>(
    src: S,
    k0: Map<Seq<char>, u64>,
    log: Seq<ProcessorEvent>,
    ckpts: Map<Seq<char>, u64>,
    s: Seq<char>,
)
    requires
        read_invariant(src, k0, log, ckpts),
        started_shards_end_but(log, Some(s)),
        ({
            let b = src.read(s, position_at(k0, log, log.len() - 1, s));
            &&& log.len() >= 1
            &&& log.last() == ProcessorEvent::Delivered(b.records)
            &&& b.shard_end
        }) || ({
            let b = src.read(s, position_at(k0, log, log.len() as int, s));
            &&& b.records.len() == 0
            &&& b.shard_end
        }),
    ensures
        read_invariant(src, k0, log.push(ProcessorEvent::Ended(s)), ckpts),
        started_shards_end(log.push(ProcessorEvent::Ended(s))),
{
    let e = ProcessorEvent::Ended(s);
    let nl = log.push(e);
    let n = log.len() as int;
    lemma_reads_past(src, k0, log, e);
    lemma_positions_after_push(k0, log, e);
    assert(nl[n] == e);
    assert(ends_only_when_closed(src, k0, nl)) by {
        assert forall|i: int| 0 <= i < nl.len() && (#[trigger] nl[i]) is Ended implies closed_read(
            src,
            k0,
            nl,
            i,
            nl[i]->Ended_0,
        ) by {
            if i == n {
                assert(position_at(k0, nl, n, s) == position_at(k0, log, n, s));
                if n >= 1 {
                    assert(position_at(k0, nl, n - 1, s) == position_at(k0, log, n - 1, s));
                    assert(nl[n - 1] == log[n - 1]);
                    assert(log.last() == log[n - 1]);
                }
            }
        }
    }
    assert(delivers_source_reads(src, k0, nl)) by {
        assert forall|i: int| 0 <= i < nl.len() && (#[trigger] nl[i]) is Delivered implies {
            let r = nl[i]->Delivered_0;
            &&& r.len() > 0
            &&& r == src.read(r[0].shard_id, position_at(k0, nl, i, r[0].shard_id)).records
        } by {
            assert(i < n);
        }
    }
    assert forall|x: Seq<char>| #[trigger] resume_position(ckpts, x) == position_at(
        k0,
        nl,
        nl.len() as int,
        x,
    ) by {
        assert(resume_position(ckpts, x) == position_at(k0, log, log.len() as int, x));
    }
    assert forall|i: int| 0 <= i < nl.len() && (#[trigger] nl[i]) is Initialized implies ended_before(
        nl,
        nl.len() as int,
        nl[i]->Initialized_0,
    ) || None::<Seq<char>> == Some(nl[i]->Initialized_0) by {
        assert(i < n);
        assert(nl[i] == log[i]);
        lemma_push_last(log, e, log[i]->Initialized_0);
    }
}

// ---------------------------------------------------------------------------
// The shape of a run's log: each shard starts once, and its deliveries and
// its end follow its start with nothing but its own deliveries in between;
// and the lease store is written once per delivered batch and once per end.
// ---------------------------------------------------------------------------

/// The shard an event is about.
pub open spec fn event_shard(e: ProcessorEvent) -> Seq<char> {
    match e {
        ProcessorEvent::Initialized(s) => s,
        ProcessorEvent::Delivered(rs) => rs[0].shard_id,
        ProcessorEvent::Ended(s) => s,
    }
}

/// Each shard is started at most once.
pub open spec fn starts_once(log: Seq<ProcessorEvent>) -> bool {
    forall|i: int, j: int|
        0 <= i < j < log.len() && (#[trigger] log[i]) is Initialized && (#[trigger] log[j]) is Initialized
            ==> log[i]->Initialized_0 != log[j]->Initialized_0
}

/// Since position `l`, where `shard` started, the log holds only deliveries
/// of that shard.
pub open spec fn open_segment(log: Seq<ProcessorEvent>, shard: Seq<char>, l: int) -> bool {
    &&& 0 <= l < log.len()
    &&& log[l] == ProcessorEvent::Initialized(shard)
    &&& forall|m: int|
        l < m < log.len() ==> (#[trigger] log[m]) is Delivered && event_shard(log[m]) == shard
}

/// Every delivery and every end comes after the start of its shard, with
/// nothing but deliveries of that shard in between.
pub open spec fn follows_its_start(log: Seq<ProcessorEvent>) -> bool {
    forall|i: int|
        0 <= i < log.len() && !((#[trigger] log[i]) is Initialized) ==> exists|l: int|
            0 <= l < i && open_segment(log.subrange(0, i), event_shard(log[i]), l)
}

/// The store write that an event calls for: a checkpoint at the last record
/// of a delivered batch, a completion for an end, nothing for a start.
pub open spec fn write_of(e: ProcessorEvent) -> Seq<LeaseWrite> {
    match e {
        ProcessorEvent::Initialized(_) => Seq::empty(),
        ProcessorEvent::Delivered(rs) => seq![LeaseWrite::Checkpointed(rs[0].shard_id, rs.last().seq)],
        ProcessorEvent::Ended(s) => seq![LeaseWrite::Completed(s)],
    }
}

/// The store writes that a log calls for, in order.
pub open spec fn writes_for(log: Seq<ProcessorEvent>) -> Seq<LeaseWrite>
    decreases log.len(),
{
    if log.len() == 0 {
        Seq::empty()
    } else {
        writes_for(log.drop_last()) + write_of(log.last())
    }
}

proof fn lemma_writes_push(log: Seq<ProcessorEvent>, e: ProcessorEvent)
    ensures
        writes_for(log.push(e)) == writes_for(log) + write_of(e),
{
    assert(log.push(e).drop_last() =~= log);
}

proof fn lemma_shape_initialize(log: Seq<ProcessorEvent>, c0: Set<Seq<char>>, s: Seq<char>)
    requires
        starts_once(log),
        follows_its_start(log),
        started_shards_end(log),
        !done_before(c0, log, log.len() as int, s),
    ensures
        starts_once(log.push(ProcessorEvent::Initialized(s))),
        follows_its_start(log.push(ProcessorEvent::Initialized(s))),
        open_segment(log.push(ProcessorEvent::Initialized(s)), s, log.len() as int),
{
    let e = ProcessorEvent::Initialized(s);
    let nl = log.push(e);
    let n = log.len() as int;
    assert(nl[n] == e);
    assert forall|i: int, j: int|
        0 <= i < j < nl.len() && (#[trigger] nl[i]) is Initialized && (#[trigger] nl[j]) is Initialized
            implies nl[i]->Initialized_0 != nl[j]->Initialized_0 by {
        assert(nl[i] == log[i]);
        if j == n {
            let x = log[i]->Initialized_0;
            assert(ended_before(log, n, x));
        } else {
            assert(nl[j] == log[j]);
        }
    }
    assert forall|i: int| 0 <= i < nl.len() && !((#[trigger] nl[i]) is Initialized) implies exists|l: int|
        0 <= l < i && open_segment(nl.subrange(0, i), event_shard(nl[i]), l) by {
        assert(i < n);
        assert(nl[i] == log[i]);
        assert(nl.subrange(0, i) =~= log.subrange(0, i));
    }
}

/// Appending a delivery or the end of the open shard keeps the shape.
proof fn lemma_shape_extend(log: Seq<ProcessorEvent>, s: Seq<char>, l: int, e: ProcessorEvent)
    requires
        starts_once(log),
        follows_its_start(log),
        open_segment(log, s, l),
        !(e is Initialized),
        event_shard(e) == s,
    ensures
        starts_once(log.push(e)),
        follows_its_start(log.push(e)),
        e is Delivered ==> open_segment(log.push(e), s, l),
{
    let nl = log.push(e);
    let n = log.len() as int;
    assert(nl[n] == e);
    assert forall|i: int, j: int|
        0 <= i < j < nl.len() && (#[trigger] nl[i]) is Initialized && (#[trigger] nl[j]) is Initialized
            implies nl[i]->Initialized_0 != nl[j]->Initialized_0 by {
        assert(j < n);
        assert(nl[i] == log[i] && nl[j] == log[j]);
    }
    assert forall|i: int| 0 <= i < nl.len() && !((#[trigger] nl[i]) is Initialized) implies exists|ll: int|
        0 <= ll < i && open_segment(nl.subrange(0, i), event_shard(nl[i]), ll) by {
        if i < n {
            assert(nl[i] == log[i]);
            assert(nl.subrange(0, i) =~= log.subrange(0, i));
        } else {
            assert(nl.subrange(0, n) =~= log);
            assert(open_segment(nl.subrange(0, i), event_shard(nl[i]), l));
        }
    }
    if e is Delivered {
        assert forall|m: int| l < m < nl.len() implies (#[trigger] nl[m]) is Delivered && event_shard(nl[m]) == s by {
            if m < n {
                assert(nl[m] == log[m]);
            }
        }
        assert(nl[l] == log[l]);
    }
}

/// Everything that holds of a run between two shards: the log's laws, the
/// lease store's state and its writes.
#[verifier::opaque]
pub open spec fn run_state<S: StreamSource>(
    src: S,
    g: Seq<ShardMetaView>,
    c0: Set<Seq<char>>,
    k0: Map<Seq<char>, u64>,
    w0: Seq<LeaseWrite>,
    log: Seq<ProcessorEvent>,
    completed: Set<Seq<char>>,
    ckpts: Map<Seq<char>, u64>,
    writes: Seq<LeaseWrite>,
) -> bool {
    &&& run_invariant(g, c0, k0, log, completed, ckpts)
    &&& read_invariant(src, k0, log, ckpts)
    &&& started_shards_end(log)
    &&& starts_once(log)
    &&& follows_its_start(log)
    &&& writes == w0 + writes_for(log)
}

/// What holds while `shard`, started at position `start` of the log, is
/// being drained.
#[verifier::opaque]
pub open spec fn drain_state<S: StreamSource>(
    src: S,
    g: Seq<ShardMetaView>,
    c0: Set<Seq<char>>,
    k0: Map<Seq<char>, u64>,
    w0: Seq<LeaseWrite>,
    log: Seq<ProcessorEvent>,
    completed: Set<Seq<char>>,
    ckpts: Map<Seq<char>, u64>,
    writes: Seq<LeaseWrite>,
    shard: Seq<char>,
    start: int,
) -> bool {
    &&& run_invariant(g, c0, k0, log, completed, ckpts)
    &&& initialized_before(log, log.len() as int, shard)
    &&& !done_before(c0, log, log.len() as int, shard)
    &&& read_invariant(src, k0, log, ckpts)
    &&& started_shards_end_but(log, Some(shard))
    &&& starts_once(log)
    &&& follows_its_start(log)
    &&& open_segment(log, shard, start)
    &&& writes == w0 + writes_for(log)
}

/// Starting an eligible shard keeps every invariant of the run and opens
/// the shard's segment of the log.
proof fn lemma_start_shard<S: StreamSource>(
    src: S,
    g: Seq<ShardMetaView>,
    c0: Set<Seq<char>>,
    k0: Map<Seq<char>, u64>,
    log: Seq<ProcessorEvent>,
    completed: Set<Seq<char>>,
    ckpts: Map<Seq<char>, u64>,
    w0: Seq<LeaseWrite>,
    writes: Seq<LeaseWrite>,
    j: int,
)
    requires
        run_state(src, g, c0, k0, w0, log, completed, ckpts, writes),
        0 <= j < g.len(),
        eligible_spec(g[j], completed),
    ensures
        drain_state(
            src,
            g,
            c0,
            k0,
            w0,
            log.push(ProcessorEvent::Initialized(g[j].id)),
            completed,
            ckpts,
            writes,
            g[j].id,
            log.len() as int,
        ),
{
    reveal(run_state);
    reveal(drain_state);
    let s = g[j].id;
    let e = ProcessorEvent::Initialized(s);
    lemma_step_initialize(g, c0, k0, log, completed, ckpts, j);
    lemma_reads_initialize(src, k0, log, ckpts, s);
    assert(!done_set(c0, log, log.len() as int).contains(s));
    lemma_shape_initialize(log, c0, s);
    lemma_writes_push(log, e);
    assert(writes_for(log) + write_of(e) =~= writes_for(log));
}

/// The part of a processor's history that a run appended.
pub open spec fn run_log(h: Seq<ProcessorEvent>, n0: int) -> Seq<ProcessorEvent> {
    h.subrange(n0, h.len() as int)
}

proof fn lemma_log_push(h: Seq<ProcessorEvent>, e: ProcessorEvent, n0: int)
    requires
        0 <= n0 <= h.len(),
    ensures
        run_log(h.push(e), n0) == run_log(h, n0).push(e),
        h.push(e).subrange(0, n0) == h.subrange(0, n0),
{
    assert(run_log(h.push(e), n0) =~= run_log(h, n0).push(e));
    assert(h.push(e).subrange(0, n0) =~= h.subrange(0, n0));
}

/// How far the checkpoint of `shard` can still move forward.
pub open spec fn headroom(ckpts: Map<Seq<char>, u64>, shard: Seq<char>) -> int {
    if ckpts.contains_key(shard) {
        u64::MAX - ckpts[shard]
    } else {
        u64::MAX + 1
    }
}

/// The highest sequence number of a non-empty batch.
fn max_seq(records: &Vec<Record>) -> (m: u64)
    requires
        records.len() > 0,
    ensures
        exists|k: int| 0 <= k < records.len() && records@[k].seq == m,
        forall|k: int| 0 <= k < records.len() ==> (#[trigger] records@[k]).seq <= m,
{
    let mut m = records[0].seq;
    let mut i: usize = 1;
    while i < records.len()
        invariant
            1 <= i <= records.len(),
            exists|k: int| 0 <= k < i && records@[k].seq == m,
            forall|k: int| 0 <= k < i ==> (#[trigger] records@[k]).seq <= m,
        decreases records.len() - i,
    {
        if records[i].seq > m {
            m = records[i].seq;
        }
        i += 1;
    }
    m
}

/// Single-worker scheduler enforcing the ordering guarantees.
pub struct Scheduler<S: StreamSource, L: LeaseStore> {
    source: S,
    leases: L,
}

impl<S: StreamSource, L: LeaseStore> Scheduler<S, L> {
    pub closed spec fn source(&self) -> S {
        self.source
    }

    pub closed spec fn leases(&self) -> L {
        self.leases
    }

    pub fn new(source: S, leases: L) -> (s: Self)
        ensures
            s.source() == source,
            s.leases() == leases,
    {
        Self { source, leases }
    }

    /// A shard is eligible only if it is not complete and it has no parent or
    /// its parent is complete (reached its end and was checkpointed).
    fn eligible(&self, meta: &ShardMeta) -> (b: bool)
        ensures
            b == eligible_spec(meta@, self.leases.completed()),
    {
        if self.leases.is_complete(&meta.id) {
            return false;
        }
        match &meta.parent {
            None => true,
            Some(p) => self.leases.is_complete(p),
        }
    }

    fn all_complete(&self, shards: &Vec<ShardMeta>) -> (b: bool)
        ensures
            b == forall|j: int| 0 <= j < shards.len() ==> self.leases.completed().contains(
                #[trigger] shards@[j].id@,
            ),
    {
        let mut i: usize = 0;
        while i < shards.len()
            invariant
                i <= shards.len(),
                forall|j: int| 0 <= j < i ==> self.leases.completed().contains(#[trigger] shards@[j].id@),
            decreases shards.len() - i,
        {
            if !self.leases.is_complete(&shards[i].id) {
                return false;
            }
            i += 1;
        }
        true
    }

    /// Deliver one eligible, just-initialized shard until it ends.
    #[verifier::rlimit(40)]
    fn drain_shard<P: RecordProcessor>(
        &mut self,
        processor: &mut P,
        meta: &ShardMeta,
        Ghost(g): Ghost<Seq<ShardMetaView>>,
        Ghost(c0): Ghost<Set<Seq<char>>>,
        Ghost(k0): Ghost<Map<Seq<char>, u64>>,
        Ghost(n0): Ghost<int>,
        Ghost(w0): Ghost<Seq<LeaseWrite>>,
        Ghost(start): Ghost<int>,
    )
        requires
            well_behaved(old(self).source),
            0 <= n0 <= old(processor).history().len(),
            drain_state(
                old(self).source,
                g,
                c0,
                k0,
                w0,
                run_log(old(processor).history(), n0),
                old(self).leases.completed(),
                old(self).leases.checkpoints(),
                old(self).leases.writes(),
                meta.id@,
                start,
            ),
        ensures
            final(self).source == old(self).source,
            n0 <= final(processor).history().len(),
            final(processor).history().subrange(0, n0) == old(processor).history().subrange(0, n0),
            run_state(
                final(self).source,
                g,
                c0,
                k0,
                w0,
                run_log(final(processor).history(), n0),
                final(self).leases.completed(),
                final(self).leases.checkpoints(),
                final(self).leases.writes(),
            ),
            final(self).leases.completed() == old(self).leases.completed().insert(meta.id@),
    {
        proof {
            reveal(drain_state);
        }
        let ghost s = meta.id@;
        let ghost h_in = processor.history();
        let ghost c_in = self.leases.completed();
        loop
            invariant_except_break
                self.leases.completed() == c_in,
                initialized_before(
                    run_log(processor.history(), n0),
                    run_log(processor.history(), n0).len() as int,
                    s,
                ),
                !done_before(
                    c0,
                    run_log(processor.history(), n0),
                    run_log(processor.history(), n0).len() as int,
                    s,
                ),
                started_shards_end_but(run_log(processor.history(), n0), Some(s)),
                open_segment(run_log(processor.history(), n0), s, start),
            invariant
                read_invariant(self.source, k0, run_log(processor.history(), n0), self.leases.checkpoints()),
                starts_once(run_log(processor.history(), n0)),
                follows_its_start(run_log(processor.history(), n0)),
                self.leases.writes() == w0 + writes_for(run_log(processor.history(), n0)),
                self.source == old(self).source,
                well_behaved(self.source),
                0 <= n0 <= processor.history().len(),
                processor.history().subrange(0, n0) == h_in.subrange(0, n0),
                h_in == old(processor).history(),
                c_in == old(self).leases.completed(),
                meta.id@ == s,
                run_invariant(
                    g,
                    c0,
                    k0,
                    run_log(processor.history(), n0),
                    self.leases.completed(),
                    self.leases.checkpoints(),
                ),
            ensures
                self.source == old(self).source,
                n0 <= processor.history().len(),
                processor.history().subrange(0, n0) == h_in.subrange(0, n0),
                run_invariant(
                    g,
                    c0,
                    k0,
                    run_log(processor.history(), n0),
                    self.leases.completed(),
                    self.leases.checkpoints(),
                ),
                self.leases.completed() == c_in.insert(s),
                started_shards_end(run_log(processor.history(), n0)),
            decreases headroom(self.leases.checkpoints(), s),
        {
            let after = self.leases.last_checkpoint(&meta.id);
            let batch = self.source.get_records(&meta.id, after);
            let ghost rs = batch@.records;
            proof {
                let b = self.source.read(s, after);
                assert(reads_forward(b, s, after) && (b.records.len() > 0 || b.shard_end));
                assert(after == resume_position(self.leases.checkpoints(), s));
            }
            let ghost headroom_before = headroom(self.leases.checkpoints(), s);
            let ghost l0 = run_log(processor.history(), n0);
            proof {
                assert(after == position_at(k0, l0, l0.len() as int, s));
            }
            if batch.records.len() > 0 {
                let ghost h = processor.history();
                let ghost ck = self.leases.checkpoints();
                processor.process_records(batch.records.as_slice());
                let m = max_seq(&batch.records);
                proof {
                    let k = choose|k: int| 0 <= k < batch.records.len() && batch.records@[k].seq == m;
                    assert(rs[k] == batch.records@[k]@);
                    assert forall|x: int| 0 <= x < rs.len() implies (#[trigger] rs[x]).seq <= m by {
                        assert(rs[x] == batch.records@[x]@);
                    }
                    lemma_log_push(h, ProcessorEvent::Delivered(rs), n0);
                    lemma_step_deliver(
                        g,
                        c0,
                        k0,
                        run_log(h, n0),
                        self.leases.completed(),
                        ck,
                        s,
                        rs,
                        m,
                        k,
                    );
                    lemma_reads_deliver(self.source, k0, run_log(h, n0), ck, s, rs, m, k);
                    lemma_positions_after_push(k0, l0, ProcessorEvent::Delivered(rs));
                    lemma_shape_extend(l0, s, start, ProcessorEvent::Delivered(rs));
                    lemma_writes_push(l0, ProcessorEvent::Delivered(rs));
                }
                let ghost wb = self.leases.writes();
                self.leases.checkpoint(&meta.id, m);
                proof {
                    assert(self.leases.writes() =~= w0 + writes_for(
                        l0.push(ProcessorEvent::Delivered(rs)),
                    ));
                }
            }
            if batch.shard_end {
                let ghost h = processor.history();
                processor.shard_ended(&meta.id);
                proof {
                    lemma_log_push(h, ProcessorEvent::Ended(s), n0);
                    lemma_step_end(
                        g,
                        c0,
                        k0,
                        run_log(h, n0),
                        self.leases.completed(),
                        self.leases.checkpoints(),
                        s,
                    );
                    let lh = run_log(h, n0);
                    if batch.records.len() > 0 {
                        assert(lh == l0.push(ProcessorEvent::Delivered(rs)));
                        assert(lh.len() - 1 == l0.len());
                        assert(position_at(k0, lh, lh.len() - 1, s) == after);
                        assert(lh.last() == ProcessorEvent::Delivered(rs));
                    } else {
                        assert(lh == l0);
                    }
                    lemma_reads_end(self.source, k0, lh, self.leases.checkpoints(), s);
                    lemma_shape_extend(lh, s, start, ProcessorEvent::Ended(s));
                    lemma_writes_push(lh, ProcessorEvent::Ended(s));
                }
                self.leases.mark_complete(&meta.id);
                proof {
                    assert(self.leases.writes() =~= w0 + writes_for(
                        run_log(h, n0).push(ProcessorEvent::Ended(s)),
                    ));
                }
                break;
            }
            if batch.records.len() == 0 {
                break;
            }
            assert(headroom(self.leases.checkpoints(), s) < headroom_before);
        }
        proof {
            reveal(run_state);
        }
    }

    /// Drain all shards in dependency order: parents before children, each
    /// shard's records in sequence order, checkpointing after every batch.
    /// Returns when every shard is complete, or when no shard that is left
    /// can start (its parent is neither complete nor listed).
    #[verifier::rlimit(40)]
    pub fn run<P: RecordProcessor>(&mut self, processor: &mut P)
        requires
            well_behaved(old(self).source()),
        ensures
            final(self).source() == old(self).source(),
            old(processor).history().len() <= final(processor).history().len(),
            final(processor).history().subrange(0, old(processor).history().len() as int)
                == old(processor).history(),
            ({
                let g = old(self).source().shard_graph();
                let c0 = old(self).leases().completed();
                let k0 = old(self).leases().checkpoints();
                let log = run_log(final(processor).history(), old(processor).history().len() as int);
                let done = final(self).leases().completed();
                let ckpts = final(self).leases().checkpoints();
                &&& starts_only_when_eligible(g, c0, log)
                &&& delivers_only_open_shards(c0, log)
                &&& ends_only_open_shards(c0, log)
                &&& delivered_in_order(log)
                &&& delivered_after_checkpoints(k0, log)
                &&& done == done_set(c0, log, log.len() as int)
                &&& checkpoints_cover(log, ckpts)
                &&& checkpoints_forward(k0, ckpts)
                &&& checkpoints_delivered(k0, log, ckpts)
                &&& delivers_source_reads(old(self).source(), k0, log)
                &&& ends_only_when_closed(old(self).source(), k0, log)
                &&& checkpoints_at_positions(k0, log, ckpts)
                &&& started_shards_end(log)
                &&& starts_once(log)
                &&& follows_its_start(log)
                &&& final(self).leases().writes() == old(self).leases().writes() + writes_for(log)
                &&& forall|j: int|
                    0 <= j < g.len() ==> done.contains(#[trigger] g[j].id) || !eligible_spec(
                        g[j],
                        done,
                    )
            }),
    {
        let ghost g = self.source.shard_graph();
        let ghost c0 = self.leases.completed();
        let ghost k0 = self.leases.checkpoints();
        let ghost h0 = processor.history();
        let ghost n0 = h0.len() as int;
        let ghost src0 = self.source;
        let ghost w0 = self.leases.writes();
        proof {
            let log = run_log(h0, n0);
            assert(w0 + writes_for(log) =~= w0);
            assert(log =~= Seq::<ProcessorEvent>::empty());
            assert(done_set(c0, log, 0) =~= c0);
            assert(h0.subrange(0, n0) =~= h0);
            assert forall|x: Seq<char>| #[trigger] resume_position(k0, x) == position_at(k0, log, 0, x) by {}
            reveal(run_state);
        }
        loop
            invariant
                self.source == src0,
                src0 == old(self).source,
                g == src0.shard_graph(),
                well_behaved(self.source),
                h0 == old(processor).history(),
                n0 == h0.len(),
                c0 == old(self).leases.completed(),
                k0 == old(self).leases.checkpoints(),
                n0 <= processor.history().len(),
                processor.history().subrange(0, n0) == h0,
                run_state(
                    src0,
                    g,
                    c0,
                    k0,
                    w0,
                    run_log(processor.history(), n0),
                    self.leases.completed(),
                    self.leases.checkpoints(),
                    self.leases.writes(),
                ),
                w0 == old(self).leases.writes(),
            ensures
                self.source == src0,
                n0 <= processor.history().len(),
                processor.history().subrange(0, n0) == h0,
                run_state(
                    src0,
                    g,
                    c0,
                    k0,
                    w0,
                    run_log(processor.history(), n0),
                    self.leases.completed(),
                    self.leases.checkpoints(),
                    self.leases.writes(),
                ),
                forall|j: int|
                    0 <= j < g.len() ==> self.leases.completed().contains(#[trigger] g[j].id)
                        || !eligible_spec(g[j], self.leases.completed()),
            decreases pending(g, self.leases.completed()),
        {
            let shards = self.source.describe_shards();
            proof {
                assert forall|j: int| 0 <= j < g.len() implies #[trigger] g[j] == shards@[j]@ by {
                    assert(shards_view(shards@)[j] == shards@[j]@);
                }
            }
            if self.all_complete(&shards) {
                proof {
                    assert forall|j: int| 0 <= j < g.len() implies self.leases.completed().contains(
                        #[trigger] g[j].id,
                    ) by {
                        assert(g[j] == shards@[j]@);
                    }
                }
                break;
            }
            let ghost c_start = self.leases.completed();
            let mut progressed = false;
            let mut i: usize = 0;
            while i < shards.len()
                invariant
                    self.source == src0,
                    g == src0.shard_graph(),
                    well_behaved(self.source),
                    shards.len() == g.len(),
                    forall|j: int| 0 <= j < g.len() ==> #[trigger] g[j] == shards@[j]@,
                    i <= shards.len(),
                    0 <= n0 <= processor.history().len(),
                    processor.history().subrange(0, n0) == h0,
                    run_state(
                        src0,
                        g,
                        c0,
                        k0,
                        w0,
                        run_log(processor.history(), n0),
                        self.leases.completed(),
                        self.leases.checkpoints(),
                        self.leases.writes(),
                    ),
                    c_start.subset_of(self.leases.completed()),
                    progressed ==> pending(g, self.leases.completed()) < pending(g, c_start),
                    !progressed ==> self.leases.completed() == c_start && forall|jj: int|
                        0 <= jj < i ==> !eligible_spec(#[trigger] g[jj], self.leases.completed()),
                decreases shards.len() - i,
            {
                let meta = &shards[i];
                if self.eligible(meta) {
                    let ghost c_before = self.leases.completed();
                    let ghost h = processor.history();
                    let ghost ck = self.leases.checkpoints();
                    processor.initialize(&meta.id);
                    proof {
                        assert(g[i as int] == meta@);
                        lemma_log_push(h, ProcessorEvent::Initialized(meta.id@), n0);
                        lemma_start_shard(
                            src0,
                            g,
                            c0,
                            k0,
                            run_log(h, n0),
                            c_before,
                            ck,
                            w0,
                            self.leases.writes(),
                            i as int,
                        );
                        assert(h.subrange(0, n0) == h0);
                    }
                    self.drain_shard(
                        processor,
                        meta,
                        Ghost(g),
                        Ghost(c0),
                        Ghost(k0),
                        Ghost(n0),
                        Ghost(w0),
                        Ghost(run_log(h, n0).len() as int),
                    );
                    proof {
                        lemma_pending_shrinks(g, c_before, self.leases.completed(), i as int);
                        lemma_pending_shrinks(g, c_start, c_before, -1);
                    }
                    progressed = true;
                }
                i += 1;
            }
            if !progressed {
                break;
            }
        }
        proof {
            reveal(run_state);
        }
    }
}

} // verus!
