//! Pure decisions of the DynamoDB Streams reader: when a threaded shard
//! iterator may be reused, where a cursor stands after a poll, and which
//! service errors are recovered by restarting the shard.

use crate::engine::{opt_str_view, ShardMeta};
use vstd::hash_map::StringHashMap;
use vstd::prelude::*;

verus! {

/// Two strings are equal as character sequences.
fn str_eq(a: &str, b: &str) -> (eq: bool)
    ensures
        eq == (a@ == b@),
{
    let x = a.to_owned();
    let y = b.to_owned();
    x == y
}

pub open spec fn opt_str_seq(o: Option<&str>) -> Option<Seq<char>> {
    match o {
        Some(s) => Some(s@),
        None => None,
    }
}

/// A cached cursor continues the caller's read iff it is positioned at exactly
/// the requested position. A mismatch is a reposition (or a fresh process), so
/// the threaded iterator must not be reused.
pub fn cursor_continues(cursor_after: Option<&str>, requested: Option<&str>) -> (reuse: bool)
    ensures
        reuse == (opt_str_seq(cursor_after) == opt_str_seq(requested)),
{
    match (cursor_after, requested) {
        (None, None) => true,
        (Some(a), Some(b)) => str_eq(a, b),
        _ => false,
    }
}

/// The cursor's position after a poll: the last delivered sequence number, or
/// the unchanged requested position if the poll delivered nothing.
pub fn advanced_after(requested: Option<&str>, last_seq: Option<&str>) -> (pos: Option<String>)
    ensures
        pos is Some <==> (requested is Some || last_seq is Some),
        last_seq is Some ==> pos->0@ == last_seq->0@,
        last_seq is None && requested is Some ==> pos->0@ == requested->0@,
{
    match last_seq {
        Some(s) => Some(s.to_owned()),
        None => match requested {
            Some(r) => Some(r.to_owned()),
            None => None,
        },
    }
}

/// `needle` occurs in `hay` at some position.
pub open spec fn has_substring(hay: Seq<char>, needle: Seq<char>) -> bool {
    exists|i: int| 0 <= i <= hay.len() - needle.len() && #[trigger] hay.subrange(i, i + needle.len()) == needle
}

/// The characters of a string.
fn chars_of(s: &str) -> (cs: Vec<char>)
    ensures
        cs@ == s@,
{
    let n = s.unicode_len();
    let mut cs: Vec<char> = Vec::new();
    let mut i: usize = 0;
    while i < n
        invariant
            n == s@.len(),
            i <= n,
            cs@ == s@.subrange(0, i as int),
        decreases n - i,
    {
        cs.push(s.get_char(i));
        proof {
            assert(cs@ =~= s@.subrange(0, i + 1));
        }
        i += 1;
    }
    proof {
        assert(s@.subrange(0, n as int) =~= s@);
    }
    cs
}

fn matches_at(hay: &Vec<char>, needle: &Vec<char>, at: usize) -> (m: bool)
    requires
        at + needle.len() <= hay.len(),
    ensures
        m == (hay@.subrange(at as int, at + needle.len()) == needle@),
{
    let mut k: usize = 0;
    while k < needle.len()
        invariant
            at + needle.len() <= hay.len(),
            k <= needle.len(),
            forall|x: int| 0 <= x < k ==> hay@[at + x] == needle@[x],
        decreases needle.len() - k,
    {
        if hay[at + k] != needle[k] {
            proof {
                assert(hay@.subrange(at as int, at + needle.len())[k as int] != needle@[k as int]);
            }
            return false;
        }
        k += 1;
    }
    proof {
        assert(hay@.subrange(at as int, at + needle.len()) =~= needle@);
    }
    true
}

/// Whether `needle` occurs in `hay`.
pub fn contains_text(hay: &str, needle: &str) -> (found: bool)
    ensures
        found == has_substring(hay@, needle@),
{
    let h = chars_of(hay);
    let n = chars_of(needle);
    if n.len() > h.len() {
        return false;
    }
    let last = h.len() - n.len();
    let mut at: usize = 0;
    while at < last
        invariant
            h@ == hay@,
            n@ == needle@,
            last == h.len() - n.len(),
            at <= last,
            forall|i: int| 0 <= i < at ==> #[trigger] hay@.subrange(i, i + needle@.len()) != needle@,
        decreases last - at,
    {
        if matches_at(&h, &n, at) {
            return true;
        }
        at += 1;
    }
    matches_at(&h, &n, last)
}

/// Trimmed data, an expired iterator and a vanished resource are recovered
/// by restarting the shard from its start.
pub open spec fn is_recoverable_spec(msg: Seq<char>) -> bool {
    has_substring(msg, "TrimmedDataAccessException"@) || has_substring(
        msg,
        "ExpiredIteratorException"@,
    ) || has_substring(msg, "ResourceNotFoundException"@)
}

/// Classify a service error by its message.
pub fn is_recoverable(msg: &str) -> (r: bool)
    ensures
        r == is_recoverable_spec(msg@),
{
    contains_text(msg, "TrimmedDataAccessException") || contains_text(msg, "ExpiredIteratorException")
        || contains_text(msg, "ResourceNotFoundException")
}

// ---------------------------------------------------------------------------
// One read of a shard: the decisions between the service calls.
//
// A read first needs a shard iterator: the threaded one from the previous
// poll when it continues from the requested position, else a fresh one
// derived after the checkpoint (or from the start of the shard). It then
// reads with it. A recoverable failure (trimmed data, expired iterator,
// vanished resource) is retried once: a derive after a checkpoint that is too
// old restarts from the start of the shard, and a read whose iterator expired
// drops the threaded cursor and derives again after the checkpoint; if that
// derive finds the checkpoint trimmed too, the shard restarts from its start.
// ---------------------------------------------------------------------------

/// Where a read stands.
#[derive(Clone, Copy, Debug, PartialEq, Eq, Structural)]
pub enum FetchState {
    /// Nothing done yet.
    Starting,
    /// Deriving an iterator after the requested position.
    DerivingAtPosition,
    /// Deriving an iterator from the start of the shard.
    DerivingFromStart,
    /// Reading with the first iterator.
    Reading,
    /// The first read failed recoverably: deriving again after the position.
    Rederiving,
    /// The derive again after the position failed recoverably: deriving from
    /// the start of the shard.
    RederivingFromStart,
    /// Reading with the re-derived iterator.
    Rereading,
    /// The read is over.
    Finished,
}

/// What the last service call (or the cursor cache) gave.
#[derive(Clone, Copy, Debug, PartialEq, Eq, Structural)]
pub enum FetchEvent {
    /// The cursor cache was consulted: `true` if a threaded iterator continues
    /// from the requested position.
    Cached(bool),
    /// The shard iterator came back.
    Iterator,
    /// No shard iterator came back: the shard is closed.
    NoIterator,
    /// Getting an iterator failed.
    DeriveFailed { recoverable: bool },
    /// The records came back.
    Records,
    /// Getting the records failed.
    ReadFailed { recoverable: bool },
}

/// What to do next.
#[derive(Clone, Copy, Debug, PartialEq, Eq, Structural)]
pub enum FetchAction {
    /// Get a shard iterator: after the requested position when `at_position`
    /// (from the start if there is none), else from the start of the shard.
    /// Drop the threaded cursor first when `drop_cursor`.
    Derive { at_position: bool, drop_cursor: bool },
    /// Get records with the iterator in hand.
    Read,
    /// The shard is closed: return an empty batch that ends it, dropping the
    /// threaded cursor when `drop_cursor`.
    EndShard { drop_cursor: bool },
    /// Hand back the records that came back.
    Deliver,
    /// Return the last error.
    Fail,
}

/// The decision table of a read. `has_position`: the caller asked to resume
/// after a checkpoint (rather than from the start of the shard).
pub open spec fn fetch_transition(state: FetchState, has_position: bool, event: FetchEvent) -> (
    FetchState,
    FetchAction,
) {
    match (state, event) {
        (FetchState::Starting, FetchEvent::Cached(true)) => (FetchState::Reading, FetchAction::Read),
        (FetchState::Starting, FetchEvent::Cached(false)) => (
            FetchState::DerivingAtPosition,
            FetchAction::Derive { at_position: true, drop_cursor: false },
        ),
        (FetchState::DerivingAtPosition, FetchEvent::Iterator) => (
            FetchState::Reading,
            FetchAction::Read,
        ),
        (FetchState::DerivingAtPosition, FetchEvent::NoIterator) => (
            FetchState::Finished,
            FetchAction::EndShard { drop_cursor: true },
        ),
        (FetchState::DerivingAtPosition, FetchEvent::DeriveFailed { recoverable }) => {
            if recoverable && has_position {
                (
                    FetchState::DerivingFromStart,
                    FetchAction::Derive { at_position: false, drop_cursor: false },
                )
            } else {
                (FetchState::Finished, FetchAction::Fail)
            }
        },
        (FetchState::DerivingFromStart, FetchEvent::Iterator) => (
            FetchState::Reading,
            FetchAction::Read,
        ),
        (FetchState::DerivingFromStart, FetchEvent::NoIterator) => (
            FetchState::Finished,
            FetchAction::EndShard { drop_cursor: false },
        ),
        (FetchState::Reading, FetchEvent::Records) => (FetchState::Finished, FetchAction::Deliver),
        (FetchState::Reading, FetchEvent::ReadFailed { recoverable: true }) => (
            FetchState::Rederiving,
            FetchAction::Derive { at_position: true, drop_cursor: true },
        ),
        (FetchState::Rederiving, FetchEvent::Iterator) => (
            FetchState::Rereading,
            FetchAction::Read,
        ),
        (FetchState::Rederiving, FetchEvent::NoIterator) => (
            FetchState::Finished,
            FetchAction::EndShard { drop_cursor: false },
        ),
        (FetchState::Rederiving, FetchEvent::DeriveFailed { recoverable }) => {
            if recoverable && has_position {
                (
                    FetchState::RederivingFromStart,
                    FetchAction::Derive { at_position: false, drop_cursor: false },
                )
            } else {
                (FetchState::Finished, FetchAction::Fail)
            }
        },
        (FetchState::RederivingFromStart, FetchEvent::Iterator) => (
            FetchState::Rereading,
            FetchAction::Read,
        ),
        (FetchState::RederivingFromStart, FetchEvent::NoIterator) => (
            FetchState::Finished,
            FetchAction::EndShard { drop_cursor: false },
        ),
        (FetchState::Rereading, FetchEvent::Records) => (FetchState::Finished, FetchAction::Deliver),
        _ => (FetchState::Finished, FetchAction::Fail),
    }
}

/// Decide the next step of a read from what the last call gave.
pub fn fetch_step(state: FetchState, has_position: bool, event: FetchEvent) -> (next: (
    FetchState,
    FetchAction,
))
    ensures
        next == fetch_transition(state, has_position, event),
{
    match (state, event) {
        (FetchState::Starting, FetchEvent::Cached(true)) => (FetchState::Reading, FetchAction::Read),
        (FetchState::Starting, FetchEvent::Cached(false)) => (
            FetchState::DerivingAtPosition,
            FetchAction::Derive { at_position: true, drop_cursor: false },
        ),
        (FetchState::DerivingAtPosition, FetchEvent::Iterator) => (
            FetchState::Reading,
            FetchAction::Read,
        ),
        (FetchState::DerivingAtPosition, FetchEvent::NoIterator) => (
            FetchState::Finished,
            FetchAction::EndShard { drop_cursor: true },
        ),
        (FetchState::DerivingAtPosition, FetchEvent::DeriveFailed { recoverable }) => {
            if recoverable && has_position {
                (
                    FetchState::DerivingFromStart,
                    FetchAction::Derive { at_position: false, drop_cursor: false },
                )
            } else {
                (FetchState::Finished, FetchAction::Fail)
            }
        },
        (FetchState::DerivingFromStart, FetchEvent::Iterator) => (
            FetchState::Reading,
            FetchAction::Read,
        ),
        (FetchState::DerivingFromStart, FetchEvent::NoIterator) => (
            FetchState::Finished,
            FetchAction::EndShard { drop_cursor: false },
        ),
        (FetchState::Reading, FetchEvent::Records) => (FetchState::Finished, FetchAction::Deliver),
        (FetchState::Reading, FetchEvent::ReadFailed { recoverable: true }) => (
            FetchState::Rederiving,
            FetchAction::Derive { at_position: true, drop_cursor: true },
        ),
        (FetchState::Rederiving, FetchEvent::Iterator) => (
            FetchState::Rereading,
            FetchAction::Read,
        ),
        (FetchState::Rederiving, FetchEvent::NoIterator) => (
            FetchState::Finished,
            FetchAction::EndShard { drop_cursor: false },
        ),
        (FetchState::Rederiving, FetchEvent::DeriveFailed { recoverable }) => {
            if recoverable && has_position {
                (
                    FetchState::RederivingFromStart,
                    FetchAction::Derive { at_position: false, drop_cursor: false },
                )
            } else {
                (FetchState::Finished, FetchAction::Fail)
            }
        },
        (FetchState::RederivingFromStart, FetchEvent::Iterator) => (
            FetchState::Rereading,
            FetchAction::Read,
        ),
        (FetchState::RederivingFromStart, FetchEvent::NoIterator) => (
            FetchState::Finished,
            FetchAction::EndShard { drop_cursor: false },
        ),
        (FetchState::Rereading, FetchEvent::Records) => (FetchState::Finished, FetchAction::Deliver),
        _ => (FetchState::Finished, FetchAction::Fail),
    }
}

/// How many steps a read can still take from a state.
pub open spec fn fetch_rank(state: FetchState) -> nat {
    match state {
        FetchState::Starting => 7,
        FetchState::DerivingAtPosition => 6,
        FetchState::DerivingFromStart => 5,
        FetchState::Reading => 4,
        FetchState::Rederiving => 3,
        FetchState::RederivingFromStart => 2,
        FetchState::Rereading => 1,
        FetchState::Finished => 0,
    }
}

/// Every step of a read moves strictly forward, so a read is over after at
/// most seven steps (at most four iterator derivations and two reads),
/// whatever the service answers.
pub proof fn lemma_fetch_terminates(state: FetchState, has_position: bool, event: FetchEvent)
    requires
        state != FetchState::Finished,
    ensures
        fetch_rank(fetch_transition(state, has_position, event).0) < fetch_rank(state),
{
}

/// A failure that is not recoverable is never retried: the read fails.
pub proof fn lemma_unrecoverable_fails(state: FetchState, has_position: bool, event: FetchEvent)
    requires
        event == (FetchEvent::DeriveFailed { recoverable: false }) || event
            == (FetchEvent::ReadFailed { recoverable: false }),
    ensures
        fetch_transition(state, has_position, event) == (FetchState::Finished, FetchAction::Fail),
{
}

/// A read restarts from the start of the shard only after a recoverable
/// failure to resume after a checkpoint it was asked to resume from (on the
/// first derive, or on the derive again after a failed read).
pub proof fn lemma_restart_only_after_recoverable(
    state: FetchState,
    has_position: bool,
    event: FetchEvent,
)
    requires
        fetch_transition(state, has_position, event).1 == (FetchAction::Derive {
            at_position: false,
            drop_cursor: false,
        }),
    ensures
        state == FetchState::DerivingAtPosition || state == FetchState::Rederiving,
        event == (FetchEvent::DeriveFailed { recoverable: true }),
        has_position,
{
}

/// A trimmed (or otherwise recoverably failing) checkpoint restarts the shard
/// from its start, whether the first derive or the derive again after a
/// failed read hits it.
pub proof fn lemma_trimmed_checkpoint_restarts(state: FetchState)
    requires
        state == FetchState::DerivingAtPosition || state == FetchState::Rederiving,
    ensures
        fetch_transition(state, true, FetchEvent::DeriveFailed { recoverable: true }).1
            == (FetchAction::Derive { at_position: false, drop_cursor: false }),
{
}

/// Records are handed back only after a successful read.
pub proof fn lemma_deliver_only_read_records(state: FetchState, has_position: bool, event: FetchEvent)
    requires
        fetch_transition(state, has_position, event).1 == FetchAction::Deliver,
    ensures
        event == FetchEvent::Records,
        state == FetchState::Reading || state == FetchState::Rereading,
{
}

/// Whether a state is waiting on a shard iterator.
pub open spec fn is_deriving(state: FetchState) -> bool {
    state == FetchState::DerivingAtPosition || state == FetchState::DerivingFromStart || state
        == FetchState::Rederiving || state == FetchState::RederivingFromStart
}

/// Whether a state is waiting on the records of a read.
pub open spec fn is_reading(state: FetchState) -> bool {
    state == FetchState::Reading || state == FetchState::Rereading
}

/// A read ends the shard only when no shard iterator came back.
pub proof fn lemma_end_only_without_iterator(state: FetchState, has_position: bool, event: FetchEvent)
    requires
        fetch_transition(state, has_position, event).1 is EndShard,
    ensures
        event == FetchEvent::NoIterator,
        is_deriving(state),
{
}

/// Records that came back from a read are always handed back: a successful
/// read never ends the shard and never fails.
pub proof fn lemma_successful_read_delivers(state: FetchState, has_position: bool)
    requires
        is_reading(state),
    ensures
        fetch_transition(state, has_position, FetchEvent::Records) == (
            FetchState::Finished,
            FetchAction::Deliver,
        ),
{
}

/// Records are read only with an iterator in hand: a cached one, or one that
/// just came back.
pub proof fn lemma_read_needs_iterator(state: FetchState, has_position: bool, event: FetchEvent)
    requires
        fetch_transition(state, has_position, event).1 == FetchAction::Read,
    ensures
        event == FetchEvent::Cached(true) || event == FetchEvent::Iterator,
        is_reading(fetch_transition(state, has_position, event).0),
{
}

/// An iterator that comes back is read with, and a derive that finds no
/// iterator (the shard is closed) ends the shard.
pub proof fn lemma_derive_outcomes(state: FetchState, has_position: bool)
    requires
        is_deriving(state),
    ensures
        fetch_transition(state, has_position, FetchEvent::Iterator).1 == FetchAction::Read,
        fetch_transition(state, has_position, FetchEvent::NoIterator).1 is EndShard,
        fetch_transition(state, has_position, FetchEvent::NoIterator).0 == FetchState::Finished,
{
}

/// A read starts from the cached iterator exactly when one continues from the
/// requested position; otherwise it first derives one after that position,
/// keeping the cursor.
pub proof fn lemma_start_of_read(has_position: bool, cached: bool)
    ensures
        cached ==> fetch_transition(FetchState::Starting, has_position, FetchEvent::Cached(cached)).1
            == FetchAction::Read,
        !cached ==> fetch_transition(
            FetchState::Starting,
            has_position,
            FetchEvent::Cached(cached),
        ).1 == (FetchAction::Derive { at_position: true, drop_cursor: false }),
{
}

/// A message is recoverable exactly when it names trimmed data, an expired
/// iterator or a missing resource; any other error is not.
pub proof fn lemma_recoverable_names(msg: Seq<char>)
    ensures
        (!has_substring(msg, "TrimmedDataAccessException"@) && !has_substring(
            msg,
            "ExpiredIteratorException"@,
        ) && !has_substring(msg, "ResourceNotFoundException"@)) ==> !is_recoverable_spec(msg),
        has_substring(msg, "TrimmedDataAccessException"@) ==> is_recoverable_spec(msg),
        has_substring(msg, "ExpiredIteratorException"@) ==> is_recoverable_spec(msg),
        has_substring(msg, "ResourceNotFoundException"@) ==> is_recoverable_spec(msg),
{
}

/// A change that came back from a read: its sequence number and its encoded
/// payload.
pub struct PolledChange {
    pub seq: String,
    pub payload: Vec<u8>,
}

/// The outcome of a read that delivered.
pub struct PollOutcome {
    /// The changes to deliver, in the order they came back.
    pub changes: Vec<PolledChange>,
    /// Where the threaded cursor now stands.
    pub cursor_after: Option<String>,
    /// The read returned no next iterator: the shard is closed.
    pub shard_end: bool,
}

/// The changes of a read that carry a sequence number (those without one are
/// skipped).
pub open spec fn sequenced(cs: Seq<PolledChange>) -> Seq<PolledChange>
    decreases cs.len(),
{
    if cs.len() == 0 {
        Seq::empty()
    } else if cs.last().seq@.len() > 0 {
        sequenced(cs.drop_last()).push(cs.last())
    } else {
        sequenced(cs.drop_last())
    }
}

/// Assemble a read's result: keep the changes that carry a sequence number,
/// move the cursor to the last kept one (or hold it where the read started),
/// and close the shard when no next iterator came back.
pub fn finish_poll(after: Option<&str>, polled: Vec<PolledChange>, has_next_iterator: bool) -> (out:
    PollOutcome)
    ensures
        out.changes@ == sequenced(polled@),
        out.shard_end == !has_next_iterator,
        out.changes@.len() > 0 ==> opt_string_seq(out.cursor_after) == Some(out.changes@.last().seq@),
        out.changes@.len() == 0 ==> opt_string_seq(out.cursor_after) == opt_str_seq(after),
{
    let ghost p = polled@;
    let mut kept: Vec<PolledChange> = Vec::new();
    let mut rest = polled;
    let n = rest.len();
    let mut i: usize = 0;
    proof {
        assert(p.take(0) =~= Seq::<PolledChange>::empty());
    }
    while i < n
        invariant
            n == p.len(),
            i <= n,
            rest@ == p.skip(i as int),
            kept@ == sequenced(p.take(i as int)),
        decreases n - i,
    {
        let c = rest.remove(0);
        proof {
            assert(c == p[i as int]);
            assert(p.take(i + 1).drop_last() =~= p.take(i as int));
            assert(p.skip(i + 1) =~= p.skip(i as int).drop_first());
        }
        if c.seq.unicode_len() > 0 {
            kept.push(c);
        }
        i += 1;
    }
    proof {
        assert(p.take(n as int) =~= p);
    }
    let cursor_after = if kept.len() > 0 {
        let last = kept.len() - 1;
        advanced_after(after, Some(kept[last].seq.as_str()))
    } else {
        advanced_after(after, None)
    };
    PollOutcome { changes: kept, cursor_after, shard_end: !has_next_iterator }
}

pub open spec fn opt_string_seq(o: Option<String>) -> Option<Seq<char>> {
    match o {
        Some(s) => Some(s@),
        None => None,
    }
}

/// A shard as the stream description lists it.
pub struct DdbShard {
    pub shard_id: String,
    pub parent_shard_id: Option<String>,
    pub ending_sequence_number: Option<String>,
}

fn to_owned_opt(o: Option<&str>) -> (r: Option<String>)
    ensures
        opt_string_seq(r) == opt_str_seq(o),
{
    match o {
        Some(s) => Some(s.to_owned()),
        None => None,
    }
}

/// Read one listed shard. A listing without a shard id, or with an empty
/// one, is skipped.
pub fn listed_shard(shard_id: Option<&str>, parent: Option<&str>, ending: Option<&str>) -> (shard:
    Option<DdbShard>)
    ensures
        shard is None <==> (shard_id is None || shard_id->0@.len() == 0),
        shard matches Some(d) ==> {
            &&& d.shard_id@ == shard_id->0@
            &&& opt_string_seq(d.parent_shard_id) == opt_str_seq(parent)
            &&& opt_string_seq(d.ending_sequence_number) == opt_str_seq(ending)
        },
{
    match shard_id {
        None => None,
        Some(id) => {
            if id.unicode_len() == 0 {
                None
            } else {
                Some(
                    DdbShard {
                        shard_id: id.to_owned(),
                        parent_shard_id: to_owned_opt(parent),
                        ending_sequence_number: to_owned_opt(ending),
                    },
                )
            }
        },
    }
}

impl DdbShard {
    /// The shard's place in the lineage: its id and its parent's.
    pub fn meta(&self) -> (m: ShardMeta)
        ensures
            m@.id == self.shard_id@,
            m@.parent == opt_str_view(self.parent_shard_id),
    {
        ShardMeta {
            id: self.shard_id.clone(),
            parent: match &self.parent_shard_id {
                Some(p) => Some(p.clone()),
                None => None,
            },
        }
    }
}

/// A threaded shard iterator and the position it continues from.
pub struct Cursor {
    /// The position this iterator continues from (`None`: the start of the shard).
    pub after: Option<String>,
    pub iterator: String,
}

pub struct CursorView {
    pub after: Option<Seq<char>>,
    pub iterator: Seq<char>,
}

impl View for Cursor {
    type V = CursorView;

    open spec fn view(&self) -> CursorView {
        CursorView { after: opt_string_seq(self.after), iterator: self.iterator@ }
    }
}

/// The threaded iterators of the shards being read, one per shard.
pub struct CursorTable {
    cursors: StringHashMap<Cursor>,
}

impl View for CursorTable {
    type V = Map<Seq<char>, CursorView>;

    closed spec fn view(&self) -> Map<Seq<char>, CursorView> {
        self.cursors@.map_values(|c: Cursor| c@)
    }
}

impl CursorTable {
    pub fn new() -> (t: Self)
        ensures
            t@ == Map::<Seq<char>, CursorView>::empty(),
    {
        let t = CursorTable { cursors: StringHashMap::new() };
        proof {
            assert(t@ =~= Map::<Seq<char>, CursorView>::empty());
        }
        t
    }

    /// The threaded iterator of `shard`, if it continues from exactly the
    /// requested position; a reposition (or a shard never read) gets none.
    pub fn cached_iterator(&self, shard: &str, after: Option<&str>) -> (it: Option<String>)
        ensures
            it is Some <==> (self@.contains_key(shard@) && self@[shard@].after == opt_str_seq(
                after,
            )),
            it is Some ==> it->0@ == self@[shard@].iterator,
    {
        match self.cursors.get(shard) {
            Some(c) => {
                let continues = match &c.after {
                    Some(a) => cursor_continues(Some(a.as_str()), after),
                    None => cursor_continues(None, after),
                };
                if continues {
                    Some(c.iterator.clone())
                } else {
                    None
                }
            },
            None => None,
        }
    }

    /// Remember where `shard`'s read stands: its next iterator and the
    /// position it continues from; with no next iterator (the shard is
    /// closed) forget the shard.
    pub fn store(&mut self, shard: &str, after: Option<String>, iterator: Option<String>)
        ensures
            iterator matches Some(it) ==> final(self)@ == old(self)@.insert(
                shard@,
                CursorView { after: opt_string_seq(after), iterator: it@ },
            ),
            iterator is None ==> final(self)@ == old(self)@.remove(shard@),
    {
        match iterator {
            Some(it) => {
                let ghost iv = it@;
                self.cursors.insert(shard.to_owned(), Cursor { after, iterator: it });
                proof {
                    assert(self@ =~= old(self)@.insert(
                        shard@,
                        CursorView { after: opt_string_seq(after), iterator: iv },
                    ));
                }
            },
            None => {
                self.cursors.remove(shard);
                proof {
                    assert(self@ =~= old(self)@.remove(shard@));
                }
            },
        }
    }

    /// Forget `shard`'s threaded iterator.
    pub fn drop_cursor(&mut self, shard: &str)
        ensures
            final(self)@ == old(self)@.remove(shard@),
    {
        self.cursors.remove(shard);
        proof {
            assert(self@ =~= old(self)@.remove(shard@));
        }
    }
}

/// Where a fresh shard iterator starts.
#[derive(Debug, PartialEq, Eq)]
pub enum IteratorStart {
    /// Right after this sequence number (resuming from a checkpoint).
    AfterSequenceNumber(String),
    /// At the oldest record still in the shard.
    TrimHorizon,
}

/// A fresh iterator resumes right after the requested position, or starts at
/// the oldest record when there is none.
pub fn iterator_start(after: Option<&str>) -> (start: IteratorStart)
    ensures
        after is None ==> start is TrimHorizon,
        after matches Some(a) ==> (start matches IteratorStart::AfterSequenceNumber(s) && s@ == a@),
{
    match after {
        Some(a) => IteratorStart::AfterSequenceNumber(a.to_owned()),
        None => IteratorStart::TrimHorizon,
    }
}

} // verus!
