//! Lease coordinator: turns raw lease rows into take decisions across scans.
//!
//! Expiry is detected by lease-counter freshness: a lease owned by another
//! worker is expired once its counter has not advanced between two scans (the
//! owner stopped heartbeating). A lease seen for the first time is given one
//! scan to prove it is alive. The derived snapshot goes to
//! [`compute_leases_to_take`].

use crate::taker::{
    compute_leases_to_take, is_available, leases_to_take, strings_view, LeaseSnapshot,
    LeaseSnapshotView, snapshots_view,
};
use vstd::hash_map::StringHashMap;
use vstd::prelude::*;

verus! {

/// A raw lease-table row as read from a scan.
#[derive(Clone, Debug)]
pub struct RawLease {
    pub lease_key: String,
    pub owner: Option<String>,
    pub lease_counter: u64,
    pub completed: bool,
}

pub struct RawLeaseView {
    pub lease_key: Seq<char>,
    pub owner: Option<Seq<char>>,
    pub lease_counter: u64,
    pub completed: bool,
}

pub open spec fn owner_view(o: Option<String>) -> Option<Seq<char>> {
    match o {
        Some(s) => Some(s@),
        None => None,
    }
}

impl View for RawLease {
    type V = RawLeaseView;

    open spec fn view(&self) -> RawLeaseView {
        RawLeaseView {
            lease_key: self.lease_key@,
            owner: owner_view(self.owner),
            lease_counter: self.lease_counter,
            completed: self.completed,
        }
    }
}

pub open spec fn rows_view(rows: Seq<RawLease>) -> Seq<RawLeaseView> {
    rows.map_values(|r: RawLease| r@)
}

/// A lease owned by another worker is expired iff it was seen on the previous
/// scan and its counter has not advanced since. Unowned leases and this
/// worker's own leases are never expired.
pub open spec fn expired_spec(seen: Map<Seq<char>, u64>, me: Seq<char>, r: RawLeaseView) -> bool {
    match r.owner {
        None => false,
        Some(o) => o != me && seen.contains_key(r.lease_key) && seen[r.lease_key] == r.lease_counter,
    }
}

/// The snapshot that a scan yields, given the counters seen on the previous one.
pub open spec fn snapshot_of(seen: Map<Seq<char>, u64>, me: Seq<char>, rows: Seq<RawLeaseView>) -> Seq<
    LeaseSnapshotView,
> {
    rows.map_values(
        |r: RawLeaseView|
            LeaseSnapshotView {
                lease_key: r.lease_key,
                owner: r.owner,
                expired: expired_spec(seen, me, r),
                completed: r.completed,
            },
    )
}

/// The counters remembered after a scan: for each lease key present in the
/// scan, the counter of its last row. Keys absent from the scan are forgotten.
pub open spec fn counters_of(rows: Seq<RawLeaseView>) -> Map<Seq<char>, u64>
    decreases rows.len(),
{
    if rows.len() == 0 {
        Map::empty()
    } else {
        counters_of(rows.drop_last()).insert(rows.last().lease_key, rows.last().lease_counter)
    }
}

/// Stateful, single-worker view of the lease table used to decide takes.
pub struct LeaseCoordinator {
    me: String,
    max_take: usize,
    /// Last lease counter observed per lease, for freshness (expiry) detection.
    last_seen: StringHashMap<u64>,
}

fn clone_owner(o: &Option<String>) -> (r: Option<String>)
    ensures
        owner_view(r) == owner_view(*o),
{
    match o {
        Some(s) => Some(s.clone()),
        None => None,
    }
}

impl LeaseCoordinator {
    /// The worker this coordinator decides for.
    pub closed spec fn owner(&self) -> Seq<char> {
        self.me@
    }

    /// The most leases this worker aims to hold.
    pub closed spec fn cap(&self) -> nat {
        self.max_take as nat
    }

    /// The lease counters observed on the last scan.
    pub closed spec fn seen(&self) -> Map<Seq<char>, u64> {
        self.last_seen@
    }

    pub fn new(me: &str, max_take: usize) -> (c: Self)
        ensures
            c.owner() == me@,
            c.cap() == max_take,
            c.seen() == Map::<Seq<char>, u64>::empty(),
    {
        LeaseCoordinator { me: me.to_owned(), max_take, last_seen: StringHashMap::new() }
    }

    fn is_expired(&self, r: &RawLease) -> (b: bool)
        ensures
            b == expired_spec(self.seen(), self.owner(), r@),
    {
        match &r.owner {
            None => false,
            Some(o) => {
                if *o == self.me {
                    false
                } else {
                    match self.last_seen.get(r.lease_key.as_str()) {
                        Some(prev) => *prev == r.lease_counter,
                        None => false,
                    }
                }
            },
        }
    }

    /// Process one scan of the lease table: derive which leases have expired,
    /// remember the counters of this scan (forgetting leases that
    /// disappeared), and return the lease keys this worker should try to take.
    pub fn tick(&mut self, rows: &[RawLease]) -> (taken: Vec<String>)
        ensures
            final(self).owner() == old(self).owner(),
            final(self).cap() == old(self).cap(),
            final(self).seen() == counters_of(rows_view(rows@)),
            strings_view(taken@) == leases_to_take(
                snapshot_of(old(self).seen(), old(self).owner(), rows_view(rows@)),
                old(self).owner(),
                old(self).cap() as int,
            ),
    {
        let ghost rv = rows_view(rows@);
        let ghost want = snapshot_of(self.seen(), self.owner(), rv);
        let mut snapshot: Vec<LeaseSnapshot> = Vec::new();
        let mut i: usize = 0;
        while i < rows.len()
            invariant
                rv == rows_view(rows@),
                want == snapshot_of(self.seen(), self.owner(), rv),
                i <= rows.len(),
                snapshot.len() == i,
                forall|j: int| 0 <= j < i ==> (#[trigger] snapshot@[j])@ == want[j],
            decreases rows.len() - i,
        {
            let r = &rows[i];
            let snap = LeaseSnapshot {
                lease_key: r.lease_key.clone(),
                owner: clone_owner(&r.owner),
                expired: self.is_expired(r),
                completed: r.completed,
            };
            proof {
                assert(rv[i as int] == r@);
            }
            snapshot.push(snap);
            i += 1;
        }
        proof {
            assert(snapshots_view(snapshot@) =~= want);
        }
        let mut fresh: StringHashMap<u64> = StringHashMap::new();
        let mut k: usize = 0;
        while k < rows.len()
            invariant
                rv == rows_view(rows@),
                k <= rows.len(),
                fresh@ == counters_of(rv.take(k as int)),
            decreases rows.len() - k,
        {
            proof {
                assert(rv.take(k + 1).drop_last() =~= rv.take(k as int));
                assert(rv[k as int] == rows@[k as int]@);
            }
            fresh.insert(rows[k].lease_key.clone(), rows[k].lease_counter);
            k += 1;
        }
        proof {
            assert(rv.take(rv.len() as int) =~= rv);
        }
        self.last_seen = fresh;
        compute_leases_to_take(&snapshot, &self.me, self.max_take)
    }
}

/// Freshness: a lease seen for the first time, an unowned lease and a lease
/// of this worker are never expired; a live lease of another worker whose
/// counter has not moved since the previous scan is expired, so it is free to
/// take.
pub proof fn lemma_expiry_by_freshness(
    seen: Map<Seq<char>, u64>,
    me: Seq<char>,
    rows: Seq<RawLeaseView>,
    i: int,
)
    requires
        0 <= i < rows.len(),
    ensures
        ({
            let r = rows[i];
            let l = snapshot_of(seen, me, rows)[i];
            &&& !seen.contains_key(r.lease_key) ==> !l.expired
            &&& r.owner is None ==> !l.expired
            &&& r.owner == Some(me) ==> !l.expired
            &&& (r.owner is Some && r.owner != Some(me) && seen.contains_key(r.lease_key)
                && seen[r.lease_key] == r.lease_counter && !r.completed) ==> is_available(l)
            &&& l.lease_key == r.lease_key && l.owner == r.owner && l.completed == r.completed
        }),
{
}

/// After a scan, the coordinator remembers exactly the lease keys of that
/// scan: leases that disappeared are forgotten, and each remembered counter is
/// the one the scan reported for that key (its last row).
pub proof fn lemma_remembers_exactly_the_scan(rows: Seq<RawLeaseView>)
    ensures
        forall|k: Seq<char>|
            #[trigger] counters_of(rows).contains_key(k) <==> exists|i: int|
                0 <= i < rows.len() && rows[i].lease_key == k,
        forall|i: int|
            0 <= i < rows.len() && (forall|j: int|
                i < j < rows.len() ==> rows[j].lease_key != rows[i].lease_key) ==> counters_of(
                rows,
            )[#[trigger] rows[i].lease_key] == rows[i].lease_counter,
    decreases rows.len(),
{
    if rows.len() > 0 {
        let r = rows.drop_last();
        lemma_remembers_exactly_the_scan(r);
        let n = rows.len() - 1;
        assert forall|k: Seq<char>| #[trigger] counters_of(rows).contains_key(k) <==> exists|i: int|
            0 <= i < rows.len() && rows[i].lease_key == k by {
            if exists|i: int| 0 <= i < rows.len() && rows[i].lease_key == k {
                let i = choose|i: int| 0 <= i < rows.len() && rows[i].lease_key == k;
                if i < n {
                    assert(r[i] == rows[i]);
                }
            }
            if counters_of(r).contains_key(k) {
                let i = choose|i: int| 0 <= i < r.len() && r[i].lease_key == k;
                assert(rows[i] == r[i]);
            }
            if k == rows.last().lease_key {
                assert(rows[n].lease_key == k);
            }
        }
        assert forall|i: int|
            0 <= i < rows.len() && (forall|j: int|
                i < j < rows.len() ==> rows[j].lease_key != rows[i].lease_key) implies counters_of(
            rows,
        )[#[trigger] rows[i].lease_key] == rows[i].lease_counter by {
            if i < n {
                assert(r[i] == rows[i]);
                assert(rows[n].lease_key != rows[i].lease_key);
                assert forall|j: int| i < j < r.len() implies r[j].lease_key != r[i].lease_key by {
                    assert(r[j] == rows[j]);
                }
            }
        }
    }
}

/// Across two scans: a lease of another worker whose counter is the same on
/// the next scan as on the previous one (its last row there) is expired on
/// the next scan, so free to take; if its counter moved, it is alive.
pub proof fn lemma_stalled_counter_expires(
    me: Seq<char>,
    previous: Seq<RawLeaseView>,
    next: Seq<RawLeaseView>,
    j: int,
    i: int,
)
    requires
        0 <= j < previous.len(),
        0 <= i < next.len(),
        previous[j].lease_key == next[i].lease_key,
        forall|k: int| j < k < previous.len() ==> previous[k].lease_key != previous[j].lease_key,
        next[i].owner is Some,
        next[i].owner != Some(me),
    ensures
        snapshot_of(counters_of(previous), me, next)[i].expired <==> previous[j].lease_counter
            == next[i].lease_counter,
{
    lemma_remembers_exactly_the_scan(previous);
    assert(counters_of(previous).contains_key(previous[j].lease_key));
    assert(counters_of(previous)[previous[j].lease_key] == previous[j].lease_counter);
}

} // verus!
