//! Which leases a worker should take on a scan of the lease table.
//!
//! Leases that are free (unowned, or whose owner stopped heartbeating) are
//! taken first; when none is free, one lease is stolen from the most loaded
//! worker. A worker aims at its fair share of the active leases, never more
//! than its cap.

use vstd::prelude::*;

verus! {

/// One lease as the taker sees it.
pub struct LeaseSnapshot {
    pub lease_key: String,
    pub owner: Option<String>,
    /// The owner stopped renewing the lease.
    pub expired: bool,
    /// The shard behind the lease is fully processed.
    pub completed: bool,
}

pub struct LeaseSnapshotView {
    pub lease_key: Seq<char>,
    pub owner: Option<Seq<char>>,
    pub expired: bool,
    pub completed: bool,
}

impl View for LeaseSnapshot {
    type V = LeaseSnapshotView;

    open spec fn view(&self) -> LeaseSnapshotView {
        LeaseSnapshotView {
            lease_key: self.lease_key@,
            owner: match self.owner {
                Some(o) => Some(o@),
                None => None,
            },
            expired: self.expired,
            completed: self.completed,
        }
    }
}

pub open spec fn snapshots_view(s: Seq<LeaseSnapshot>) -> Seq<LeaseSnapshotView> {
    s.map_values(|l: LeaseSnapshot| l@)
}

pub open spec fn strings_view(s: Seq<String>) -> Seq<Seq<char>> {
    s.map_values(|x: String| x@)
}

/// The worker that holds a lease: its owner, unless the lease is completed
/// or has expired.
pub open spec fn holder(l: LeaseSnapshotView) -> Option<Seq<char>> {
    if l.completed || l.expired {
        None
    } else {
        l.owner
    }
}

/// A lease that anyone may take: not completed, and unowned or expired.
pub open spec fn is_available(l: LeaseSnapshotView) -> bool {
    !l.completed && (l.owner is None || l.expired)
}

/// The number of leases that are not completed.
pub open spec fn active_count(s: Seq<LeaseSnapshotView>) -> nat
    decreases s.len(),
{
    if s.len() == 0 {
        0
    } else {
        active_count(s.drop_last()) + if s.last().completed {
            0nat
        } else {
            1nat
        }
    }
}

/// The number of leases that `w` holds.
pub open spec fn load(s: Seq<LeaseSnapshotView>, w: Seq<char>) -> nat
    decreases s.len(),
{
    if s.len() == 0 {
        0
    } else {
        load(s.drop_last(), w) + if holder(s.last()) == Some(w) {
            1nat
        } else {
            0nat
        }
    }
}

/// The workers that share the active leases: this worker and every holder.
pub open spec fn workers(s: Seq<LeaseSnapshotView>, me: Seq<char>) -> Set<Seq<char>> {
    Set::new(|w: Seq<char>| w == me || exists|i: int| 0 <= i < s.len() && holder(s[i]) == Some(w))
}

pub open spec fn ceil_div(n: int, d: int) -> int {
    (n + d - 1) / d
}

/// The number of leases this worker aims to hold: its fair share of the
/// active leases, rounded up, and at most `max_take`.
pub open spec fn target(s: Seq<LeaseSnapshotView>, me: Seq<char>, max_take: int) -> int {
    fair_share(active_count(s) as int, workers(s, me).len() as int, max_take)
}

/// `n` leases shared by `w` workers: each aims at `n / w` rounded up, capped.
pub open spec fn fair_share(n: int, w: int, max_take: int) -> int {
    if n == 0 {
        0
    } else {
        let share = ceil_div(n, w);
        if share < max_take {
            share
        } else {
            max_take
        }
    }
}

fn fair_share_of(n: usize, w: usize, max_take: usize) -> (t: usize)
    requires
        w >= 1,
    ensures
        t == fair_share(n as int, w as int, max_take as int),
{
    if n == 0 {
        return 0;
    }
    proof {
        vstd::arithmetic::div_mod::lemma_div_nonincreasing((n - 1) as int, w as int);
        vstd::arithmetic::div_mod::lemma_div_plus_one((n - 1) as int, w as int);
        assert(w + (n - 1) == n + w - 1);
    }
    let share = (n - 1) / w + 1;
    if share < max_take {
        share
    } else {
        max_take
    }
}

/// The keys of the available leases, in table order.
pub open spec fn available_keys(s: Seq<LeaseSnapshotView>) -> Seq<Seq<char>>
    decreases s.len(),
{
    if s.len() == 0 {
        Seq::empty()
    } else if is_available(s.last()) {
        available_keys(s.drop_last()).push(s.last().lease_key)
    } else {
        available_keys(s.drop_last())
    }
}

/// The highest load among the holders of the first `k` leases (0 if none).
pub open spec fn heaviest_load(s: Seq<LeaseSnapshotView>, k: int) -> nat
    decreases k,
{
    if k <= 0 {
        0
    } else {
        let rest = heaviest_load(s, k - 1);
        match holder(s[k - 1]) {
            Some(w) => if load(s, w) > rest {
                load(s, w)
            } else {
                rest
            },
            None => rest,
        }
    }
}

/// Lease `v` is held by a worker of the highest load.
pub open spec fn is_heaviest(s: Seq<LeaseSnapshotView>, v: int) -> bool {
    &&& 0 <= v < s.len()
    &&& holder(s[v]) is Some
    &&& load(s, holder(s[v])->0) == heaviest_load(s, s.len() as int)
}

/// The first lease held by a worker of the highest load.
pub open spec fn first_heaviest(s: Seq<LeaseSnapshotView>) -> int {
    choose|v: int| is_heaviest(s, v) && forall|u: int| 0 <= u < v ==> !is_heaviest(s, u)
}

/// Steal when the most loaded worker is above the target, or at it while
/// this worker needs more than one lease.
pub open spec fn should_steal(s: Seq<LeaseSnapshotView>, me: Seq<char>, max_take: int) -> bool {
    let t = target(s, me, max_take);
    let top = heaviest_load(s, s.len() as int);
    &&& top >= t
    &&& (top > t || t - load(s, me) > 1)
}

/// The keys this worker should try to take: nothing when it holds its target
/// already; else free leases, up to what it needs; else, when no lease is
/// free, one lease of a most loaded worker if that worker is over the target
/// (or at it while this worker needs more than one).
pub open spec fn leases_to_take(s: Seq<LeaseSnapshotView>, me: Seq<char>, max_take: int) -> Seq<
    Seq<char>,
> {
    let needed = target(s, me, max_take) - load(s, me);
    let free = available_keys(s);
    if needed <= 0 {
        Seq::empty()
    } else if free.len() > 0 {
        free.take(if needed < free.len() {
            needed
        } else {
            free.len() as int
        })
    } else if should_steal(s, me, max_take) {
        seq![s[first_heaviest(s)].lease_key]
    } else {
        Seq::empty()
    }
}

proof fn lemma_take_step(s: Seq<LeaseSnapshotView>, i: int)
    requires
        0 <= i < s.len(),
    ensures
        s.take(i + 1).drop_last() == s.take(i),
        s.take(i + 1).last() == s[i],
{
    assert(s.take(i + 1).drop_last() =~= s.take(i));
}

/// The highest load is 0 or the load of some holder among the first `k`.
proof fn lemma_heaviest_attained(s: Seq<LeaseSnapshotView>, k: int)
    requires
        0 <= k <= s.len(),
    ensures
        heaviest_load(s, k) == 0 || exists|v: int|
            0 <= v < k && holder(s[v]) is Some && load(s, holder(s[v])->0) == heaviest_load(s, k),
        forall|v: int|
            0 <= v < k && holder(s[v]) is Some ==> load(s, holder(s[v])->0) <= heaviest_load(s, k),
    decreases k,
{
    if k > 0 {
        lemma_heaviest_attained(s, k - 1);
    }
}

fn count_active(snap: &Vec<LeaseSnapshot>) -> (n: usize)
    ensures
        n == active_count(snapshots_view(snap@)),
{
    let ghost s = snapshots_view(snap@);
    let mut n: usize = 0;
    let mut i: usize = 0;
    while i < snap.len()
        invariant
            s == snapshots_view(snap@),
            i <= snap.len(),
            n == active_count(s.take(i as int)),
            n <= i,
        decreases snap.len() - i,
    {
        proof {
            lemma_take_step(s, i as int);
            assert(s[i as int] == snap@[i as int]@);
        }
        if !snap[i].completed {
            n += 1;
        }
        i += 1;
    }
    proof {
        assert(s.take(s.len() as int) =~= s);
    }
    n
}

fn is_holder(l: &LeaseSnapshot, w: &String) -> (b: bool)
    ensures
        b == (holder(l@) == Some(w@)),
{
    if l.completed || l.expired {
        return false;
    }
    match &l.owner {
        Some(o) => *o == *w,
        None => false,
    }
}

fn load_of(snap: &Vec<LeaseSnapshot>, w: &String) -> (n: usize)
    ensures
        n == load(snapshots_view(snap@), w@),
{
    let ghost s = snapshots_view(snap@);
    let mut n: usize = 0;
    let mut i: usize = 0;
    while i < snap.len()
        invariant
            s == snapshots_view(snap@),
            i <= snap.len(),
            n == load(s.take(i as int), w@),
            n <= i,
        decreases snap.len() - i,
    {
        proof {
            lemma_take_step(s, i as int);
            assert(s[i as int] == snap@[i as int]@);
        }
        if is_holder(&snap[i], w) {
            n += 1;
        }
        i += 1;
    }
    proof {
        assert(s.take(s.len() as int) =~= s);
    }
    n
}

/// Pushing an element that is not there keeps a sequence free of
/// duplicates, and adds exactly that element.
proof fn lemma_push_distinct(s: Seq<Seq<char>>, x: Seq<char>)
    requires
        s.no_duplicates(),
        !s.contains(x),
    ensures
        s.push(x).no_duplicates(),
        forall|w: Seq<char>| s.push(x).contains(w) <==> (s.contains(w) || w == x),
{
    let t = s.push(x);
    assert forall|i: int, j: int| 0 <= i < t.len() && 0 <= j < t.len() && i != j implies t[i] != t[j] by {
        if i < s.len() && j < s.len() {
            assert(t[i] == s[i] && t[j] == s[j]);
        } else if i < s.len() {
            assert(t[i] == s[i]);
        } else if j < s.len() {
            assert(t[j] == s[j]);
        }
    }
    assert forall|w: Seq<char>| t.contains(w) <==> (s.contains(w) || w == x) by {
        if t.contains(w) {
            let k = choose|k: int| 0 <= k < t.len() && t[k] == w;
            if k < s.len() {
                assert(s[k] == w);
            }
        }
        if s.contains(w) {
            let k = choose|k: int| 0 <= k < s.len() && s[k] == w;
            assert(t[k] == w);
        }
        if w == x {
            assert(t[s.len() as int] == w);
        }
    }
}

fn contains_string(ws: &Vec<String>, x: &String) -> (b: bool)
    ensures
        b == strings_view(ws@).contains(x@),
{
    let mut i: usize = 0;
    while i < ws.len()
        invariant
            i <= ws.len(),
            forall|j: int| 0 <= j < i ==> ws@[j]@ != x@,
        decreases ws.len() - i,
    {
        if ws[i] == *x {
            proof {
                assert(strings_view(ws@)[i as int] == x@);
            }
            return true;
        }
        i += 1;
    }
    proof {
        if strings_view(ws@).contains(x@) {
            let j = choose|j: int| 0 <= j < strings_view(ws@).len() && strings_view(ws@)[j] == x@;
            assert(ws@[j]@ == x@);
        }
    }
    false
}

/// This worker and the distinct holders of the leases, each once.
fn distinct_workers(snap: &Vec<LeaseSnapshot>, me: &String) -> (ws: Vec<String>)
    ensures
        ws.len() >= 1,
        strings_view(ws@).no_duplicates(),
        strings_view(ws@).to_set() == workers(snapshots_view(snap@), me@),
{
    let ghost s = snapshots_view(snap@);
    let mut ws: Vec<String> = Vec::new();
    ws.push(me.clone());
    let mut i: usize = 0;
    proof {
        assert(strings_view(ws@) =~= seq![me@]);
        assert forall|w: Seq<char>| strings_view(ws@).contains(w) <==> w == me@ by {
            if w == me@ {
                assert(strings_view(ws@)[0] == w);
            }
        }
    }
    while i < snap.len()
        invariant
            s == snapshots_view(snap@),
            i <= snap.len(),
            ws.len() >= 1,
            strings_view(ws@).no_duplicates(),
            forall|w: Seq<char>|
                strings_view(ws@).contains(w) <==> (w == me@ || exists|j: int|
                    0 <= j < i && holder(s[j]) == Some(w)),
        decreases snap.len() - i,
    {
        let ghost before = strings_view(ws@);
        proof {
            assert(s[i as int] == snap@[i as int]@);
        }
        if !snap[i].completed && !snap[i].expired {
            match &snap[i].owner {
                Some(o) => {
                    if !contains_string(&ws, o) {
                        ws.push(o.clone());
                        proof {
                            assert(strings_view(ws@) =~= before.push(o@));
                            lemma_push_distinct(before, o@);
                        }
                    }
                    proof {
                        assert(holder(s[i as int]) == Some(o@));
                        assert(forall|w: Seq<char>|
                            strings_view(ws@).contains(w) <==> (before.contains(w) || w == o@));
                    }
                },
                None => {
                    proof {
                        assert(holder(s[i as int]) is None);
                    }
                },
            }
        } else {
            proof {
                assert(holder(s[i as int]) is None);
            }
        }
        proof {
            assert forall|w: Seq<char>|
                strings_view(ws@).contains(w) <==> (w == me@ || exists|j: int|
                    0 <= j < i + 1 && holder(s[j]) == Some(w)) by {
                if exists|j: int| 0 <= j < i + 1 && holder(s[j]) == Some(w) {
                    let j = choose|j: int| 0 <= j < i + 1 && holder(s[j]) == Some(w);
                    if j < i {
                        assert(exists|j: int| 0 <= j < i && holder(s[j]) == Some(w));
                    }
                }
                if before.contains(w) && w != me@ {
                    let j = choose|j: int| 0 <= j < i && holder(s[j]) == Some(w);
                    assert(0 <= j < i + 1 && holder(s[j]) == Some(w));
                }
            }
        }
        i += 1;
    }
    proof {
        assert(strings_view(ws@).to_set() =~= workers(s, me@));
    }
    ws
}

fn available_lease_keys(snap: &Vec<LeaseSnapshot>) -> (keys: Vec<String>)
    ensures
        strings_view(keys@) == available_keys(snapshots_view(snap@)),
{
    let ghost s = snapshots_view(snap@);
    let mut keys: Vec<String> = Vec::new();
    let mut i: usize = 0;
    while i < snap.len()
        invariant
            s == snapshots_view(snap@),
            i <= snap.len(),
            strings_view(keys@) == available_keys(s.take(i as int)),
        decreases snap.len() - i,
    {
        proof {
            lemma_take_step(s, i as int);
            assert(s[i as int] == snap@[i as int]@);
        }
        let ghost before = strings_view(keys@);
        if !snap[i].completed && (snap[i].owner.is_none() || snap[i].expired) {
            keys.push(snap[i].lease_key.clone());
            proof {
                assert(strings_view(keys@) =~= before.push(s[i as int].lease_key));
            }
        }
        i += 1;
    }
    proof {
        assert(s.take(s.len() as int) =~= s);
    }
    keys
}

fn heaviest(snap: &Vec<LeaseSnapshot>) -> (top: usize)
    ensures
        top == heaviest_load(snapshots_view(snap@), snap.len() as int),
{
    let ghost s = snapshots_view(snap@);
    let mut top: usize = 0;
    let mut i: usize = 0;
    while i < snap.len()
        invariant
            s == snapshots_view(snap@),
            i <= snap.len(),
            top == heaviest_load(s, i as int),
        decreases snap.len() - i,
    {
        proof {
            assert(s[i as int] == snap@[i as int]@);
        }
        if !snap[i].completed && !snap[i].expired {
            match &snap[i].owner {
                Some(o) => {
                    let n = load_of(snap, o);
                    if n > top {
                        top = n;
                    }
                },
                None => {},
            }
        }
        i += 1;
    }
    top
}

/// The key of the first lease held by a worker whose load is `top`.
fn first_heaviest_key(snap: &Vec<LeaseSnapshot>, top: usize) -> (key: String)
    requires
        top == heaviest_load(snapshots_view(snap@), snap.len() as int),
        exists|v: int| is_heaviest(snapshots_view(snap@), v),
    ensures
        key@ == snapshots_view(snap@)[first_heaviest(snapshots_view(snap@))].lease_key,
{
    let ghost s = snapshots_view(snap@);
    let mut i: usize = 0;
    while i < snap.len()
        invariant
            s == snapshots_view(snap@),
            i <= snap.len(),
            top == heaviest_load(s, s.len() as int),
            exists|v: int| is_heaviest(s, v),
            forall|u: int| 0 <= u < i ==> !is_heaviest(s, u),
        decreases snap.len() - i,
    {
        proof {
            assert(s[i as int] == snap@[i as int]@);
        }
        if !snap[i].completed && !snap[i].expired {
            match &snap[i].owner {
                Some(o) => {
                    let n = load_of(snap, o);
                    if n == top {
                        proof {
                            assert(is_heaviest(s, i as int));
                            let f = first_heaviest(s);
                            assert(is_heaviest(s, f) && forall|u: int| 0 <= u < f ==> !is_heaviest(s, u));
                            assert(f == i);
                        }
                        return snap[i].lease_key.clone();
                    }
                },
                None => {},
            }
        }
        i += 1;
    }
    proof {
        let v = choose|v: int| is_heaviest(s, v);
        assert(false);
    }
    snap[0].lease_key.clone()
}

/// Decide which leases to take this tick.
pub fn compute_leases_to_take(snapshot: &Vec<LeaseSnapshot>, me: &String, max_take: usize) -> (keys:
    Vec<String>)
    ensures
        strings_view(keys@) == leases_to_take(snapshots_view(snapshot@), me@, max_take as int),
{
    let ghost s = snapshots_view(snapshot@);
    let num_leases = count_active(snapshot);
    let ws = distinct_workers(snapshot, me);
    let num_workers = ws.len();
    proof {
        strings_view(ws@).unique_seq_to_set();
    }
    let goal = fair_share_of(num_leases, num_workers, max_take);
    assert(goal == target(s, me@, max_take as int));
    let mine = load_of(snapshot, me);
    if goal <= mine {
        return Vec::new();
    }
    let needed = goal - mine;
    let free = available_lease_keys(snapshot);
    if free.len() > 0 {
        let n = if needed < free.len() {
            needed
        } else {
            free.len()
        };
        let mut keys: Vec<String> = Vec::new();
        let mut i: usize = 0;
        while i < n
            invariant
                i <= n <= free.len(),
                strings_view(keys@) == strings_view(free@).take(i as int),
            decreases n - i,
        {
            let ghost before = strings_view(keys@);
            let k = free[i].clone();
            keys.push(k);
            proof {
                assert(strings_view(keys@) =~= before.push(k@));
                assert(strings_view(free@)[i as int] == free@[i as int]@);
                assert(strings_view(keys@) =~= strings_view(free@).take(i + 1));
            }
            i += 1;
        }
        return keys;
    }
    let top = heaviest(snapshot);
    if top >= goal && (top > goal || needed > 1) {
        proof {
            lemma_heaviest_attained(s, s.len() as int);
            let v = choose|v: int|
                0 <= v < s.len() && holder(s[v]) is Some && load(s, holder(s[v])->0)
                    == heaviest_load(s, s.len() as int);
            assert(is_heaviest(s, v));
        }
        let key = first_heaviest_key(snapshot, top);
        let mut keys: Vec<String> = Vec::new();
        keys.push(key);
        proof {
            assert(strings_view(keys@) =~= seq![s[first_heaviest(s)].lease_key]);
        }
        return keys;
    }
    Vec::new()
}

proof fn lemma_available_keys_are_free(s: Seq<LeaseSnapshotView>)
    ensures
        forall|k: int|
            0 <= k < available_keys(s).len() ==> exists|i: int|
                0 <= i < s.len() && s[i].lease_key == #[trigger] available_keys(s)[k] && is_available(
                    s[i],
                ),
    decreases s.len(),
{
    if s.len() > 0 {
        let r = s.drop_last();
        lemma_available_keys_are_free(r);
        assert forall|k: int| 0 <= k < available_keys(s).len() implies exists|i: int|
            0 <= i < s.len() && s[i].lease_key == #[trigger] available_keys(s)[k] && is_available(
                s[i],
            ) by {
            if k < available_keys(r).len() {
                assert(available_keys(s)[k] == available_keys(r)[k]);
                let i = choose|i: int|
                    0 <= i < r.len() && r[i].lease_key == #[trigger] available_keys(r)[k]
                        && is_available(r[i]);
                assert(s[i] == r[i]);
            } else {
                assert(available_keys(s)[k] == s.last().lease_key);
                assert(s[s.len() - 1] == s.last());
            }
        }
    } else {
        assert(available_keys(s) =~= Seq::<Seq<char>>::empty());
    }
}

proof fn lemma_first_heaviest_exists(s: Seq<LeaseSnapshotView>, v: int)
    requires
        is_heaviest(s, v),
    ensures
        is_heaviest(s, first_heaviest(s)),
        forall|u: int| 0 <= u < first_heaviest(s) ==> !is_heaviest(s, u),
    decreases v,
{
    if exists|u: int| 0 <= u < v && is_heaviest(s, u) {
        let u = choose|u: int| 0 <= u < v && is_heaviest(s, u);
        lemma_first_heaviest_exists(s, u);
    } else {
        assert(is_heaviest(s, v) && forall|u: int| 0 <= u < v ==> !is_heaviest(s, u));
    }
}

/// A worker takes only what it may: every key it takes is the key of a lease
/// that is not completed and that it does not hold already; it never takes
/// more than it needs to reach its target, so never past its cap; it steals
/// (takes a lease that another worker holds) only when no lease is free, and
/// then at most one.
pub proof fn lemma_take_is_safe(s: Seq<LeaseSnapshotView>, me: Seq<char>, max_take: int)
    requires
        max_take >= 0,
    ensures
        ({
            let taken = leases_to_take(s, me, max_take);
            &&& forall|k: int|
                0 <= k < taken.len() ==> exists|i: int|
                    0 <= i < s.len() && s[i].lease_key == #[trigger] taken[k] && !s[i].completed
                        && holder(s[i]) != Some(me)
            &&& taken.len() > 0 ==> taken.len() + load(s, me) <= target(s, me, max_take)
            &&& target(s, me, max_take) <= max_take
            &&& available_keys(s).len() == 0 ==> taken.len() <= 1
            &&& available_keys(s).len() > 0 ==> taken == available_keys(s).take(taken.len() as int)
        }),
{
    let taken = leases_to_take(s, me, max_take);
    let t = target(s, me, max_take);
    let needed = t - load(s, me);
    let free = available_keys(s);
    lemma_available_keys_are_free(s);
    if needed > 0 && free.len() > 0 {
        assert forall|k: int| 0 <= k < taken.len() implies exists|i: int|
            0 <= i < s.len() && s[i].lease_key == #[trigger] taken[k] && !s[i].completed && holder(s[i])
                != Some(me) by {
            assert(taken[k] == free[k]);
            let i = choose|i: int| 0 <= i < s.len() && s[i].lease_key == #[trigger] free[k] && is_available(s[i]);
        }
    } else if needed > 0 && should_steal(s, me, max_take) {
        let top = heaviest_load(s, s.len() as int);
        lemma_heaviest_attained(s, s.len() as int);
        assert(top > 0);
        let v = choose|v: int|
            0 <= v < s.len() && holder(s[v]) is Some && load(s, holder(s[v])->0) == heaviest_load(
                s,
                s.len() as int,
            );
        assert(is_heaviest(s, v));
        lemma_first_heaviest_exists(s, v);
        let f = first_heaviest(s);
        assert(taken[0] == s[f].lease_key);
        assert(holder(s[f]) != Some(me));
    }
}

/// The fair share covers the leases: unless the cap binds, `w` workers each
/// holding the share hold at least the `n` active leases between them, and
/// one lease fewer each would leave some uncovered. The share never exceeds
/// the cap, and nothing is shared out when nothing is active.
pub proof fn lemma_fair_share_covers(n: int, w: int, max_take: int)
    requires
        n >= 0,
        w >= 1,
        max_take >= 0,
    ensures
        0 <= fair_share(n, w, max_take) <= max_take,
        n == 0 ==> fair_share(n, w, max_take) == 0,
        fair_share(n, w, max_take) < max_take ==> fair_share(n, w, max_take) * w >= n,
        n > 0 && fair_share(n, w, max_take) < max_take ==> (fair_share(n, w, max_take) - 1) * w
            < n,
{
    if n > 0 {
        let q = ceil_div(n, w);
        let x = n + w - 1;
        vstd::arithmetic::div_mod::lemma_fundamental_div_mod(x, w);
        vstd::arithmetic::div_mod::lemma_mod_bound(x, w);
        assert(q * w >= n && (q - 1) * w < n && q >= 1) by (nonlinear_arith)
            requires
                x == w * q + x % w,
                0 <= x % w < w,
                x == n + w - 1,
                n >= 1,
                w >= 1,
        ;
    }
}

/// Every scan shares the active leases among a finite, non-empty set of
/// workers, this worker among them.
pub proof fn lemma_workers_finite(s: Seq<LeaseSnapshotView>, me: Seq<char>)
    ensures
        workers(s, me).finite(),
        workers(s, me).contains(me),
        workers(s, me).len() >= 1,
    decreases s.len(),
{
    if s.len() == 0 {
        assert(workers(s, me) =~= set![me]);
    } else {
        let r = s.drop_last();
        lemma_workers_finite(r, me);
        let last = s.len() - 1;
        assert forall|x: Seq<char>| workers(r, me).contains(x) implies #[trigger] workers(s, me).contains(x) by {
            if x != me {
                let i = choose|i: int| 0 <= i < r.len() && holder(r[i]) == Some(x);
                assert(s[i] == r[i]);
            }
        }
        match holder(s[last]) {
            Some(h) => {
                assert forall|x: Seq<char>| #[trigger] workers(s, me).contains(x) implies workers(r, me).insert(h).contains(x) by {
                    if x != me && x != h {
                        let i = choose|i: int| 0 <= i < s.len() && holder(s[i]) == Some(x);
                        assert(i != last);
                        assert(r[i] == s[i]);
                    }
                }
                assert(workers(s, me) =~= workers(r, me).insert(h));
            },
            None => {
                assert forall|x: Seq<char>| #[trigger] workers(s, me).contains(x) implies workers(r, me).contains(x) by {
                    if x != me {
                        let i = choose|i: int| 0 <= i < s.len() && holder(s[i]) == Some(x);
                        assert(i != last);
                        assert(r[i] == s[i]);
                    }
                }
                assert(workers(s, me) =~= workers(r, me));
            },
        }
    }
    vstd::set::axiom_set_remove_len(workers(s, me), me);
}

/// The targets of the workers together cover the active leases of a scan:
/// unless the cap binds, the target times the number of workers is at least
/// the number of leases that are not completed, so no free lease is left that
/// no worker below its target would take; and the target is the least such
/// share.
pub proof fn lemma_targets_cover_active(s: Seq<LeaseSnapshotView>, me: Seq<char>, max_take: int)
    requires
        max_take >= 0,
    ensures
        ({
            let t = target(s, me, max_take);
            let w = workers(s, me).len() as int;
            &&& w >= 1
            &&& 0 <= t <= max_take
            &&& active_count(s) == 0 ==> t == 0
            &&& t < max_take ==> t * w >= active_count(s)
            &&& active_count(s) > 0 && t < max_take ==> (t - 1) * w < active_count(s)
        }),
{
    lemma_workers_finite(s, me);
    lemma_fair_share_covers(active_count(s) as int, workers(s, me).len() as int, max_take);
}

/// A lease that is completed counts for nothing: appending one to a scan
/// leaves the number of active leases, every worker's load and the free
/// leases as they were.
pub proof fn lemma_completed_lease_counts_nothing(
    s: Seq<LeaseSnapshotView>,
    l: LeaseSnapshotView,
    w: Seq<char>,
)
    requires
        l.completed,
    ensures
        active_count(s.push(l)) == active_count(s),
        load(s.push(l), w) == load(s, w),
        available_keys(s.push(l)) == available_keys(s),
{
    assert(s.push(l).drop_last() =~= s);
}

proof fn lemma_heaviest_prefix(s: Seq<LeaseSnapshotView>, l: LeaseSnapshotView, k: int)
    requires
        l.completed,
        0 <= k <= s.len(),
    ensures
        heaviest_load(s.push(l), k) == heaviest_load(s, k),
    decreases k,
{
    if k > 0 {
        lemma_heaviest_prefix(s, l, k - 1);
        assert(s.push(l)[k - 1] == s[k - 1]);
        match holder(s[k - 1]) {
            Some(h) => {
                lemma_completed_lease_counts_nothing(s, l, h);
            },
            None => {},
        }
    }
}

/// Completed leases do not change the decision: a scan with one more lease
/// that is completed gives the same keys to take as the scan without it.
pub proof fn lemma_completed_lease_ignored(
    s: Seq<LeaseSnapshotView>,
    l: LeaseSnapshotView,
    me: Seq<char>,
    max_take: int,
)
    requires
        l.completed,
    ensures
        leases_to_take(s.push(l), me, max_take) == leases_to_take(s, me, max_take),
{
    let s2 = s.push(l);
    let n = s.len() as int;
    assert(s2.drop_last() =~= s);
    lemma_completed_lease_counts_nothing(s, l, me);
    assert forall|x: Seq<char>| #[trigger] workers(s2, me).contains(x) <==> workers(s, me).contains(x) by {
        if x != me {
            if exists|i: int| 0 <= i < s2.len() && holder(s2[i]) == Some(x) {
                let i = choose|i: int| 0 <= i < s2.len() && holder(s2[i]) == Some(x);
                assert(i != n);
                assert(s[i] == s2[i]);
            }
            if exists|i: int| 0 <= i < s.len() && holder(s[i]) == Some(x) {
                let i = choose|i: int| 0 <= i < s.len() && holder(s[i]) == Some(x);
                assert(s[i] == s2[i]);
            }
        }
    }
    assert(workers(s2, me) =~= workers(s, me));
    assert(target(s2, me, max_take) == target(s, me, max_take));
    lemma_heaviest_prefix(s, l, n);
    assert(heaviest_load(s2, n + 1) == heaviest_load(s2, n));
    let top = heaviest_load(s, n);
    assert forall|v: int| #[trigger] is_heaviest(s2, v) <==> is_heaviest(s, v) by {
        if 0 <= v < n {
            assert(s2[v] == s[v]);
            match holder(s[v]) {
                Some(h) => {
                    lemma_completed_lease_counts_nothing(s, l, h);
                },
                None => {},
            }
        }
    }
    let t = target(s, me, max_take);
    let needed = t - load(s, me);
    if needed > 0 && available_keys(s).len() == 0 && should_steal(s, me, max_take) {
        lemma_heaviest_attained(s, n);
        assert(top > 0);
        let v = choose|v: int|
            0 <= v < n && holder(s[v]) is Some && load(s, holder(s[v])->0) == heaviest_load(s, n);
        assert(is_heaviest(s, v));
        assert(is_heaviest(s2, v));
        lemma_first_heaviest_exists(s, v);
        lemma_first_heaviest_exists(s2, v);
        let f1 = first_heaviest(s);
        let f2 = first_heaviest(s2);
        if f1 < f2 {
            assert(is_heaviest(s2, f1));
        }
        if f2 < f1 {
            assert(is_heaviest(s, f2));
        }
        assert(f1 == f2);
        assert(s2[f2] == s[f1]);
        assert(leases_to_take(s2, me, max_take) =~= leases_to_take(s, me, max_take));
    }
}

/// When no lease is free and this worker is below its target, it steals
/// exactly one lease if the most loaded worker is above the target, or at
/// the target while this worker needs two or more; otherwise it takes
/// nothing. What it steals belongs to a worker of the highest load, never to
/// itself.
pub proof fn lemma_steal_decision(s: Seq<LeaseSnapshotView>, me: Seq<char>, max_take: int)
    requires
        available_keys(s).len() == 0,
        target(s, me, max_take) > load(s, me),
    ensures
        ({
            let t = target(s, me, max_take);
            let top = heaviest_load(s, s.len() as int);
            let taken = leases_to_take(s, me, max_take);
            &&& taken.len() == 1 <==> (top > t || (top == t && t - load(s, me) >= 2))
            &&& taken.len() != 1 ==> taken.len() == 0
            &&& taken.len() == 1 ==> exists|v: int|
                0 <= v < s.len() && s[v].lease_key == taken[0] && holder(s[v]) is Some
                    && holder(s[v]) != Some(me) && load(s, holder(s[v])->0) == top
        }),
{
    let t = target(s, me, max_take);
    let top = heaviest_load(s, s.len() as int);
    let taken = leases_to_take(s, me, max_take);
    if should_steal(s, me, max_take) {
        lemma_heaviest_attained(s, s.len() as int);
        assert(top > 0);
        let v = choose|v: int|
            0 <= v < s.len() && holder(s[v]) is Some && load(s, holder(s[v])->0) == heaviest_load(
                s,
                s.len() as int,
            );
        assert(is_heaviest(s, v));
        lemma_first_heaviest_exists(s, v);
        let f = first_heaviest(s);
        assert(taken[0] == s[f].lease_key);
        assert(load(s, holder(s[f])->0) == top);
        assert(holder(s[f]) != Some(me));
    }
}

/// Free leases are taken first and as many as can be: when some lease is
/// free and this worker is below its target, it takes the free leases in
/// table order, as many as it needs or as there are, whichever is fewer, and
/// steals nothing. At or above its target it takes nothing at all.
pub proof fn lemma_takes_free_first(s: Seq<LeaseSnapshotView>, me: Seq<char>, max_take: int)
    ensures
        ({
            let needed = target(s, me, max_take) - load(s, me);
            let free = available_keys(s);
            let taken = leases_to_take(s, me, max_take);
            &&& needed <= 0 ==> taken.len() == 0
            &&& needed > 0 && free.len() > 0 ==> taken.len() == (if needed < free.len() {
                needed
            } else {
                free.len() as int
            }) && taken == free.take(taken.len() as int)
        }),
{
}

} // verus!
