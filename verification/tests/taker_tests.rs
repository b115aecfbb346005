use ddb_streams_consumer::coordinator::{LeaseCoordinator, RawLease};
use ddb_streams_consumer::taker::{compute_leases_to_take, LeaseSnapshot};

fn snap(key: &str, owner: Option<&str>, expired: bool, completed: bool) -> LeaseSnapshot {
    LeaseSnapshot { lease_key: key.into(), owner: owner.map(|o| o.into()), expired, completed }
}

#[test]
fn steals_one_lease_from_the_most_loaded_worker() {
    // w2 holds 3 of 4 live leases; w1 holds 1. Target = ceil(4 / 2) = 2.
    let s = vec![
        snap("a", Some("w1"), false, false),
        snap("b", Some("w2"), false, false),
        snap("c", Some("w2"), false, false),
        snap("d", Some("w2"), false, false),
    ];
    assert_eq!(compute_leases_to_take(&s, &"w1".to_string(), 10), vec!["b"]);
}

#[test]
fn takes_free_leases_before_stealing_and_respects_the_cap() {
    let s = vec![
        snap("a", None, false, false),
        snap("b", Some("w2"), true, false),
        snap("c", Some("w2"), false, false),
        snap("d", Some("w2"), false, false),
    ];
    // Workers: w1 (me) and w2 (still holds c, d): target ceil(4/2) = 2.
    assert_eq!(compute_leases_to_take(&s, &"w1".to_string(), 10), vec!["a", "b"]);
    // A cap of 1 limits the take.
    assert_eq!(compute_leases_to_take(&s, &"w1".to_string(), 1), vec!["a"]);
    assert!(compute_leases_to_take(&s, &"w1".to_string(), 0).is_empty());
}

#[test]
fn completed_leases_are_never_taken() {
    let s = vec![snap("a", None, false, true), snap("b", Some("w2"), true, true)];
    assert!(compute_leases_to_take(&s, &"w1".to_string(), 10).is_empty());
}

#[test]
fn empty_table_takes_nothing() {
    assert!(compute_leases_to_take(&vec![], &"w1".to_string(), 10).is_empty());
}

#[test]
fn no_steal_when_the_most_loaded_is_only_at_target() {
    // w2 holds 2, w1 holds 1 of 3: target ceil(3/2) = 2; w1 needs 1 and w2 is
    // at the target, so nothing moves.
    let s = vec![
        snap("a", Some("w1"), false, false),
        snap("b", Some("w2"), false, false),
        snap("c", Some("w2"), false, false),
    ];
    assert!(compute_leases_to_take(&s, &"w1".to_string(), 10).is_empty());
}

fn row(key: &str, owner: Option<&str>, counter: u64) -> RawLease {
    RawLease { lease_key: key.into(), owner: owner.map(|o| o.into()), lease_counter: counter, completed: false }
}

#[test]
fn coordinator_takes_a_stalled_lease_up_to_its_cap() {
    let mut c = LeaseCoordinator::new("w1", 1);
    let rows = vec![row("a", Some("w2"), 3), row("b", Some("w2"), 4)];
    // First sighting: w2 is alive but over its share of 1, so one is stolen.
    assert_eq!(c.tick(&rows), vec!["a"]);
    // Both stalled now and free, but the cap is 1.
    assert_eq!(c.tick(&rows), vec!["a"]);
}

#[test]
fn own_leases_never_expire() {
    let mut c = LeaseCoordinator::new("w1", 10);
    let rows = vec![row("a", Some("w1"), 3)];
    c.tick(&rows);
    assert!(c.tick(&rows).is_empty());
}
