use ddb_streams_consumer::coordinator::{LeaseCoordinator, RawLease};

fn row(key: &str, owner: Option<&str>, counter: u64, completed: bool) -> RawLease {
    RawLease { lease_key: key.into(), owner: owner.map(|o| o.into()), lease_counter: counter, completed }
}

#[test]
fn other_workers_leases_not_stolen_on_first_sighting() {
    let mut c = LeaseCoordinator::new("w1", 10);
    let rows = vec![
        row("a", Some("w1"), 1, false),
        row("b", Some("w1"), 1, false),
        row("c", Some("w2"), 5, false),
        row("d", Some("w2"), 5, false),
    ];
    assert!(c.tick(&rows).is_empty());
}

#[test]
fn stalled_counter_becomes_expired_and_is_taken() {
    let mut c = LeaseCoordinator::new("w1", 10);
    let rows = vec![
        row("a", Some("w1"), 1, false),
        row("b", Some("w1"), 1, false),
        row("c", Some("w2"), 5, false),
        row("d", Some("w2"), 5, false),
    ];
    assert!(c.tick(&rows).is_empty());
    let mut take = c.tick(&rows);
    take.sort();
    assert_eq!(take, vec!["c", "d"]);
}

#[test]
fn advancing_counter_stays_alive() {
    let mut c = LeaseCoordinator::new("w1", 10);
    let t1 = vec![
        row("a", Some("w1"), 1, false),
        row("b", Some("w1"), 1, false),
        row("c", Some("w2"), 5, false),
        row("d", Some("w2"), 5, false),
    ];
    c.tick(&t1);
    let t2 = vec![
        row("a", Some("w1"), 1, false),
        row("b", Some("w1"), 1, false),
        row("c", Some("w2"), 6, false),
        row("d", Some("w2"), 7, false),
    ];
    assert!(c.tick(&t2).is_empty());
}

#[test]
fn unowned_taken_immediately() {
    let mut c = LeaseCoordinator::new("w1", 10);
    let rows = vec![row("a", None, 0, false), row("b", None, 0, false)];
    let mut take = c.tick(&rows);
    take.sort();
    assert_eq!(take, vec!["a", "b"]);
}

#[test]
fn forgets_disappeared_leases() {
    let mut c = LeaseCoordinator::new("w1", 10);
    c.tick(&[row("a", Some("w2"), 5, false)]);
    c.tick(&[]);
    assert!(c.tick(&[row("a", Some("w2"), 9, false)]).is_empty());
}
