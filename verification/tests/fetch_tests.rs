use ddb_streams_consumer::ipc::{ack_token, on_client_input, ClientInput, ReaderAction};
use ddb_streams_consumer::protocol::ClientMessage;
use ddb_streams_consumer::source::{
    fetch_step, finish_poll, iterator_start, listed_shard, FetchAction, FetchEvent, FetchState,
    IteratorStart, PolledChange,
};

#[test]
fn cached_iterator_is_read_directly() {
    assert_eq!(
        fetch_step(FetchState::Starting, true, FetchEvent::Cached(true)),
        (FetchState::Reading, FetchAction::Read)
    );
    assert_eq!(
        fetch_step(FetchState::Starting, true, FetchEvent::Cached(false)),
        (FetchState::DerivingAtPosition, FetchAction::Derive { at_position: true, drop_cursor: false })
    );
}

#[test]
fn closed_shard_ends_the_read() {
    assert_eq!(
        fetch_step(FetchState::DerivingAtPosition, false, FetchEvent::NoIterator),
        (FetchState::Finished, FetchAction::EndShard { drop_cursor: true })
    );
    assert_eq!(
        fetch_step(FetchState::DerivingFromStart, true, FetchEvent::NoIterator),
        (FetchState::Finished, FetchAction::EndShard { drop_cursor: false })
    );
}

#[test]
fn too_old_checkpoint_restarts_from_the_start_of_the_shard() {
    assert_eq!(
        fetch_step(FetchState::DerivingAtPosition, true, FetchEvent::DeriveFailed { recoverable: true }),
        (FetchState::DerivingFromStart, FetchAction::Derive { at_position: false, drop_cursor: false })
    );
    // Without a checkpoint there is nothing to restart from.
    assert_eq!(
        fetch_step(FetchState::DerivingAtPosition, false, FetchEvent::DeriveFailed { recoverable: true }),
        (FetchState::Finished, FetchAction::Fail)
    );
    assert_eq!(
        fetch_step(FetchState::DerivingAtPosition, true, FetchEvent::DeriveFailed { recoverable: false }),
        (FetchState::Finished, FetchAction::Fail)
    );
}

#[test]
fn expired_iterator_is_rederived_once() {
    assert_eq!(
        fetch_step(FetchState::Reading, true, FetchEvent::ReadFailed { recoverable: true }),
        (FetchState::Rederiving, FetchAction::Derive { at_position: true, drop_cursor: true })
    );
    assert_eq!(
        fetch_step(FetchState::Rederiving, true, FetchEvent::Iterator),
        (FetchState::Rereading, FetchAction::Read)
    );
    assert_eq!(
        fetch_step(FetchState::Rereading, true, FetchEvent::ReadFailed { recoverable: true }),
        (FetchState::Finished, FetchAction::Fail)
    );
    assert_eq!(
        fetch_step(FetchState::Rereading, true, FetchEvent::Records),
        (FetchState::Finished, FetchAction::Deliver)
    );
    assert_eq!(
        fetch_step(FetchState::Reading, true, FetchEvent::ReadFailed { recoverable: false }),
        (FetchState::Finished, FetchAction::Fail)
    );
}

fn change(seq: &str) -> PolledChange {
    PolledChange { seq: seq.to_string(), payload: vec![1, 2] }
}

#[test]
fn poll_keeps_sequenced_changes_and_advances_the_cursor() {
    let out = finish_poll(Some("5"), vec![change("6"), change(""), change("8")], true);
    let seqs: Vec<&str> = out.changes.iter().map(|c| c.seq.as_str()).collect();
    assert_eq!(seqs, vec!["6", "8"]);
    assert_eq!(out.cursor_after.as_deref(), Some("8"));
    assert!(!out.shard_end);

    let empty = finish_poll(Some("5"), vec![change("")], false);
    assert!(empty.changes.is_empty());
    assert_eq!(empty.cursor_after.as_deref(), Some("5"));
    assert!(empty.shard_end);

    let fresh = finish_poll(None, vec![], true);
    assert_eq!(fresh.cursor_after, None);
}

#[test]
fn listing_without_a_shard_id_is_skipped() {
    assert!(listed_shard(None, None, None).is_none());
    assert!(listed_shard(Some(""), Some("p"), None).is_none());
    let s = listed_shard(Some("shard-2"), Some("shard-1"), Some("99")).unwrap();
    assert_eq!(s.shard_id, "shard-2");
    assert_eq!(s.parent_shard_id.as_deref(), Some("shard-1"));
    assert_eq!(s.ending_sequence_number.as_deref(), Some("99"));
    let m = s.meta();
    assert_eq!(m.id, "shard-2");
    assert_eq!(m.parent.as_deref(), Some("shard-1"));
}

#[test]
fn reader_routes_acks_and_stops_on_stop_or_close() {
    match on_client_input(ClientInput::Message(ClientMessage::Checkpoint {
        shard: "s0".into(),
        seq: "2".into(),
    })) {
        ReaderAction::Acknowledge { shard, seq } => {
            assert_eq!(shard, "s0");
            assert_eq!(seq, "2");
        }
        other => panic!("expected an ack, got {other:?}"),
    }
    assert!(matches!(on_client_input(ClientInput::Message(ClientMessage::Stop)), ReaderAction::Stop));
    assert!(matches!(on_client_input(ClientInput::Closed), ReaderAction::Stop));
    assert!(matches!(on_client_input(ClientInput::Malformed), ReaderAction::KeepReading));
    assert!(matches!(on_client_input(ClientInput::Blank), ReaderAction::KeepReading));
    assert!(matches!(on_client_input(ClientInput::Message(ClientMessage::Ready)), ReaderAction::KeepReading));
}

#[test]
fn a_batch_waits_on_its_last_sequence_number() {
    assert_eq!(ack_token(&vec![]), None);
    assert_eq!(
        ack_token(&vec![change("100000000000000000001"), change("100000000000000000002")]).as_deref(),
        Some("100000000000000000002")
    );
}

#[test]
fn trimmed_checkpoint_on_rederive_restarts_from_the_start() {
    assert_eq!(
        fetch_step(FetchState::Rederiving, true, FetchEvent::DeriveFailed { recoverable: true }),
        (FetchState::RederivingFromStart, FetchAction::Derive { at_position: false, drop_cursor: false })
    );
    assert_eq!(
        fetch_step(FetchState::RederivingFromStart, true, FetchEvent::Iterator),
        (FetchState::Rereading, FetchAction::Read)
    );
    assert_eq!(
        fetch_step(FetchState::RederivingFromStart, true, FetchEvent::NoIterator),
        (FetchState::Finished, FetchAction::EndShard { drop_cursor: false })
    );
    assert_eq!(
        fetch_step(FetchState::RederivingFromStart, true, FetchEvent::DeriveFailed { recoverable: true }),
        (FetchState::Finished, FetchAction::Fail)
    );
    assert_eq!(
        fetch_step(FetchState::Rederiving, false, FetchEvent::DeriveFailed { recoverable: true }),
        (FetchState::Finished, FetchAction::Fail)
    );
    assert_eq!(
        fetch_step(FetchState::Rederiving, true, FetchEvent::DeriveFailed { recoverable: false }),
        (FetchState::Finished, FetchAction::Fail)
    );
}

#[test]
fn fresh_iterator_resumes_after_the_checkpoint_or_at_trim_horizon() {
    assert_eq!(iterator_start(Some("42")), IteratorStart::AfterSequenceNumber("42".to_string()));
    assert_eq!(iterator_start(None), IteratorStart::TrimHorizon);
}
