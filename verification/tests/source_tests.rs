use ddb_streams_consumer::source::{advanced_after, cursor_continues, is_recoverable};

#[test]
fn cursor_reused_only_when_it_continues_from_requested_position() {
    assert!(cursor_continues(Some("seq-5"), Some("seq-5")));
    assert!(cursor_continues(None, None));
    assert!(!cursor_continues(Some("seq-5"), Some("seq-9")));
    assert!(!cursor_continues(Some("seq-5"), None));
    assert!(!cursor_continues(None, Some("seq-5")));
}

#[test]
fn cursor_position_advances_to_last_seq_else_holds() {
    assert_eq!(advanced_after(Some("5"), Some("8")).as_deref(), Some("8"));
    assert_eq!(advanced_after(None, Some("1")).as_deref(), Some("1"));
    assert_eq!(advanced_after(Some("5"), None).as_deref(), Some("5"));
    assert_eq!(advanced_after(None, None), None);
}

type BoxError = Box<dyn std::error::Error + Send + Sync>;

#[test]
fn recoverable_errors_are_classified() {
    let mk = |s: &str| -> BoxError { s.to_string().into() };
    assert!(is_recoverable(&mk("ExpiredIteratorException: iterator expired").to_string()));
    assert!(is_recoverable(&mk("com.amazonaws...TrimmedDataAccessException").to_string()));
    assert!(is_recoverable(&mk("ResourceNotFoundException").to_string()));
    assert!(!is_recoverable(&mk("ValidationException: bad input").to_string()));
    assert!(!is_recoverable(&mk("some other service error").to_string()));
}
