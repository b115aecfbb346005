use ddb_streams_consumer::protocol::{frame_line, line_body, ClientMessage};

#[test]
fn client_messages_frame_as_tagged_json_lines() {
    assert_eq!(ClientMessage::Ready.to_line(), "{\"type\":\"ready\"}\n");
    assert_eq!(ClientMessage::Stop.to_line(), "{\"type\":\"stop\"}\n");
    assert_eq!(
        ClientMessage::Checkpoint { shard: "s1".into(), seq: "42".into() }.to_line(),
        "{\"type\":\"checkpoint\",\"shard\":\"s1\",\"seq\":\"42\"}\n"
    );
}

#[test]
fn checkpoint_tag_is_stable_snake_case() {
    let c = ClientMessage::Checkpoint { shard: "s1".into(), seq: "9".into() }.to_json();
    assert!(c.contains(r#""type":"checkpoint""#), "got {c}");
}

#[test]
fn client_line_is_valid_json_with_the_fields() {
    let line = ClientMessage::Checkpoint { shard: "shard\n\"x\"".into(), seq: "100000000000000000009".into() }
        .to_line();
    assert!(line.ends_with('\n'));
    assert!(!line.trim_end().contains('\n'), "exactly one line");
    let v: serde_json::Value = serde_json::from_str(line_body(&line)).unwrap();
    assert_eq!(v.get("type").and_then(|t| t.as_str()), Some("checkpoint"));
    assert_eq!(v.get("shard").and_then(|t| t.as_str()), Some("shard\n\"x\""));
    assert_eq!(v.get("seq").and_then(|t| t.as_str()), Some("100000000000000000009"));
}

#[test]
fn line_body_cuts_only_trailing_line_ends() {
    assert_eq!(line_body("{\"type\":\"stop\"}\r\n"), "{\"type\":\"stop\"}");
    assert_eq!(line_body("abc\n\n\r"), "abc");
    assert_eq!(line_body("a\nb"), "a\nb");
    assert_eq!(line_body("\n"), "");
    assert_eq!(line_body(""), "");
}

#[test]
fn frame_line_appends_one_newline() {
    assert_eq!(frame_line("{}".to_string()), "{}\n");
    assert_eq!(line_body(&frame_line("{\"a\":1}".to_string())), "{\"a\":1}");
}
