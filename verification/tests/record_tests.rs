use ddb_streams_consumer::record::{AttrValue, StreamRecord};
use ddb_streams_consumer::source::CursorTable;
use std::collections::BTreeMap;

#[test]
fn default_record_is_empty_and_compares_by_value() {
    let r = StreamRecord::default();
    assert_eq!(r.event_name, None);
    assert!(r.keys.is_empty());
    let mut keys = BTreeMap::new();
    keys.insert("pk".to_string(), AttrValue::S("k1".into()));
    let a = StreamRecord { keys, ..Default::default() };
    let mut keys2 = BTreeMap::new();
    keys2.insert("pk".to_string(), AttrValue::S("k1".into()));
    let b = StreamRecord { keys: keys2, ..Default::default() };
    assert_eq!(a, b);
    assert_ne!(a, r);
    assert_eq!(AttrValue::L(vec![AttrValue::Null, AttrValue::N("3".into())]), AttrValue::L(vec![AttrValue::Null, AttrValue::N("3".into())]));
}

#[test]
fn cursor_reused_only_from_its_own_position() {
    let mut t = CursorTable::new();
    assert_eq!(t.cached_iterator("s", None), None);
    t.store("s", Some("5".to_string()), Some("it-1".to_string()));
    assert_eq!(t.cached_iterator("s", Some("5")).as_deref(), Some("it-1"));
    assert_eq!(t.cached_iterator("s", Some("9")), None);
    assert_eq!(t.cached_iterator("s", None), None);
    t.store("s", Some("8".to_string()), None);
    assert_eq!(t.cached_iterator("s", Some("5")), None);
    t.store("t", None, Some("it-2".to_string()));
    assert_eq!(t.cached_iterator("t", None).as_deref(), Some("it-2"));
    t.drop_cursor("t");
    assert_eq!(t.cached_iterator("t", None), None);
}
