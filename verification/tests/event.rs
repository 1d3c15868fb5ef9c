use bytes::Bytes;
use event_stages::event::{Event, ValueKind};

#[test]
fn event_from_holds_the_message() {
    let event = Event::from("dummy message");
    assert_eq!(event.get("message"), Some(&ValueKind::Bytes("dummy message".into())));
    assert_eq!(event.all_fields().len(), 1);
    assert_eq!(event.get("Message"), None);
    assert_eq!(event.get(""), None);
}

#[test]
fn event_insert_overwrites_in_place() {
    let mut event = Event::new();
    event.insert("a".into(), ValueKind::Integer(1));
    event.insert("b".into(), ValueKind::Integer(2));
    event.insert("a".into(), ValueKind::Boolean(true));
    let names: Vec<&str> = event.all_fields().iter().map(|f| f.key.as_str()).collect();
    assert_eq!(names, vec!["a", "b"]);
    assert_eq!(event.get("a"), Some(&ValueKind::Boolean(true)));
    assert_eq!(event.get("b"), Some(&ValueKind::Integer(2)));
}

#[test]
fn event_clone_is_equal() {
    let mut event = Event::from("x");
    event.insert("n".into(), ValueKind::Integer(5));
    assert_eq!(event.clone(), event);
}

#[test]
fn value_as_bytes() {
    assert_eq!(ValueKind::Bytes("raw".into()).as_bytes(), Bytes::from("raw"));
    assert_eq!(ValueKind::Integer(0).as_bytes(), Bytes::from("0"));
    assert_eq!(ValueKind::Integer(10).as_bytes(), Bytes::from("10"));
    assert_eq!(ValueKind::Integer(-905).as_bytes(), Bytes::from("-905"));
    assert_eq!(ValueKind::Integer(i64::MAX).as_bytes(), Bytes::from("9223372036854775807"));
    assert_eq!(ValueKind::Integer(i64::MIN).as_bytes(), Bytes::from("-9223372036854775808"));
    assert_eq!(ValueKind::Boolean(true).as_bytes(), Bytes::from("true"));
    assert_eq!(ValueKind::Boolean(false).as_bytes(), Bytes::from("false"));
}

#[test]
fn value_as_bytes_agrees_with_std() {
    for n in [0i64, 9, 10, 99, 100, -1, -10, 4096, i64::MAX, i64::MIN, i64::MIN + 1] {
        assert_eq!(ValueKind::Integer(n).as_bytes(), Bytes::from(n.to_string()));
    }
}

#[test]
fn value_to_string_lossy() {
    assert_eq!(ValueKind::Bytes("héllo".into()).to_string_lossy(), "héllo");
    assert_eq!(
        ValueKind::Bytes(Bytes::from(vec![0xf0u8, 0x28, 0x8c, 0x28])).to_string_lossy(),
        "\u{fffd}(\u{fffd}("
    );
    assert_eq!(ValueKind::Integer(-3).to_string_lossy(), "-3");
    assert_eq!(ValueKind::Boolean(false).to_string_lossy(), "false");
}

#[test]
fn value_clone_is_equal() {
    let value = ValueKind::Bytes("abc".into());
    assert_eq!(value.clone(), value);
}
