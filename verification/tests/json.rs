use event_stages::encoding::{text_of_encoded, EncodeFailure};
use event_stages::event::{Event, Field, ValueKind};
use event_stages::json::{append_encoded, append_member, append_scalar, encode_object};

fn serializer_error() -> serde_json::Error {
    serde_json::from_str::<u8>("x").unwrap_err()
}

#[test]
fn append_encoded_appends_what_was_written() {
    let mut out = b"ab".to_vec();
    assert_eq!(append_encoded(&mut out, Ok(b"\"c\"".to_vec())), Ok(()));
    assert_eq!(out, b"ab\"c\"".to_vec());
    assert_eq!(append_encoded(&mut out, Ok(Vec::new())), Ok(()));
    assert_eq!(out, b"ab\"c\"".to_vec());
}

#[test]
fn append_encoded_passes_a_failure_on() {
    let mut out = b"ab".to_vec();
    assert_eq!(
        append_encoded(&mut out, Err(serializer_error())),
        Err(EncodeFailure::Serialization)
    );
    assert_eq!(out, b"ab".to_vec());
}

#[test]
fn append_scalar_of_every_kind() {
    let mut out = Vec::new();
    assert_eq!(append_scalar(&mut out, &ValueKind::Integer(-40)), Ok(()));
    assert_eq!(append_scalar(&mut out, &ValueKind::Boolean(true)), Ok(()));
    assert_eq!(append_scalar(&mut out, &ValueKind::Boolean(false)), Ok(()));
    assert_eq!(append_scalar(&mut out, &ValueKind::Bytes("a\\b".into())), Ok(()));
    assert_eq!(out, b"-40truefalse\"a\\\\b\"".to_vec());
}

#[test]
fn append_member_writes_name_colon_value() {
    let mut out = b"{".to_vec();
    let field = Field { key: "n".to_string(), value: ValueKind::Integer(3) };
    assert_eq!(append_member(&mut out, &field), Ok(()));
    assert_eq!(out, b"{\"n\":3".to_vec());
}

#[test]
fn encode_object_separates_members_by_commas() {
    let mut event = Event::new();
    assert_eq!(encode_object(event.all_fields()), Ok(b"{}".to_vec()));
    event.insert("a".into(), ValueKind::Integer(1));
    assert_eq!(encode_object(event.all_fields()), Ok(b"{\"a\":1}".to_vec()));
    event.insert("b".into(), ValueKind::Integer(2));
    event.insert("c".into(), ValueKind::Integer(3));
    assert_eq!(encode_object(event.all_fields()), Ok(b"{\"a\":1,\"b\":2,\"c\":3}".to_vec()));
}

#[test]
fn text_of_encoded_decodes_utf8() {
    assert_eq!(text_of_encoded(Ok("{\"é\":1}".as_bytes().to_vec())), Ok("{\"é\":1}".to_string()));
    assert_eq!(text_of_encoded(Ok(Vec::new())), Ok(String::new()));
}

#[test]
fn text_of_encoded_rejects_bytes_that_are_not_utf8() {
    assert_eq!(text_of_encoded(Ok(vec![0x7bu8, 0xff, 0x7d])), Err(EncodeFailure::InvalidUtf8));
    assert_eq!(text_of_encoded(Ok(vec![0xc3u8])), Err(EncodeFailure::InvalidUtf8));
    assert_eq!(text_of_encoded(Ok(vec![0xedu8, 0xa0, 0x80])), Err(EncodeFailure::InvalidUtf8));
}

#[test]
fn text_of_encoded_passes_a_failure_on() {
    assert_eq!(
        text_of_encoded(Err(EncodeFailure::Serialization)),
        Err(EncodeFailure::Serialization)
    );
    assert_eq!(
        text_of_encoded(Err(EncodeFailure::InvalidUtf8)),
        Err(EncodeFailure::InvalidUtf8)
    );
}
