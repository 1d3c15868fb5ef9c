use bytes::Bytes;
use event_stages::encoding::{
    event_as_bytes, event_as_bytes_with_nl, event_as_string, BasicEncoding,
};
use event_stages::event::{Event, ValueKind};

fn modes() -> Vec<Option<BasicEncoding>> {
    vec![None, Some(BasicEncoding::Text), Some(BasicEncoding::Json)]
}

fn events() -> Vec<Event> {
    let mut structured = Event::from("hi");
    structured.insert("extra".into(), ValueKind::Bytes("x".into()));
    let mut only_extra = Event::new();
    only_extra.insert("extra".into(), ValueKind::Integer(3));
    vec![Event::new(), Event::from("hi"), structured, only_extra]
}

#[test]
fn json_of_message_only() {
    let event = Event::from("hi");
    assert_eq!(
        event_as_string(event.clone(), &Some(BasicEncoding::Json)),
        Ok(r#"{"message":"hi"}"#.to_string())
    );
    assert_eq!(
        event_as_bytes(event, &Some(BasicEncoding::Json)),
        Ok(Bytes::from(r#"{"message":"hi"}"#))
    );
}

#[test]
fn json_of_message_only_parses_back() {
    let bytes = event_as_bytes(Event::from("hi"), &Some(BasicEncoding::Json)).unwrap();
    let value: serde_json::Value = serde_json::from_slice(&bytes).unwrap();
    let object = value.as_object().unwrap();
    assert_eq!(object.len(), 1);
    assert_eq!(object.get("message").and_then(|v| v.as_str()), Some("hi"));
}

#[test]
fn text_ignores_other_fields() {
    let mut event = Event::from("hi");
    event.insert("extra".into(), ValueKind::Bytes("x".into()));
    assert!(event.is_structured());
    assert_eq!(event_as_bytes(event.clone(), &Some(BasicEncoding::Text)), Ok(Bytes::from("hi")));
    assert_eq!(event_as_string(event, &Some(BasicEncoding::Text)), Ok("hi".to_string()));
}

#[test]
fn unset_structured_is_json() {
    let mut event = Event::from("hi");
    event.insert("extra".into(), ValueKind::Bytes("x".into()));
    let expected = r#"{"message":"hi","extra":"x"}"#;
    assert_eq!(event_as_string(event.clone(), &None), Ok(expected.to_string()));
    assert_eq!(event_as_bytes(event, &None), Ok(Bytes::from(expected)));
}

#[test]
fn unset_unstructured_is_raw() {
    let event = Event::from("hi");
    assert!(!event.is_structured());
    assert_eq!(event_as_string(event.clone(), &None), Ok("hi".to_string()));
    assert_eq!(event_as_bytes(event, &None), Ok(Bytes::from("hi")));
}

#[test]
fn unset_empty_event_is_empty() {
    assert_eq!(event_as_string(Event::new(), &None), Ok(String::new()));
    assert_eq!(event_as_bytes(Event::new(), &None), Ok(Bytes::new()));
    assert_eq!(event_as_bytes_with_nl(Event::new(), &None), Ok(Bytes::from("\n")));
}

#[test]
fn text_without_message_is_empty() {
    let mut event = Event::new();
    event.insert("extra".into(), ValueKind::Bytes("x".into()));
    assert_eq!(event_as_string(event.clone(), &Some(BasicEncoding::Text)), Ok(String::new()));
    assert_eq!(event_as_bytes(event, &Some(BasicEncoding::Text)), Ok(Bytes::new()));
}

#[test]
fn json_of_empty_event() {
    assert_eq!(event_as_string(Event::new(), &Some(BasicEncoding::Json)), Ok("{}".to_string()));
}

#[test]
fn json_of_every_kind() {
    let mut event = Event::new();
    event.insert("n".into(), ValueKind::Integer(-12));
    event.insert("zero".into(), ValueKind::Integer(0));
    event.insert("min".into(), ValueKind::Integer(i64::MIN));
    event.insert("yes".into(), ValueKind::Boolean(true));
    event.insert("no".into(), ValueKind::Boolean(false));
    event.insert("text".into(), ValueKind::Bytes("t".into()));
    let expected =
        r#"{"n":-12,"zero":0,"min":-9223372036854775808,"yes":true,"no":false,"text":"t"}"#;
    assert_eq!(event_as_string(event.clone(), &None), Ok(expected.to_string()));
    let value: serde_json::Value = serde_json::from_str(expected).unwrap();
    assert_eq!(value["min"].as_i64(), Some(i64::MIN));
}

#[test]
fn json_escapes_strings() {
    let mut event = Event::from("say \"hi\"\n\\");
    event.insert("k\"ey".into(), ValueKind::Bytes("\t\u{1}é".into()));
    let text = event_as_string(event, &Some(BasicEncoding::Json)).unwrap();
    assert_eq!(text, "{\"message\":\"say \\\"hi\\\"\\n\\\\\",\"k\\\"ey\":\"\\t\\u0001é\"}");
    let value: serde_json::Value = serde_json::from_str(&text).unwrap();
    assert_eq!(value["message"].as_str(), Some("say \"hi\"\n\\"));
    assert_eq!(value["k\"ey"].as_str(), Some("\t\u{1}é"));
}

#[test]
fn json_replaces_bytes_that_are_not_text() {
    let mut event = Event::new();
    event.insert("message".into(), ValueKind::Bytes(Bytes::from(vec![0x61u8, 0xff, 0x62])));
    assert_eq!(
        event_as_string(event, &Some(BasicEncoding::Json)),
        Ok("{\"message\":\"a\u{fffd}b\"}".to_string())
    );
}

#[test]
fn json_keeps_the_place_of_an_overwritten_field() {
    let mut event = Event::from("hi");
    event.insert("extra".into(), ValueKind::Bytes("x".into()));
    event.insert("message".into(), ValueKind::Bytes("bye".into()));
    assert_eq!(
        event_as_string(event, &None),
        Ok(r#"{"message":"bye","extra":"x"}"#.to_string())
    );
}

#[test]
fn text_as_string_replaces_bytes_that_are_not_text() {
    let mut event = Event::new();
    event.insert("message".into(), ValueKind::Bytes(Bytes::from(vec![0x61u8, 0xff, 0x62])));
    assert_eq!(event_as_string(event.clone(), &None), Ok("a\u{fffd}b".to_string()));
    assert_eq!(event_as_bytes(event, &None), Ok(Bytes::from(vec![0x61u8, 0xff, 0x62])));
}

#[test]
fn text_of_a_message_that_is_a_number() {
    let mut event = Event::new();
    event.insert("message".into(), ValueKind::Integer(-7));
    assert_eq!(event_as_string(event.clone(), &None), Ok("-7".to_string()));
    assert_eq!(event_as_bytes(event, &Some(BasicEncoding::Text)), Ok(Bytes::from("-7")));
    let mut event = Event::new();
    event.insert("message".into(), ValueKind::Boolean(true));
    assert_eq!(event_as_bytes(event, &None), Ok(Bytes::from("true")));
}

#[test]
fn newline_is_appended_once() {
    for mode in modes() {
        for event in events() {
            let plain = event_as_bytes(event.clone(), &mode).unwrap();
            let with_nl = event_as_bytes_with_nl(event, &mode).unwrap();
            let mut expected = plain.to_vec();
            expected.push(b'\n');
            assert_eq!(with_nl.to_vec(), expected);
        }
    }
}

#[test]
fn string_and_bytes_agree_on_text() {
    for mode in modes() {
        for event in events() {
            let text = event_as_string(event.clone(), &mode).unwrap();
            let bytes = event_as_bytes(event, &mode).unwrap();
            assert_eq!(text.as_bytes(), &bytes[..]);
        }
    }
}

#[test]
fn structured_means_a_field_besides_message() {
    assert!(!Event::new().is_structured());
    assert!(!Event::from("hi").is_structured());
    let mut event = Event::from("hi");
    event.insert("message".into(), ValueKind::Integer(1));
    assert!(!event.is_structured());
    event.insert("messag".into(), ValueKind::Integer(1));
    assert!(event.is_structured());
}

#[test]
fn json_agrees_with_serde_json_on_sorted_fields() {
    let mut event = Event::new();
    let mut object = serde_json::Map::new();
    let fields: Vec<(&str, ValueKind, serde_json::Value)> = vec![
        ("a", ValueKind::Bytes("x\"y".into()), serde_json::Value::from("x\"y")),
        ("b", ValueKind::Integer(-5), serde_json::Value::from(-5i64)),
        ("c", ValueKind::Boolean(true), serde_json::Value::from(true)),
        ("d\u{7f}", ValueKind::Bytes("\u{0}\r/\u{2028}".into()), serde_json::Value::from("\u{0}\r/\u{2028}")),
        ("e", ValueKind::Integer(i64::MAX), serde_json::Value::from(i64::MAX)),
        ("message", ValueKind::Bytes("m".into()), serde_json::Value::from("m")),
    ];
    for (name, value, json) in fields {
        event.insert(name.to_string(), value);
        object.insert(name.to_string(), json);
    }
    let expected = serde_json::to_vec(&object).unwrap();
    assert_eq!(event_as_bytes(event.clone(), &None).unwrap().to_vec(), expected);
    assert_eq!(
        event_as_string(event, &Some(BasicEncoding::Json)).unwrap().into_bytes(),
        expected
    );
}
