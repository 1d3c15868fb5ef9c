use bytes::Bytes;
use event_stages::event::{Event, ValueKind};
use event_stages::interpolation::{interpolate, partition, Partition};

fn key(field: &Partition) -> String {
    match field {
        Partition::Field(_, _, key) => key.clone(),
        Partition::Static(_) => panic!("Static partitions don't have keys"),
    }
}

fn event_with(fields: &[(&str, &'static str)]) -> Event {
    let mut event = Event::new();
    for &(name, value) in fields {
        event.insert(name.to_string(), ValueKind::Bytes(Bytes::from(value)));
    }
    event
}

#[test]
fn interpolate_static() {
    if let Partition::Static(key) = interpolate("static_text").unwrap() {
        assert_eq!(key, "static_text".to_string());
    } else {
        panic!("Expected Partition::Static");
    }
}

#[test]
fn interpolate_event() {
    let result1 = interpolate("{{some_key}}");
    let result2 = interpolate("prefix{{some_key}}");
    let result3 = interpolate("{{some_key}}suffix");
    let result4 = interpolate("prefix{{some_key}}suffix");

    assert_eq!(result1.as_ref().map(key), result2.as_ref().map(key));
    assert_eq!(result2.as_ref().map(key), result3.as_ref().map(key));
    assert_eq!(result3.as_ref().map(key), result4.as_ref().map(key));

    if let Partition::Field(_, _, key) = result1.unwrap() {
        assert_eq!(key, "some_key".to_string());
    } else {
        panic!("Expected Partition::Field");
    }
}

#[test]
fn interpolate_event_multiple() {
    // Both names hold a digit, so the grammar admits neither placeholder.
    match interpolate("{{key1}} {{key2}}").unwrap() {
        Partition::Static(text) => assert_eq!(text, "{{key1}} {{key2}}".to_string()),
        Partition::Field(_, _, key) => panic!("Expected Partition::Static, found the key {}", key),
    }
}

#[test]
fn interpolate_keeps_the_template() {
    match interpolate("prefix{{some_key}}suffix").unwrap() {
        Partition::Field(_, source, _) => assert_eq!(source, "prefix{{some_key}}suffix".to_string()),
        Partition::Static(_) => panic!("Expected Partition::Field"),
    }
}

#[test]
fn interpolate_rejects_empty_name() {
    assert!(matches!(interpolate("{{}}").unwrap(), Partition::Static(_)));
    assert!(matches!(interpolate("").unwrap(), Partition::Static(_)));
    assert!(matches!(interpolate("{{a}").unwrap(), Partition::Static(_)));
    assert!(matches!(interpolate("{a}}").unwrap(), Partition::Static(_)));
}

#[test]
fn interpolate_rejects_a_digit_anywhere_in_the_name() {
    assert!(matches!(interpolate("{{0}}").unwrap(), Partition::Static(_)));
    assert!(matches!(interpolate("{{a9b}}").unwrap(), Partition::Static(_)));
    assert!(matches!(interpolate("{{ab9}}").unwrap(), Partition::Static(_)));
}

#[test]
fn interpolate_takes_the_longest_placeholder() {
    assert_eq!(key(&interpolate("{{a}} {{b}}").unwrap()), "a}} {{b");
    assert_eq!(key(&interpolate("{{k}}}}").unwrap()), "k}}");
    assert_eq!(key(&interpolate("{{{k}}").unwrap()), "{k");
}

#[test]
fn interpolate_takes_the_first_placeholder() {
    assert_eq!(key(&interpolate("{{a}}1{{b}}").unwrap()), "a");
    assert_eq!(key(&interpolate("{{a1}}{{b}}").unwrap()), "b");
}

#[test]
fn interpolate_keeps_names_that_are_not_ascii() {
    assert_eq!(key(&interpolate("x{{clé}}y").unwrap()), "clé");
    assert_eq!(key(&interpolate("{{٣}}").unwrap()), "٣");
}

#[test]
fn partition_static_copies_the_bytes() {
    let stream = interpolate("static_text").unwrap();
    assert_eq!(partition(Event::new(), &stream), Some(Bytes::from("static_text")));
    assert_eq!(partition(event_with(&[("a", "b")]), &stream), Some(Bytes::from("static_text")));
}

#[test]
fn partition_substitutes_the_field() {
    let stream = interpolate("prefix-{{some_key}}-suffix").unwrap();
    let event = event_with(&[("message", "m"), ("some_key", "value")]);
    assert_eq!(partition(event, &stream), Some(Bytes::from("prefix-value-suffix")));
}

#[test]
fn partition_substitutes_at_every_match() {
    let stream = interpolate("{{a}}1{{b}}2").unwrap();
    let event = event_with(&[("a", "x"), ("b", "y")]);
    assert_eq!(partition(event, &stream), Some(Bytes::from("x1x2")));
}

#[test]
fn partition_substitutes_bytes_that_are_not_text() {
    let stream = interpolate("a{{k}}b").unwrap();
    let mut event = Event::new();
    event.insert("k".to_string(), ValueKind::Bytes(Bytes::from(vec![0xffu8, 0x00, 0x7b])));
    assert_eq!(partition(event, &stream), Some(Bytes::from(vec![0x61u8, 0xff, 0x00, 0x7b, 0x62])));
}

#[test]
fn partition_substitutes_numbers_and_truth_values_as_text() {
    let stream = interpolate("n={{n}}").unwrap();
    let mut event = Event::new();
    event.insert("n".to_string(), ValueKind::Integer(-42));
    assert_eq!(partition(event, &stream), Some(Bytes::from("n=-42")));
    let mut event = Event::new();
    event.insert("n".to_string(), ValueKind::Boolean(false));
    assert_eq!(partition(event, &stream), Some(Bytes::from("n=false")));
}

#[test]
fn partition_does_not_rescan_the_value() {
    let stream = interpolate("{{k}}").unwrap();
    let event = event_with(&[("k", "{{k}}")]);
    assert_eq!(partition(event, &stream), Some(Bytes::from("{{k}}")));
}

#[test]
fn partition_without_the_field_gives_nothing() {
    let stream = interpolate("prefix{{some_key}}").unwrap();
    assert_eq!(partition(Event::new(), &stream), None);
    assert_eq!(partition(Event::from("line"), &stream), None);
    assert_eq!(partition(event_with(&[("some_ke", "v"), ("some_key2", "v")]), &stream), None);
}

#[test]
fn partition_is_well_formed_after_interpolate() {
    assert!(interpolate("{{a}}1{{b}}").unwrap().is_well_formed());
    assert!(interpolate("plain").unwrap().is_well_formed());
    assert!(interpolate("{{a}}").unwrap().clone().is_well_formed());
}

#[test]
fn partition_with_a_foreign_matcher_is_not_well_formed() {
    let (matcher, key) = match interpolate("{{a}}").unwrap() {
        Partition::Field(matcher, _, key) => (matcher, key),
        Partition::Static(_) => panic!("Expected Partition::Field"),
    };
    let stream = Partition::Field(matcher, Bytes::from("x{{a}}"), key);
    assert!(!stream.is_well_formed());
}

fn reference_pattern() -> regex::bytes::Regex {
    regex::bytes::Regex::new(r"\{\{(?P<key>[^0-9]+)\}\}").unwrap()
}

fn reference_key(pattern: &regex::bytes::Regex, template: &str) -> Option<String> {
    pattern
        .captures(template.as_bytes())
        .and_then(|cap| cap.name("key").map(|m| m.as_bytes().to_vec()))
        .map(|name| String::from_utf8(name).unwrap())
}

fn reference_partition(pattern: &regex::bytes::Regex, template: &str, value: &[u8]) -> Vec<u8> {
    pattern
        .replace_all(template.as_bytes(), regex::bytes::NoExpand(value))
        .into_owned()
}

fn templates(alphabet: &[char], longest: usize) -> Vec<String> {
    let mut all = vec![String::new()];
    let mut last = vec![String::new()];
    for _ in 0..longest {
        let mut next = Vec::new();
        for text in &last {
            for c in alphabet {
                let mut longer = text.clone();
                longer.push(*c);
                next.push(longer);
            }
        }
        all.extend(next.iter().cloned());
        last = next;
    }
    all
}

fn check_against_reference(pattern: &regex::bytes::Regex, template: &str) {
    let stream = interpolate(template).unwrap();
    assert!(stream.is_well_formed(), "{:?}", template);
    match (&stream, reference_key(pattern, template)) {
        (Partition::Static(source), None) => assert_eq!(source, template),
        (Partition::Field(_, source, key), Some(expected)) => {
            assert_eq!(source, template);
            assert_eq!(key, &expected, "{:?}", template);
            let event = event_with_value(key, "<v>");
            assert_eq!(
                partition(event, &stream).unwrap().to_vec(),
                reference_partition(pattern, template, b"<v>"),
                "{:?}",
                template
            );
        }
        (found, expected) => panic!("{:?}: {:?} but expected key {:?}", template, found, expected),
    }
}

fn event_with_value(key: &str, value: &'static str) -> Event {
    let mut event = Event::new();
    event.insert(key.to_string(), ValueKind::Bytes(Bytes::from(value)));
    event
}

#[test]
fn interpolate_agrees_with_a_regular_expression_on_short_templates() {
    let pattern = reference_pattern();
    for template in templates(&['{', '}', 'a', '1'], 6) {
        check_against_reference(&pattern, &template);
    }
}

#[test]
fn interpolate_agrees_with_a_regular_expression_on_longer_templates() {
    for template in [
        "{{some_key}}",
        "prefix{{some_key}}suffix",
        "{{key1}} {{key2}}",
        "{{a}}{{b}}{{c}}",
        "{{a}}0{{b}}0{{c}}",
        "x{{a}}1}}{{b}}2{{{{c}}}}",
        "{{é}}9{{日本}}",
        "{{\n}}",
        "{{a b}} 7 {{c\td}}",
        "}}{{a}}{{",
        "{{{{{{{{{{",
        "{{a}}}}}}}}}}",
    ] {
        check_against_reference(&reference_pattern(), template);
    }
}
