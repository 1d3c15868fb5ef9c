//! How a sink writes an event: as one JSON object, or as the raw log line.

use crate::buffer::bytes_contents;
use crate::event::{entries_map, message_key, structured, value_bytes, value_text, Event, ValueModel};
use crate::json::{encode_object, object_text};
use crate::text::string_from_utf8;
use bytes::Bytes;
use core::ops::Deref;
use vstd::prelude::*;
use vstd::slice::slice_to_vec;
use vstd::utf8::{decode_utf8, decode_utf8_encode_utf8, encode_utf8, valid_utf8};

verus! {

/// The encoding that a sink is configured with.
#[derive(Debug, Clone, Copy, PartialEq, Eq)]
pub enum BasicEncoding {
    Text,
    Json,
}

/// Why an event could not be encoded.
#[derive(Debug, Clone, Copy, PartialEq, Eq)]
pub enum EncodeFailure {
    /// The JSON serializer failed.
    Serialization,
    /// What the JSON serializer wrote is not UTF-8.
    InvalidUtf8,
}

/// Is the event written as an object? With `Json` always, with `Text` never,
/// and without an encoding exactly if it has a field besides `message`.
pub open spec fn as_object(
    encoding: Option<BasicEncoding>,
    entries: Seq<(Seq<char>, ValueModel)>,
) -> bool {
    match encoding {
        Some(BasicEncoding::Json) => true,
        Some(BasicEncoding::Text) => false,
        None => structured(entries),
    }
}

/// The bytes of the `message` field, none where the event lacks it.
pub open spec fn message_bytes(event: Map<Seq<char>, ValueModel>) -> Seq<u8> {
    if event.contains_key(message_key()) {
        value_bytes(event[message_key()])
    } else {
        Seq::empty()
    }
}

/// The text of the `message` field, empty where the event lacks it.
pub open spec fn message_text(event: Map<Seq<char>, ValueModel>) -> Seq<char> {
    if event.contains_key(message_key()) {
        value_text(event[message_key()])
    } else {
        Seq::empty()
    }
}

/// The bytes that an event is written as.
pub open spec fn encoded(
    encoding: Option<BasicEncoding>,
    entries: Seq<(Seq<char>, ValueModel)>,
) -> Seq<u8> {
    if as_object(encoding, entries) {
        object_text(entries)
    } else {
        message_bytes(entries_map(entries))
    }
}

/// The decision table: with `Json` an event is written as the object of all
/// its fields; with `Text` as the bytes of its `message` field, whatever else
/// it holds; without an encoding as the object where it has a field besides
/// `message`, and as the bytes of `message` where it has none.
pub proof fn lemma_decision_table(entries: Seq<(Seq<char>, ValueModel)>)
    ensures
        encoded(Some(BasicEncoding::Json), entries) == object_text(entries),
        encoded(Some(BasicEncoding::Text), entries) == message_bytes(entries_map(entries)),
        structured(entries) ==> encoded(None, entries) == object_text(entries),
        !structured(entries) ==> encoded(None, entries) == message_bytes(entries_map(entries)),
        !entries_map(entries).contains_key(message_key()) ==> message_bytes(entries_map(entries))
            == Seq::<u8>::empty(),
{
}

/// The bytes that an event is written as where a line feed is asked for behind
/// them.
pub open spec fn encoded_with_newline(
    encoding: Option<BasicEncoding>,
    entries: Seq<(Seq<char>, ValueModel)>,
) -> Seq<u8> {
    encoded(encoding, entries).push(0x0Au8)
}

/// With a line feed asked for, an event is written as it is without, and one
/// line feed behind that, whatever the encoding and the event.
pub proof fn lemma_newline_is_appended(
    encoding: Option<BasicEncoding>,
    entries: Seq<(Seq<char>, ValueModel)>,
)
    ensures
        encoded_with_newline(encoding, entries) == encoded(encoding, entries) + seq![0x0Au8],
        encoded_with_newline(encoding, entries).len() == encoded(encoding, entries).len() + 1,
        encoded_with_newline(encoding, entries).drop_last() == encoded(encoding, entries),
        encoded_with_newline(encoding, entries).last() == 0x0Au8,
{
    let plain = encoded(encoding, entries);
    assert(plain.push(0x0Au8) =~= plain + seq![0x0Au8]);
    assert(plain.push(0x0Au8).drop_last() =~= plain);
}

/// Is the event written as an object?
fn writes_object(event: &Event, encoding: &Option<BasicEncoding>) -> (r: bool)
    ensures
        r == as_object(*encoding, event.entries()),
{
    match encoding {
        Some(BasicEncoding::Json) => true,
        Some(BasicEncoding::Text) => false,
        None => event.is_structured(),
    }
}

/// The text that the serializer's bytes stand for.
pub fn text_of_encoded(encoded: Result<Vec<u8>, EncodeFailure>) -> (r: Result<
    String,
    EncodeFailure,
>)
    ensures
        match encoded {
            Ok(bytes) => if valid_utf8(bytes@) {
                r is Ok && r->Ok_0@ == decode_utf8(bytes@)
            } else {
                r == Err::<String, EncodeFailure>(EncodeFailure::InvalidUtf8)
            },
            Err(e) => r == Err::<String, EncodeFailure>(e),
        },
{
    match encoded {
        Ok(bytes) => match string_from_utf8(bytes) {
            Some(text) => Ok(text),
            None => Err(EncodeFailure::InvalidUtf8),
        },
        Err(e) => Err(e),
    }
}

/// The event as text. This does not fail.
///
/// An event that is not written as an object gives the text of its `message`
/// field. One that is gives the JSON object of all fields. Where the bytes
/// that [`event_as_bytes`] gives are valid UTF-8, the text is what they encode.
pub fn event_as_string(event: Event, encoding: &Option<BasicEncoding>) -> (r: Result<
    String,
    EncodeFailure,
>)
    ensures
        r is Ok,
        !as_object(*encoding, event.entries()) ==> r->Ok_0@ == message_text(event@),
        as_object(*encoding, event.entries()) ==> valid_utf8(object_text(event.entries())),
        valid_utf8(encoded(*encoding, event.entries())) ==> r->Ok_0@ == decode_utf8(
            encoded(*encoding, event.entries()),
        ) && encode_utf8(r->Ok_0@) == encoded(*encoding, event.entries()),
{
    proof {
        if valid_utf8(encoded(*encoding, event.entries())) {
            decode_utf8_encode_utf8(encoded(*encoding, event.entries()));
        }
    }
    if writes_object(&event, encoding) {
        text_of_encoded(encode_object(event.all_fields()))
    } else {
        match event.get("message") {
            Some(value) => Ok(value.to_string_lossy()),
            None => Ok(String::new()),
        }
    }
}

/// The event as bytes: see [`encoded`]. This does not fail.
fn event_as_raw_bytes(event: Event, encoding: &Option<BasicEncoding>) -> (r: Result<
    Vec<u8>,
    EncodeFailure,
>)
    ensures
        r matches Ok(bytes) && bytes@ == encoded(*encoding, event.entries()),
{
    if writes_object(&event, encoding) {
        encode_object(event.all_fields())
    } else {
        match event.get("message") {
            Some(value) => {
                let bytes = value.as_bytes();
                Ok(slice_to_vec(bytes.deref()))
            },
            None => Ok(Vec::new()),
        }
    }
}

/// The event as bytes. This does not fail.
///
/// An event that is not written as an object gives the bytes of its `message`
/// field, none where it lacks the field. One that is gives the JSON object of
/// all fields.
pub fn event_as_bytes(event: Event, encoding: &Option<BasicEncoding>) -> (r: Result<
    Bytes,
    EncodeFailure,
>)
    ensures
        r matches Ok(bytes) && bytes_contents(bytes) == encoded(*encoding, event.entries()),
{
    match event_as_raw_bytes(event, encoding) {
        Ok(bytes) => Ok(Bytes::from(bytes)),
        Err(e) => Err(e),
    }
}

/// The event as bytes, as [`event_as_bytes`] gives them, with one line feed
/// behind them. This does not fail.
pub fn event_as_bytes_with_nl(event: Event, encoding: &Option<BasicEncoding>) -> (r: Result<
    Bytes,
    EncodeFailure,
>)
    ensures
        r matches Ok(bytes) && bytes_contents(bytes) == encoded_with_newline(
            *encoding,
            event.entries(),
        ),
{
    match event_as_raw_bytes(event, encoding) {
        Ok(bytes) => {
            let mut bytes = bytes;
            bytes.push(0x0A);
            Ok(Bytes::from(bytes))
        },
        Err(e) => Err(e),
    }
}

} // verus!
