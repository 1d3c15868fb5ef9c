//! Events as JSON objects.
//!
//! An object is written here, member by member, in the order of the fields.
//! Strings, with their escapes, are written by `serde_json`.

use crate::encoding::EncodeFailure;
use crate::event::{false_text, true_text, Field, ValueKind, ValueModel};
use crate::text::{
    decimal_text, extend_bytes, format_integer, lemma_ascii_is_utf8, lemma_decimal_text_is_ascii,
    lossy_text, utf8_lossy,
};
use core::ops::Deref;
use vstd::prelude::*;
use vstd::utf8::{valid_utf8, valid_utf8_concat};

verus! {

/// The type `serde_json::Error`. The library only tells it apart from success.
#[verifier::external_type_specification]
#[verifier::external_body]
pub struct ExJsonError(serde_json::Error);

/// The JSON string literal for the text `s`, quotes and escapes included, as
/// `serde_json` writes it.
pub uninterp spec fn quoted_text(s: Seq<char>) -> Seq<u8>;

/// `serde_json::to_vec` on a string slice. Not proved: it succeeds, since a
/// string is written into a vector and only the writer could fail; what it
/// returns is the JSON string literal for that text, a function of the text
/// alone, and it is valid UTF-8.
#[verifier::external_body]
pub(crate) fn quote(s: &str) -> (r: Result<Vec<u8>, serde_json::Error>)
    ensures
        r is Ok,
        r->Ok_0@ == quoted_text(s@),
        valid_utf8(r->Ok_0@),
{
    serde_json::to_vec(s)
}

/// The JSON text of one value: a string literal for bytes, read as text; the
/// decimal number; `true` or `false`.
pub open spec fn scalar_text(v: ValueModel) -> Seq<u8> {
    match v {
        ValueModel::Bytes(b) => quoted_text(lossy_text(b)),
        ValueModel::Integer(i) => decimal_text(i as int),
        ValueModel::Boolean(b) => if b {
            true_text()
        } else {
            false_text()
        },
    }
}

/// The JSON text of one member: the name as a string literal, a colon, the value.
pub open spec fn member_text(entry: (Seq<char>, ValueModel)) -> Seq<u8> {
    quoted_text(entry.0) + seq![0x3Au8] + scalar_text(entry.1)
}

/// The JSON text of the members in order, with a comma between each two.
pub open spec fn members_text(entries: Seq<(Seq<char>, ValueModel)>) -> Seq<u8>
    decreases entries.len(),
{
    if entries.len() == 0 {
        seq![]
    } else if entries.len() == 1 {
        member_text(entries[0])
    } else {
        members_text(entries.drop_last()) + seq![0x2Cu8] + member_text(entries.last())
    }
}

/// The JSON text of an object with the members `entries`, without any space.
pub open spec fn object_text(entries: Seq<(Seq<char>, ValueModel)>) -> Seq<u8> {
    seq![0x7Bu8] + members_text(entries) + seq![0x7Du8]
}

/// Appends what the serializer wrote to `out`, or reports that it failed and
/// leaves `out` as it was.
pub fn append_encoded(out: &mut Vec<u8>, encoded: Result<Vec<u8>, serde_json::Error>) -> (r:
    Result<(), EncodeFailure>)
    ensures
        match encoded {
            Ok(text) => r is Ok && final(out)@ == old(out)@ + text@,
            Err(_) => r == Err::<(), EncodeFailure>(EncodeFailure::Serialization) && final(out)@
                == old(out)@,
        },
{
    match encoded {
        Ok(text) => {
            extend_bytes(out, text.as_slice());
            Ok(())
        },
        Err(_) => Err(EncodeFailure::Serialization),
    }
}

/// Appends the JSON text of `value` to `out`. This does not fail.
pub fn append_scalar(out: &mut Vec<u8>, value: &ValueKind) -> (r: Result<(), EncodeFailure>)
    ensures
        r is Ok,
        final(out)@ == old(out)@ + scalar_text(value@),
        valid_utf8(old(out)@) ==> valid_utf8(final(out)@),
{
    match value {
        ValueKind::Bytes(b) => {
            let text = utf8_lossy(b.deref());
            let quoted = quote(text.as_str());
            proof {
                if valid_utf8(old(out)@) {
                    valid_utf8_concat(old(out)@, quoted->Ok_0@);
                }
            }
            append_encoded(out, quoted)
        },
        ValueKind::Integer(i) => {
            let digits = format_integer(*i);
            proof {
                lemma_decimal_text_is_ascii(*i as int);
                lemma_ascii_is_utf8(digits@);
                if valid_utf8(old(out)@) {
                    valid_utf8_concat(old(out)@, digits@);
                }
            }
            extend_bytes(out, digits.as_slice());
            Ok(())
        },
        ValueKind::Boolean(b) => {
            let word: Vec<u8> = if *b {
                vec![0x74u8, 0x72u8, 0x75u8, 0x65u8]
            } else {
                vec![0x66u8, 0x61u8, 0x6Cu8, 0x73u8, 0x65u8]
            };
            assert(*b ==> word@ =~= true_text());
            assert(!*b ==> word@ =~= false_text());
            proof {
                lemma_ascii_is_utf8(word@);
                if valid_utf8(old(out)@) {
                    valid_utf8_concat(old(out)@, word@);
                }
            }
            extend_bytes(out, word.as_slice());
            Ok(())
        },
    }
}

/// Appends the JSON text of one member to `out`. This does not fail.
pub fn append_member(out: &mut Vec<u8>, field: &Field) -> (r: Result<(), EncodeFailure>)
    ensures
        r is Ok,
        final(out)@ == old(out)@ + member_text(field@),
        valid_utf8(old(out)@) ==> valid_utf8(final(out)@),
{
    let quoted = quote(field.key.as_str());
    proof {
        if valid_utf8(old(out)@) {
            valid_utf8_concat(old(out)@, quoted->Ok_0@);
        }
    }
    match append_encoded(out, quoted) {
        Err(e) => {
            return Err(e);
        },
        Ok(_) => {},
    }
    proof {
        lemma_push_ascii(out@, 0x3A);
    }
    out.push(0x3A);
    let r = append_scalar(out, &field.value);
    assert(out@ =~= old(out)@ + member_text(field@));
    r
}

/// Valid UTF-8 with an ASCII character behind it is valid UTF-8.
proof fn lemma_push_ascii(s: Seq<u8>, b: u8)
    requires
        b <= 0x7F,
    ensures
        valid_utf8(s) ==> valid_utf8(s.push(b)),
{
    if valid_utf8(s) {
        lemma_ascii_is_utf8(seq![b]);
        valid_utf8_concat(s, seq![b]);
        assert(s.push(b) =~= s + seq![b]);
    }
}

/// The fields as one JSON object, in their order. The bytes are valid UTF-8.
/// This does not fail.
pub fn encode_object(fields: &Vec<Field>) -> (r: Result<Vec<u8>, EncodeFailure>)
    ensures
        r matches Ok(text) && text@ == object_text(fields@.map_values(|f: Field| f@))
            && valid_utf8(text@),
{
    let ghost entries = fields@.map_values(|f: Field| f@);
    let mut out: Vec<u8> = Vec::new();
    proof {
        lemma_push_ascii(out@, 0x7B);
    }
    out.push(0x7B);
    let mut i: usize = 0;
    while i < fields.len()
        invariant
            i <= fields.len(),
            entries == fields@.map_values(|f: Field| f@),
            out@ == seq![0x7Bu8] + members_text(entries.subrange(0, i as int)),
            valid_utf8(out@),
        decreases fields.len() - i,
    {
        let ghost before = entries.subrange(0, i as int);
        let ghost now = entries.subrange(0, i + 1);
        assert(now.drop_last() =~= before);
        assert(now.last() == fields[i as int]@);
        if i > 0 {
            proof {
                lemma_push_ascii(out@, 0x2C);
            }
            out.push(0x2C);
        }
        match append_member(&mut out, &fields[i]) {
            Err(e) => {
                return Err(e);
            },
            Ok(_) => {},
        }
        assert(out@ =~= seq![0x7Bu8] + members_text(now));
        i += 1;
    }
    assert(entries.subrange(0, i as int) =~= entries);
    proof {
        lemma_push_ascii(out@, 0x7D);
    }
    out.push(0x7D);
    Ok(out)
}

} // verus!
