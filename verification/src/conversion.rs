//! The kinds that a field value can be coerced to, and the conversions.

use crate::event::{false_text, true_text, value_bytes, ValueKind, ValueModel};
use crate::text::{
    ascii_lowercase, bytes_eq, parse_integer, parsed_integer, str_eq, to_ascii_lowercase,
};
use core::ops::Deref;
use vstd::prelude::*;

verus! {

/// The kind that a field is coerced to.
#[derive(Debug, Clone, Copy, PartialEq, Eq)]
pub enum Conversion {
    Bytes,
    Integer,
    Boolean,
}

/// Why a value could not be converted.
#[derive(Debug, Clone, Copy, PartialEq, Eq)]
pub enum ConversionError {
    /// The bytes are not the decimal text of a 64-bit integer.
    InvalidInteger,
    /// The bytes are neither a word for true or false nor an integer.
    InvalidBoolean,
}

/// The kind that a type name of the configuration stands for, if it is known.
pub open spec fn conversion_named(name: Seq<char>) -> Option<Conversion> {
    if name == "asis"@ || name == "bytes"@ || name == "string"@ {
        Some(Conversion::Bytes)
    } else if name == "int"@ || name == "integer"@ {
        Some(Conversion::Integer)
    } else if name == "bool"@ || name == "boolean"@ {
        Some(Conversion::Boolean)
    } else {
        None
    }
}

/// Is `s` one of the words `true`, `t`, `yes`, `y`?
pub open spec fn is_true_word(s: Seq<u8>) -> bool {
    ||| s == true_text()
    ||| s == seq![0x74u8]
    ||| s == seq![0x79u8, 0x65u8, 0x73u8]
    ||| s == seq![0x79u8]
}

/// Is `s` one of the words `false`, `f`, `no`, `n`?
pub open spec fn is_false_word(s: Seq<u8>) -> bool {
    ||| s == false_text()
    ||| s == seq![0x66u8]
    ||| s == seq![0x6Eu8, 0x6Fu8]
    ||| s == seq![0x6Eu8]
}

/// The truth value that `s` stands for: a word for true or for false, in
/// either case of letters, or an integer, where zero is false and every other
/// number is true. `None` for every other byte string.
pub open spec fn parsed_boolean(s: Seq<u8>) -> Option<bool> {
    if is_true_word(ascii_lowercase(s)) {
        Some(true)
    } else if is_false_word(ascii_lowercase(s)) {
        Some(false)
    } else {
        match parsed_integer(s) {
            Some(n) => Some(n != 0),
            None => None,
        }
    }
}

/// What a conversion makes of a value. Every conversion starts from the value
/// as bytes.
pub open spec fn converted(kind: Conversion, value: ValueModel) -> Result<
    ValueModel,
    ConversionError,
> {
    match kind {
        Conversion::Bytes => Ok(ValueModel::Bytes(value_bytes(value))),
        Conversion::Integer => match parsed_integer(value_bytes(value)) {
            Some(i) => Ok(ValueModel::Integer(i)),
            None => Err(ConversionError::InvalidInteger),
        },
        Conversion::Boolean => match parsed_boolean(value_bytes(value)) {
            Some(b) => Ok(ValueModel::Boolean(b)),
            None => Err(ConversionError::InvalidBoolean),
        },
    }
}

/// Is `s` one of the words `true`, `t`, `yes`, `y`?
fn true_word(s: &[u8]) -> (r: bool)
    ensures
        r == is_true_word(s@),
{
    let long: Vec<u8> = vec![0x74u8, 0x72u8, 0x75u8, 0x65u8];
    let short: Vec<u8> = vec![0x74u8];
    let yes: Vec<u8> = vec![0x79u8, 0x65u8, 0x73u8];
    let y: Vec<u8> = vec![0x79u8];
    assert(long@ =~= true_text());
    assert(short@ =~= seq![0x74u8]);
    assert(yes@ =~= seq![0x79u8, 0x65u8, 0x73u8]);
    assert(y@ =~= seq![0x79u8]);
    bytes_eq(s, long.as_slice()) || bytes_eq(s, short.as_slice()) || bytes_eq(s, yes.as_slice())
        || bytes_eq(s, y.as_slice())
}

/// Is `s` one of the words `false`, `f`, `no`, `n`?
fn false_word(s: &[u8]) -> (r: bool)
    ensures
        r == is_false_word(s@),
{
    let long: Vec<u8> = vec![0x66u8, 0x61u8, 0x6Cu8, 0x73u8, 0x65u8];
    let short: Vec<u8> = vec![0x66u8];
    let no: Vec<u8> = vec![0x6Eu8, 0x6Fu8];
    let n: Vec<u8> = vec![0x6Eu8];
    assert(long@ =~= false_text());
    assert(short@ =~= seq![0x66u8]);
    assert(no@ =~= seq![0x6Eu8, 0x6Fu8]);
    assert(n@ =~= seq![0x6Eu8]);
    bytes_eq(s, long.as_slice()) || bytes_eq(s, short.as_slice()) || bytes_eq(s, no.as_slice())
        || bytes_eq(s, n.as_slice())
}

/// The truth value that `s` stands for, if it stands for one.
pub fn parse_boolean(s: &[u8]) -> (r: Option<bool>)
    ensures
        r == parsed_boolean(s@),
{
    let lower = to_ascii_lowercase(s);
    if true_word(lower.as_slice()) {
        Some(true)
    } else if false_word(lower.as_slice()) {
        Some(false)
    } else {
        match parse_integer(s) {
            Some(n) => Some(n != 0),
            None => None,
        }
    }
}

impl Conversion {
    /// The kind that the type name `name` stands for, if it is known.
    pub fn from_name(name: &str) -> (r: Option<Conversion>)
        ensures
            r == conversion_named(name@),
    {
        if str_eq(name, "asis") || str_eq(name, "bytes") || str_eq(name, "string") {
            Some(Conversion::Bytes)
        } else if str_eq(name, "int") || str_eq(name, "integer") {
            Some(Conversion::Integer)
        } else if str_eq(name, "bool") || str_eq(name, "boolean") {
            Some(Conversion::Boolean)
        } else {
            None
        }
    }

    /// Converts `value` to this kind.
    pub fn convert(&self, value: ValueKind) -> (r: Result<ValueKind, ConversionError>)
        ensures
            match r {
                Ok(v) => converted(*self, value@) == Ok::<ValueModel, ConversionError>(v@),
                Err(e) => converted(*self, value@) == Err::<ValueModel, ConversionError>(e),
            },
    {
        let bytes = value.as_bytes();
        match self {
            Conversion::Bytes => Ok(ValueKind::Bytes(bytes)),
            Conversion::Integer => match parse_integer(bytes.deref()) {
                Some(i) => Ok(ValueKind::Integer(i)),
                None => Err(ConversionError::InvalidInteger),
            },
            Conversion::Boolean => match parse_boolean(bytes.deref()) {
                Some(b) => Ok(ValueKind::Boolean(b)),
                None => Err(ConversionError::InvalidBoolean),
            },
        }
    }
}

} // verus!
