//! Trusted view of `bytes::Bytes`, the shared byte string in which field values,
//! templates and encoded events are held.
//!
//! Nothing in this file is proved. Each item states what the `bytes` crate does,
//! and the rest of the library is verified against these statements.

use core::ops::Deref;
use vstd::prelude::*;

verus! {

/// The type `bytes::Bytes`. The verifier treats a value of it as opaque and
/// learns what it holds through [`bytes_contents`] only.
#[verifier::external_type_specification]
#[verifier::external_body]
pub struct ExBytes(bytes::Bytes);

/// The bytes that a `Bytes` value holds, in order.
pub uninterp spec fn bytes_contents(b: bytes::Bytes) -> Seq<u8>;

/// `<Bytes as From<Vec<u8>>>::from`: the new value takes over the vector's
/// buffer, so it holds exactly the vector's bytes.
pub assume_specification[ <bytes::Bytes as From<Vec<u8>>>::from ](v: Vec<u8>) -> (b: bytes::Bytes)
    ensures
        bytes_contents(b) == v@,
;

/// `<Bytes as Deref>::deref`: the slice that is handed out covers exactly the
/// bytes held.
pub assume_specification[ <bytes::Bytes as Deref>::deref ](b: &bytes::Bytes) -> (s: &[u8])
    ensures
        s@ == bytes_contents(*b),
;

/// `<Bytes as Clone>::clone`: the clone is a second handle on the same bytes.
pub assume_specification[ <bytes::Bytes as Clone>::clone ](b: &bytes::Bytes) -> (r: bytes::Bytes)
    ensures
        bytes_contents(r) == bytes_contents(*b),
;

} // verus!
