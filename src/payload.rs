//! Message payloads: `bytes::Bytes` values, carried through the service
//! unchanged.
use vstd::prelude::*;

verus! {

/// Declares `bytes::Bytes` so that payloads can stand in the library's types.
#[verifier::external_type_specification]
#[verifier::external_body]
pub struct ExBytes(bytes::Bytes);

/// The bytes that a `Bytes` value holds.
pub uninterp spec fn bytes_content(b: bytes::Bytes) -> Seq<u8>;

/// Relies on `<bytes::Bytes as Clone>::clone`: the clone shares the same
/// buffer, so it holds the same bytes.
pub assume_specification[ <bytes::Bytes as Clone>::clone ](b: &bytes::Bytes) -> (r: bytes::Bytes)
    ensures
        bytes_content(r) == bytes_content(*b),
;

} // verus!
