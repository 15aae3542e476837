//! Byte strings of the `bytes` crate.

use vstd::prelude::*;

verus! {

/// `bytes::Bytes`, a shared, immutable byte string.
#[verifier::external_type_specification]
#[verifier::external_body]
pub struct ExBytes(bytes::Bytes);

/// The bytes a `bytes::Bytes` holds, in order.
pub uninterp spec fn bytes_contents(data: bytes::Bytes) -> Seq<u8>;

/// Calls `From<Vec<u8>> for bytes::Bytes`. Trusted: the result holds exactly the vector's bytes.
#[verifier::external_body]
pub(crate) fn bytes_from_vec(data: Vec<u8>) -> (r: bytes::Bytes)
    ensures
        bytes_contents(r) == data@,
{
    bytes::Bytes::from(data)
}

/// Calls `bytes::Bytes::copy_from_slice`. Trusted: the result holds exactly the slice's bytes.
#[verifier::external_body]
pub(crate) fn bytes_copy_from_slice(data: &[u8]) -> (r: bytes::Bytes)
    ensures
        bytes_contents(r) == data@,
{
    bytes::Bytes::copy_from_slice(data)
}

/// Calls `AsRef<[u8]> for bytes::Bytes`. Trusted: the slice shows exactly the bytes held.
#[verifier::external_body]
pub(crate) fn bytes_as_slice(data: &bytes::Bytes) -> (r: &[u8])
    ensures
        r@ == bytes_contents(*data),
{
    data.as_ref()
}

} // verus!
