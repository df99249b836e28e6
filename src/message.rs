//! The byte cursor that inbound messages are read through.

use vstd::prelude::*;

verus! {

#[verifier::external_type_specification]
#[verifier::external_body]
pub struct ExBytes(bytes::Bytes);

/// The bytes that a `Bytes` value still holds, from its read position on.
pub uninterp spec fn bytes_view(b: bytes::Bytes) -> Seq<u8>;

/// Relies on `Bytes::len`: the number of bytes held.
pub assume_specification[ bytes::Bytes::len ](b: &bytes::Bytes) -> (r: usize)
    ensures
        r == bytes_view(*b).len(),
;

/// Relies on `Bytes`'s `Deref` to `[u8]`: the byte at `i` of what is held.
#[verifier::external_body]
pub(crate) fn byte_at(b: &bytes::Bytes, i: usize) -> (r: u8)
    requires
        i < bytes_view(*b).len(),
    ensures
        r == bytes_view(*b)[i as int],
{
    b[i]
}

/// Relies on `Buf::advance` for `Bytes`: drops the first `n` bytes (it panics
/// only past the end).
#[verifier::external_body]
pub(crate) fn advance(b: &mut bytes::Bytes, n: usize)
    requires
        n <= bytes_view(*old(b)).len(),
    ensures
        bytes_view(*final(b)) == bytes_view(*old(b)).skip(n as int),
{
    bytes::Buf::advance(b, n)
}

} // verus!
