//! Trusted boundary around the byte buffer of the `bytes` crate.
//!
//! Pages hold their bytes in a `bytes::BytesMut`. The buffer is opaque
//! here; `buf_bytes` names its contents, and the three wrappers state
//! what the crate's operations do to them.

use vstd::prelude::*;

use bytes::BytesMut;

verus! {

#[verifier::external_type_specification]
#[verifier::external_body]
pub struct ExBytesMut(BytesMut);

/// The bytes a buffer holds, in order.
pub uninterp spec fn buf_bytes(b: BytesMut) -> Seq<u8>;

/// Relies on `BytesMut::new`: a fresh buffer holds no bytes.
#[verifier::external_body]
pub(crate) fn buf_new() -> (b: BytesMut)
    ensures
        buf_bytes(b) == Seq::<u8>::empty(),
{
    BytesMut::new()
}

/// Relies on `BytesMut::extend_from_slice`: appends the bytes of `src`
/// after the bytes already held.
#[verifier::external_body]
pub(crate) fn buf_extend(b: &mut BytesMut, src: &Vec<u8>)
    ensures
        buf_bytes(*final(b)) == buf_bytes(*old(b)) + src@,
{
    b.extend_from_slice(src)
}

/// Relies on the slice borrow of `BytesMut` (its `Deref` to `[u8]`):
/// copies the bytes in `[from, to)` out into a fresh vector.
#[verifier::external_body]
pub(crate) fn buf_to_vec(b: &BytesMut, from: usize, to: usize) -> (r: Vec<u8>)
    requires
        from <= to <= buf_bytes(*b).len(),
    ensures
        r@ == buf_bytes(*b).subrange(from as int, to as int),
{
    b[from..to].to_vec()
}

} // verus!
