//! Shared byte buffers.
//!
//! Piece data travels in `bytes::Bytes`, whose copies and slices share one
//! allocation. What a buffer holds is `blob(b)`; every operation used here is
//! stated over it.
use bytes::Bytes;
use vstd::prelude::*;

verus! {

/// `bytes::Bytes`: an immutable byte buffer with shared ownership.
#[verifier::external_type_specification]
#[verifier::external_body]
pub struct ExBytes(Bytes);

/// The bytes that a buffer holds.
pub uninterp spec fn blob(b: Bytes) -> Seq<u8>;

/// `Bytes::from(Vec<u8>)` takes the vector over: the buffer holds its bytes.
#[verifier::external_body]
pub(crate) fn blob_from_vec(v: Vec<u8>) -> (r: Bytes)
    ensures
        blob(r) == v@,
{
    Bytes::from(v)
}

/// `Bytes::copy_from_slice` makes a buffer that holds the bytes of the slice.
#[verifier::external_body]
pub(crate) fn blob_copy(s: &[u8]) -> (r: Bytes)
    ensures
        blob(r) == s@,
{
    Bytes::copy_from_slice(s)
}

/// `Bytes::clone` makes a second handle to the same bytes.
#[verifier::external_body]
pub(crate) fn blob_share(b: &Bytes) -> (r: Bytes)
    ensures
        blob(r) == blob(*b),
{
    b.clone()
}

/// `Bytes::slice` makes a handle to the bytes from `start` up to `end`. It
/// panics on a range outside the buffer, which is left out.
#[verifier::external_body]
pub(crate) fn blob_slice(b: &Bytes, start: usize, end: usize) -> (r: Bytes)
    requires
        start <= end <= blob(*b).len(),
    ensures
        blob(r) == blob(*b).subrange(start as int, end as int),
{
    b.slice(start..end)
}

/// `Bytes` dereferences to a slice of the bytes that it holds.
#[verifier::external_body]
pub(crate) fn blob_bytes(b: &Bytes) -> (r: &[u8])
    ensures
        r@ == blob(*b),
{
    b
}

} // verus!
