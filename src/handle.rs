//! What the queue relies on from `bytes::Bytes`: a cheaply shared, immutable
//! run of bytes whose front can be dropped in place.
use bytes::{Buf, Bytes};
use vstd::prelude::*;

verus! {

#[verifier::external_type_specification]
#[verifier::external_body]
pub struct ExBytes(Bytes);

/// The bytes that a `Bytes` handle refers to, front to back.
pub uninterp spec fn bytes_view(b: Bytes) -> Seq<u8>;

/// Relies on `Bytes::new`: a handle over no bytes, made without allocating.
#[verifier::external_body]
pub(crate) fn empty_bytes() -> (r: Bytes)
    ensures
        bytes_view(r) == Seq::<u8>::empty(),
{
    Bytes::new()
}

/// Relies on `<Bytes as Clone>::clone`: a second handle over the same bytes,
/// which shares their storage instead of copying it.
#[verifier::external_body]
pub(crate) fn share(b: &Bytes) -> (r: Bytes)
    ensures
        bytes_view(r) == bytes_view(*b),
{
    b.clone()
}

/// Relies on `Bytes::len`: the number of bytes the handle refers to.
#[verifier::external_body]
pub(crate) fn byte_len(b: &Bytes) -> (r: usize)
    ensures
        r as int == bytes_view(*b).len(),
{
    b.len()
}

/// Relies on `<Bytes as Buf>::advance`: drops the first `n` bytes from the
/// handle; it panics when `n` exceeds the length, which `requires` excludes.
#[verifier::external_body]
pub(crate) fn drop_front(b: &mut Bytes, n: usize)
    requires
        n <= bytes_view(*old(b)).len(),
    ensures
        bytes_view(*final(b)) == bytes_view(*old(b)).subrange(n as int, bytes_view(*old(b)).len() as int),
{
    b.advance(n)
}

/// Relies on `<Bytes as Deref>::deref`: the referred bytes as a slice, without
/// copying them.
#[verifier::external_body]
pub(crate) fn as_slice(b: &Bytes) -> (r: &[u8])
    ensures
        r@ == bytes_view(*b),
{
    b
}

} // verus!
