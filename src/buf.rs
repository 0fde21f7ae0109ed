//! The byte containers of the `bytes` crate, as the rest of the library sees
//! them: a `BytesMut` or a `Bytes` is the sequence of bytes it holds.
use vstd::prelude::*;

verus! {

#[verifier::external_type_specification]
#[verifier::external_body]
pub struct ExBytesMut(bytes::BytesMut);

#[verifier::external_type_specification]
#[verifier::external_body]
pub struct ExBytes(bytes::Bytes);

/// The bytes that a `BytesMut` holds, front first.
pub uninterp spec fn buf_data(b: bytes::BytesMut) -> Seq<u8>;

/// The bytes that a `Bytes` holds, front first.
pub uninterp spec fn frozen_data(b: bytes::Bytes) -> Seq<u8>;

/// Relies on `BytesMut::new`: a buffer that holds no bytes.
#[verifier::external_body]
pub(crate) fn buf_new() -> (r: bytes::BytesMut)
    ensures
        buf_data(r) == Seq::<u8>::empty(),
{
    bytes::BytesMut::new()
}

/// Relies on `BytesMut`'s `Deref<Target = [u8]>`: a view of the bytes it holds.
#[verifier::external_body]
pub(crate) fn buf_slice(b: &bytes::BytesMut) -> (r: &[u8])
    ensures
        r@ == buf_data(*b),
{
    &b[..]
}

/// Relies on `Buf::advance` for `BytesMut`: drops the first `n` bytes; it
/// panics where `n` exceeds the length.
#[verifier::external_body]
pub(crate) fn buf_advance(b: &mut bytes::BytesMut, n: usize)
    requires
        n <= buf_data(*old(b)).len(),
    ensures
        buf_data(*final(b)) == buf_data(*old(b)).subrange(n as int, buf_data(*old(b)).len() as int),
{
    bytes::Buf::advance(b, n)
}

/// Relies on `BytesMut::extend_from_slice`: appends the bytes of `s`.
#[verifier::external_body]
pub(crate) fn buf_extend(b: &mut bytes::BytesMut, s: &[u8])
    ensures
        buf_data(*final(b)) == buf_data(*old(b)) + s@,
{
    b.extend_from_slice(s)
}

/// Relies on `BytesMut::split_to`: the first `n` bytes move to the returned
/// buffer; it panics where `n` exceeds the length.
#[verifier::external_body]
pub(crate) fn buf_split_to(b: &mut bytes::BytesMut, n: usize) -> (r: bytes::BytesMut)
    requires
        n <= buf_data(*old(b)).len(),
    ensures
        buf_data(r) == buf_data(*old(b)).subrange(0, n as int),
        buf_data(*final(b)) == buf_data(*old(b)).subrange(n as int, buf_data(*old(b)).len() as int),
{
    b.split_to(n)
}

/// Relies on `Buf::copy_to_bytes` for `BytesMut`: the first `n` bytes move to
/// the returned `Bytes`; it panics where `n` exceeds the length.
#[verifier::external_body]
pub(crate) fn buf_copy_to_bytes(b: &mut bytes::BytesMut, n: usize) -> (r: bytes::Bytes)
    requires
        n <= buf_data(*old(b)).len(),
    ensures
        frozen_data(r) == buf_data(*old(b)).subrange(0, n as int),
        buf_data(*final(b)) == buf_data(*old(b)).subrange(n as int, buf_data(*old(b)).len() as int),
{
    bytes::Buf::copy_to_bytes(b, n)
}

} // verus!
