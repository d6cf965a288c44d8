//! The growable input buffer that frames are read from.
//!
//! The buffer type comes from the `bytes` crate; the engine reads its
//! contents through a slice view and removes consumed bytes from the front.

use vstd::prelude::*;

verus! {

/// The byte contents of a `bytes::BytesMut`, front first.
pub uninterp spec fn bm_view(b: bytes::BytesMut) -> Seq<u8>;

#[verifier::external_type_specification]
#[verifier::external_body]
pub struct ExBytesMut(bytes::BytesMut);

/// Relies on `<BytesMut as Deref>::deref`: the buffer reads as a slice of
/// its bytes.
#[verifier::external_body]
pub(crate) fn bm_bytes(b: &bytes::BytesMut) -> (r: &[u8])
    ensures
        r@ == bm_view(*b),
{
    b
}

/// Relies on `<BytesMut as bytes::Buf>::advance`: the first `cnt` bytes are
/// removed from the front.  Advancing past the end would panic, so the
/// bound is required.
#[verifier::external_body]
pub(crate) fn bm_advance(b: &mut bytes::BytesMut, cnt: usize)
    requires
        cnt <= bm_view(*old(b)).len(),
    ensures
        bm_view(*final(b)) == bm_view(*old(b)).skip(cnt as int),
{
    bytes::Buf::advance(b, cnt);
}

} // verus!
