//! Contracts for the byte buffers of the `bytes` crate.
//!
//! `Bytes` and `BytesMut` stay opaque to the verifier. What a buffer holds is
//! named by [`bytes_view`] and [`bytes_mut_view`], and each method used by
//! this crate is given a contract over those names. None of these contracts
//! is proved: they restate the documented behaviour of the `bytes` crate.

use bytes::Bytes;
use bytes::BytesMut;
use vstd::prelude::*;

verus! {

/// `bytes::Bytes`, a handle on a run of bytes that cannot be changed.
#[verifier::external_type_specification]
#[verifier::external_body]
pub struct ExBytes(bytes::Bytes);

/// `bytes::BytesMut`, a buffer of bytes that grows at its end.
#[verifier::external_type_specification]
#[verifier::external_body]
pub struct ExBytesMut(bytes::BytesMut);

/// The bytes that a `Bytes` handle gives access to, first to last.
pub uninterp spec fn bytes_view(b: Bytes) -> Seq<u8>;

/// The bytes written so far into a `BytesMut`, first to last.
pub uninterp spec fn bytes_mut_view(b: BytesMut) -> Seq<u8>;

/// `Bytes::new` returns an empty handle.
pub assume_specification[ Bytes::new ]() -> (b: Bytes)
    ensures
        bytes_view(b) == Seq::<u8>::empty(),
;

/// `Bytes::len` is the number of bytes the handle holds.
pub assume_specification[ Bytes::len ](b: &Bytes) -> (n: usize)
    ensures
        n == bytes_view(*b).len(),
;

/// `Bytes::clone` yields a second handle on the same bytes.
pub assume_specification[ <Bytes as Clone>::clone ](b: &Bytes) -> (c: Bytes)
    ensures
        bytes_view(c) == bytes_view(*b),
;

/// `Bytes::split_to(at)` returns the first `at` bytes and leaves the rest in
/// place. It panics when `at` exceeds the length, which `requires` excludes.
pub assume_specification[ Bytes::split_to ](b: &mut Bytes, at: usize) -> (head: Bytes)
    requires
        at <= bytes_view(*old(b)).len(),
    ensures
        bytes_view(head) == bytes_view(*old(b)).subrange(0, at as int),
        bytes_view(*final(b)) == bytes_view(*old(b)).subrange(
            at as int,
            bytes_view(*old(b)).len() as int,
        ),
;

/// Copies the bytes of a handle into a vector (`to_vec` on the slice that
/// `Bytes` dereferences to).
#[verifier::external_body]
pub(crate) fn bytes_to_vec(b: &Bytes) -> (v: Vec<u8>)
    ensures
        v@ == bytes_view(*b),
{
    b.to_vec()
}

/// `BytesMut::new` returns an empty buffer.
pub assume_specification[ BytesMut::new ]() -> (b: BytesMut)
    ensures
        bytes_mut_view(b) == Seq::<u8>::empty(),
;

/// `BytesMut::len` is the number of bytes written so far.
pub assume_specification[ BytesMut::len ](b: &BytesMut) -> (n: usize)
    ensures
        n == bytes_mut_view(*b).len(),
;

/// Longest that a `BytesMut` may become through this crate. A buffer that
/// grows asks for room for its new length or for twice what it has,
/// whichever is more, and panics when that exceeds `isize::MAX`.
pub open spec fn max_buffer_len() -> int {
    isize::MAX / 2
}

/// `BytesMut::extend_from_slice` appends the slice. It reserves room first,
/// which panics when the room asked for exceeds `isize::MAX`; `requires`
/// keeps the new length so low that it does not.
pub assume_specification[ BytesMut::extend_from_slice ](b: &mut BytesMut, extend: &[u8])
    requires
        bytes_mut_view(*old(b)).len() + extend@.len() <= max_buffer_len(),
    ensures
        bytes_mut_view(*final(b)) == bytes_mut_view(*old(b)) + extend@,
;

/// `BytesMut::freeze` turns the buffer into an immutable handle on the same
/// bytes.
pub assume_specification[ BytesMut::freeze ](b: BytesMut) -> (frozen: Bytes)
    ensures
        bytes_view(frozen) == bytes_mut_view(b),
;

} // verus!
