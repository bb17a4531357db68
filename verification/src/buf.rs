//! The byte buffers of the `bytes` crate, seen as sequences of bytes.
//!
//! A `Bytes` is read as a cursor: what it holds is what is still to be read.
//! A `BytesMut` is written at its end. Nothing in this module is proved; each
//! item states what the crate's source shows of one of its functions.
//!
//! As in vstd's contracts for `Vec`, memory is taken to be without bound:
//! that a buffer cannot grow because the allocator refuses, or because it
//! would hold more than `isize::MAX` bytes, is not modelled.

use vstd::prelude::*;
use vstd::bytes::{spec_u64_from_le_bytes, spec_u64_to_le_bytes};
use bytes::{Buf, BufMut, Bytes, BytesMut};

verus! {

/// `bytes::Bytes`, a shared run of bytes, known by what it holds alone.
#[verifier::external_type_specification]
#[verifier::external_body]
pub struct ExBytes(Bytes);

/// `bytes::BytesMut`, a growable run of bytes, known by what it holds alone.
#[verifier::external_type_specification]
#[verifier::external_body]
pub struct ExBytesMut(BytesMut);

/// The bytes that a `Bytes` holds, first to last.
pub uninterp spec fn bytes_seq(b: Bytes) -> Seq<u8>;

/// The bytes that a `BytesMut` holds, first to last.
pub uninterp spec fn bytes_mut_seq(b: BytesMut) -> Seq<u8>;

/// `Bytes::len`: the number of bytes held.
pub assume_specification[ Bytes::len ](b: &Bytes) -> (n: usize)
    ensures
        n == bytes_seq(*b).len(),
;

/// `<Bytes as Clone>::clone`: another handle on the same bytes.
pub assume_specification[ <Bytes as Clone>::clone ](b: &Bytes) -> (c: Bytes)
    ensures
        bytes_seq(c) == bytes_seq(*b),
;

/// `Bytes::split_to`: the first `at` bytes are handed out and the rest stay.
/// The crate panics where `at` is beyond the length.
pub assume_specification[ Bytes::split_to ](b: &mut Bytes, at: usize) -> (head: Bytes)
    requires
        at <= bytes_seq(*old(b)).len(),
    ensures
        bytes_seq(head) == bytes_seq(*old(b)).take(at as int),
        bytes_seq(*final(b)) == bytes_seq(*old(b)).skip(at as int),
;

/// `<Bytes as AsRef<[u8]>>::as_ref`: the held bytes as a slice.
#[verifier::external_body]
pub(crate) fn bytes_as_slice(b: &Bytes) -> (s: &[u8])
    ensures
        s@ == bytes_seq(*b),
{
    b.as_ref()
}

/// `Buf::get_u8` on a `Bytes`: the first byte is returned and the cursor
/// moves past it. The crate panics on an empty cursor.
#[verifier::external_body]
pub(crate) fn take_u8(cursor: &mut Bytes) -> (b: u8)
    requires
        bytes_seq(*old(cursor)).len() >= 1,
    ensures
        b == bytes_seq(*old(cursor))[0],
        bytes_seq(*final(cursor)) == bytes_seq(*old(cursor)).skip(1),
{
    cursor.get_u8()
}

/// `Buf::get_u64_le` on a `Bytes`: the first eight bytes are returned as one
/// little-endian word and the cursor moves past them. The crate panics where
/// fewer than eight bytes are left.
#[verifier::external_body]
pub(crate) fn take_u64_le(cursor: &mut Bytes) -> (w: u64)
    requires
        bytes_seq(*old(cursor)).len() >= 8,
    ensures
        w == spec_u64_from_le_bytes(bytes_seq(*old(cursor)).take(8)),
        bytes_seq(*final(cursor)) == bytes_seq(*old(cursor)).skip(8),
{
    cursor.get_u64_le()
}

/// `BytesMut::with_capacity`: a buffer that holds nothing yet.
pub assume_specification[ BytesMut::with_capacity ](capacity: usize) -> (b: BytesMut)
    ensures
        bytes_mut_seq(b) == Seq::<u8>::empty(),
;

/// `BytesMut::extend_from_slice`: the slice is copied to the end.
pub assume_specification[ BytesMut::extend_from_slice ](b: &mut BytesMut, extend: &[u8])
    ensures
        bytes_mut_seq(*final(b)) == bytes_mut_seq(*old(b)) + extend@,
;

/// `BufMut::put_u64_le` on a `BytesMut`: the eight bytes of the word are
/// written to the end, least significant first.
#[verifier::external_body]
pub(crate) fn put_u64_le(buf: &mut BytesMut, w: u64)
    ensures
        bytes_mut_seq(*final(buf)) == bytes_mut_seq(*old(buf)) + spec_u64_to_le_bytes(w),
{
    buf.put_u64_le(w)
}

} // verus!
