//! The byte buffer that the codec reads from and writes to.
//!
//! The buffer is a [`bytes::BytesMut`]. The verifier does not look inside it:
//! each operation that the codec performs on it is given here with a contract
//! over [`bytes_of`], the sequence of bytes that the buffer currently holds.
//! Those contracts are taken on trust from the implementation of the buffer.
//!
//! A buffer grows on demand and holds `isize::MAX` bytes at most. The
//! operations that append require that the new length stays within that.
//! They panic or abort when the allocator cannot provide the memory, as any
//! allocation does; that is not modelled.

use bytes::{Buf, BufMut, BytesMut};
use vstd::prelude::*;

verus! {

/// `bytes::BytesMut`, a growable buffer of bytes, known to the verifier by
/// name only.
#[verifier::external_type_specification]
#[verifier::external_body]
pub struct ExBytesMut(bytes::BytesMut);

/// The bytes that a buffer holds, front first.
pub uninterp spec fn bytes_of(buf: &BytesMut) -> Seq<u8>;

/// `BytesMut::len`: the number of bytes held.
pub assume_specification[ BytesMut::len ](buf: &BytesMut) -> (n: usize)
    ensures
        n == bytes_of(buf).len(),
;

/// `BytesMut::is_empty`: whether no byte is held.
pub assume_specification[ BytesMut::is_empty ](buf: &BytesMut) -> (empty: bool)
    ensures
        empty == (bytes_of(buf).len() == 0),
;

/// `BytesMut::split_to`: removes the first `at` bytes and returns them as a
/// buffer of their own; the rest stays behind. Panics when `at` exceeds the
/// length, which the precondition rules out.
pub assume_specification[ BytesMut::split_to ](buf: &mut BytesMut, at: usize) -> (front: BytesMut)
    requires
        at <= bytes_of(old(buf)).len(),
    ensures
        bytes_of(&front) == bytes_of(old(buf)).take(at as int),
        bytes_of(final(buf)) == bytes_of(old(buf)).skip(at as int),
;

/// `Buf::advance` on a `BytesMut`: drops the first `cnt` bytes. Panics when
/// `cnt` exceeds the length, which the precondition rules out.
pub assume_specification[ <BytesMut as Buf>::advance ](buf: &mut BytesMut, cnt: usize)
    requires
        cnt <= bytes_of(old(buf)).len(),
    ensures
        bytes_of(final(buf)) == bytes_of(old(buf)).skip(cnt as int),
;

/// `Deref::deref` on a `BytesMut`: the bytes held, as a slice.
pub assume_specification<'a>[ <BytesMut as std::ops::Deref>::deref ](buf: &'a BytesMut) -> (bytes:
    &'a [u8])
    ensures
        bytes@ == bytes_of(buf),
;

/// `BytesMut::reserve`: makes room for `additional` more bytes and leaves the
/// bytes held as they are. It panics when the new capacity overflows `usize`,
/// which the precondition rules out.
pub assume_specification[ BytesMut::reserve ](buf: &mut BytesMut, additional: usize)
    requires
        bytes_of(old(buf)).len() + additional <= isize::MAX,
    ensures
        bytes_of(final(buf)) == bytes_of(old(buf)),
;

/// `BufMut::put_u8` on a `BytesMut`: appends one byte, growing the buffer as
/// needed.
#[verifier::external_body]
pub(crate) fn put_u8(buf: &mut BytesMut, n: u8)
    requires
        bytes_of(old(buf)).len() + 1 <= isize::MAX,
    ensures
        bytes_of(final(buf)) == bytes_of(old(buf)).push(n),
{
    buf.put_u8(n);
}

/// `BufMut::put` on a `BytesMut`, with a slice as its source: appends the
/// bytes of `src`, growing the buffer as needed.
#[verifier::external_body]
pub(crate) fn put(buf: &mut BytesMut, src: &[u8])
    requires
        bytes_of(old(buf)).len() + src@.len() <= isize::MAX,
    ensures
        bytes_of(final(buf)) == bytes_of(old(buf)) + src@,
{
    buf.put(src);
}

} // verus!
