//! Byte reading and writing through the `bytes` crate's `Buf` and `BufMut`.
use vstd::prelude::*;

verus! {

/// `bytes::BufMut::put_u8` on a vector: appends the byte.
#[verifier::external_body]
pub(crate) fn put_u8(dest: &mut Vec<u8>, n: u8)
    ensures
        final(dest)@ == old(dest)@.push(n),
{
    bytes::BufMut::put_u8(dest, n);
}

/// `bytes::BufMut::put_u16` on a vector: appends the two bytes of `n`,
/// most significant first.
#[verifier::external_body]
pub(crate) fn put_u16(dest: &mut Vec<u8>, n: u16)
    ensures
        final(dest)@ == old(dest)@ + seq![(n / 256) as u8, (n % 256) as u8],
{
    bytes::BufMut::put_u16(dest, n);
}

/// `bytes::BufMut::put` of a slice into a vector: appends all of the
/// slice's bytes.
#[verifier::external_body]
pub(crate) fn put_buf(dest: &mut Vec<u8>, src: &[u8])
    ensures
        final(dest)@ == old(dest)@ + src@,
{
    bytes::BufMut::put(dest, src);
}

/// `bytes::Buf::has_remaining` on a slice: whether it holds a byte.
#[verifier::external_body]
pub(crate) fn has_remaining(src: &[u8]) -> (b: bool)
    ensures
        b == (src@.len() > 0),
{
    bytes::Buf::has_remaining(&src)
}

/// `bytes::Buf::remaining` on a slice: its length.
#[verifier::external_body]
pub(crate) fn remaining(src: &[u8]) -> (n: usize)
    ensures
        n == src@.len(),
{
    bytes::Buf::remaining(&src)
}

/// `bytes::Buf::get_u8` on a slice: the first byte, with the slice advanced
/// past it.
#[verifier::external_body]
pub(crate) fn get_u8(src: &mut &[u8]) -> (b: u8)
    requires
        old(src)@.len() >= 1,
    ensures
        b == old(src)@[0],
        final(src)@ == old(src)@.subrange(1, old(src)@.len() as int),
{
    bytes::Buf::get_u8(src)
}

/// `bytes::Buf::get_u16` on a slice: the first two bytes as a big-endian
/// number, with the slice advanced past them.
#[verifier::external_body]
pub(crate) fn get_u16(src: &mut &[u8]) -> (n: u16)
    requires
        old(src)@.len() >= 2,
    ensures
        n == old(src)@[0] * 256 + old(src)@[1],
        final(src)@ == old(src)@.subrange(2, old(src)@.len() as int),
{
    bytes::Buf::get_u16(src)
}

} // verus!
