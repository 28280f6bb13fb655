//! Calls into code that is not verified here. Each contract below is
//! believed, not proved: it restates what the called function documents.

use crate::wire::{be16, be32};
use vstd::prelude::*;
use vstd::utf8::{decode_utf8, valid_utf8};

verus! {

/// `bytes::BufMut::put_u8` on a `Vec<u8>`: the byte is appended. For a `Vec`
/// the crate writes through `extend_from_slice`, which grows the vector as
/// needed.
#[verifier::external_body]
pub(crate) fn put_u8(buf: &mut Vec<u8>, n: u8)
    ensures
        final(buf)@ == old(buf)@.push(n),
{
    bytes::BufMut::put_u8(buf, n)
}

/// `bytes::BufMut::put_u16` on a `Vec<u8>`: the two bytes of `n` are
/// appended in big-endian order.
#[verifier::external_body]
pub(crate) fn put_u16(buf: &mut Vec<u8>, n: u16)
    ensures
        final(buf)@ == old(buf)@ + be16(n),
{
    bytes::BufMut::put_u16(buf, n)
}

/// `bytes::BufMut::put_u32` on a `Vec<u8>`: the four bytes of `n` are
/// appended in big-endian order.
#[verifier::external_body]
pub(crate) fn put_u32(buf: &mut Vec<u8>, n: u32)
    ensures
        final(buf)@ == old(buf)@ + be32(n),
{
    bytes::BufMut::put_u32(buf, n)
}

/// `bytes::BufMut::put_slice` on a `Vec<u8>`: the bytes of `src` are
/// appended in order.
#[verifier::external_body]
pub(crate) fn put_slice(buf: &mut Vec<u8>, src: &[u8])
    ensures
        final(buf)@ == old(buf)@ + src@,
{
    bytes::BufMut::put_slice(buf, src)
}

/// `String::from_utf8`: succeeds exactly where the bytes are valid UTF-8, and
/// the string then holds the characters that they encode. Validity and
/// decoding are those of `vstd::utf8`, which also specify `str::as_bytes`.
#[verifier::external_body]
pub(crate) fn string_from_utf8(bytes: Vec<u8>) -> (r: Option<String>)
    ensures
        r is Some <==> valid_utf8(bytes@),
        r matches Some(s) ==> s@ == decode_utf8(bytes@),
{
    match String::from_utf8(bytes) {
        Ok(s) => Some(s),
        Err(_) => None,
    }
}

/// `rand::random` at `u16`: some number from the thread's generator. Nothing
/// is known of it.
#[verifier::external_body]
pub(crate) fn random_u16() -> u16 {
    rand::random()
}

} // verus!
