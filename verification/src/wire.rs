//! Bytes on their way into and out of an archive: 64-bit numbers, which
//! are written as eight bytes with the lowest first, runs of bytes, and
//! zero padding.

use vstd::prelude::*;
use vstd::bytes::{
    lemma_auto_spec_u64_to_from_le_bytes, spec_u64_from_le_bytes, spec_u64_to_le_bytes,
    u64_from_le_bytes, u64_to_le_bytes,
};
use vstd::slice::slice_subrange;
use vstd::string::StringSliceAdditionalSpecFns;
use vstd::utf8::valid_utf8;
use std::str::Utf8Error;

verus! {

/// The eight bytes of `x`, lowest first.
pub open spec fn le_bytes(x: u64) -> Seq<u8> {
    spec_u64_to_le_bytes(x)
}

/// The number whose eight bytes, lowest first, stand at `pos` in `bytes`.
pub open spec fn u64_at(bytes: Seq<u8>, pos: int) -> u64 {
    spec_u64_from_le_bytes(bytes.subrange(pos, pos + 8))
}

/// `n` zero bytes.
pub open spec fn zeros(n: int) -> Seq<u8> {
    Seq::new(n as nat, |i: int| 0u8)
}

/// A number's bytes are eight, and they give the number back.
pub proof fn lemma_le_bytes(x: u64)
    ensures
        le_bytes(x).len() == 8,
        spec_u64_from_le_bytes(le_bytes(x)) == x,
{
    lemma_auto_spec_u64_to_from_le_bytes();
}

/// Eight bytes are the bytes of the number that they stand for.
pub proof fn lemma_le_bytes_of_u64_at(bytes: Seq<u8>, pos: int)
    requires
        0 <= pos,
        pos + 8 <= bytes.len(),
    ensures
        le_bytes(u64_at(bytes, pos)) == bytes.subrange(pos, pos + 8),
{
    lemma_auto_spec_u64_to_from_le_bytes();
    assert(bytes.subrange(pos, pos + 8).len() == 8);
}

/// A number that was written at `pos` is read back there.
pub proof fn lemma_u64_at_written(bytes: Seq<u8>, pos: int, x: u64)
    requires
        0 <= pos,
        pos + 8 <= bytes.len(),
        bytes.subrange(pos, pos + 8) == le_bytes(x),
    ensures
        u64_at(bytes, pos) == x,
{
    lemma_le_bytes(x);
}

/// `std::str::Utf8Error`, which says where bytes stop being UTF-8.
#[verifier::external_type_specification]
#[verifier::external_body]
pub struct ExUtf8Error(Utf8Error);

/// Calls `std::str::from_utf8`, which checks whether the bytes are valid
/// UTF-8 and, where they are, hands the same bytes back as a string slice.
#[verifier::external_body]
pub(crate) fn str_from_utf8(bytes: &[u8]) -> (r: Result<&str, Utf8Error>)
    ensures
        r is Ok <==> valid_utf8(bytes@),
        r matches Ok(text) ==> text.spec_bytes() == bytes@,
{
    std::str::from_utf8(bytes)
}

/// Reads the 64-bit number at `pos`.
pub fn read_u64(bytes: &[u8], pos: usize) -> (r: u64)
    requires
        pos + 8 <= bytes@.len(),
    ensures
        r == u64_at(bytes@, pos as int),
{
    let len: usize = bytes.len();
    assert(pos + 8 <= len);
    u64_from_le_bytes(slice_subrange(bytes, pos, pos + 8))
}

/// Appends `src` to `out`.
pub fn append_bytes(out: &mut Vec<u8>, src: &[u8])
    ensures
        final(out)@ == old(out)@ + src@,
{
    out.extend_from_slice(src);
    assert(out@ =~= old(out)@ + src@);
}

/// Appends the eight bytes of `x` to `out`.
pub fn append_u64(out: &mut Vec<u8>, x: u64)
    ensures
        final(out)@ == old(out)@ + le_bytes(x),
{
    let bytes = u64_to_le_bytes(x);
    append_bytes(out, bytes.as_slice());
}

/// Appends `n` zero bytes to `out`.
pub fn append_zeros(out: &mut Vec<u8>, n: usize)
    requires
        old(out)@.len() + n <= usize::MAX,
    ensures
        final(out)@ == old(out)@ + zeros(n as int),
{
    let len: usize = out.len();
    out.resize(len + n, 0u8);
    assert(out@ =~= old(out)@ + zeros(n as int));
}

} // verus!
