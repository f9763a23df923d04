//! Little-endian integers in byte strings, and the checksum footer that
//! closes every segment file.

use vstd::bytes::*;
use vstd::prelude::*;
use vstd::slice::slice_subrange;
use crate::crc::{crc64_ecma, crc64_of};

verus! {

/// The two bytes of `x`, low byte first.
pub open spec fn le16(x: u16) -> Seq<u8> {
    spec_u16_to_le_bytes(x)
}

/// The four bytes of `x`, low byte first.
pub open spec fn le32(x: u32) -> Seq<u8> {
    spec_u32_to_le_bytes(x)
}

/// The eight bytes of `x`, low byte first.
pub open spec fn le64(x: u64) -> Seq<u8> {
    spec_u64_to_le_bytes(x)
}

/// The 16-bit integer that stands at `at` in `b`, low byte first.
pub open spec fn le16_at(b: Seq<u8>, at: int) -> u16 {
    spec_u16_from_le_bytes(b.subrange(at, at + 2))
}

/// The 32-bit integer that stands at `at` in `b`, low byte first.
pub open spec fn le32_at(b: Seq<u8>, at: int) -> u32 {
    spec_u32_from_le_bytes(b.subrange(at, at + 4))
}

/// The 64-bit integer that stands at `at` in `b`, low byte first.
pub open spec fn le64_at(b: Seq<u8>, at: int) -> u64 {
    spec_u64_from_le_bytes(b.subrange(at, at + 8))
}

/// What is written is read back, wherever it stands.
pub proof fn lemma_le_roundtrip(before: Seq<u8>, after: Seq<u8>)
    ensures
        forall|x: u16| #![trigger le16(x)] le16(x).len() == 2 && le16_at(before + le16(x) + after, before.len() as int) == x,
        forall|x: u32| #![trigger le32(x)] le32(x).len() == 4 && le32_at(before + le32(x) + after, before.len() as int) == x,
        forall|x: u64| #![trigger le64(x)] le64(x).len() == 8 && le64_at(before + le64(x) + after, before.len() as int) == x,
{
    lemma_auto_spec_u16_to_from_le_bytes();
    lemma_auto_spec_u32_to_from_le_bytes();
    lemma_auto_spec_u64_to_from_le_bytes();
    assert forall|x: u16| #![trigger le16(x)] le16(x).len() == 2 && le16_at(before + le16(x) + after, before.len() as int) == x by {
        assert((before + le16(x) + after).subrange(before.len() as int, before.len() as int + 2) =~= le16(x));
    }
    assert forall|x: u32| #![trigger le32(x)] le32(x).len() == 4 && le32_at(before + le32(x) + after, before.len() as int) == x by {
        assert((before + le32(x) + after).subrange(before.len() as int, before.len() as int + 4) =~= le32(x));
    }
    assert forall|x: u64| #![trigger le64(x)] le64(x).len() == 8 && le64_at(before + le64(x) + after, before.len() as int) == x by {
        assert((before + le64(x) + after).subrange(before.len() as int, before.len() as int + 8) =~= le64(x));
    }
}

/// Appends the two bytes of `x`.
pub fn push_u16(out: &mut Vec<u8>, x: u16)
    ensures
        final(out)@ == old(out)@ + le16(x),
{
    let mut b = u16_to_le_bytes(x);
    out.append(&mut b);
}

/// Appends the four bytes of `x`.
pub fn push_u32(out: &mut Vec<u8>, x: u32)
    ensures
        final(out)@ == old(out)@ + le32(x),
{
    let mut b = u32_to_le_bytes(x);
    out.append(&mut b);
}

/// Appends the eight bytes of `x`.
pub fn push_u64(out: &mut Vec<u8>, x: u64)
    ensures
        final(out)@ == old(out)@ + le64(x),
{
    let mut b = u64_to_le_bytes(x);
    out.append(&mut b);
}

/// Appends the bytes of `tail`.
pub fn push_bytes(out: &mut Vec<u8>, tail: &[u8])
    ensures
        final(out)@ == old(out)@ + tail@,
{
    out.extend_from_slice(tail);
}

/// Reads the 16-bit integer at `at`.
pub fn read_u16(b: &[u8], at: usize) -> (x: u16)
    requires
        at + 2 <= b.len(),
    ensures
        x == le16_at(b@, at as int),
{
    u16_from_le_bytes(slice_subrange(b, at, at + 2))
}

/// Reads the 32-bit integer at `at`.
pub fn read_u32(b: &[u8], at: usize) -> (x: u32)
    requires
        at + 4 <= b.len(),
    ensures
        x == le32_at(b@, at as int),
{
    u32_from_le_bytes(slice_subrange(b, at, at + 4))
}

/// Reads the 64-bit integer at `at`.
pub fn read_u64(b: &[u8], at: usize) -> (x: u64)
    requires
        at + 8 <= b.len(),
    ensures
        x == le64_at(b@, at as int),
{
    u64_from_le_bytes(slice_subrange(b, at, at + 8))
}

/// `body` closed by the CRC-64 of `body`.
pub open spec fn sealed(body: Seq<u8>) -> Seq<u8> {
    body + le64(crc64_of(body))
}

/// What stands before the eight-byte footer of `file`.
pub open spec fn body_of(file: Seq<u8>) -> Seq<u8> {
    file.take(file.len() - 8)
}

/// Whether `file` ends in the CRC-64 of what stands before it.
pub open spec fn is_sealed(file: Seq<u8>) -> bool {
    file.len() >= 8 && le64_at(file, file.len() - 8) == crc64_of(body_of(file))
}

/// A sealed body passes the check and comes back unchanged.
pub proof fn lemma_sealed(body: Seq<u8>)
    ensures
        is_sealed(sealed(body)),
        body_of(sealed(body)) == body,
        sealed(body).len() == body.len() + 8,
{
    lemma_le_roundtrip(body, Seq::empty());
    let c = crc64_of(body);
    assert(le64(c).len() == 8);
    assert(body + le64(c) + Seq::<u8>::empty() =~= sealed(body));
    assert(body_of(sealed(body)) =~= body);
}

/// Closes `body` with its CRC-64.
pub fn seal(body: Vec<u8>) -> (file: Vec<u8>)
    ensures
        file@ == sealed(body@),
{
    let crc = crc64_ecma(body.as_slice());
    let mut out = body;
    push_u64(&mut out, crc);
    out
}

/// Whether `file` ends in the CRC-64 of what stands before it.
pub fn check_seal(file: &[u8]) -> (ok: bool)
    ensures
        ok == is_sealed(file@),
{
    if file.len() < 8 {
        return false;
    }
    let n: usize = file.len() - 8;
    let stored = read_u64(file, n);
    let body = slice_subrange(file, 0, n);
    proof {
        assert(body@ =~= body_of(file@));
    }
    let crc = crc64_ecma(body);
    stored == crc
}

} // verus!
