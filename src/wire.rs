//! Little-endian integer layouts shared by the delta codec and the blob
//! format, and the decoding of UTF-8 byte strings.

use vstd::prelude::*;
use vstd::utf8::{decode_utf8, valid_utf8};

verus! {

/// Little-endian bytes of a `u16`.
pub open spec fn le_u16(v: u16) -> Seq<u8> {
    seq![v as u8, (v >> 8) as u8]
}

/// Little-endian bytes of a `u32`.
pub open spec fn le_u32(v: u32) -> Seq<u8> {
    seq![v as u8, (v >> 8) as u8, (v >> 16) as u8, (v >> 24) as u8]
}

/// Little-endian bytes of a `u64`.
pub open spec fn le_u64(v: u64) -> Seq<u8> {
    seq![
        v as u8,
        (v >> 8) as u8,
        (v >> 16) as u8,
        (v >> 24) as u8,
        (v >> 32) as u8,
        (v >> 40) as u8,
        (v >> 48) as u8,
        (v >> 56) as u8,
    ]
}

/// The `u16` stored little-endian at `pos`.
pub open spec fn read_u16(s: Seq<u8>, pos: int) -> u16 {
    ((s[pos] as u16) | ((s[pos + 1] as u16) << 8)) as u16
}

/// The `u32` stored little-endian at `pos`.
pub open spec fn read_u32(s: Seq<u8>, pos: int) -> u32 {
    ((s[pos] as u32) | ((s[pos + 1] as u32) << 8) | ((s[pos + 2] as u32) << 16) | ((
    s[pos + 3] as u32) << 24)) as u32
}

/// The `u64` stored little-endian at `pos`.
pub open spec fn read_u64(s: Seq<u8>, pos: int) -> u64 {
    ((s[pos] as u64) | ((s[pos + 1] as u64) << 8) | ((s[pos + 2] as u64) << 16) | ((s[pos
        + 3] as u64) << 24) | ((s[pos + 4] as u64) << 32) | ((s[pos + 5] as u64) << 40) | ((s[pos
        + 6] as u64) << 48) | ((s[pos + 7] as u64) << 56)) as u64
}

/// Reading back what was laid out gives the value.
pub proof fn lemma_read_u16(s: Seq<u8>, pos: int, v: u16)
    requires
        0 <= pos,
        pos + 2 <= s.len(),
        s.subrange(pos, pos + 2) == le_u16(v),
    ensures
        read_u16(s, pos) == v,
{
    let t = s.subrange(pos, pos + 2);
    assert(s[pos] == t[0] && s[pos + 1] == t[1]);
    let b0 = s[pos];
    let b1 = s[pos + 1];
    assert(b0 == v as u8 && b1 == (v >> 8) as u8 ==> ((b0 as u16) | ((b1 as u16) << 8)) as u16
        == v) by (bit_vector);
}

/// Reading back what was laid out gives the value.
pub proof fn lemma_read_u32(s: Seq<u8>, pos: int, v: u32)
    requires
        0 <= pos,
        pos + 4 <= s.len(),
        s.subrange(pos, pos + 4) == le_u32(v),
    ensures
        read_u32(s, pos) == v,
{
    let t = s.subrange(pos, pos + 4);
    assert(s[pos] == t[0] && s[pos + 1] == t[1] && s[pos + 2] == t[2] && s[pos + 3] == t[3]);
    let b0 = s[pos];
    let b1 = s[pos + 1];
    let b2 = s[pos + 2];
    let b3 = s[pos + 3];
    assert(b0 == v as u8 && b1 == (v >> 8) as u8 && b2 == (v >> 16) as u8 && b3 == (v >> 24) as u8
        ==> ((b0 as u32) | ((b1 as u32) << 8) | ((b2 as u32) << 16) | ((b3 as u32) << 24)) as u32
        == v) by (bit_vector);
}

/// Reading back what was laid out gives the value.
pub proof fn lemma_read_u64(s: Seq<u8>, pos: int, v: u64)
    requires
        0 <= pos,
        pos + 8 <= s.len(),
        s.subrange(pos, pos + 8) == le_u64(v),
    ensures
        read_u64(s, pos) == v,
{
    let t = s.subrange(pos, pos + 8);
    assert(s[pos] == t[0] && s[pos + 1] == t[1] && s[pos + 2] == t[2] && s[pos + 3] == t[3]);
    assert(s[pos + 4] == t[4] && s[pos + 5] == t[5] && s[pos + 6] == t[6] && s[pos + 7] == t[7]);
    let b0 = s[pos];
    let b1 = s[pos + 1];
    let b2 = s[pos + 2];
    let b3 = s[pos + 3];
    let b4 = s[pos + 4];
    let b5 = s[pos + 5];
    let b6 = s[pos + 6];
    let b7 = s[pos + 7];
    assert(b0 == v as u8 && b1 == (v >> 8) as u8 && b2 == (v >> 16) as u8 && b3 == (v >> 24) as u8
        && b4 == (v >> 32) as u8 && b5 == (v >> 40) as u8 && b6 == (v >> 48) as u8 && b7 == (v
        >> 56) as u8 ==> ((b0 as u64) | ((b1 as u64) << 8) | ((b2 as u64) << 16) | ((b3 as u64)
        << 24) | ((b4 as u64) << 32) | ((b5 as u64) << 40) | ((b6 as u64) << 48) | ((b7 as u64)
        << 56)) as u64 == v) by (bit_vector);
}

/// A `u32` read is changed by any change to one of its four bytes.
pub proof fn lemma_read_u32_byte_change(s: Seq<u8>, t: Seq<u8>, pos: int, p: int)
    requires
        0 <= pos,
        pos + 4 <= s.len(),
        s.len() == t.len(),
        pos <= p < pos + 4,
        s[p] != t[p],
        forall|i: int| 0 <= i < s.len() && i != p ==> s[i] == t[i],
    ensures
        read_u32(s, pos) != read_u32(t, pos),
{
    let a0 = s[pos];
    let a1 = s[pos + 1];
    let a2 = s[pos + 2];
    let a3 = s[pos + 3];
    let b0 = t[pos];
    let b1 = t[pos + 1];
    let b2 = t[pos + 2];
    let b3 = t[pos + 3];
    assert(!(a0 == b0 && a1 == b1 && a2 == b2 && a3 == b3));
    assert(!(a0 == b0 && a1 == b1 && a2 == b2 && a3 == b3) ==> ((a0 as u32) | ((a1 as u32) << 8)
        | ((a2 as u32) << 16) | ((a3 as u32) << 24)) as u32 != ((b0 as u32) | ((b1 as u32) << 8)
        | ((b2 as u32) << 16) | ((b3 as u32) << 24)) as u32) by (bit_vector);
}

/// Appends the little-endian bytes of `v`.
pub fn push_u16(buf: &mut Vec<u8>, v: u16)
    ensures
        final(buf)@ == old(buf)@ + le_u16(v),
{
    buf.push(v as u8);
    buf.push((v >> 8) as u8);
    assert(final(buf)@ =~= old(buf)@ + le_u16(v));
}

/// Appends the little-endian bytes of `v`.
pub fn push_u32(buf: &mut Vec<u8>, v: u32)
    ensures
        final(buf)@ == old(buf)@ + le_u32(v),
{
    buf.push(v as u8);
    buf.push((v >> 8) as u8);
    buf.push((v >> 16) as u8);
    buf.push((v >> 24) as u8);
    assert(final(buf)@ =~= old(buf)@ + le_u32(v));
}

/// Appends the little-endian bytes of `v`.
pub fn push_u64(buf: &mut Vec<u8>, v: u64)
    ensures
        final(buf)@ == old(buf)@ + le_u64(v),
{
    buf.push(v as u8);
    buf.push((v >> 8) as u8);
    buf.push((v >> 16) as u8);
    buf.push((v >> 24) as u8);
    buf.push((v >> 32) as u8);
    buf.push((v >> 40) as u8);
    buf.push((v >> 48) as u8);
    buf.push((v >> 56) as u8);
    assert(final(buf)@ =~= old(buf)@ + le_u64(v));
}

/// The `u16` stored little-endian at `pos`.
pub fn get_u16(s: &[u8], pos: usize) -> (r: u16)
    requires
        pos + 2 <= s@.len(),
    ensures
        r == read_u16(s@, pos as int),
{
    ((s[pos] as u16) | ((s[pos + 1] as u16) << 8)) as u16
}

/// The `u32` stored little-endian at `pos`.
pub fn get_u32(s: &[u8], pos: usize) -> (r: u32)
    requires
        pos + 4 <= s@.len(),
    ensures
        r == read_u32(s@, pos as int),
{
    (s[pos] as u32) | ((s[pos + 1] as u32) << 8) | ((s[pos + 2] as u32) << 16) | ((s[pos
        + 3] as u32) << 24)
}

/// The `u64` stored little-endian at `pos`.
pub fn get_u64(s: &[u8], pos: usize) -> (r: u64)
    requires
        pos + 8 <= s@.len(),
    ensures
        r == read_u64(s@, pos as int),
{
    (s[pos] as u64) | ((s[pos + 1] as u64) << 8) | ((s[pos + 2] as u64) << 16) | ((s[pos
        + 3] as u64) << 24) | ((s[pos + 4] as u64) << 32) | ((s[pos + 5] as u64) << 40) | ((s[pos
        + 6] as u64) << 48) | ((s[pos + 7] as u64) << 56)
}

/// Relies on `String::from_utf8`: it succeeds exactly on valid UTF-8, and
/// the string then holds the characters those bytes encode.
#[verifier::external_body]
pub(crate) fn string_from_utf8(bytes: Vec<u8>) -> (r: Option<String>)
    ensures
        r is Some <==> valid_utf8(bytes@),
        r matches Some(s) ==> s@ == decode_utf8(bytes@),
{
    String::from_utf8(bytes).ok()
}

} // verus!
