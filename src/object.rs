//! Content addressing for the objects of a tick store: the id of an object
//! is the lowercase hex SHA-256 digest of its encoded bytes.

use vstd::prelude::*;
use vstd::utf8::{encode_utf8, is_ascii_chars};
use crate::wire::string_from_utf8;
use sha2::Digest;

verus! {

/// One ticker of a snapshot and the id of its blob.
#[derive(Debug, PartialEq, Eq, PartialOrd, Ord)]
pub struct Entry {
    pub ticker: String,
    pub blob_hash: String,
}

/// The entries of a snapshot.
#[derive(Debug)]
pub struct Snapshot {
    pub entries: Vec<Entry>,
}

/// A commit: a snapshot id, its parent commit if any, and who made it when.
#[derive(Debug)]
pub struct Commit {
    pub tree_hash: String,
    pub parent_hash: Option<String>,
    pub timestamp: u64,
    pub author: String,
    pub message: String,
}

/// The SHA-256 digest of `data`.
pub uninterp spec fn sha256_of(data: Seq<u8>) -> Seq<u8>;

/// Relies on `sha2::Sha256::digest`: the SHA-256 digest of `data`, which
/// is 32 bytes long.
#[verifier::external_body]
fn sha256(data: &[u8]) -> (r: Vec<u8>)
    ensures
        r@ == sha256_of(data@),
        r@.len() == 32,
{
    sha2::Sha256::digest(data).to_vec()
}

/// The lowercase hex digit of a value below 16.
pub open spec fn hex_digit(v: u8) -> char {
    if v < 10 {
        (48 + v) as char  // '0' + v
    } else {
        (87 + v) as char  // 'a' + (v - 10)
    }
}

/// Two lowercase hex digits per byte, high nibble first.
pub open spec fn hex_of(bytes: Seq<u8>) -> Seq<char>
    decreases bytes.len(),
{
    if bytes.len() == 0 {
        seq![]
    } else {
        hex_of(bytes.drop_last()) + seq![hex_digit(bytes.last() >> 4), hex_digit(bytes.last() & 0x0F)]
    }
}

fn hex_digit_byte(v: u8) -> (r: u8)
    requires
        v < 16,
    ensures
        r == hex_digit(v) as u8,
        '\0' <= hex_digit(v) <= '\u{7f}',
{
    if v < 10 {
        48 + v
    } else {
        87 + v
    }
}

proof fn lemma_hex_len(bytes: Seq<u8>)
    ensures
        hex_of(bytes).len() == 2 * bytes.len(),
    decreases bytes.len(),
{
    if bytes.len() > 0 {
        lemma_hex_len(bytes.drop_last());
    }
}

/// Lowercase hex of `bytes`, two digits per byte.
pub fn to_hex(bytes: &[u8]) -> (r: String)
    ensures
        r@ == hex_of(bytes@),
{
    let mut out: Vec<u8> = Vec::new();
    let mut i: usize = 0;
    while i < bytes.len()
        invariant
            i <= bytes@.len(),
            out@.len() == hex_of(bytes@.subrange(0, i as int)).len(),
            forall|j: int|
                0 <= j < out@.len() ==> out@[j] == #[trigger] hex_of(bytes@.subrange(0, i as int))[j] as u8
                    && '\0' <= hex_of(bytes@.subrange(0, i as int))[j] <= '\u{7f}',
        decreases bytes@.len() - i,
    {
        let b = bytes[i];
        assert(b >> 4 < 16 && b & 0x0F < 16) by (bit_vector);
        let hi = hex_digit_byte(b >> 4);
        let lo = hex_digit_byte(b & 0x0F);
        let ghost before = out@;
        out.push(hi);
        out.push(lo);
        proof {
            let sub = bytes@.subrange(0, i + 1);
            assert(sub.drop_last() =~= bytes@.subrange(0, i as int));
            assert(sub.last() == b);
            assert(hex_of(sub) == hex_of(bytes@.subrange(0, i as int)) + seq![
                hex_digit(b >> 4),
                hex_digit(b & 0x0F),
            ]);
        }
        i = i + 1;
    }
    let ghost chars = hex_of(bytes@);
    proof {
        assert(bytes@.subrange(0, bytes@.len() as int) =~= bytes@);
        assert forall|j: int| 0 <= j < chars.len() implies '\0' <= #[trigger] chars[j] <= '\u{7f}' by {
            assert(out@[j] == chars[j] as u8);
        }
        assert(is_ascii_chars(chars));
        vstd::utf8::is_ascii_chars_encode_utf8(chars);
        assert(out@ =~= encode_utf8(chars));
        vstd::utf8::encode_utf8_valid_utf8(chars);
        vstd::utf8::encode_utf8_decode_utf8(chars);
    }
    match string_from_utf8(out) {
        Some(s) => s,
        None => String::new(),
    }
}

/// The id of an object whose encoded bytes are `encoded`: the lowercase hex
/// of their SHA-256 digest, 64 characters.
pub fn object_id(encoded: &[u8]) -> (r: String)
    ensures
        r@ == hex_of(sha256_of(encoded@)),
        r@.len() == 64,
{
    let digest = sha256(encoded);
    proof {
        lemma_hex_len(digest@);
    }
    to_hex(digest.as_slice())
}

} // verus!
