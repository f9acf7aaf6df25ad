//! The compressed record, as a mathematical value, and its blob layout.

use vstd::prelude::*;
use vstd::utf8::{encode_utf8, decode_utf8, valid_utf8};
use crate::crc32::crc32;
use crate::payload::{bitmap_len, records_of, decode_records};
use crate::types::CodecError;
use crate::wire::{le_u16, le_u32, le_u64, read_u16, read_u32, read_u64};

verus! {

/// The wire format version this library writes.
pub const FORMAT_VERSION: u8 = 1;

/// A compressed record: symbol dictionary, reference frame (each price as
/// its IEEE-754 bit pattern), tick payload and checksums.
pub struct RecordView {
    pub version: u8,
    pub symbols: Seq<Seq<char>>,
    pub base_ts: u64,
    pub ref_frame: Seq<u64>,
    pub data: Seq<u8>,
    pub num_ticks: u32,
    pub ref_crc: u32,
    pub data_crc: u32,
    pub overall_crc: u32,
}

/// The bytes of the reference frame, eight little-endian bytes per price.
pub open spec fn ref_bytes(frame: Seq<u64>) -> Seq<u8>
    decreases frame.len(),
{
    if frame.len() == 0 {
        seq![]
    } else {
        ref_bytes(frame.drop_last()) + le_u64(frame.last())
    }
}

/// One dictionary entry: a length byte, then the symbol's UTF-8 bytes.
pub open spec fn symbol_entry(s: Seq<char>) -> Seq<u8> {
    seq![encode_utf8(s).len() as u8] + encode_utf8(s)
}

/// The symbol dictionary, entries in index order.
pub open spec fn dictionary_bytes(symbols: Seq<Seq<char>>) -> Seq<u8>
    decreases symbols.len(),
{
    if symbols.len() == 0 {
        seq![]
    } else {
        dictionary_bytes(symbols.drop_last()) + symbol_entry(symbols.last())
    }
}

/// Everything a blob holds before its trailer.
pub open spec fn body_of(v: RecordView) -> Seq<u8> {
    seq![v.version] + le_u16(v.symbols.len() as u16) + le_u32(v.num_ticks) + le_u64(v.base_ts)
        + dictionary_bytes(v.symbols) + ref_bytes(v.ref_frame) + le_u32(v.ref_crc) + le_u32(
        v.data_crc,
    ) + le_u32(v.data.len() as u32) + v.data
}

/// The blob of a record: its body, then the CRC-32 of the body.
pub open spec fn blob_of(v: RecordView) -> Seq<u8> {
    body_of(v) + le_u32(crc32(body_of(v)))
}

/// Whether the record fits the format: at most 65,535 symbols of at most
/// 255 bytes each, one reference price per symbol, and a payload whose
/// length fits in a `u32`.
pub open spec fn fits_format(v: RecordView) -> bool {
    &&& v.symbols.len() <= 0xFFFF
    &&& forall|i: int| 0 <= i < v.symbols.len() ==> encode_utf8(#[trigger] v.symbols[i]).len() <= 255
    &&& v.ref_frame.len() == v.symbols.len()
    &&& v.data.len() <= 0xFFFF_FFFF
}

/// Offset of the `k`-th dictionary entry in a body.
pub open spec fn entry_start(b: Seq<u8>, k: nat) -> int
    decreases k,
{
    if k == 0 {
        15
    } else {
        let p = entry_start(b, (k - 1) as nat);
        p + 1 + b[p]
    }
}

/// The UTF-8 bytes of the `k`-th dictionary entry in a body.
pub open spec fn entry_bytes(b: Seq<u8>, k: nat) -> Seq<u8> {
    let p = entry_start(b, k);
    b.subrange(p + 1, p + 1 + b[p])
}

/// The first failure met while reading the first `k` dictionary entries.
pub open spec fn dictionary_error(b: Seq<u8>, k: nat) -> Option<CodecError>
    decreases k,
{
    if k == 0 {
        None
    } else {
        match dictionary_error(b, (k - 1) as nat) {
            Some(e) => Some(e),
            None => {
                let p = entry_start(b, (k - 1) as nat);
                if p + 1 > b.len() || p + 1 + b[p] > b.len() {
                    Some(CodecError::Truncated)
                } else if !valid_utf8(entry_bytes(b, (k - 1) as nat)) {
                    Some(CodecError::MalformedSymbol)
                } else {
                    None
                }
            },
        }
    }
}

/// Once reading the dictionary has failed, it stays failed with that error.
pub proof fn lemma_dictionary_error_stays(b: Seq<u8>, k: nat, m: nat)
    requires
        k <= m,
        dictionary_error(b, k) is Some,
    ensures
        dictionary_error(b, m) == dictionary_error(b, k),
    decreases m - k,
{
    if k < m {
        lemma_dictionary_error_stays(b, k, (m - 1) as nat);
    }
}

/// Reads the fields of a body; bytes after the payload are not read.
pub open spec fn parse_body(b: Seq<u8>, overall_crc: u32) -> Result<RecordView, CodecError> {
    if b.len() < 15 {
        Err(CodecError::Truncated)
    } else {
        let n = read_u16(b, 1) as nat;
        match dictionary_error(b, n) {
            Some(e) => Err(e),
            None => {
                let p = entry_start(b, n);
                let q = p + 8 * n;
                if q + 12 > b.len() {
                    Err(CodecError::Truncated)
                } else if q + 12 + read_u32(b, q + 8) > b.len() {
                    Err(CodecError::Truncated)
                } else {
                    Ok(
                        RecordView {
                            version: b[0],
                            symbols: Seq::new(n, |k: int| decode_utf8(entry_bytes(b, k as nat))),
                            base_ts: read_u64(b, 7),
                            ref_frame: Seq::new(n, |k: int| read_u64(b, p + 8 * k)),
                            data: b.subrange(q + 12, q + 12 + read_u32(b, q + 8)),
                            num_ticks: read_u32(b, 3),
                            ref_crc: read_u32(b, q),
                            data_crc: read_u32(b, q + 4),
                            overall_crc,
                        },
                    )
                }
            },
        }
    }
}

/// Reads a blob: the trailer is checked against the CRC-32 of the body
/// before any field is read.
pub open spec fn parse_blob(b: Seq<u8>) -> Result<RecordView, CodecError> {
    if b.len() < 4 {
        Err(CodecError::TooShort)
    } else {
        let body = b.subrange(0, b.len() - 4);
        let stored = read_u32(b, b.len() - 4);
        let computed = crc32(body);
        if computed != stored {
            Err(CodecError::OverallChecksumMismatch { expected: stored, computed })
        } else {
            parse_body(body, stored)
        }
    }
}

/// Whether `symbols`, `reference` and `ticks` make a series the compressor
/// accepts: a dictionary of distinct symbols that fits the format, one
/// reference price and one delta per symbol, and timestamps within `2^32`
/// at or after the first.
pub open spec fn valid_series(
    symbols: Seq<Seq<char>>,
    reference: Seq<u64>,
    ticks: Seq<(u64, Seq<i32>)>,
) -> bool {
    let n = symbols.len() as int;
    &&& symbols.len() <= 0xFFFF
    &&& symbols.no_duplicates()
    &&& forall|i: int| 0 <= i < symbols.len() ==> encode_utf8(#[trigger] symbols[i]).len() <= 255
    &&& reference.len() == symbols.len()
    &&& forall|i: int| 0 <= i < ticks.len() ==> (#[trigger] ticks[i]).1.len() == n
    &&& forall|i: int|
        0 <= i < ticks.len() ==> ticks[0].0 <= (#[trigger] ticks[i]).0 < ticks[0].0 + 0x1_0000_0000
}

/// Whether the payload of a non-empty series fits the `u32` length field of
/// a blob.
pub open spec fn payload_fits(ticks: Seq<(u64, Seq<i32>)>) -> bool {
    records_of(ticks[0].0, ticks.drop_first()).len() <= 0xFFFF_FFFF
}

/// The record that compressing a non-empty series gives.
pub open spec fn compressed(
    symbols: Seq<Seq<char>>,
    reference: Seq<u64>,
    ticks: Seq<(u64, Seq<i32>)>,
) -> RecordView {
    let base = ticks[0].0;
    let data = records_of(base, ticks.drop_first());
    RecordView {
        version: FORMAT_VERSION,
        symbols,
        base_ts: base,
        ref_frame: reference,
        data,
        num_ticks: ticks.len() as u32,
        ref_crc: crc32(ref_bytes(reference)),
        data_crc: crc32(data),
        overall_crc: 0,
    }
}

/// `base` plus an offset, wrapping at `2^64`.
pub open spec fn offset_ts(base: u64, d: u32) -> u64 {
    if base + d > u64::MAX {
        (base + d - 0x1_0000_0000_0000_0000) as u64
    } else {
        (base + d) as u64
    }
}

/// Decoded records with their offsets added to `base`.
pub open spec fn absolute(base: u64, recs: Seq<(u32, Seq<i32>)>) -> Seq<(u64, Seq<i32>)> {
    recs.map_values(|r: (u32, Seq<i32>)| (offset_ts(base, r.0), r.1))
}

/// `n` zero deltas: the first tick, which is the reference frame itself.
pub open spec fn unchanged(n: nat) -> Seq<i32> {
    Seq::new(n, |i: int| 0i32)
}

/// The series a record decompresses to: both inner checksums are checked
/// first; then the first tick, then one tick per payload record.
pub open spec fn decompressed(v: RecordView) -> Result<Seq<(u64, Seq<i32>)>, CodecError> {
    let rc = crc32(ref_bytes(v.ref_frame));
    let dc = crc32(v.data);
    if rc != v.ref_crc {
        Err(CodecError::ReferenceChecksumMismatch { expected: v.ref_crc, computed: rc })
    } else if dc != v.data_crc {
        Err(CodecError::DataChecksumMismatch { expected: v.data_crc, computed: dc })
    } else {
        match decode_records(v.data, v.symbols.len(), 0) {
            Err(e) => Err(e),
            Ok(recs) => Ok(seq![(v.base_ts, unchanged(v.symbols.len()))] + absolute(v.base_ts, recs)),
        }
    }
}

/// Where `t` lies in `s` at `a`, each byte of `t` is read there.
pub proof fn lemma_piece_at(s: Seq<u8>, a: int, t: Seq<u8>, i: int)
    requires
        0 <= a,
        a + t.len() <= s.len(),
        s.subrange(a, a + t.len()) == t,
        0 <= i < t.len(),
    ensures
        s[a + i] == t[i],
{
    assert(s.subrange(a, a + t.len())[i] == s[a + i]);
}

/// A piece of a piece lies in the whole.
pub proof fn lemma_piece_in_piece(s: Seq<u8>, a: int, t: Seq<u8>, c: int, u: Seq<u8>)
    requires
        0 <= a,
        a + t.len() <= s.len(),
        s.subrange(a, a + t.len()) == t,
        0 <= c,
        c + u.len() <= t.len(),
        t.subrange(c, c + u.len()) == u,
    ensures
        s.subrange(a + c, a + c + u.len()) == u,
{
    assert forall|i: int| 0 <= i < u.len() implies s.subrange(a + c, a + c + u.len())[i] == u[i] by {
        lemma_piece_at(s, a, t, c + i);
        lemma_piece_at(t, c, u, i);
    }
    assert(s.subrange(a + c, a + c + u.len()) =~= u);
}

/// The reference frame takes eight bytes per price, in index order.
pub proof fn lemma_ref_bytes(f: Seq<u64>, k: int)
    requires
        0 <= k < f.len(),
    ensures
        ref_bytes(f).len() == 8 * f.len(),
        ref_bytes(f).subrange(8 * k, 8 * k + 8) == le_u64(f[k]),
    decreases f.len(),
{
    lemma_ref_bytes_len(f);
    let g = f.drop_last();
    if k == f.len() - 1 {
        lemma_ref_bytes_len(g);
        assert(ref_bytes(f).subrange(8 * k, 8 * k + 8) =~= le_u64(f[k]));
    } else {
        lemma_ref_bytes(g, k);
        assert(ref_bytes(f).subrange(8 * k, 8 * k + 8) =~= ref_bytes(g).subrange(8 * k, 8 * k + 8));
    }
}

/// The reference frame takes eight bytes per price.
pub proof fn lemma_ref_bytes_len(f: Seq<u64>)
    ensures
        ref_bytes(f).len() == 8 * f.len(),
    decreases f.len(),
{
    if f.len() > 0 {
        lemma_ref_bytes_len(f.drop_last());
    }
}

proof fn lemma_dictionary_append(a: Seq<Seq<char>>, c: Seq<Seq<char>>)
    ensures
        dictionary_bytes(a + c) == dictionary_bytes(a) + dictionary_bytes(c),
    decreases c.len(),
{
    if c.len() == 0 {
        assert(a + c =~= a);
        assert(dictionary_bytes(a) + dictionary_bytes(c) =~= dictionary_bytes(a));
    } else {
        lemma_dictionary_append(a, c.drop_last());
        assert((a + c).drop_last() =~= a + c.drop_last());
        assert((a + c).last() == c.last());
        assert(dictionary_bytes(a) + dictionary_bytes(c.drop_last()) + symbol_entry(c.last())
            =~= dictionary_bytes(a) + (dictionary_bytes(c.drop_last()) + symbol_entry(c.last())));
    }
}

/// A dictionary laid out at offset 15 reads back entry by entry.
proof fn lemma_dictionary_entries(b: Seq<u8>, syms: Seq<Seq<char>>, k: nat)
    requires
        forall|i: int| 0 <= i < syms.len() ==> encode_utf8(#[trigger] syms[i]).len() <= 255,
        k <= syms.len(),
        15 + dictionary_bytes(syms).len() <= b.len(),
        b.subrange(15, 15 + dictionary_bytes(syms).len() as int) == dictionary_bytes(syms),
    ensures
        entry_start(b, k) == 15 + dictionary_bytes(syms.subrange(0, k as int)).len(),
        dictionary_error(b, k) is None,
        forall|j: int| 0 <= j < k ==> entry_bytes(b, j as nat) == encode_utf8(#[trigger] syms[j]),
    decreases k,
{
    broadcast use vstd::utf8::encode_utf8_valid_utf8;

    if k == 0 {
        assert(syms.subrange(0, 0) =~= Seq::<Seq<char>>::empty());
    } else {
        let km = (k - 1) as nat;
        lemma_dictionary_entries(b, syms, km);
        let pre = syms.subrange(0, km as int);
        let cur = syms.subrange(0, k as int);
        let s = syms[km as int];
        let e = symbol_entry(s);
        let d = dictionary_bytes(syms);
        assert(cur.drop_last() =~= pre);
        assert(dictionary_bytes(cur) == dictionary_bytes(pre) + e);
        assert(syms =~= cur + syms.subrange(k as int, syms.len() as int));
        lemma_dictionary_append(cur, syms.subrange(k as int, syms.len() as int));
        let dp = dictionary_bytes(pre);
        assert(d.subrange(dp.len() as int, dp.len() + e.len() as int) =~= e);
        lemma_piece_in_piece(b, 15, d, dp.len() as int, e);
        let p = entry_start(b, km);
        assert(p == 15 + dp.len());
        lemma_piece_at(b, p, e, 0);
        assert(b[p] == encode_utf8(s).len());
        assert(e.subrange(1, e.len() as int) =~= encode_utf8(s));
        lemma_piece_in_piece(b, p, e, 1, encode_utf8(s));
        assert(entry_bytes(b, km) == encode_utf8(s));
        assert(valid_utf8(encode_utf8(s)));
    }
}

/// The middle part of a concatenation.
proof fn lemma_mid(a: Seq<u8>, t: Seq<u8>, c: Seq<u8>)
    ensures
        (a + t + c).subrange(a.len() as int, a.len() + t.len() as int) == t,
{
    assert((a + t + c).subrange(a.len() as int, a.len() + t.len() as int) =~= t);
}

/// The fixed-size header of a body.
pub open spec fn header_of(v: RecordView) -> Seq<u8> {
    seq![v.version] + le_u16(v.symbols.len() as u16) + le_u32(v.num_ticks) + le_u64(v.base_ts)
}

/// What follows the reference frame in a body.
pub open spec fn tail_of(v: RecordView) -> Seq<u8> {
    le_u32(v.ref_crc) + le_u32(v.data_crc) + le_u32(v.data.len() as u32) + v.data
}

proof fn lemma_body_parts(v: RecordView)
    ensures
        body_of(v) == header_of(v) + dictionary_bytes(v.symbols) + ref_bytes(v.ref_frame) + tail_of(
            v,
        ),
        header_of(v).len() == 15,
{
    assert(body_of(v) =~= header_of(v) + dictionary_bytes(v.symbols) + ref_bytes(v.ref_frame)
        + tail_of(v));
}

proof fn lemma_read_header(v: RecordView)
    requires
        v.symbols.len() <= 0xFFFF,
    ensures
        body_of(v).len() >= 15,
        body_of(v)[0] == v.version,
        read_u16(body_of(v), 1) == v.symbols.len(),
        read_u32(body_of(v), 3) == v.num_ticks,
        read_u64(body_of(v), 7) == v.base_ts,
{
    lemma_body_parts(v);
    let body = body_of(v);
    let h = header_of(v);
    let rest = dictionary_bytes(v.symbols) + ref_bytes(v.ref_frame) + tail_of(v);
    assert(body =~= h + rest);
    assert(body.subrange(1, 3) =~= le_u16(v.symbols.len() as u16));
    crate::wire::lemma_read_u16(body, 1, v.symbols.len() as u16);
    assert(body.subrange(3, 7) =~= le_u32(v.num_ticks));
    crate::wire::lemma_read_u32(body, 3, v.num_ticks);
    assert(body.subrange(7, 15) =~= le_u64(v.base_ts));
    crate::wire::lemma_read_u64(body, 7, v.base_ts);
}

proof fn lemma_read_tail(v: RecordView, p: int)
    requires
        v.data.len() <= 0xFFFF_FFFF,
        p == 15 + dictionary_bytes(v.symbols).len() + ref_bytes(v.ref_frame).len(),
    ensures
        p + 12 + v.data.len() <= body_of(v).len(),
        read_u32(body_of(v), p) == v.ref_crc,
        read_u32(body_of(v), p + 4) == v.data_crc,
        read_u32(body_of(v), p + 8) == v.data.len(),
        body_of(v).subrange(p + 12, p + 12 + v.data.len()) == v.data,
{
    lemma_body_parts(v);
    let body = body_of(v);
    let t = tail_of(v);
    let front = header_of(v) + dictionary_bytes(v.symbols) + ref_bytes(v.ref_frame);
    assert(body == front + t);
    assert(body.subrange(p, p + t.len()) =~= t);
    assert(t.subrange(0, 4) =~= le_u32(v.ref_crc));
    lemma_piece_in_piece(body, p, t, 0, le_u32(v.ref_crc));
    crate::wire::lemma_read_u32(body, p, v.ref_crc);
    assert(t.subrange(4, 8) =~= le_u32(v.data_crc));
    lemma_piece_in_piece(body, p, t, 4, le_u32(v.data_crc));
    crate::wire::lemma_read_u32(body, p + 4, v.data_crc);
    assert(t.subrange(8, 12) =~= le_u32(v.data.len() as u32));
    lemma_piece_in_piece(body, p, t, 8, le_u32(v.data.len() as u32));
    crate::wire::lemma_read_u32(body, p + 8, v.data.len() as u32);
    assert(t.subrange(12, 12 + v.data.len() as int) =~= v.data);
    lemma_piece_in_piece(body, p, t, 12, v.data);
}

proof fn lemma_read_dictionary_and_frame(v: RecordView)
    requires
        fits_format(v),
    ensures
        dictionary_error(body_of(v), v.symbols.len()) is None,
        entry_start(body_of(v), v.symbols.len()) == 15 + dictionary_bytes(v.symbols).len(),
        forall|j: int|
            0 <= j < v.symbols.len() ==> decode_utf8(entry_bytes(body_of(v), j as nat))
                == #[trigger] v.symbols[j],
        forall|k: int|
            0 <= k < v.symbols.len() ==> read_u64(
                body_of(v),
                15 + dictionary_bytes(v.symbols).len() + 8 * k,
            ) == #[trigger] v.ref_frame[k],
        ref_bytes(v.ref_frame).len() == 8 * v.symbols.len(),
{
    broadcast use vstd::utf8::encode_utf8_decode_utf8;

    lemma_body_parts(v);
    let body = body_of(v);
    let d = dictionary_bytes(v.symbols);
    let r = ref_bytes(v.ref_frame);
    let n = v.symbols.len();
    lemma_ref_bytes_len(v.ref_frame);
    assert(body == header_of(v) + d + (r + tail_of(v))) by {
        assert(header_of(v) + d + r + tail_of(v) =~= header_of(v) + d + (r + tail_of(v)));
    }
    lemma_mid(header_of(v), d, r + tail_of(v));
    lemma_dictionary_entries(body, v.symbols, n);
    assert(v.symbols.subrange(0, n as int) =~= v.symbols);
    let p: int = 15 + d.len() as int;
    assert(body == header_of(v) + d + r + tail_of(v));
    lemma_mid(header_of(v) + d, r, tail_of(v));
    assert forall|k: int| 0 <= k < n implies read_u64(body, p + 8 * k) == v.ref_frame[k] by {
        lemma_ref_bytes(v.ref_frame, k);
        lemma_piece_in_piece(body, p, r, 8 * k, le_u64(v.ref_frame[k]));
        crate::wire::lemma_read_u64(body, p + 8 * k, v.ref_frame[k]);
    }
}

/// A blob laid out from a record that fits the format reads back as that
/// record, with the trailer as its overall checksum.
#[verifier::rlimit(30)]
pub proof fn lemma_parse_blob_of(v: RecordView)
    requires
        fits_format(v),
    ensures
        parse_blob(blob_of(v)) == Ok::<RecordView, CodecError>(
            RecordView { overall_crc: crc32(body_of(v)), ..v },
        ),
{
    let body = body_of(v);
    let blob = blob_of(v);
    let crc = crc32(body);
    let n = v.symbols.len();
    assert(blob.subrange(0, blob.len() - 4) =~= body);
    assert(blob.subrange(blob.len() - 4, blob.len() as int) =~= le_u32(crc));
    crate::wire::lemma_read_u32(blob, blob.len() - 4, crc);
    lemma_read_header(v);
    lemma_read_dictionary_and_frame(v);
    let p: int = 15 + dictionary_bytes(v.symbols).len() as int;
    lemma_read_tail(v, p + 8 * n);
    let parsed = parse_body(body, crc)->Ok_0;
    assert(parsed.symbols =~= v.symbols);
    assert(parsed.ref_frame =~= v.ref_frame);
}

proof fn lemma_entry_start_min(b: Seq<u8>, k: nat)
    ensures
        entry_start(b, k) >= 15,
    decreases k,
{
    if k > 0 {
        lemma_entry_start_min(b, (k - 1) as nat);
    }
}

proof fn lemma_dictionary_entries_valid(b: Seq<u8>, k: nat, j: nat)
    requires
        dictionary_error(b, k) is None,
        j < k,
    ensures
        valid_utf8(entry_bytes(b, j)),
        entry_start(b, j) + 1 + b[entry_start(b, j)] <= b.len(),
        entry_start(b, j) + 1 <= b.len(),
    decreases k,
{
    let km = (k - 1) as nat;
    if dictionary_error(b, km) is Some {
        lemma_dictionary_error_stays(b, km, k);
    }
    if j < km {
        lemma_dictionary_entries_valid(b, km, j);
    }
}

/// A record read from a blob fits the format, so it can be serialized again.
pub proof fn lemma_parse_blob_fits(b: Seq<u8>)
    ensures
        parse_blob(b) is Ok ==> fits_format(parse_blob(b)->Ok_0),
{
    broadcast use vstd::utf8::decode_utf8_encode_utf8;

    if parse_blob(b) is Ok {
        let body = b.subrange(0, b.len() - 4);
        let v = parse_blob(b)->Ok_0;
        assert(parse_body(body, read_u32(b, b.len() - 4)) == Ok::<RecordView, CodecError>(v));
        assert(body.len() >= 15);
        let n = read_u16(body, 1) as nat;
        assert(dictionary_error(body, n) is None);
        assert(v.symbols.len() == n);
        lemma_entry_start_min(body, n);
        let q = entry_start(body, n) + 8 * n;
        assert(v.data.len() == read_u32(body, q + 8));
        assert(v.ref_frame.len() == n);
        assert forall|i: int| 0 <= i < v.symbols.len() implies encode_utf8(#[trigger] v.symbols[i]).len()
            <= 255 by {
            lemma_dictionary_entries_valid(body, n, i as nat);
            lemma_entry_start_min(body, i as nat);
            let e = entry_bytes(body, i as nat);
            let p = entry_start(body, i as nat);
            assert(0 <= p < body.len());
            assert(e.len() == body[p] as int);
            assert(v.symbols[i] == decode_utf8(e));
            assert(encode_utf8(decode_utf8(e)) == e);
        }
    }
}

} // verus!
