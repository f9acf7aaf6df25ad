//! The frame compressor and the blob serializer.

use vstd::prelude::*;
use crate::crc32::Crc32;
use crate::delta_encoding::DeltaEncoding;
use crate::format::{
    FORMAT_VERSION, RecordView, absolute, blob_of, body_of, compressed, decompressed, fits_format,
    lemma_parse_blob_fits, payload_fits,
    dictionary_bytes, dictionary_error, entry_bytes, entry_start, lemma_dictionary_error_stays,
    offset_ts, parse_blob, parse_body, ref_bytes, unchanged, valid_series,
};
use crate::payload::{
    bitmap_byte, bitmap_len, bitmap_of, decode_deltas, decode_records, frame_list, frames_bytes,
    lemma_decode_deltas_advances, lemma_decode_deltas_stays_none, lemma_records_len_bounds,
    records_of, tick_record,
};
use crate::types::{CodecError, CompressionMetadata, DeltaTick};
use crate::wire::{
    le_u16, le_u32, le_u64, read_u16, read_u64, push_u16, push_u32, push_u64, get_u16, get_u32,
    get_u64,
};
use crate::wire::string_from_utf8;
use vstd::utf8::{decode_utf8, encode_utf8};

verus! {

/// A compressed tick series, as `compress` builds it and `deserialize`
/// restores it. Reference prices are held as IEEE-754 bit patterns.
pub struct CompressedTimeSeries {
    pub version: u8,
    pub symbols: Vec<String>,
    pub base_ts: u64,
    pub ref_frame: Vec<u64>,
    pub data: Vec<u8>,
    pub num_ticks: u32,
    pub ref_crc: u32,
    pub data_crc: u32,
    pub overall_crc: u32,
}

impl View for CompressedTimeSeries {
    type V = RecordView;

    open spec fn view(&self) -> RecordView {
        RecordView {
            version: self.version,
            symbols: symbols_view(self.symbols@),
            base_ts: self.base_ts,
            ref_frame: self.ref_frame@,
            data: self.data@,
            num_ticks: self.num_ticks,
            ref_crc: self.ref_crc,
            data_crc: self.data_crc,
            overall_crc: self.overall_crc,
        }
    }
}

/// The characters of each symbol.
pub open spec fn symbols_view(symbols: Seq<String>) -> Seq<Seq<char>> {
    symbols.map_values(|s: String| s@)
}

/// Timestamp and deltas of each tick.
pub open spec fn ticks_view(ticks: Seq<DeltaTick>) -> Seq<(u64, Seq<i32>)> {
    ticks.map_values(|t: DeltaTick| t@)
}

/// Number of bitmap bytes for `n` symbols.
fn bitmap_bytes(n: usize) -> (r: usize)
    ensures
        r == bitmap_len(n as int),
{
    n / 8 + if n % 8 != 0 {
        1
    } else {
        0
    }
}

/// Appends the change bitmap of `d`.
fn push_bitmap(buf: &mut Vec<u8>, d: &Vec<i32>)
    ensures
        final(buf)@ == old(buf)@ + bitmap_of(d@),
{
    let n = d.len();
    let bml = bitmap_bytes(n);
    let mut j: usize = 0;
    while j < bml
        invariant
            j <= bml,
            bml == bitmap_len(n as int),
            n == d@.len(),
            buf@ == old(buf)@ + bitmap_of(d@).subrange(0, j as int),
        decreases bml - j,
    {
        let mut byte: u8 = 0;
        let mut k: usize = 0;
        while k < 8
            invariant
                k <= 8,
                j < bml,
                bml == bitmap_len(n as int),
                n == d@.len(),
                byte == bitmap_byte(d@, j as int, k as nat),
            decreases 8 - k,
        {
            if k < n - 8 * j && d[8 * j + k] != 0 {
                byte = byte | (1u8 << (k as u8));
            }
            k = k + 1;
        }
        buf.push(byte);
        proof {
            assert(bitmap_of(d@).subrange(0, j + 1) =~= bitmap_of(d@).subrange(0, j as int).push(
                byte,
            ));
        }
        j = j + 1;
    }
    proof {
        assert(bitmap_of(d@).subrange(0, bml as int) =~= bitmap_of(d@));
    }
}

/// Appends one frame per changed symbol of `d`, in ascending index order.
fn push_frames(buf: &mut Vec<u8>, d: &Vec<i32>)
    ensures
        final(buf)@ == old(buf)@ + frames_bytes(frame_list(d@)),
{
    let mut i: usize = 0;
    while i < d.len()
        invariant
            i <= d@.len(),
            buf@ == old(buf)@ + frames_bytes(frame_list(d@.subrange(0, i as int))),
        decreases d@.len() - i,
    {
        let pre = Ghost(d@.subrange(0, i as int));
        proof {
            assert(d@.subrange(0, i + 1).drop_last() =~= pre@);
        }
        if d[i] != 0 {
            let e = DeltaEncoding::from_basis(d[i]);
            match e {
                Ok(e) => {
                    e.encode(buf);
                    proof {
                        let fl = frame_list(pre@);
                        assert(fl.push(e).drop_last() =~= fl);
                        assert(old(buf)@ + frames_bytes(fl) + e.frame() =~= old(buf)@ + (
                        frames_bytes(fl) + e.frame()));
                    }
                },
                Err(_) => {},
            }
        }
        i = i + 1;
    }
    proof {
        assert(d@.subrange(0, d@.len() as int) =~= d@);
    }
}

/// The bytes of a reference frame.
fn reference_bytes(frame: &Vec<u64>) -> (r: Vec<u8>)
    ensures
        r@ == ref_bytes(frame@),
{
    let mut out: Vec<u8> = Vec::new();
    let mut i: usize = 0;
    while i < frame.len()
        invariant
            i <= frame@.len(),
            out@ == ref_bytes(frame@.subrange(0, i as int)),
        decreases frame@.len() - i,
    {
        proof {
            assert(frame@.subrange(0, i + 1).drop_last() =~= frame@.subrange(0, i as int));
        }
        push_u64(&mut out, frame[i]);
        i = i + 1;
    }
    proof {
        assert(frame@.subrange(0, frame@.len() as int) =~= frame@);
    }
    out
}

/// Reads the deltas of one tick for `n` symbols: the bitmap holds `bml`
/// bytes at `bm_start`, and the frames follow it.
fn decode_tick_deltas(buf: &[u8], bm_start: usize, bml: usize, n: usize) -> (r: Result<
    (Vec<i32>, usize),
    CodecError,
>)
    requires
        bm_start + bml <= buf.len(),
        bml == bitmap_len(n as int),
    ensures
        match decode_deltas(
            buf@,
            bm_start + bml,
            buf@.subrange(bm_start as int, bm_start + bml),
            n as nat,
        ) {
            None => r == Err::<(Vec<i32>, usize), CodecError>(CodecError::DeltaUnderrun),
            Some((ds, q)) => r is Ok && r->Ok_0.0@ == ds && r->Ok_0.1 == q,
        },
{
    let ghost bm = buf@.subrange(bm_start as int, bm_start + bml);
    let mut p: usize = bm_start + bml;
    let mut deltas: Vec<i32> = Vec::new();
    let mut idx: usize = 0;
    while idx < n
        invariant
            idx <= n,
            bm_start + bml <= buf.len(),
            bml == bitmap_len(n as int),
            bm == buf@.subrange(bm_start as int, bm_start + bml),
            decode_deltas(buf@, bm_start + bml, bm, idx as nat) == Some((deltas@, p as int)),
            p <= buf@.len(),
        decreases n - idx,
    {
        assert(idx / 8 < bml);
        let byte = buf[bm_start + idx / 8];
        let shift = (idx % 8) as u8;
        proof {
            assert(bm[(idx / 8) as int] == byte);
            assert(shift < 8 ==> ((byte & (1u8 << shift)) != 0 <==> (byte >> shift) & 1u8 == 1u8))
                by (bit_vector);
        }
        if byte & (1u8 << shift) != 0 {
            match DeltaEncoding::decode(buf, &mut p) {
                Ok(e) => {
                    deltas.push(e.to_basis());
                },
                Err(e) => {
                    proof {
                        lemma_decode_deltas_stays_none(
                            buf@,
                            bm_start + bml,
                            bm,
                            (idx + 1) as nat,
                            n as nat,
                        );
                    }
                    return Err(e);
                },
            }
        } else {
            deltas.push(0);
        }
        idx = idx + 1;
    }
    Ok((deltas, p))
}

impl CompressedTimeSeries {
    /// Compresses a quantized series: the dictionary and reference frame
    /// describe the first tick, and each later tick is laid out as its
    /// timestamp offset, change bitmap and delta frames. The deltas of the
    /// first tick are not read. Fails on an empty series, and where the
    /// payload would outgrow the blob's `u32` length field.
    pub fn compress(symbols: &Vec<String>, reference: &Vec<u64>, ticks: &Vec<DeltaTick>) -> (r:
        Result<Self, CodecError>)
        requires
            valid_series(symbols_view(symbols@), reference@, ticks_view(ticks@)),
        ensures
            ticks@.len() == 0 ==> r == Err::<Self, CodecError>(CodecError::EmptyInput),
            ticks@.len() > 0 && !payload_fits(ticks_view(ticks@)) ==> r == Err::<Self, CodecError>(
                CodecError::PayloadTooLarge,
            ),
            ticks@.len() > 0 && payload_fits(ticks_view(ticks@)) ==> r is Ok && r->Ok_0@
                == compressed(symbols_view(symbols@), reference@, ticks_view(ticks@)) && fits_format(
                r->Ok_0@,
            ),
    {
        if ticks.len() == 0 {
            return Err(CodecError::EmptyInput);
        }
        let ghost tv = ticks_view(ticks@);
        let crc = Crc32::new();
        let n = symbols.len();
        let base = ticks[0].timestamp;
        let mut syms: Vec<String> = Vec::new();
        let mut i: usize = 0;
        while i < n
            invariant
                i <= n,
                n == symbols@.len(),
                syms@ == symbols@.subrange(0, i as int),
            decreases n - i,
        {
            syms.push(symbols[i].clone());
            proof {
                assert(syms@ =~= symbols@.subrange(0, i + 1));
            }
            i = i + 1;
        }
        proof {
            assert(symbols@.subrange(0, n as int) =~= symbols@);
        }
        let mut ref_frame: Vec<u64> = Vec::new();
        let mut i: usize = 0;
        while i < reference.len()
            invariant
                i <= reference@.len(),
                ref_frame@ == reference@.subrange(0, i as int),
            decreases reference@.len() - i,
        {
            ref_frame.push(reference[i]);
            proof {
                assert(ref_frame@ =~= reference@.subrange(0, i + 1));
            }
            i = i + 1;
        }
        proof {
            assert(reference@.subrange(0, reference@.len() as int) =~= reference@);
        }
        let rb = reference_bytes(&ref_frame);
        let ref_crc = crc.checksum(rb.as_slice());
        let mut data: Vec<u8> = Vec::new();
        let mut i: usize = 1;
        proof {
            assert(tv.subrange(1, 1) =~= Seq::<(u64, Seq<i32>)>::empty());
        }
        while i < ticks.len()
            invariant
                1 <= i <= ticks@.len(),
                tv == ticks_view(ticks@),
                base == tv[0].0,
                valid_series(symbols_view(symbols@), reference@, tv),
                data@ == records_of(base, tv.subrange(1, i as int)),
                data@.len() <= 0xFFFF_FFFF,
            decreases ticks@.len() - i,
        {
            let t = &ticks[i];
            assert(tv[i as int] == t@);
            let offset = (t.timestamp - base) as u32;
            push_u32(&mut data, offset);
            push_bitmap(&mut data, &t.deltas);
            push_frames(&mut data, &t.deltas);
            proof {
                let s = tv.subrange(1, i + 1);
                assert(s.drop_last() =~= tv.subrange(1, i as int));
                assert(s.last() == t@);
                assert(data@ =~= records_of(base, tv.subrange(1, i as int)) + tick_record(
                    offset,
                    t.deltas@,
                ));
            }
            if data.len() > 0xFFFF_FFFF {
                proof {
                    lemma_records_len_bounds(base, tv.drop_first(), i as int);
                    assert(tv.drop_first().subrange(0, i as int) =~= tv.subrange(1, i + 1));
                }
                return Err(CodecError::PayloadTooLarge);
            }
            i = i + 1;
        }
        proof {
            assert(tv.subrange(1, ticks@.len() as int) =~= tv.drop_first());
            lemma_records_len_bounds(base, tv.drop_first(), 0);
            assert(symbols_view(syms@) == symbols_view(symbols@));
        }
        let data_crc = crc.checksum(data.as_slice());
        let r = CompressedTimeSeries {
            version: FORMAT_VERSION,
            symbols: syms,
            base_ts: base,
            ref_frame,
            data,
            num_ticks: ticks.len() as u32,
            ref_crc,
            data_crc,
            overall_crc: 0,
        };
        Ok(r)
    }

    /// Restores the quantized series: checks the reference and payload
    /// checksums, then emits the first tick (all deltas zero) and one tick
    /// per payload record. Decoding stops early, keeping what it has, where
    /// the payload ends before a timestamp offset or a bitmap.
    pub fn decompress(&self) -> (r: Result<Vec<DeltaTick>, CodecError>)
        ensures
            match r {
                Ok(ts) => decompressed(self@) == Ok::<Seq<(u64, Seq<i32>)>, CodecError>(
                    ticks_view(ts@),
                ),
                Err(e) => decompressed(self@) == Err::<Seq<(u64, Seq<i32>)>, CodecError>(e),
            },
    {
        let crc = Crc32::new();
        let rb = reference_bytes(&self.ref_frame);
        let rc = crc.checksum(rb.as_slice());
        if rc != self.ref_crc {
            return Err(CodecError::ReferenceChecksumMismatch { expected: self.ref_crc, computed: rc });
        }
        let dc = crc.checksum(self.data.as_slice());
        if dc != self.data_crc {
            return Err(CodecError::DataChecksumMismatch { expected: self.data_crc, computed: dc });
        }
        let n = self.symbols.len();
        let base = self.base_ts;
        let buf = self.data.as_slice();
        let bml = bitmap_bytes(n);
        let ghost nn = n as nat;
        let mut zeros: Vec<i32> = Vec::new();
        let mut i: usize = 0;
        while i < n
            invariant
                i <= n,
                zeros@ == unchanged(i as nat),
            decreases n - i,
        {
            zeros.push(0);
            proof {
                assert(zeros@ =~= unchanged((i + 1) as nat));
            }
            i = i + 1;
        }
        let mut out: Vec<DeltaTick> = Vec::new();
        out.push(DeltaTick { timestamp: base, deltas: zeros });
        let ghost mut acc: Seq<(u32, Seq<i32>)> = seq![];
        let mut pos: usize = 0;
        proof {
            assert(ticks_view(out@) =~= seq![(base, unchanged(nn))] + absolute(base, acc));
            assert(acc + seq![] =~= acc);
            match decode_records(buf@, nn, 0) {
                Ok(rest) => {
                    assert(acc + rest =~= rest);
                },
                Err(_) => {},
            }
        }
        loop
            invariant
                pos <= buf@.len(),
                buf@ == self.data@,
                n == self.symbols@.len(),
                nn == n,
                bml == bitmap_len(n as int),
                base == self.base_ts,
                decompressed(self@) == match decode_records(buf@, nn, 0) {
                    Err(e) => Err(e),
                    Ok(recs) => Ok::<Seq<(u64, Seq<i32>)>, CodecError>(
                        seq![(base, unchanged(nn))] + absolute(base, recs),
                    ),
                },
                decode_records(buf@, nn, 0) == match decode_records(buf@, nn, pos as int) {
                    Err(e) => Err(e),
                    Ok(rest) => Ok::<Seq<(u32, Seq<i32>)>, CodecError>(acc + rest),
                },
                ticks_view(out@) == seq![(base, unchanged(nn))] + absolute(base, acc),
            ensures
                decode_records(buf@, nn, 0) == Ok::<Seq<(u32, Seq<i32>)>, CodecError>(acc),
            decreases buf@.len() - pos,
        {
            if buf.len() - pos < 4 || buf.len() - pos - 4 < bml {
                proof {
                    assert(decode_records(buf@, nn, pos as int) == Ok::<
                        Seq<(u32, Seq<i32>)>,
                        CodecError,
                    >(seq![]));
                    assert(acc + seq![] =~= acc);
                }
                break;
            }
            let offset = get_u32(buf, pos);
            let bm_start = pos + 4;
            let ghost bm = buf@.subrange(bm_start as int, bm_start + bml);
            let (deltas, p) = match decode_tick_deltas(buf, bm_start, bml, n) {
                Ok(x) => x,
                Err(e) => {
                    return Err(e);
                },
            };
            proof {
                lemma_decode_deltas_advances(buf@, bm_start + bml, bm, nn);
                match decode_records(buf@, nn, p as int) {
                    Ok(rest) => {
                        assert(acc + (seq![(offset, deltas@)] + rest) =~= acc.push((offset, deltas@))
                            + rest);
                    },
                    Err(_) => {},
                }
            }
            let ghost old_out = out@;
            let ts = base.wrapping_add(offset as u64);
            assert(ts == offset_ts(base, offset));
            let ghost dv = deltas@;
            out.push(DeltaTick { timestamp: ts, deltas });
            proof {
                assert(ticks_view(out@) =~= ticks_view(old_out).push((ts, dv)));
                assert(absolute(base, acc.push((offset, dv))) =~= absolute(base, acc).push(
                    (offset_ts(base, offset), dv),
                ));
                acc = acc.push((offset, dv));
                assert(ticks_view(out@) =~= seq![(base, unchanged(nn))] + absolute(base, acc));
            }
            pos = p;
        }
        proof {
            assert(decompressed(self@) == Ok::<Seq<(u64, Seq<i32>)>, CodecError>(
                seq![(base, unchanged(nn))] + absolute(base, acc),
            ));
        }
        Ok(out)
    }

    /// Lays a record that fits the format out as a blob: header, dictionary, reference frame,
    /// inner checksums, length-prefixed payload, then the CRC-32 of all of
    /// that as a trailer.
    pub fn serialize(&self) -> (r: Result<Vec<u8>, CodecError>)
        requires
            fits_format(self@),
        ensures
            r is Ok && r->Ok_0@ == blob_of(self@),
    {
        let crc = Crc32::new();
        let ghost v = self@;
        let mut buf: Vec<u8> = Vec::new();
        buf.push(self.version);
        push_u16(&mut buf, self.symbols.len() as u16);
        push_u32(&mut buf, self.num_ticks);
        push_u64(&mut buf, self.base_ts);
        let ghost head = buf@;
        proof {
            assert(head =~= seq![v.version] + le_u16(v.symbols.len() as u16) + le_u32(v.num_ticks)
                + le_u64(v.base_ts));
            assert(v.symbols.subrange(0, 0) =~= Seq::<Seq<char>>::empty());
            assert(head + dictionary_bytes(v.symbols.subrange(0, 0)) =~= head);
        }
        let mut i: usize = 0;
        while i < self.symbols.len()
            invariant
                i <= self.symbols@.len(),
                v == self@,
                buf@ == head + dictionary_bytes(v.symbols.subrange(0, i as int)),
            decreases self.symbols@.len() - i,
        {
            let bytes = self.symbols[i].as_str().as_bytes();
            buf.push(bytes.len() as u8);
            push_bytes(&mut buf, bytes);
            proof {
                let sub = v.symbols.subrange(0, i + 1);
                assert(sub.drop_last() =~= v.symbols.subrange(0, i as int));
                assert(sub.last() == self.symbols@[i as int]@);
                assert(buf@ =~= head + dictionary_bytes(sub));
            }
            i = i + 1;
        }
        let ghost with_dict = buf@;
        proof {
            assert(v.symbols.subrange(0, v.symbols.len() as int) =~= v.symbols);
            assert(v.ref_frame.subrange(0, 0) =~= Seq::<u64>::empty());
            assert(with_dict + ref_bytes(v.ref_frame.subrange(0, 0)) =~= with_dict);
        }
        let mut i: usize = 0;
        while i < self.ref_frame.len()
            invariant
                i <= self.ref_frame@.len(),
                v == self@,
                buf@ == with_dict + ref_bytes(v.ref_frame.subrange(0, i as int)),
            decreases self.ref_frame@.len() - i,
        {
            push_u64(&mut buf, self.ref_frame[i]);
            proof {
                let sub = v.ref_frame.subrange(0, i + 1);
                assert(sub.drop_last() =~= v.ref_frame.subrange(0, i as int));
                assert(buf@ =~= with_dict + ref_bytes(sub));
            }
            i = i + 1;
        }
        proof {
            assert(v.ref_frame.subrange(0, v.ref_frame.len() as int) =~= v.ref_frame);
        }
        push_u32(&mut buf, self.ref_crc);
        push_u32(&mut buf, self.data_crc);
        push_u32(&mut buf, self.data.len() as u32);
        push_bytes(&mut buf, self.data.as_slice());
        proof {
            assert(buf@ =~= body_of(v));
        }
        let overall = crc.checksum(buf.as_slice());
        push_u32(&mut buf, overall);
        Ok(buf)
    }

    /// Restores a record from a blob. The trailer is checked first; only
    /// then are the fields read. The inner checksums are kept as read and
    /// checked by `decompress`.
    pub fn deserialize(data: &[u8]) -> (r: Result<Self, CodecError>)
        ensures
            match r {
                Ok(rec) => parse_blob(data@) == Ok::<RecordView, CodecError>(rec@),
                Err(e) => parse_blob(data@) == Err::<RecordView, CodecError>(e),
            },
            r matches Ok(rec) ==> fits_format(rec@),
    {
        proof {
            lemma_parse_blob_fits(data@);
        }
        if data.len() < 4 {
            return Err(CodecError::TooShort);
        }
        let crc_pos = data.len() - 4;
        let stored = get_u32(data, crc_pos);
        let body = &data[0..crc_pos];
        let crc = Crc32::new();
        let computed = crc.checksum(body);
        if computed != stored {
            return Err(CodecError::OverallChecksumMismatch { expected: stored, computed });
        }
        read_body(body, stored)
    }

    /// The blob of this record; the same as `serialize`.
    pub fn to_blob(&self) -> (r: Result<Vec<u8>, CodecError>)
        requires
            fits_format(self@),
        ensures
            r is Ok && r->Ok_0@ == blob_of(self@),
    {
        self.serialize()
    }

    /// Restores a record from a blob; the same as `deserialize`.
    pub fn from_blob(blob: &[u8]) -> (r: Result<Self, CodecError>)
        ensures
            match r {
                Ok(rec) => parse_blob(blob@) == Ok::<RecordView, CodecError>(rec@),
                Err(e) => parse_blob(blob@) == Err::<RecordView, CodecError>(e),
            },
            r matches Ok(rec) ==> fits_format(rec@),
    {
        proof {
            lemma_parse_blob_fits(blob@);
        }
        Self::deserialize(blob)
    }

    /// Whether the record fits the blob format, as `serialize` requires.
    pub fn fits_blob_format(&self) -> (r: bool)
        ensures
            r == fits_format(self@),
    {
        if self.symbols.len() > 0xFFFF || self.ref_frame.len() != self.symbols.len()
            || self.data.len() > 0xFFFF_FFFF {
            return false;
        }
        let mut i: usize = 0;
        while i < self.symbols.len()
            invariant
                i <= self.symbols@.len(),
                forall|j: int|
                    0 <= j < i ==> encode_utf8(#[trigger] self.symbols@[j]@).len() <= 255,
            decreases self.symbols@.len() - i,
        {
            let bytes = self.symbols[i].as_str().as_bytes();
            assert(bytes@ == encode_utf8(self.symbols@[i as int]@));
            if bytes.len() > 255 {
                assert(self@.symbols[i as int] == self.symbols@[i as int]@);
                return false;
            }
            i = i + 1;
        }
        proof {
            assert forall|j: int| 0 <= j < self@.symbols.len() implies encode_utf8(
                #[trigger] self@.symbols[j],
            ).len() <= 255 by {
                assert(self@.symbols[j] == self.symbols@[j]@);
            }
        }
        true
    }

    /// The record's header fields, dictionary and checksums.
    pub fn metadata(&self) -> (r: CompressionMetadata)
        ensures
            r.version == self.version,
            r.num_symbols == self.symbols@.len(),
            r.num_ticks == self.num_ticks,
            r.base_timestamp == self.base_ts,
            r.symbols@ == self.symbols@,
            r.compressed_size == self.data@.len(),
            r.reference_checksum == self.ref_crc,
            r.data_checksum == self.data_crc,
            r.overall_checksum == self.overall_crc,
    {
        let mut symbols: Vec<String> = Vec::new();
        let mut i: usize = 0;
        while i < self.symbols.len()
            invariant
                i <= self.symbols@.len(),
                symbols@ == self.symbols@.subrange(0, i as int),
            decreases self.symbols@.len() - i,
        {
            symbols.push(self.symbols[i].clone());
            proof {
                assert(symbols@ =~= self.symbols@.subrange(0, i + 1));
            }
            i = i + 1;
        }
        proof {
            assert(self.symbols@.subrange(0, self.symbols@.len() as int) =~= self.symbols@);
        }
        CompressionMetadata {
            version: self.version,
            num_symbols: self.symbols.len(),
            num_ticks: self.num_ticks as usize,
            base_timestamp: self.base_ts,
            symbols,
            compressed_size: self.data.len(),
            reference_checksum: self.ref_crc,
            data_checksum: self.data_crc,
            overall_checksum: self.overall_crc,
        }
    }
}

/// Appends the bytes of `s`.
fn push_bytes(buf: &mut Vec<u8>, s: &[u8])
    ensures
        final(buf)@ == old(buf)@ + s@,
{
    let mut i: usize = 0;
    while i < s.len()
        invariant
            i <= s@.len(),
            buf@ == old(buf)@ + s@.subrange(0, i as int),
        decreases s@.len() - i,
    {
        buf.push(s[i]);
        proof {
            assert(buf@ =~= old(buf)@ + s@.subrange(0, i + 1));
        }
        i = i + 1;
    }
    proof {
        assert(s@.subrange(0, s@.len() as int) =~= s@);
    }
}

/// Copies the bytes `start..end` of `s`.
fn copy_range(s: &[u8], start: usize, end: usize) -> (r: Vec<u8>)
    requires
        start <= end <= s@.len(),
    ensures
        r@ == s@.subrange(start as int, end as int),
{
    let mut out: Vec<u8> = Vec::new();
    push_bytes(&mut out, &s[start..end]);
    proof {
        assert(out@ =~= s@.subrange(start as int, end as int));
    }
    out
}

/// Reads the fields of a blob body, as `parse_body` describes.
fn read_body(b: &[u8], overall_crc: u32) -> (r: Result<CompressedTimeSeries, CodecError>)
    ensures
        match r {
            Ok(rec) => parse_body(b@, overall_crc) == Ok::<RecordView, CodecError>(rec@),
            Err(e) => parse_body(b@, overall_crc) == Err::<RecordView, CodecError>(e),
        },
{
    if b.len() < 15 {
        return Err(CodecError::Truncated);
    }
    let version = b[0];
    let n = get_u16(b, 1) as usize;
    let num_ticks = get_u32(b, 3);
    let base_ts = get_u64(b, 7);
    let ghost nn = n as nat;
    let mut symbols: Vec<String> = Vec::new();
    let mut pos: usize = 15;
    let mut k: usize = 0;
    proof {
        assert(symbols_view(symbols@) =~= Seq::new(0, |j: int| decode_utf8(entry_bytes(b@, j as nat))));
    }
    while k < n
        invariant
            k <= n,
            n == nn,
            nn == read_u16(b@, 1) as nat,
            b@.len() >= 15,
            dictionary_error(b@, k as nat) is None,
            pos == entry_start(b@, k as nat),
            pos <= b@.len(),
            symbols_view(symbols@) == Seq::new(
                k as nat,
                |j: int| decode_utf8(entry_bytes(b@, j as nat)),
            ),
        decreases n - k,
    {
        if pos >= b.len() {
            proof {
                lemma_dictionary_error_stays(b@, (k + 1) as nat, nn);
            }
            return Err(CodecError::Truncated);
        }
        let len = b[pos] as usize;
        if b.len() - pos - 1 < len {
            proof {
                lemma_dictionary_error_stays(b@, (k + 1) as nat, nn);
            }
            return Err(CodecError::Truncated);
        }
        let bytes = copy_range(b, pos + 1, pos + 1 + len);
        let ghost eb = bytes@;
        assert(eb == entry_bytes(b@, k as nat));
        match string_from_utf8(bytes) {
            Some(s) => {
                let ghost old_syms = symbols@;
                let ghost sv = s@;
                assert(sv == decode_utf8(eb));
                symbols.push(s);
                proof {
                    assert(symbols_view(symbols@) =~= symbols_view(old_syms).push(sv));
                    assert(symbols_view(symbols@) =~= Seq::new(
                        (k + 1) as nat,
                        |j: int| decode_utf8(entry_bytes(b@, j as nat)),
                    ));
                }
            },
            None => {
                proof {
                    lemma_dictionary_error_stays(b@, (k + 1) as nat, nn);
                }
                return Err(CodecError::MalformedSymbol);
            },
        }
        pos = pos + 1 + len;
        k = k + 1;
    }
    let p = pos;
    if b.len() - p < 12 || (b.len() - p - 12) / 8 < n {
        proof {
            let room = b@.len() - p - 12;
            if room >= 0 {
                assert(room / 8 < n ==> room < 8 * n) by (nonlinear_arith);
            }
        }
        return Err(CodecError::Truncated);
    }
    proof {
        let room = (b.len() - p - 12) as int;
        assert(room / 8 >= n ==> 8 * n <= room) by (nonlinear_arith);
    }
    let q = p + 8 * n;
    let mut ref_frame: Vec<u64> = Vec::new();
    let mut i: usize = 0;
    while i < n
        invariant
            i <= n,
            p + 8 * n + 12 <= b.len(),
            ref_frame@ == Seq::new(i as nat, |j: int| read_u64(b@, p + 8 * j)),
        decreases n - i,
    {
        let x = get_u64(b, p + 8 * i);
        ref_frame.push(x);
        proof {
            assert(ref_frame@ =~= Seq::new((i + 1) as nat, |j: int| read_u64(b@, p + 8 * j)));
        }
        i = i + 1;
    }
    let ref_crc = get_u32(b, q);
    let data_crc = get_u32(b, q + 4);
    let plen = get_u32(b, q + 8) as usize;
    if b.len() - q - 12 < plen {
        return Err(CodecError::Truncated);
    }
    let payload = copy_range(b, q + 12, q + 12 + plen);
    let rec = CompressedTimeSeries {
        version,
        symbols,
        base_ts,
        ref_frame,
        data: payload,
        num_ticks,
        ref_crc,
        data_crc,
        overall_crc,
    };
    proof {
        assert(rec@ =~= parse_body(b@, overall_crc)->Ok_0);
    }
    Ok(rec)
}

} // verus!
