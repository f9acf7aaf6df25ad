//! Properties that relate the codec's operations to one another.

use vstd::prelude::*;
use crate::compression::CompressedTimeSeries;
use crate::crc32::{crc32, lemma_single_byte_change_detected};
use crate::delta_encoding::DeltaEncoding;
use crate::format::{
    RecordView, absolute, blob_of, body_of, compressed, decompressed, fits_format,
    lemma_parse_blob_of, offset_ts, parse_blob, payload_fits, ref_bytes, unchanged, valid_series,
};
use crate::payload::{
    bitmap_len, bitmap_of, frame_list, frames_bytes, lemma_decode_records, lemma_popcount_frames,
    popcount, records_of, relative, tick_record,
};
use crate::types::CodecError;
use crate::wire::{lemma_read_u32_byte_change, read_u32};

verus! {

/// Decompressing a compressed series gives back every tick's timestamp and
/// deltas; the first tick, which the reference frame stands for, comes back
/// with all deltas zero.
pub proof fn law_decompress_compress(
    symbols: Seq<Seq<char>>,
    reference: Seq<u64>,
    ticks: Seq<(u64, Seq<i32>)>,
)
    requires
        valid_series(symbols, reference, ticks),
        ticks.len() > 0,
    ensures
        decompressed(compressed(symbols, reference, ticks)) == Ok::<
            Seq<(u64, Seq<i32>)>,
            CodecError,
        >(ticks.update(0, (ticks[0].0, unchanged(symbols.len())))),
{
    let v = compressed(symbols, reference, ticks);
    let base = ticks[0].0;
    let rest = ticks.drop_first();
    let n = symbols.len();
    assert(v.data.subrange(0, v.data.len() as int) =~= v.data);
    assert forall|i: int| 0 <= i < rest.len() implies (#[trigger] rest[i]).1.len() == n by {
        assert(rest[i] == ticks[i + 1]);
    }
    lemma_decode_records(v.data, n, 0, base, rest);
    assert forall|i: int| 0 <= i < rest.len() implies #[trigger] absolute(base, relative(base, rest))[i]
        == rest[i] by {
        assert(rest[i] == ticks[i + 1]);
        assert(base <= rest[i].0 < base + 0x1_0000_0000);
        assert(offset_ts(base, (rest[i].0 - base) as u32) == rest[i].0);
    }
    assert(absolute(base, relative(base, rest)) =~= rest);
    assert(seq![(base, unchanged(n))] + rest =~= ticks.update(0, (ticks[0].0, unchanged(n))));
}

/// A compressed series fits the blob format, so it serializes without loss.
pub proof fn law_compressed_fits_format(
    symbols: Seq<Seq<char>>,
    reference: Seq<u64>,
    ticks: Seq<(u64, Seq<i32>)>,
)
    requires
        valid_series(symbols, reference, ticks),
        ticks.len() > 0,
        payload_fits(ticks),
    ensures
        fits_format(compressed(symbols, reference, ticks)),
{
}

/// Deserializing a serialized record gives back every field but the overall
/// checksum, which is then the blob's trailer.
pub proof fn law_blob_round_trip(r: RecordView)
    requires
        fits_format(r),
    ensures
        parse_blob(blob_of(r)) == Ok::<RecordView, CodecError>(
            RecordView { overall_crc: crc32(body_of(r)), ..r },
        ),
{
    lemma_parse_blob_of(r);
}

/// Through the whole wire path (compress, serialize, deserialize,
/// decompress) a series comes back with every tick's timestamp and deltas;
/// the first tick comes back with all deltas zero.
pub proof fn law_blob_decompress_compress(
    symbols: Seq<Seq<char>>,
    reference: Seq<u64>,
    ticks: Seq<(u64, Seq<i32>)>,
)
    requires
        valid_series(symbols, reference, ticks),
        ticks.len() > 0,
        payload_fits(ticks),
    ensures
        parse_blob(blob_of(compressed(symbols, reference, ticks))) is Ok,
        decompressed(parse_blob(blob_of(compressed(symbols, reference, ticks)))->Ok_0) == Ok::<
            Seq<(u64, Seq<i32>)>,
            CodecError,
        >(ticks.update(0, (ticks[0].0, unchanged(symbols.len())))),
{
    let v = compressed(symbols, reference, ticks);
    law_compressed_fits_format(symbols, reference, ticks);
    lemma_parse_blob_of(v);
    law_decompress_compress(symbols, reference, ticks);
    assert(decompressed(RecordView { overall_crc: crc32(body_of(v)), ..v }) == decompressed(v));
}

/// Compressing the same series twice and serializing both records gives the
/// same bytes.
pub proof fn law_deterministic_blob(
    symbols: Seq<Seq<char>>,
    reference: Seq<u64>,
    ticks: Seq<(u64, Seq<i32>)>,
    first: CompressedTimeSeries,
    second: CompressedTimeSeries,
)
    requires
        first@ == compressed(symbols, reference, ticks),
        second@ == compressed(symbols, reference, ticks),
    ensures
        blob_of(first@) == blob_of(second@),
{
}

/// Changing any one byte of a blob makes `deserialize` fail on the overall
/// checksum.
pub proof fn law_byte_change_detected(r: RecordView, p: int, x: u8)
    requires
        0 <= p < blob_of(r).len(),
        x != blob_of(r)[p],
    ensures
        parse_blob(blob_of(r).update(p, x)) is Err,
        parse_blob(blob_of(r).update(p, x)) matches Err(CodecError::OverallChecksumMismatch { .. }),
{
    let blob = blob_of(r);
    let body = body_of(r);
    let changed = blob.update(p, x);
    let len = blob.len() as int;
    let crc = crc32(body);
    assert(blob.subrange(0, len - 4) =~= body);
    assert(blob.subrange(len - 4, len) =~= crate::wire::le_u32(crc));
    crate::wire::lemma_read_u32(blob, len - 4, crc);
    if p < len - 4 {
        let body2 = changed.subrange(0, len - 4);
        assert(body2[p] == x);
        assert forall|i: int| 0 <= i < body.len() && i != p implies body[i] == body2[i] by {
            assert(body[i] == blob[i]);
        }
        lemma_single_byte_change_detected(body, body2, p);
        assert(read_u32(changed, len - 4) == read_u32(blob, len - 4));
    } else {
        assert(changed.subrange(0, len - 4) =~= body);
        lemma_read_u32_byte_change(blob, changed, len - 4, p);
    }
}

/// Flipping any one bit of a blob makes `deserialize` fail on the overall
/// checksum.
pub proof fn law_bit_flip_detected(r: RecordView, p: int, bit: u8)
    requires
        0 <= p < blob_of(r).len(),
        bit < 8,
    ensures
        parse_blob(blob_of(r).update(p, blob_of(r)[p] ^ (1u8 << bit))) matches Err(
            CodecError::OverallChecksumMismatch { .. },
        ),
{
    let b = blob_of(r)[p];
    assert(bit < 8 ==> b ^ (1u8 << bit) != b) by (bit_vector);
    law_byte_change_detected(r, p, b ^ (1u8 << bit));
}

/// Changing any one payload byte of a record whose checksums hold makes
/// `decompress` fail on the payload checksum.
pub proof fn law_payload_change_detected(r: RecordView, p: int, x: u8)
    requires
        crc32(ref_bytes(r.ref_frame)) == r.ref_crc,
        crc32(r.data) == r.data_crc,
        0 <= p < r.data.len(),
        x != r.data[p],
    ensures
        decompressed(RecordView { data: r.data.update(p, x), ..r }) == Err::<
            Seq<(u64, Seq<i32>)>,
            CodecError,
        >(
            CodecError::DataChecksumMismatch {
                expected: r.data_crc,
                computed: crc32(r.data.update(p, x)),
            },
        ),
{
    lemma_single_byte_change_detected(r.data, r.data.update(p, x), p);
}

/// In every tick record, the bitmap has as many bits set as there are delta
/// frames after it.
pub proof fn law_bitmap_counts_frames(ts_delta: u32, deltas: Seq<i32>)
    ensures
        tick_record(ts_delta, deltas) == crate::wire::le_u32(ts_delta) + bitmap_of(deltas)
            + frames_bytes(frame_list(deltas)),
        popcount(bitmap_of(deltas)) == frame_list(deltas).len(),
{
    lemma_popcount_frames(deltas);
}

/// A one-tick series compresses to an empty payload.
pub proof fn law_single_tick_empty_payload(
    symbols: Seq<Seq<char>>,
    reference: Seq<u64>,
    ticks: Seq<(u64, Seq<i32>)>,
)
    requires
        ticks.len() == 1,
    ensures
        compressed(symbols, reference, ticks).data == Seq::<u8>::empty(),
{
    assert(ticks.drop_first() =~= Seq::<(u64, Seq<i32>)>::empty());
}

} // verus!
