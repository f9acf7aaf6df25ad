use cndl::{CodecError, CompressedTimeSeries, Crc32, DeltaTick};

/// A tick as the caller holds it: timestamp and prices by symbol.
type PriceTick = (u64, Vec<(&'static str, f64)>);

/// Quantizes a series into the compressor's input: the dictionary (sorted),
/// the reference bit patterns, and basis-point deltas against the rolling
/// reconstructed price.
fn quantize(ticks: &[PriceTick]) -> (Vec<String>, Vec<u64>, Vec<DeltaTick>) {
    if ticks.is_empty() {
        return (Vec::new(), Vec::new(), Vec::new());
    }
    let names: Vec<String> = ticks[0].1.iter().map(|(s, _)| s.to_string()).collect();
    let symbols = cndl::sorted_symbols(&names);
    let price_of = |t: &PriceTick, s: &str| t.1.iter().find(|(k, _)| *k == s).map(|(_, p)| *p);
    let reference: Vec<f64> = symbols.iter().map(|s| price_of(&ticks[0], s).unwrap()).collect();
    let mut prev = reference.clone();
    let mut out = Vec::new();
    for (i, t) in ticks.iter().enumerate() {
        let mut deltas = vec![0i32; symbols.len()];
        if i > 0 {
            for (idx, s) in symbols.iter().enumerate() {
                if let Some(price) = price_of(t, s) {
                    let bp = ((price - prev[idx]) / prev[idx] * 10000.0).round() as i32;
                    if bp != 0 {
                        deltas[idx] = bp;
                        prev[idx] *= 1.0 + bp as f64 / 10000.0;
                    }
                }
            }
        }
        out.push(DeltaTick { timestamp: t.0, deltas });
    }
    (symbols, reference.iter().map(|p| p.to_bits()).collect(), out)
}

/// Rebuilds prices from a record and its decompressed deltas.
fn reconstruct(rec: &CompressedTimeSeries, ticks: &[DeltaTick]) -> Vec<(u64, Vec<(String, f64)>)> {
    let mut curr: Vec<f64> = rec.ref_frame.iter().map(|b| f64::from_bits(*b)).collect();
    let mut out = Vec::new();
    for t in ticks {
        for (idx, d) in t.deltas.iter().enumerate() {
            if *d != 0 {
                curr[idx] *= 1.0 + *d as f64 / 10000.0;
            }
        }
        let prices = rec.symbols.iter().cloned().zip(curr.iter().cloned()).collect();
        out.push((t.timestamp, prices));
    }
    out
}

fn compress(ticks: &[PriceTick]) -> Result<CompressedTimeSeries, CodecError> {
    let (symbols, reference, q) = quantize(ticks);
    CompressedTimeSeries::compress(&symbols, &reference, &q)
}

fn make_ticks() -> Vec<PriceTick> {
    vec![
        (1000, vec![("AAPL", 150.0), ("GOOGL", 2800.0)]),
        (1001, vec![("AAPL", 150.5), ("GOOGL", 2805.0)]),
        (1002, vec![("AAPL", 150.3), ("GOOGL", 2803.0)]),
    ]
}

#[test]
fn test_compress_decompress_roundtrip() {
    let ticks = make_ticks();
    let compressed = compress(&ticks).unwrap();
    let decompressed = reconstruct(&compressed, &compressed.decompress().unwrap());

    assert_eq!(ticks.len(), decompressed.len());
    for (orig, decomp) in ticks.iter().zip(decompressed.iter()) {
        assert_eq!(orig.0, decomp.0);
        assert_eq!(orig.1.len(), decomp.1.len());
        for (sym, price) in &orig.1 {
            let decomp_price = decomp.1.iter().find(|(k, _)| k == sym).unwrap().1;
            let rel_error = ((price - decomp_price) / price).abs();
            assert!(
                rel_error < 0.01,
                "Price mismatch for {}: expected {}, got {} (rel error: {})",
                sym,
                price,
                decomp_price,
                rel_error
            );
        }
    }
}

#[test]
fn test_serialize_deserialize_roundtrip() {
    let ticks = make_ticks();
    let compressed = compress(&ticks).unwrap();
    let serialized = compressed.serialize().unwrap();
    let deserialized = CompressedTimeSeries::deserialize(&serialized).unwrap();

    assert_eq!(compressed.version, deserialized.version);
    assert_eq!(compressed.symbols, deserialized.symbols);
    assert_eq!(compressed.base_ts, deserialized.base_ts);
    assert_eq!(compressed.num_ticks, deserialized.num_ticks);
    assert_eq!(compressed.ref_crc, deserialized.ref_crc);
    assert_eq!(compressed.data_crc, deserialized.data_crc);
}

#[test]
fn test_empty_ticks_error() {
    let result = compress(&[]);
    assert!(result.is_err());
}

#[test]
fn test_checksum_validation() {
    let ticks = make_ticks();
    let mut compressed = compress(&ticks).unwrap();

    compressed.data[0] ^= 0xFF;
    let result = compressed.decompress();
    assert!(result.is_err());
}

#[test]
fn test_blob_operations() {
    let ticks = make_ticks();
    let compressed = compress(&ticks).unwrap();
    let blob = compressed.to_blob().unwrap();
    let restored = CompressedTimeSeries::from_blob(&blob).unwrap();

    assert_eq!(compressed.symbols, restored.symbols);
    assert_eq!(compressed.num_ticks, restored.num_ticks);
}

#[test]
fn test_metadata() {
    let ticks = make_ticks();
    let compressed = compress(&ticks).unwrap();
    let meta = compressed.metadata();

    assert_eq!(meta.version, 1);
    assert_eq!(meta.num_symbols, 2);
    assert_eq!(meta.num_ticks, 3);
    assert_eq!(meta.base_timestamp, 1000);
    assert_eq!(meta.symbols.len(), 2);
}

#[test]
fn test_corrupted_overall_checksum() {
    let ticks = make_ticks();
    let compressed = compress(&ticks).unwrap();
    let mut serialized = compressed.serialize().unwrap();

    let len = serialized.len();
    serialized[len - 1] ^= 0xFF;

    let result = CompressedTimeSeries::deserialize(&serialized);
    assert!(result.is_err());
}

#[test]
fn test_single_tick() {
    let ticks = vec![(1000u64, vec![("AAPL", 150.0)])];

    let compressed = compress(&ticks).unwrap();
    let decompressed = compressed.decompress().unwrap();

    assert_eq!(decompressed.len(), 1);
    assert_eq!(decompressed[0].timestamp, 1000);
}

#[test]
fn empty_input_is_the_empty_input_error() {
    let r = CompressedTimeSeries::compress(&Vec::new(), &Vec::new(), &Vec::new());
    assert!(matches!(r, Err(CodecError::EmptyInput)));
}

#[test]
fn single_tick_record_and_blob() {
    let c = compress(&[(1000, vec![("AAPL", 150.0)])]).unwrap();
    assert_eq!(c.num_ticks, 1);
    assert!(c.data.is_empty());
    assert_eq!(c.ref_crc, Crc32::new().checksum(&150.0f64.to_le_bytes()));
    assert_eq!(c.overall_crc, 0);
    let blob = c.serialize().unwrap();
    // version, N, T, base, "AAPL" entry, one price, two CRCs, P, trailer
    assert_eq!(blob.len(), 1 + 2 + 4 + 8 + 5 + 8 + 4 + 4 + 4 + 4);
    let p_at = blob.len() - 8;
    assert_eq!(&blob[p_at..p_at + 4], &[0, 0, 0, 0]);
}

#[test]
fn two_unchanged_ticks_payload() {
    let c = compress(&[(1000, vec![("AAPL", 150.0)]), (1001, vec![("AAPL", 150.0)])]).unwrap();
    assert_eq!(c.data, vec![0x01, 0x00, 0x00, 0x00, 0x00]);
    assert_eq!(c.num_ticks, 2);
}

#[test]
fn small_positive_delta() {
    let ticks = vec![(1000, vec![("X", 100.0)]), (1000, vec![("X", 100.5)])];
    let c = compress(&ticks).unwrap();
    assert_eq!(c.data, vec![0x00, 0x00, 0x00, 0x00, 0x01, 0x72, 0x00]);
    let d = c.decompress().unwrap();
    assert_eq!(d[1].deltas, vec![50]);
    let prices = reconstruct(&c, &d);
    assert!((prices[1].1[0].1 - 100.5).abs() < 1e-9);
}

#[test]
fn payload_tamper_fails_overall_checksum() {
    let c = compress(&make_ticks()).unwrap();
    let blob = c.serialize().unwrap();
    let payload_start = blob.len() - 4 - c.data.len();
    for i in payload_start..blob.len() - 4 {
        let mut b = blob.clone();
        b[i] ^= 0xFF;
        match CompressedTimeSeries::deserialize(&b) {
            Err(CodecError::OverallChecksumMismatch { expected, computed }) => {
                assert_ne!(expected, computed);
            }
            other => panic!("unexpected {:?}", other.map(|r| r.num_ticks)),
        }
    }
}

#[test]
fn every_bit_flip_is_detected() {
    let c = compress(&make_ticks()).unwrap();
    let blob = c.serialize().unwrap();
    for i in 0..blob.len() {
        for bit in 0..8 {
            let mut b = blob.clone();
            b[i] ^= 1 << bit;
            assert!(matches!(
                CompressedTimeSeries::deserialize(&b),
                Err(CodecError::OverallChecksumMismatch { .. })
            ));
        }
    }
}

#[test]
fn serialize_is_deterministic() {
    let a = compress(&make_ticks()).unwrap().serialize().unwrap();
    let b = compress(&make_ticks()).unwrap().serialize().unwrap();
    assert_eq!(a, b);
}

#[test]
fn deserialize_restores_every_field() {
    let c = compress(&make_ticks()).unwrap();
    let blob = c.serialize().unwrap();
    let r = CompressedTimeSeries::deserialize(&blob).unwrap();
    assert_eq!(r.version, c.version);
    assert_eq!(r.symbols, c.symbols);
    assert_eq!(r.base_ts, c.base_ts);
    assert_eq!(r.ref_frame, c.ref_frame);
    assert_eq!(r.data, c.data);
    assert_eq!(r.num_ticks, c.num_ticks);
    assert_eq!(r.ref_crc, c.ref_crc);
    assert_eq!(r.data_crc, c.data_crc);
    let n = blob.len();
    let trailer = u32::from_le_bytes([blob[n - 4], blob[n - 3], blob[n - 2], blob[n - 1]]);
    assert_eq!(r.overall_crc, trailer);
    assert_eq!(trailer, Crc32::new().checksum(&blob[..n - 4]));
}

#[test]
fn bitmap_bits_match_frames() {
    let ticks = vec![
        (10, vec![("A", 100.0), ("B", 100.0), ("C", 100.0)]),
        (11, vec![("A", 101.0), ("B", 100.0), ("C", 50.0)]),
    ];
    let c = compress(&ticks).unwrap();
    // offset 1, bitmap with bits 0 and 2, then two Small frames (+100 bp, -5000 bp)
    assert_eq!(&c.data[0..4], &[1, 0, 0, 0]);
    assert_eq!(c.data[4], 0b0000_0101);
    assert_eq!(c.data[4].count_ones(), 2);
    let mut pos = 5usize;
    let mut frames = 0;
    while pos < c.data.len() {
        cndl::DeltaEncoding::decode(&c.data, &mut pos).unwrap();
        frames += 1;
    }
    assert_eq!(frames, 2);
}

#[test]
fn nine_symbols_use_two_bitmap_bytes() {
    let names = ["A", "B", "C", "D", "E", "F", "G", "H", "I"];
    let first: Vec<(&'static str, f64)> = names.iter().map(|n| (*n, 10.0)).collect();
    let mut second = first.clone();
    second[8].1 = 10.5;
    let c = compress(&[(0, first), (5, second)]).unwrap();
    assert_eq!(c.data, vec![5, 0, 0, 0, 0x00, 0x01, 0x74, 0x07]);
    let d = c.decompress().unwrap();
    assert_eq!(d[1].timestamp, 5);
    assert_eq!(d[1].deltas, vec![0, 0, 0, 0, 0, 0, 0, 0, 500]);
}

#[test]
fn decompress_reports_reference_mismatch() {
    let mut c = compress(&make_ticks()).unwrap();
    c.ref_crc ^= 1;
    assert!(matches!(c.decompress(), Err(CodecError::ReferenceChecksumMismatch { .. })));
}

#[test]
fn decompress_reports_data_mismatch() {
    let mut c = compress(&make_ticks()).unwrap();
    let good = c.data_crc;
    c.data_crc ^= 1;
    match c.decompress() {
        Err(CodecError::DataChecksumMismatch { expected, computed }) => {
            assert_eq!(expected, good ^ 1);
            assert_eq!(computed, good);
        }
        _ => panic!("expected a data checksum mismatch"),
    }
}

#[test]
fn decompress_reports_delta_underrun() {
    let mut c = compress(&[(0, vec![("A", 1.0)])]).unwrap();
    c.data = vec![1, 0, 0, 0, 0x01, 0xC0, 0x01];
    c.data_crc = Crc32::new().checksum(&c.data);
    assert_eq!(c.decompress().map(|t| t.len()), Err(CodecError::DeltaUnderrun));
}

#[test]
fn decompress_stops_at_a_partial_record() {
    let mut c = compress(&[(0, vec![("A", 1.0)])]).unwrap();
    c.data = vec![1, 0, 0, 0, 0x00, 2, 0];
    c.data_crc = Crc32::new().checksum(&c.data);
    let d = c.decompress().unwrap();
    assert_eq!(d.len(), 2);
    assert_eq!(d[1].timestamp, 1);
    assert_eq!(d[1].deltas, vec![0]);
}

#[test]
fn deserialize_too_short() {
    assert!(matches!(CompressedTimeSeries::deserialize(&[1, 2, 3]), Err(CodecError::TooShort)));
}

#[test]
fn deserialize_truncated_body() {
    // An empty body whose trailer is the CRC-32 of nothing.
    assert!(matches!(CompressedTimeSeries::deserialize(&[0, 0, 0, 0]), Err(CodecError::Truncated)));
}

/// Replaces the body of a blob and recomputes its trailer.
fn reseal(body: &[u8]) -> Vec<u8> {
    let mut b = body.to_vec();
    let crc = Crc32::new().checksum(body);
    b.extend_from_slice(&crc.to_le_bytes());
    b
}

#[test]
fn deserialize_malformed_symbol() {
    let c = compress(&[(0, vec![("A", 1.0)])]).unwrap();
    let blob = c.serialize().unwrap();
    let mut body = blob[..blob.len() - 4].to_vec();
    assert_eq!(body[15], 1);
    body[16] = 0xFF;
    assert!(matches!(CompressedTimeSeries::deserialize(&reseal(&body)), Err(CodecError::MalformedSymbol)));
}

#[test]
fn deserialize_truncated_payload() {
    let c = compress(&make_ticks()).unwrap();
    let blob = c.serialize().unwrap();
    let body = &blob[..blob.len() - 5];
    assert!(matches!(CompressedTimeSeries::deserialize(&reseal(body)), Err(CodecError::Truncated)));
}

#[test]
fn utf8_symbols_round_trip() {
    let ticks = vec![(7, vec![("Ünïcødé", 3.5), ("日本", 42.0)])];
    let c = compress(&ticks).unwrap();
    let r = CompressedTimeSeries::deserialize(&c.serialize().unwrap()).unwrap();
    assert_eq!(r.symbols, c.symbols);
    assert_eq!(r.symbols, vec!["Ünïcødé".to_string(), "日本".to_string()]);
}

#[test]
fn large_jump_uses_large_frame() {
    let ticks = vec![(0, vec![("X", 1.0)]), (1, vec![("X", 3.0)])];
    let c = compress(&ticks).unwrap();
    // +20000 bp
    assert_eq!(c.data, vec![1, 0, 0, 0, 1, 0xC0, 0x20, 0x4E, 0, 0]);
    assert_eq!(c.decompress().unwrap()[1].deltas, vec![20000]);
}

#[test]
fn long_series_round_trips_within_tolerance() {
    let mut ticks: Vec<PriceTick> = Vec::new();
    for i in 0..2000u64 {
        let x = i as f64;
        ticks.push((1_700_000_000 + i, vec![("AAPL", 150.0 + (x / 37.0).sin() * 3.0 + x * 0.01), ("MSFT", 300.0 - x * 0.02)]));
    }
    let c = compress(&ticks).unwrap();
    let r = CompressedTimeSeries::deserialize(&c.serialize().unwrap()).unwrap();
    let d = reconstruct(&r, &r.decompress().unwrap());
    assert_eq!(d.len(), ticks.len());
    for (orig, got) in ticks.iter().zip(d.iter()) {
        assert_eq!(orig.0, got.0);
        for (sym, price) in &orig.1 {
            let p = got.1.iter().find(|(k, _)| k == sym).unwrap().1;
            assert!(((price - p) / price).abs() < 0.01);
        }
    }
}

#[test]
fn compressed_and_restored_records_fit_the_format() {
    let c = compress(&make_ticks()).unwrap();
    assert!(c.fits_blob_format());
    let r = CompressedTimeSeries::deserialize(&c.serialize().unwrap()).unwrap();
    assert!(r.fits_blob_format());
    assert_eq!(r.serialize().unwrap()[..], c.serialize().unwrap()[..]);
}

#[test]
fn oversized_symbol_does_not_fit_the_format() {
    let mut c = compress(&make_ticks()).unwrap();
    c.symbols[0] = "X".repeat(256);
    assert!(!c.fits_blob_format());
    c.symbols[0] = "X".repeat(255);
    assert!(c.fits_blob_format());
    c.ref_frame.pop();
    assert!(!c.fits_blob_format());
}
