//! Plain data types shared by the codec's components.

use vstd::prelude::*;

verus! {

/// What can go wrong while compressing, decoding or restoring a series.
#[derive(Debug, Clone, Copy, PartialEq, Eq, Structural)]
pub enum CodecError {
    /// `compress` was given no ticks.
    EmptyInput,
    /// The tick payload would be longer than a blob's `u32` length field holds.
    PayloadTooLarge,
    /// The blob is too short to hold even its checksum trailer.
    TooShort,
    /// A field of the blob runs past its end.
    Truncated,
    /// The trailer does not match the CRC-32 of the bytes before it.
    OverallChecksumMismatch { expected: u32, computed: u32 },
    /// The stored reference-frame CRC-32 does not match the reference frame.
    ReferenceChecksumMismatch { expected: u32, computed: u32 },
    /// The stored payload CRC-32 does not match the tick payload.
    DataChecksumMismatch { expected: u32, computed: u32 },
    /// A symbol's bytes are not valid UTF-8.
    MalformedSymbol,
    /// A delta frame runs past the end of the payload.
    DeltaUnderrun,
}

/// One tick of a series, quantized: its timestamp, and for each dictionary
/// index the basis-point change of that symbol's price (0: unchanged).
#[derive(Debug, Clone, PartialEq, Eq)]
pub struct DeltaTick {
    pub timestamp: u64,
    pub deltas: Vec<i32>,
}

impl View for DeltaTick {
    type V = (u64, Seq<i32>);

    open spec fn view(&self) -> (u64, Seq<i32>) {
        (self.timestamp, self.deltas@)
    }
}

/// Summary of a compressed record, cheap to read without decoding ticks.
#[derive(Debug, Clone)]
pub struct CompressionMetadata {
    pub version: u8,
    pub num_symbols: usize,
    pub num_ticks: usize,
    pub base_timestamp: u64,
    pub symbols: Vec<String>,
    pub compressed_size: usize,
    pub reference_checksum: u32,
    pub data_checksum: u32,
    pub overall_checksum: u32,
}

} // verus!
