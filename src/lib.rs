//! Columnar delta compression for multi-symbol tick series: a table-driven
//! CRC-32 engine, a variable-width basis-point delta codec, a frame
//! compressor and a checksummed blob format.
//!
//! Prices are handled as IEEE-754 bit patterns and basis-point deltas; the
//! floating-point quantization that produces the deltas lies with the
//! caller.

pub mod compression;
pub mod crc32;
pub mod delta_encoding;
pub mod dictionary;
pub mod format;
pub mod laws;
pub mod object;
pub mod payload;
pub mod types;
pub mod wire;

pub use compression::CompressedTimeSeries;
pub use crc32::Crc32;
pub use delta_encoding::DeltaEncoding;
pub use dictionary::sorted_symbols;
pub use object::{Commit, Entry, Snapshot};
pub use types::{CodecError, CompressionMetadata, DeltaTick};
