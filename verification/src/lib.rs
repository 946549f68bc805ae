//! Tile compression: run-length, dictionary and delta coding of tile
//! contents, semantic grouping of similar tiles, and size accounting.
//!
//! Tile contents are `f64` samples; inside this crate each sample is carried
//! by its IEEE-754 bit pattern (`u64`, as given by `f64::to_bits`). Every
//! step that moves, groups, frames or compares such patterns for identity is
//! verified here. Steps that do floating-point arithmetic (subtraction,
//! closeness tests, thresholding, JSON rendering of numbers) are supplied by
//! the caller as closures, and each contract says what is done with whatever
//! those closures return.

mod bytes;
pub mod compressor;
pub mod delta;
pub mod dictionary;
pub mod rle;
pub mod pipeline;
pub mod semantic;
pub mod stats;
pub mod tile;

pub use compressor::{CompressorStage, TileCompressor};
pub use delta::{bin_counts, DeltaEncoder};
pub use dictionary::DictionaryEncoder;
pub use pipeline::{CompressionPipeline, TileCompressorTrait};
pub use rle::RunLengthEncoder;
pub use semantic::SemanticCompressor;
pub use stats::CompressionStats;
pub use tile::{CompressedTile, CompressionStrategy, Metadata, RawTile};
