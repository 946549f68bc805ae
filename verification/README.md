# lau_tile_compress

Lossy and lossless compression of tile data (grids of `f64` samples), with
the sample-level logic verified in Verus.

Samples are carried in the verified core as their IEEE-754 bit patterns.
Everything that frames, groups, counts or compares such patterns for
identity is proved correct; floating-point steps (closeness tests,
differences, thresholds, cosine similarity, averages, JSON rendering of
numbers) are passed in by the caller as closures, and the contracts say what
is done with whatever they return.

- `src/rle.rs`: run-length coding; decoding an encoding restores the samples
  when only equal samples are merged, and constant input costs one record.
- `src/dictionary.rs`: dictionary coding of four-sample chunks; decoding with
  the learned dictionary restores the samples, and known chunks cost 3 bytes.
- `src/delta.rs`: delta coding and the bin tally behind delta entropy.
- `src/semantic.rs`: greedy grouping of similar tiles, proved to partition
  them.
- `src/compressor.rs`: the strategy dispatch for single tiles and batches,
  and the tile-level round trip. Dictionary payloads are decoded learning
  their literals as the encoder did; a hybrid payload is read as delta JSON
  when JSON deltas can be read from it, and as run-length records otherwise.
- `src/pipeline.rs`: the stage trait and the pipeline that chains stages,
  each result decompressed by the stage that made it before the next stage
  compresses it; its cumulative ratio is kept as two integers.
- `src/tile.rs`, `src/stats.rs`: tiles, metadata, sizes, statistics.
- `app/lib.rs`: the `f64` API, the floating-point kernels, serde types, and
  the stage that runs a `TileCompressor` in a pipeline.
