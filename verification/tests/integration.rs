use lau_tile_compress::{
    CompressedTile, CompressionPipeline, CompressionStats, CompressionStrategy, CompressorStage,
    DeltaEncoder, DictionaryEncoder, Metadata, RawTile, RunLengthEncoder, SemanticCompressor,
    TileCompressor, TileCompressorTrait,
};

// ---- Sample helpers: samples travel as f64 bit patterns ----

fn bits(v: &[f64]) -> Vec<u64> {
    v.iter().map(|x| x.to_bits()).collect()
}

fn floats(v: &[u64]) -> Vec<f64> {
    v.iter().map(|x| f64::from_bits(*x)).collect()
}

fn close(a: u64, b: u64) -> bool {
    (f64::from_bits(b) - f64::from_bits(a)).abs() < f64::EPSILON
}

fn minus(a: u64, b: u64) -> u64 {
    (f64::from_bits(a) - f64::from_bits(b)).to_bits()
}

fn plus(a: u64, b: u64) -> u64 {
    (f64::from_bits(a) + f64::from_bits(b)).to_bits()
}

fn to_json(v: &Vec<u64>) -> Vec<u8> {
    serde_json::to_vec(&floats(v)).unwrap_or_default()
}

fn from_json(d: &Vec<u8>) -> Vec<u64> {
    let v: Vec<f64> = serde_json::from_slice(d).unwrap_or_default();
    bits(&v)
}

fn threshold_at(quality: u64) -> impl Fn(&Vec<u64>) -> Vec<u64> {
    move |data: &Vec<u64>| {
        let q = f64::from_bits(quality);
        let data = floats(data);
        if q >= 1.0 {
            return bits(&data);
        }
        let threshold = (1.0 - q) * data.iter().map(|v| v.abs()).fold(0.0_f64, f64::max);
        let out: Vec<f64> = data
            .iter()
            .map(|&v| if v.abs() < threshold { 0.0 } else { v })
            .collect();
        bits(&out)
    }
}

fn compress(comp: &TileCompressor, tile: &RawTile) -> CompressedTile {
    comp.compress(tile, &threshold_at(comp.quality), &close, &minus, &to_json)
}

fn compress_batch(comp: &TileCompressor, tiles: &[RawTile]) -> Vec<CompressedTile> {
    comp.compress_batch(tiles, &threshold_at(comp.quality), &close, &minus, &to_json)
}

fn decompress(comp: &TileCompressor, c: &CompressedTile) -> RawTile {
    comp.decompress(c, &from_json, &plus)
}

fn cosine(a: &Vec<u64>, b: &Vec<u64>) -> f64 {
    let (a, b) = (floats(a), floats(b));
    if a.len() != b.len() || a.is_empty() {
        return 0.0;
    }
    let dot: f64 = a.iter().zip(b.iter()).map(|(x, y)| x * y).sum();
    let mag_a: f64 = a.iter().map(|x| x * x).sum::<f64>().sqrt();
    let mag_b: f64 = b.iter().map(|x| x * x).sum::<f64>().sqrt();
    if mag_a < f64::EPSILON || mag_b < f64::EPSILON {
        return 0.0;
    }
    dot / (mag_a * mag_b)
}

fn semantic_compress(sc: &SemanticCompressor, tiles: &[RawTile]) -> Vec<CompressedTile> {
    let threshold = f64::from_bits(sc.similarity_threshold);
    let similar = |a: &Vec<u64>, b: &Vec<u64>| cosine(a, b) >= threshold;
    let merged_json = |g: &Vec<usize>| {
        let len = tiles[g[0]].content.len();
        let n = g.len() as f64;
        let mut merged = vec![0.0; len];
        for &k in g {
            for (i, v) in floats(&tiles[k].content).iter().enumerate() {
                if i < len {
                    merged[i] += v / n;
                }
            }
        }
        serde_json::to_vec(&merged).unwrap_or_default()
    };
    sc.compress(tiles, &similar, &merged_json)
}

fn make_tile(id: &str, content: Vec<f64>) -> RawTile {
    RawTile {
        id: id.to_string(),
        room_id: "room1".to_string(),
        timestamp: 1000,
        content: bits(&content),
        metadata: Metadata::new(),
    }
}

fn all_same(n: usize, val: f64) -> Vec<f64> {
    vec![val; n]
}

fn randomish(n: usize) -> Vec<f64> {
    (0..n).map(|i| ((i * 7919 + 1) % 1000) as f64).collect()
}

// ===========================================================================
// Run-length coding
// ===========================================================================

#[test]
fn test_rle_all_same_compresses_constant() {
    let enc = RunLengthEncoder::new();
    let small = bits(&all_same(10, 5.0));
    let large = bits(&all_same(10_000, 5.0));
    let small_enc = enc.encode(&small, &close);
    let large_enc = enc.encode(&large, &close);
    assert_eq!(small_enc.len(), large_enc.len(), "RLE of all-same should be constant size");
}

#[test]
fn test_rle_all_same_roundtrip() {
    let enc = RunLengthEncoder::new();
    let data = bits(&all_same(100, 3.14));
    let encoded = enc.encode(&data, &close);
    let decoded = enc.decode(&encoded);
    assert_eq!(data, decoded);
}

#[test]
fn test_rle_all_same_ratio_high() {
    let tile = make_tile("t1", all_same(1000, 1.0));
    let comp = TileCompressor::new(CompressionStrategy::RunLength, 1.0f64.to_bits());
    let compressed = compress(&comp, &tile);
    let ratio = tile.byte_size() as f64 / compressed.data.len() as f64;
    assert!(ratio > 10.0, "RLE on all-same should have high ratio, got {ratio}");
}

#[test]
fn test_rle_random_ratio_near_one() {
    let tile = make_tile("t1", randomish(1000));
    let comp = TileCompressor::new(CompressionStrategy::RunLength, 1.0f64.to_bits());
    let compressed = compress(&comp, &tile);
    let ratio = tile.byte_size() as f64 / compressed.data.len() as f64;
    assert!(ratio < 1.5, "Random data RLE ratio should be ~1.0, got {ratio}");
}

#[test]
fn test_rle_random_roundtrip() {
    let enc = RunLengthEncoder::new();
    let data = bits(&randomish(50));
    let encoded = enc.encode(&data, &close);
    let decoded = enc.decode(&encoded);
    assert_eq!(data, decoded);
}

#[test]
fn test_rle_ratio_not_below_half() {
    let tile = make_tile("t1", randomish(100));
    let comp = TileCompressor::new(CompressionStrategy::RunLength, 1.0f64.to_bits());
    let compressed = compress(&comp, &tile);
    assert!(compressed.data.len() < tile.byte_size() * 2);
}

#[test]
fn test_rle_empty() {
    let enc = RunLengthEncoder::new();
    assert!(enc.encode(&[], &close).is_empty());
    assert!(enc.decode(&[]).is_empty());
}

#[test]
fn test_run_length_encoder_default() {
    let enc = RunLengthEncoder::default();
    let data = bits(&[1.0, 1.0, 2.0]);
    let encoded = enc.encode(&data, &close);
    let decoded = enc.decode(&encoded);
    assert_eq!(data, decoded);
}

#[test]
fn rle_record_layout_is_count_then_sample() {
    let enc = RunLengthEncoder::new();
    let data = bits(&[2.5, 2.5, 2.5, -1.0]);
    let encoded = enc.encode(&data, &close);
    let mut expected = Vec::new();
    expected.extend_from_slice(&3u32.to_le_bytes());
    expected.extend_from_slice(&2.5f64.to_le_bytes());
    expected.extend_from_slice(&1u32.to_le_bytes());
    expected.extend_from_slice(&(-1.0f64).to_le_bytes());
    assert_eq!(encoded, expected);
}

#[test]
fn rle_run_keeps_its_first_sample() {
    // 1.0 + EPSILON/2 is within epsilon of 1.0, so it joins the run of 1.0
    // and decodes as 1.0.
    let enc = RunLengthEncoder::new();
    let a = 1.0f64;
    let b = 1.0f64 + f64::EPSILON / 2.0;
    let data = bits(&[a, b]);
    let decoded = enc.decode(&enc.encode(&data, &close));
    assert_eq!(decoded, bits(&[a, a]));
}

#[test]
fn rle_decode_ignores_trailing_partial_record() {
    let enc = RunLengthEncoder::new();
    let mut bytes = enc.encode(&bits(&[7.0, 7.0]), &close);
    bytes.extend_from_slice(&[9, 9, 9]);
    assert_eq!(enc.decode(&bytes), bits(&[7.0, 7.0]));
}

#[test]
fn rle_alternating_costs_twelve_bytes_per_sample() {
    let enc = RunLengthEncoder::new();
    let data = bits(&[1.0, 2.0, 1.0, 2.0, 1.0, 2.0]);
    assert_eq!(enc.encode(&data, &close).len(), 72);
}

// ===========================================================================
// Delta coding
// ===========================================================================

#[test]
fn test_delta_roundtrip() {
    let enc = DeltaEncoder::new();
    let data = bits(&[10.0, 15.0, 20.0, 25.0, 30.0]);
    let encoded = enc.encode(&data, &minus);
    let decoded = enc.decode(encoded[0], &encoded[1..], &plus);
    assert_eq!(data, decoded);
}

#[test]
fn test_delta_constant_data_zero_deltas() {
    let enc = DeltaEncoder::new();
    let data = bits(&all_same(10, 5.0));
    let deltas = enc.encode(&data, &minus);
    for &d in &deltas[1..] {
        assert_eq!(f64::from_bits(d), 0.0);
    }
}

#[test]
fn test_delta_empty() {
    let enc = DeltaEncoder::new();
    let encoded = enc.encode(&[], &minus);
    assert!(encoded.is_empty());
}

#[test]
fn test_delta_single() {
    let enc = DeltaEncoder::new();
    let data = bits(&[42.0]);
    let encoded = enc.encode(&data, &minus);
    assert_eq!(encoded, bits(&[42.0]));
}

#[test]
fn test_delta_default() {
    let enc = DeltaEncoder::default();
    let data = bits(&[1.0, 2.0, 3.0]);
    let encoded = enc.encode(&data, &minus);
    assert_eq!(encoded.len(), 3);
}

#[test]
fn delta_values_are_first_then_differences() {
    let enc = DeltaEncoder::new();
    let encoded = enc.encode(&bits(&[3.0, 5.0, 4.0]), &minus);
    assert_eq!(encoded, bits(&[3.0, 2.0, -1.0]));
    assert_eq!(enc.decode(1.0f64.to_bits(), &[], &plus), bits(&[1.0]));
}

#[test]
fn bin_counts_tallies_each_bin() {
    let freq = lau_tile_compress::bin_counts(&[3, -1, 3, 3, 0, -1]);
    assert_eq!(freq.len(), 3);
    assert_eq!(freq[&3], 3);
    assert_eq!(freq[&-1], 2);
    assert_eq!(freq[&0], 1);
    assert!(lau_tile_compress::bin_counts(&[]).is_empty());
}

// ===========================================================================
// Dictionary coding
// ===========================================================================

#[test]
fn test_dictionary_repeated_patterns_compress() {
    let pattern: Vec<f64> = vec![1.0, 2.0, 3.0, 4.0];
    let data = bits(&pattern.repeat(10));
    let mut enc = DictionaryEncoder::new();
    let _first = enc.encode(&data[..8]);
    let _second = enc.encode(&data);
    assert!(enc.dictionary_size() > 0);
}

#[test]
fn test_dictionary_second_occurrence_shorter() {
    let pattern: Vec<f64> = vec![1.0, 2.0, 3.0, 4.0];
    let data = bits(&pattern.repeat(5));
    let mut enc = DictionaryEncoder::new();
    let encoded = enc.encode(&data);
    let raw_size = data.len() * 8;
    assert!(encoded.len() < raw_size, "Dict encoded {} should be < raw {}", encoded.len(), raw_size);
}

#[test]
fn test_dictionary_empty() {
    let mut enc = DictionaryEncoder::new();
    let encoded = enc.encode(&[]);
    assert!(encoded.is_empty());
}

#[test]
fn test_dictionary_roundtrip_simple() {
    let data = bits(&[1.0, 2.0, 3.0, 4.0, 1.0, 2.0, 3.0, 4.0]);
    let mut enc = DictionaryEncoder::new();
    let encoded = enc.encode(&data);
    let decoded = enc.decode(&encoded);
    assert_eq!(data, decoded);
}

#[test]
fn test_dictionary_size_increases() {
    let mut enc = DictionaryEncoder::new();
    assert_eq!(enc.dictionary_size(), 0);
    enc.encode(&bits(&[1.0, 2.0, 3.0, 4.0]));
    assert_eq!(enc.dictionary_size(), 1);
}

#[test]
fn test_dictionary_default() {
    let enc = DictionaryEncoder::default();
    assert_eq!(enc.dictionary_size(), 0);
}

#[test]
fn dictionary_literal_then_references() {
    let data = bits(&[1.0, 2.0, 3.0, 4.0].repeat(5));
    let mut enc = DictionaryEncoder::new();
    let encoded = enc.encode(&data);
    // one 33-byte literal, then four 3-byte references to code 0
    assert_eq!(encoded.len(), 33 + 4 * 3);
    assert_eq!(encoded[0], 0);
    assert_eq!(&encoded[33..36], &[1, 0, 0]);
}

#[test]
fn dictionary_short_chunk_is_padded_when_literal() {
    let mut enc = DictionaryEncoder::new();
    let encoded = enc.encode(&bits(&[1.0, 2.0, 3.0, 4.0, 5.0]));
    assert_eq!(encoded.len(), 66);
    assert_eq!(enc.dictionary_size(), 2);
    assert_eq!(enc.decode(&encoded), bits(&[1.0, 2.0, 3.0, 4.0, 5.0, 0.0, 0.0, 0.0]));
}

#[test]
fn dictionary_single_sample_roundtrip_is_padded() {
    let mut enc = DictionaryEncoder::new();
    let encoded = enc.encode(&bits(&[1.0]));
    assert_eq!(enc.decode(&encoded), bits(&[1.0, 0.0, 0.0, 0.0]));
}

#[test]
fn dictionary_size_counts_distinct_chunks() {
    let mut enc = DictionaryEncoder::new();
    let a = [1.0, 2.0, 3.0, 4.0];
    let b = [5.0, 6.0, 7.0, 8.0];
    let data: Vec<f64> = [a, b, a, a, b].concat();
    enc.encode(&bits(&data));
    assert_eq!(enc.dictionary_size(), 2);
    enc.encode(&bits(&[5.0, 6.0, 7.0, 8.0, 9.0]));
    assert_eq!(enc.dictionary_size(), 3);
}

#[test]
fn dictionary_unknown_code_decodes_to_nothing() {
    let enc = DictionaryEncoder::new();
    assert!(enc.decode(&[1, 7, 0]).is_empty());
    // a flag without enough bytes after it stops decoding
    assert!(enc.decode(&[0, 1, 2]).is_empty());
}

#[test]
fn dictionary_persists_across_calls() {
    let mut enc = DictionaryEncoder::new();
    enc.encode(&bits(&[1.0, 2.0, 3.0, 4.0]));
    let second = enc.encode(&bits(&[1.0, 2.0, 3.0, 4.0]));
    assert_eq!(second, vec![1, 0, 0]);
    assert_eq!(enc.dictionary_size(), 1);
}

// ===========================================================================
// Tile compression
// ===========================================================================

#[test]
fn test_rle_lossless_roundtrip() {
    let tile = make_tile("t1", vec![1.0, 1.0, 2.0, 2.0, 3.0]);
    let comp = TileCompressor::new(CompressionStrategy::RunLength, 1.0f64.to_bits());
    let compressed = compress(&comp, &tile);
    let decompressed = decompress(&comp, &compressed);
    assert_eq!(tile.content, decompressed.content);
}

#[test]
fn test_delta_lossless_roundtrip() {
    let tile = make_tile("t1", vec![10.0, 20.0, 30.0, 40.0]);
    let comp = TileCompressor::new(CompressionStrategy::Delta, 1.0f64.to_bits());
    let compressed = compress(&comp, &tile);
    let decompressed = decompress(&comp, &compressed);
    assert_eq!(tile.content, decompressed.content);
}

#[test]
fn test_threshold_lossless_roundtrip_quality_1() {
    let tile = make_tile("t1", vec![1.0, 2.0, 3.0, 0.001]);
    let comp = TileCompressor::new(CompressionStrategy::Threshold, 1.0f64.to_bits());
    let compressed = compress(&comp, &tile);
    let decompressed = decompress(&comp, &compressed);
    assert_eq!(tile.content, decompressed.content);
    assert!(compressed.is_lossless());
}

#[test]
fn test_hybrid_lossless_roundtrip() {
    let tile = make_tile("t1", vec![5.0; 100]);
    let comp = TileCompressor::new(CompressionStrategy::Hybrid, 1.0f64.to_bits());
    let compressed = compress(&comp, &tile);
    let decompressed = decompress(&comp, &compressed);
    assert_eq!(tile.content, decompressed.content);
}

#[test]
fn test_quality_1_lossless() {
    let tile = make_tile("t1", vec![0.001, 0.002, 100.0]);
    let comp = TileCompressor::new(CompressionStrategy::Threshold, 1.0f64.to_bits());
    let compressed = compress(&comp, &tile);
    let decompressed = decompress(&comp, &compressed);
    assert_eq!(tile.content, decompressed.content);
    assert!(compressed.is_lossless());
}

#[test]
fn test_quality_0_drops_small() {
    let tile = make_tile("t1", vec![0.001, 0.002, 100.0]);
    let comp = TileCompressor::new(CompressionStrategy::Threshold, 0.0f64.to_bits());
    let compressed = compress(&comp, &tile);
    let decompressed = decompress(&comp, &compressed);
    assert_eq!(f64::from_bits(decompressed.content[0]), 0.0);
    assert_eq!(f64::from_bits(decompressed.content[1]), 0.0);
    assert_eq!(f64::from_bits(decompressed.content[2]), 100.0);
}

#[test]
fn test_quality_0_compresses_more() {
    let tile = make_tile("t1", vec![1.0, 2.0, 3.0, 4.0, 5.0]);
    let comp_low = TileCompressor::new(CompressionStrategy::Threshold, 0.0f64.to_bits());
    let comp_high = TileCompressor::new(CompressionStrategy::Threshold, 1.0f64.to_bits());
    let c_low = compress(&comp_low, &tile);
    let c_high = compress(&comp_high, &tile);
    assert!(c_low.data.len() <= c_high.data.len());
}

#[test]
fn test_threshold_quality_partial() {
    let tile = make_tile("t1", vec![0.1, 50.0, 0.2, 100.0]);
    let comp = TileCompressor::new(CompressionStrategy::Threshold, 0.5f64.to_bits());
    let compressed = compress(&comp, &tile);
    let decompressed = decompress(&comp, &compressed);
    assert_eq!(f64::from_bits(decompressed.content[0]), 0.0);
    assert_eq!(f64::from_bits(decompressed.content[2]), 0.0);
}

#[test]
fn test_empty_tile_compresses_small() {
    let tile = make_tile("t1", vec![]);
    let comp = TileCompressor::new(CompressionStrategy::RunLength, 1.0f64.to_bits());
    let compressed = compress(&comp, &tile);
    assert!(compressed.data.is_empty());
}

#[test]
fn test_batch_stats_accurate() {
    let tiles: Vec<RawTile> = (0..10)
        .map(|i| make_tile(&format!("t{i}"), all_same(100, i as f64)))
        .collect();
    let comp = TileCompressor::new(CompressionStrategy::RunLength, 1.0f64.to_bits());
    let compressed = compress_batch(&comp, &tiles);
    let stats = comp.stats(&tiles, &compressed);
    let manual_original: usize = tiles.iter().map(|t| t.byte_size()).sum();
    let manual_compressed: usize = compressed.iter().map(|c| c.data.len()).sum();
    assert_eq!(stats.original_bytes, manual_original);
    assert_eq!(stats.compressed_bytes, manual_compressed);
}

#[test]
fn test_batch_compress_count_matches() {
    let tiles: Vec<RawTile> = (0..7)
        .map(|i| make_tile(&format!("t{i}"), vec![i as f64; 10]))
        .collect();
    let comp = TileCompressor::new(CompressionStrategy::RunLength, 1.0f64.to_bits());
    let compressed = compress_batch(&comp, &tiles);
    assert_eq!(compressed.len(), tiles.len());
}

#[test]
fn compressed_tile_records_id_size_strategy_and_quality() {
    let tile = make_tile("abc", vec![1.0, 2.0]);
    let comp = TileCompressor::new(CompressionStrategy::Dictionary, 0.75f64.to_bits());
    let c = compress(&comp, &tile);
    assert_eq!(c.id, "abc");
    assert_eq!(c.strategy, CompressionStrategy::Dictionary);
    assert_eq!(c.original_size, tile.byte_size());
    assert_eq!(c.quality, 0.75f64.to_bits());
    assert_eq!(c.data.len(), 33);
}

#[test]
fn decompressed_tile_has_blank_room_and_metadata() {
    let comp = TileCompressor::new(CompressionStrategy::RunLength, 1.0f64.to_bits());
    let c = compress(&comp, &make_tile("x", vec![4.0]));
    let t = decompress(&comp, &c);
    assert_eq!(t.id, "x");
    assert_eq!(t.room_id, "");
    assert_eq!(t.timestamp, 0);
    assert_eq!(t.metadata.len(), 0);
}

#[test]
fn delta_strategy_payload_is_json_of_differences() {
    let comp = TileCompressor::new(CompressionStrategy::Delta, 1.0f64.to_bits());
    let c = compress(&comp, &make_tile("d", vec![1.0, 4.0, 9.0]));
    assert_eq!(c.data, b"[1.0,3.0,5.0]".to_vec());
}

#[test]
fn hybrid_picks_delta_when_shorter() {
    let comp = TileCompressor::new(CompressionStrategy::Hybrid, 1.0f64.to_bits());
    let tile = make_tile("h", vec![1.0, 2.0, 3.0]);
    let c = compress(&comp, &tile);
    // three distinct samples: 36 bytes of runs against "[1.0,1.0,1.0]"
    assert_eq!(c.data, b"[1.0,1.0,1.0]".to_vec());
    assert_eq!(decompress(&comp, &c).content, tile.content);
}

#[test]
fn hybrid_delta_payload_roundtrip() {
    let comp = TileCompressor::new(CompressionStrategy::Hybrid, 1.0f64.to_bits());
    let tile = make_tile("h", vec![1.0, 2.0]);
    let c = compress(&comp, &tile);
    assert_eq!(c.data, b"[1.0,1.0]".to_vec());
    assert_eq!(decompress(&comp, &c).content, bits(&[1.0, 2.0]));
}

#[test]
fn hybrid_picks_runs_when_shorter() {
    let comp = TileCompressor::new(CompressionStrategy::Hybrid, 1.0f64.to_bits());
    let tile = make_tile("h", vec![5.0; 100]);
    let c = compress(&comp, &tile);
    assert_eq!(c.data.len(), 12);
    assert_eq!(decompress(&comp, &c).content, tile.content);
}

#[test]
fn hybrid_empty_tile_stores_nothing() {
    let comp = TileCompressor::new(CompressionStrategy::Hybrid, 1.0f64.to_bits());
    let c = compress(&comp, &make_tile("e", vec![]));
    assert!(c.data.is_empty());
    assert!(decompress(&comp, &c).content.is_empty());
}

#[test]
fn dictionary_strategy_roundtrip() {
    let comp = TileCompressor::new(CompressionStrategy::Dictionary, 1.0f64.to_bits());
    let tile = make_tile("d", [1.0, 2.0, 3.0, 4.0].repeat(2));
    let c = compress(&comp, &tile);
    // the repeated chunk is sent as a reference to the pattern learned from
    // the literal before it
    assert_eq!(c.data.len(), 36);
    assert_eq!(decompress(&comp, &c).content, tile.content);
}

#[test]
fn dictionary_strategy_pads_short_last_chunk() {
    let comp = TileCompressor::new(CompressionStrategy::Dictionary, 1.0f64.to_bits());
    let tile = make_tile("d", vec![1.0, 2.0, 3.0, 4.0, 1.0, 2.0, 3.0, 4.0, 9.0]);
    let c = compress(&comp, &tile);
    let mut expected = tile.content.clone();
    expected.extend(bits(&[0.0, 0.0, 0.0]));
    assert_eq!(decompress(&comp, &c).content, expected);
}

// ===========================================================================
// Semantic compression
// ===========================================================================

#[test]
fn test_semantic_merges_similar() {
    let sc = SemanticCompressor::new(0.99f64.to_bits());
    let t1 = make_tile("t1", vec![1.0, 0.0, 0.0]);
    let t2 = make_tile("t2", vec![1.0, 0.0, 0.0]);
    let tiles = vec![t1, t2];
    let compressed = semantic_compress(&sc, &tiles);
    assert_eq!(compressed.len(), 1, "Should merge identical tiles");
}

#[test]
fn test_semantic_keeps_dissimilar() {
    let sc = SemanticCompressor::new(0.99f64.to_bits());
    let t1 = make_tile("t1", vec![1.0, 0.0, 0.0]);
    let t2 = make_tile("t2", vec![0.0, 1.0, 0.0]);
    let tiles = vec![t1, t2];
    let compressed = semantic_compress(&sc, &tiles);
    assert_eq!(compressed.len(), 2, "Should keep dissimilar tiles separate");
}

#[test]
fn test_semantic_empty() {
    let sc = SemanticCompressor::new(0.9f64.to_bits());
    let compressed = semantic_compress(&sc, &[]);
    assert!(compressed.is_empty());
}

#[test]
fn semantic_groups_are_led_by_first_tile() {
    let sc = SemanticCompressor::new(0.99f64.to_bits());
    let tiles = vec![
        make_tile("a", vec![1.0, 2.0, 3.0, 4.0]),
        make_tile("c", vec![100.0, -200.0, 300.0, 400.0]),
        make_tile("b", vec![1.01, 2.02, 3.01, 4.01]),
    ];
    let compressed = semantic_compress(&sc, &tiles);
    assert_eq!(compressed.len(), 2);
    assert_eq!(compressed[0].id, "a");
    assert_eq!(compressed[1].id, "c");
    assert_eq!(compressed[0].original_size, tiles[0].byte_size() + tiles[2].byte_size());
    assert_eq!(compressed[0].quality, 0.5f64.to_bits());
    assert_eq!(compressed[0].strategy, CompressionStrategy::Semantic);
    assert!(!compressed[0].is_lossless());
}

// ===========================================================================
// Tiles, stats and stages
// ===========================================================================

#[test]
fn test_compressed_tile_is_lossless() {
    let ct = CompressedTile {
        id: "t1".into(),
        strategy: CompressionStrategy::RunLength,
        data: vec![],
        original_size: 100,
        quality: 1.0f64.to_bits(),
    };
    assert!(ct.is_lossless());
    let ct2 = CompressedTile {
        quality: 0.5f64.to_bits(),
        ..ct.clone()
    };
    assert!(!ct2.is_lossless());
}

#[test]
fn is_lossless_within_one_epsilon() {
    let mk = |q: f64| CompressedTile {
        id: String::new(),
        strategy: CompressionStrategy::Threshold,
        data: vec![],
        original_size: 0,
        quality: q.to_bits(),
    };
    for q in [1.0, 1.0 - f64::EPSILON / 2.0, 1.0 - f64::EPSILON, 1.0 + f64::EPSILON, 0.0, f64::NAN] {
        assert_eq!(mk(q).is_lossless(), (q - 1.0).abs() < f64::EPSILON, "quality {q}");
    }
}

#[test]
fn test_raw_tile_byte_size() {
    let mut tile = make_tile("id1", vec![1.0; 100]);
    tile.metadata.insert("key".into(), "value".into());
    let size = tile.byte_size();
    assert!(size > 0);
    assert!(size >= 800);
}

#[test]
fn raw_tile_byte_size_exact() {
    let mut tile = RawTile::new("id1", "röom", bits(&[1.0; 3]));
    assert_eq!(tile.byte_size(), 3 + 5 + 8 + std::mem::size_of::<usize>() + 24);
    assert_eq!(tile.metadata.insert("k".into(), "vv".into()), None);
    assert_eq!(tile.metadata.insert("k".into(), "v".into()), Some("vv".to_string()));
    assert_eq!(tile.metadata.len(), 1);
    assert_eq!(tile.byte_size(), 3 + 5 + 8 + std::mem::size_of::<usize>() + 24 + 2);
}

#[test]
fn stats_worthwhile_above_one_and_a_half() {
    assert!(!CompressionStats::new(0, 0).is_worthwhile());
    assert!(CompressionStats::new(100, 0).is_worthwhile());
    assert!(!CompressionStats::new(150, 100).is_worthwhile());
    assert!(CompressionStats::new(151, 100).is_worthwhile());
    assert!(!CompressionStats::new(1000, 1000).is_worthwhile());
}

#[test]
fn test_compressor_stage_name() {
    let stage = CompressorStage::new(TileCompressor::new(CompressionStrategy::RunLength, 1.0f64.to_bits()));
    assert_eq!(stage.name(), "RunLength");
    let stage2 = CompressorStage::new(TileCompressor::new(CompressionStrategy::Delta, 1.0f64.to_bits()));
    assert_eq!(stage2.name(), "Delta");
    let stage3 = CompressorStage::new(TileCompressor::new(CompressionStrategy::Hybrid, 1.0f64.to_bits()));
    assert_eq!(stage3.name(), "Hybrid");
}

#[test]
fn semantic_groups_cover_every_tile_once() {
    let sc = SemanticCompressor::new(0.95f64.to_bits());
    let tiles = vec![
        make_tile("p", vec![1.0, 0.0]),
        make_tile("q", vec![0.0, 1.0]),
        make_tile("r", vec![1.0, 0.01]),
        make_tile("s", vec![0.01, 1.0]),
        make_tile("t", vec![-1.0, 0.0]),
    ];
    let compressed = semantic_compress(&sc, &tiles);
    let ids: Vec<&str> = compressed.iter().map(|c| c.id.as_str()).collect();
    assert_eq!(ids, vec!["p", "q", "t"]);
    let merged: usize = compressed.iter().map(|c| c.original_size).sum();
    let all: usize = tiles.iter().map(|t| t.byte_size()).sum();
    assert_eq!(merged, all);
    assert_eq!(compressed[0].data, b"[1.0,0.005]".to_vec());
}


// ===========================================================================
// Ratios and pipelines
// ===========================================================================

fn ratio(s: &CompressionStats) -> f64 {
    if s.compressed_bytes == 0 {
        if s.original_bytes == 0 {
            1.0
        } else {
            f64::INFINITY
        }
    } else {
        s.original_bytes as f64 / s.compressed_bytes as f64
    }
}

fn savings_percent(s: &CompressionStats) -> f64 {
    if s.original_bytes == 0 {
        0.0
    } else {
        (1.0 - s.compressed_bytes as f64 / s.original_bytes as f64) * 100.0
    }
}

fn total_ratio(p: &CompressionPipeline) -> f64 {
    p.ratio_original as f64 / p.ratio_compressed as f64
}

struct Stage {
    compressor: TileCompressor,
}

fn stage(strategy: CompressionStrategy, quality: f64) -> Box<dyn TileCompressorTrait> {
    Box::new(Stage { compressor: TileCompressor::new(strategy, quality.to_bits()) })
}

impl TileCompressorTrait for Stage {
    fn compress(&self, tile: &RawTile) -> CompressedTile {
        compress(&self.compressor, tile)
    }

    fn decompress(&self, compressed: &CompressedTile) -> RawTile {
        decompress(&self.compressor, compressed)
    }

    fn name(&self) -> &str {
        CompressorStage::new(self.compressor).name()
    }
}

#[test]
fn test_batch_stats_ratio() {
    let tiles: Vec<RawTile> = (0..5)
        .map(|i| make_tile(&format!("t{i}"), all_same(500, i as f64)))
        .collect();
    let comp = TileCompressor::new(CompressionStrategy::RunLength, 1.0f64.to_bits());
    let compressed = compress_batch(&comp, &tiles);
    let stats = comp.stats(&tiles, &compressed);
    assert!(ratio(&stats) > 5.0, "Should compress well, got {}", ratio(&stats));
    assert!(savings_percent(&stats) > 80.0);
    assert!(stats.is_worthwhile());
}

#[test]
fn test_compression_stats_zero() {
    let stats = CompressionStats::new(0, 0);
    assert_eq!(ratio(&stats), 1.0);
    assert_eq!(savings_percent(&stats), 0.0);
    assert!(!stats.is_worthwhile());
}

#[test]
fn test_empty_tile_stats() {
    let tile = make_tile("t1", vec![]);
    let comp = TileCompressor::new(CompressionStrategy::RunLength, 1.0f64.to_bits());
    let compressed = compress(&comp, &tile);
    let stats = comp.stats(&[tile], &[compressed]);
    assert!(ratio(&stats) >= 1.0);
}

#[test]
fn test_pipeline_sequential() {
    let mut pipeline = CompressionPipeline::new();
    pipeline.add_stage(stage(CompressionStrategy::RunLength, 1.0));
    let tile = make_tile("t1", all_same(100, 5.0));
    let compressed = pipeline.compress(&tile, &to_json);
    assert!(compressed.data.len() < tile.byte_size());
    assert!(total_ratio(&pipeline) > 1.0);
}

#[test]
fn test_pipeline_two_stages() {
    let mut pipeline = CompressionPipeline::new();
    pipeline.add_stage(stage(CompressionStrategy::RunLength, 1.0));
    pipeline.add_stage(stage(CompressionStrategy::Threshold, 1.0));
    let tile = make_tile("t1", all_same(50, 7.0));
    let compressed = pipeline.compress(&tile, &to_json);
    assert!(!compressed.data.is_empty());
    assert_eq!(compressed.data, serde_json::to_vec(&vec![7.0; 50]).unwrap());
}

#[test]
fn test_pipeline_empty_stages() {
    let mut pipeline = CompressionPipeline::new();
    let tile = make_tile("t1", vec![1.0, 2.0]);
    let compressed = pipeline.compress(&tile, &to_json);
    assert!(!compressed.data.is_empty());
}

#[test]
fn test_pipeline_default() {
    let pipeline = CompressionPipeline::default();
    assert!(pipeline.stages.is_empty());
    assert_eq!(total_ratio(&pipeline), 1.0);
}

#[test]
fn pipeline_chains_stages_and_records_ratio() {
    let mut pipeline = CompressionPipeline::new();
    pipeline.add_stage(stage(CompressionStrategy::RunLength, 1.0));
    pipeline.add_stage(stage(CompressionStrategy::Threshold, 1.0));
    let tile = make_tile("t9", all_same(10, 2.0));
    let compressed = pipeline.compress(&tile, &to_json);
    // the run-length stage decodes its own payload, and the threshold stage
    // stores the samples that came out as JSON
    let json = b"[2.0,2.0,2.0,2.0,2.0,2.0,2.0,2.0,2.0,2.0]".to_vec();
    assert_eq!(compressed.strategy, CompressionStrategy::Threshold);
    assert_eq!(compressed.data, json);
    assert_eq!(compressed.id, "t9");
    assert_eq!(pipeline.ratio_original, compressed.original_size);
    assert_eq!(pipeline.ratio_compressed, json.len());
    let empty = CompressionPipeline::new().compress(&tile, &to_json);
    assert_eq!(empty.strategy, CompressionStrategy::Hybrid);
    assert!(empty.is_lossless());
    assert_eq!(empty.original_size, tile.byte_size());
    assert_eq!(empty.data, json);
}

#[test]
fn batch_entries_equal_single_compressions() {
    let tiles: Vec<RawTile> = (0..4)
        .map(|i| make_tile(&format!("b{i}"), vec![i as f64, 1.0, 1.0, 2.0 * i as f64]))
        .collect();
    for strategy in [CompressionStrategy::RunLength, CompressionStrategy::Hybrid, CompressionStrategy::Delta] {
        let comp = TileCompressor::new(strategy, 1.0f64.to_bits());
        let batch = compress_batch(&comp, &tiles);
        for (t, c) in tiles.iter().zip(batch.iter()) {
            let single = compress(&comp, t);
            assert_eq!(c.id, single.id);
            assert_eq!(c.strategy, single.strategy);
            assert_eq!(c.data, single.data);
            assert_eq!(c.original_size, single.original_size);
            assert_eq!(c.quality, single.quality);
        }
    }
}
