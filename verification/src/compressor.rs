//! The compression engine: a strategy and a quality, applied to tiles.
//!
//! The numeric steps are the caller's and are passed in as closures:
//! `threshold` zeroes the samples that the quality drops, `same` tells
//! whether a sample continues a run, `minus` and `plus` subtract and add
//! samples, `to_json` renders samples as a JSON array and `from_json` reads
//! one back (nothing when the bytes are not such an array).
use vstd::prelude::*;
use vstd::slice::slice_subrange;
use crate::delta::{deltas_by, integrated_by, inverse_on, lemma_delta_roundtrip, DeltaEncoder};
use crate::dictionary::{dict_decode_learning, dict_encode, full_patterns, lemma_dictionary_self_contained, patterns_ok, zero_pad, DictionaryEncoder};
use crate::rle::{answers_once, decided_by, runs_fit, lemma_rle_lossless, lemma_rle_runs_unique, lemma_rle_size, neighbours_exact, rle_bytes, rle_decoded, rle_runs, RunLengthEncoder};
use crate::stats::CompressionStats;
use crate::tile::{tile_size, CompressedTile, CompressionStrategy, Metadata, RawTile};

verus! {

/// `data` is a run-length encoding of `samples` under the closeness test `same`.
pub open spec fn rle_of<S: Fn(u64, u64) -> bool>(same: S, samples: Seq<u64>, data: Seq<u8>) -> bool {
    exists|joins: Seq<bool>| decided_by(same, samples, joins) && data == rle_bytes(rle_runs(samples, joins))
}

/// `data` is the JSON rendering, by `to_json`, of the delta form of `samples`.
pub open spec fn delta_json_of<D: Fn(u64, u64) -> u64, J: Fn(&Vec<u64>) -> Vec<u8>>(
    minus: D,
    to_json: J,
    samples: Seq<u64>,
    data: Vec<u8>,
) -> bool {
    exists|d: Vec<u64>| deltas_by(minus, samples, d@) && to_json.ensures((&d,), data)
}

/// `data` is the payload that `strategy` makes of the processed samples `p`.
/// A hybrid payload is the shorter of the run-length and delta-JSON
/// payloads, the delta one on a tie.
pub open spec fn payload_of<
    S: Fn(u64, u64) -> bool,
    D: Fn(u64, u64) -> u64,
    J: Fn(&Vec<u64>) -> Vec<u8>,
>(strategy: CompressionStrategy, same: S, minus: D, to_json: J, p: Vec<u64>, data: Vec<u8>) -> bool {
    match strategy {
        CompressionStrategy::RunLength => rle_of(same, p@, data@),
        CompressionStrategy::Dictionary => data@ == dict_encode(Seq::empty(), p@).1,
        CompressionStrategy::Delta => delta_json_of(minus, to_json, p@, data),
        CompressionStrategy::Threshold | CompressionStrategy::Semantic => to_json.ensures(
            (&p,),
            data,
        ),
        CompressionStrategy::Hybrid => exists|r: Seq<u8>, j: Vec<u8>|
            rle_of(same, p@, r) && delta_json_of(minus, to_json, p@, j) && data@ == (if r.len()
                < j@.len() {
                r
            } else {
                j@
            }),
    }
}

/// `c` is what compressing `t` gives: the payload of the thresholded samples
/// under the strategy, with the tile's id and size and the quality.
pub open spec fn compressed_from<
    T: Fn(&Vec<u64>) -> Vec<u64>,
    S: Fn(u64, u64) -> bool,
    D: Fn(u64, u64) -> u64,
    J: Fn(&Vec<u64>) -> Vec<u8>,
>(
    strategy: CompressionStrategy,
    quality: u64,
    threshold: T,
    same: S,
    minus: D,
    to_json: J,
    t: RawTile,
    c: CompressedTile,
) -> bool {
    &&& exists|p: Vec<u64>|
        threshold.ensures((&t.content,), p) && payload_of(strategy, same, minus, to_json, p, c.data)
    &&& c.id@ == t.id@
    &&& c.strategy == strategy
    &&& c.original_size == tile_size(t)
    &&& c.quality == quality
}

/// `content` is what `from_json` reads from the bytes `bytes`.
pub open spec fn json_content<P: Fn(&Vec<u8>) -> Vec<u64>>(
    from_json: P,
    bytes: Seq<u8>,
    content: Seq<u64>,
) -> bool {
    exists|b: Vec<u8>, v: Vec<u64>| b@ == bytes && from_json.ensures((&b,), v) && v@ == content
}

/// `content` is the running sum, by `plus`, of the deltas that `from_json`
/// reads from `bytes` (nothing if it reads none).
pub open spec fn delta_content<P: Fn(&Vec<u8>) -> Vec<u64>, A: Fn(u64, u64) -> u64>(
    from_json: P,
    plus: A,
    bytes: Seq<u8>,
    content: Seq<u64>,
) -> bool {
    exists|b: Vec<u8>, d: Vec<u64>|
        b@ == bytes && from_json.ensures((&b,), d) && if d@.len() == 0 {
            content == d@
        } else {
            integrated_by(plus, d@[0], d@.skip(1), content)
        }
}

/// The samples that `strategy` recovers from the payload `data`. Dictionary
/// payloads are decoded learning their literals as the encoder did. A hybrid
/// payload from which `from_json` reads deltas is summed up as a delta
/// payload; one from which it reads none is decoded as run-length records.
pub open spec fn content_of<P: Fn(&Vec<u8>) -> Vec<u64>, A: Fn(u64, u64) -> u64>(
    strategy: CompressionStrategy,
    from_json: P,
    plus: A,
    data: Vec<u8>,
    content: Seq<u64>,
) -> bool {
    match strategy {
        CompressionStrategy::RunLength => content == rle_decoded(data@),
        CompressionStrategy::Dictionary => content == dict_decode_learning(Seq::empty(), data@),
        CompressionStrategy::Delta => delta_content(from_json, plus, data@, content),
        CompressionStrategy::Threshold | CompressionStrategy::Semantic => json_content(
            from_json,
            data@,
            content,
        ),
        CompressionStrategy::Hybrid => exists|b: Vec<u8>, d: Vec<u64>|
            b@ == data@ && from_json.ensures((&b,), d) && if d@.len() == 0 {
                content == rle_decoded(data@)
            } else {
                integrated_by(plus, d@[0], d@.skip(1), content)
            },
    }
}

/// `threshold` maps samples to as many samples.
pub open spec fn keeps_length<T: Fn(&Vec<u64>) -> Vec<u64>>(threshold: T) -> bool {
    forall|c: &Vec<u64>, p: Vec<u64>| #[trigger] threshold.ensures((c,), p) ==> p@.len() == c@.len()
}

/// Whether `strategy` counts runs (in 32 bits).
pub open spec fn counts_runs(strategy: CompressionStrategy) -> bool {
    strategy is RunLength || strategy is Hybrid
}

/// What compressing a tile by `strategy` is owed: a size that fits.
pub open spec fn compressible(strategy: CompressionStrategy, t: RawTile) -> bool {
    tile_size(t) <= usize::MAX
}

/// No run of the samples `threshold` leaves of `t` grows past what a 32-bit
/// count holds, whatever `same` answers.
pub open spec fn runs_countable<T: Fn(&Vec<u64>) -> Vec<u64>, S: Fn(u64, u64) -> bool>(
    threshold: T,
    same: S,
    t: RawTile,
) -> bool {
    forall|p: Vec<u64>| #[trigger] threshold.ensures((&t.content,), p) ==> runs_fit(same, p@)
}

/// Total size of the tiles.
pub open spec fn total_tile_size(tiles: Seq<RawTile>) -> nat
    decreases tiles.len(),
{
    if tiles.len() == 0 {
        0
    } else {
        total_tile_size(tiles.drop_last()) + tile_size(tiles.last())
    }
}

/// Total payload length of the compressed tiles.
pub open spec fn total_data_len(tiles: Seq<CompressedTile>) -> nat
    decreases tiles.len(),
{
    if tiles.len() == 0 {
        0
    } else {
        total_data_len(tiles.drop_last()) + tiles.last().data@.len()
    }
}

/// `threshold` keeps every sample of `t` as it is (as at quality 1.0).
pub open spec fn keeps_tile<T: Fn(&Vec<u64>) -> Vec<u64>>(threshold: T, t: RawTile) -> bool {
    forall|p: Vec<u64>| #[trigger] threshold.ensures((&t.content,), p) ==> p@ == t.content@
}

/// `from_json` reads back exactly the samples `s` from whatever `to_json`
/// wrote for them.
pub open spec fn reads_back<J: Fn(&Vec<u64>) -> Vec<u8>, P: Fn(&Vec<u8>) -> Vec<u64>>(
    to_json: J,
    from_json: P,
    s: Seq<u64>,
) -> bool {
    forall|d: &Vec<u64>, j: Vec<u8>, b: Vec<u8>, v: Vec<u64>|
        #![trigger to_json.ensures((d,), j), from_json.ensures((&b,), v)]
        d@ == s && to_json.ensures((d,), j) && b@ == j@ && from_json.ensures((&b,), v) ==> v@
            == s
}

/// `from_json` reads back exactly the deltas of `data` (as `minus` takes
/// them) from whatever `to_json` wrote for them.
pub open spec fn deltas_read_back<
    D: Fn(u64, u64) -> u64,
    J: Fn(&Vec<u64>) -> Vec<u8>,
    P: Fn(&Vec<u8>) -> Vec<u64>,
>(minus: D, to_json: J, from_json: P, data: Seq<u64>) -> bool {
    forall|d: &Vec<u64>, j: Vec<u8>, b: Vec<u8>, v: Vec<u64>|
        #![trigger to_json.ensures((d,), j), from_json.ensures((&b,), v)]
        deltas_by(minus, data, d@) && to_json.ensures((d,), j) && b@ == j@ && from_json.ensures(
            (&b,),
            v,
        ) ==> v@ == d@
}

/// `from_json` reads no samples from a run-length encoding of `data`.
pub open spec fn runs_not_json<S: Fn(u64, u64) -> bool, P: Fn(&Vec<u8>) -> Vec<u64>>(
    same: S,
    from_json: P,
    data: Seq<u64>,
) -> bool {
    forall|joins: Seq<bool>, b: Vec<u8>, v: Vec<u64>|
        #![trigger decided_by(same, data, joins), from_json.ensures((&b,), v)]
        decided_by(same, data, joins) && b@ == rle_bytes(rle_runs(data, joins))
            && from_json.ensures((&b,), v) ==> v@.len() == 0
}

/// What reading the samples of `data` back through their delta JSON needs:
/// `plus` undoing `minus` on them, and JSON reading back their deltas.
pub open spec fn delta_json_exact<
    D: Fn(u64, u64) -> u64,
    A: Fn(u64, u64) -> u64,
    J: Fn(&Vec<u64>) -> Vec<u8>,
    P: Fn(&Vec<u8>) -> Vec<u64>,
>(minus: D, plus: A, to_json: J, from_json: P, data: Seq<u64>) -> bool {
    &&& inverse_on(minus, plus, data)
    &&& deltas_read_back(minus, to_json, from_json, data)
}

proof fn lemma_delta_json_back<
    D: Fn(u64, u64) -> u64,
    A: Fn(u64, u64) -> u64,
    J: Fn(&Vec<u64>) -> Vec<u8>,
    P: Fn(&Vec<u8>) -> Vec<u64>,
>(
    minus: D,
    plus: A,
    to_json: J,
    from_json: P,
    p: Seq<u64>,
    j: Vec<u8>,
    b: Vec<u8>,
    d2: Vec<u64>,
    content: Seq<u64>,
)
    requires
        delta_json_exact(minus, plus, to_json, from_json, p),
        delta_json_of(minus, to_json, p, j),
        b@ == j@,
        from_json.ensures((&b,), d2),
        d2@.len() > 0 ==> integrated_by(plus, d2@[0], d2@.skip(1), content),
    ensures
        d2@.len() == p.len(),
        d2@.len() > 0 ==> content == p,
{
    let d = choose|d: Vec<u64>| deltas_by(minus, p, d@) && to_json.ensures((&d,), j);
    assert(d2@ == d@);
    if d@.len() > 0 {
        lemma_delta_roundtrip(minus, plus, p, d@, content);
    }
}

/// Compressing a tile at a threshold that keeps its samples and
/// decompressing the result by the same strategy gives back its samples
/// (dictionary coding pads a short last chunk with zero samples), given what
/// each strategy's numeric steps need on these samples: run-length coding,
/// that no two different neighbours count as close; delta coding, that
/// addition undoes subtraction on them and JSON reads their deltas back;
/// JSON payloads, that JSON reads them back; the hybrid, both of the first
/// two, and that JSON reads nothing from their run-length encoding.
pub proof fn lemma_tile_roundtrip<
    T: Fn(&Vec<u64>) -> Vec<u64>,
    S: Fn(u64, u64) -> bool,
    D: Fn(u64, u64) -> u64,
    J: Fn(&Vec<u64>) -> Vec<u8>,
    P: Fn(&Vec<u8>) -> Vec<u64>,
    A: Fn(u64, u64) -> u64,
>(
    strategy: CompressionStrategy,
    quality: u64,
    threshold: T,
    same: S,
    minus: D,
    to_json: J,
    from_json: P,
    plus: A,
    t: RawTile,
    c: CompressedTile,
    content: Seq<u64>,
)
    requires
        compressed_from(strategy, quality, threshold, same, minus, to_json, t, c),
        content_of(strategy, from_json, plus, c.data, content),
        keeps_tile(threshold, t),
        counts_runs(strategy) ==> t.content@.len() <= u32::MAX && neighbours_exact(
            same,
            t.content@,
        ),
        (strategy is Delta || strategy is Hybrid) ==> delta_json_exact(
            minus,
            plus,
            to_json,
            from_json,
            t.content@,
        ),
        strategy is Hybrid ==> runs_not_json(same, from_json, t.content@),
        (strategy is Threshold || strategy is Semantic) ==> reads_back(
            to_json,
            from_json,
            t.content@,
        ),
    ensures
        content == t.content@ + (if strategy is Dictionary {
            zero_pad(t.content@.len())
        } else {
            Seq::empty()
        }),
{
    let p = choose|p: Vec<u64>|
        threshold.ensures((&t.content,), p) && payload_of(strategy, same, minus, to_json, p, c.data);
    assert(p@ == t.content@);
    match strategy {
        CompressionStrategy::RunLength => {
            let joins = choose|joins: Seq<bool>|
                decided_by(same, p@, joins) && c.data@ == rle_bytes(rle_runs(p@, joins));
            lemma_rle_lossless(same, p@, joins);
            assert(content =~= t.content@ + Seq::<u64>::empty());
        },
        CompressionStrategy::Dictionary => {
            lemma_dictionary_self_contained(Seq::empty(), p@);
        },
        CompressionStrategy::Delta => {
            let (b, d2) = choose|b: Vec<u8>, d2: Vec<u64>|
                b@ == c.data@ && from_json.ensures((&b,), d2) && if d2@.len() == 0 {
                    content == d2@
                } else {
                    integrated_by(plus, d2@[0], d2@.skip(1), content)
                };
            lemma_delta_json_back(minus, plus, to_json, from_json, p@, c.data, b, d2, content);
            assert(content =~= t.content@ + Seq::<u64>::empty());
        },
        CompressionStrategy::Threshold | CompressionStrategy::Semantic => {
            let (b, v) = choose|b: Vec<u8>, v: Vec<u64>|
                b@ == c.data@ && from_json.ensures((&b,), v) && v@ == content;
            assert(to_json.ensures((&p,), c.data));
            assert(v@ == p@);
            assert(content =~= t.content@ + Seq::<u64>::empty());
        },
        CompressionStrategy::Hybrid => {
            let (r, j) = choose|r: Seq<u8>, j: Vec<u8>|
                rle_of(same, p@, r) && delta_json_of(minus, to_json, p@, j) && c.data@ == (if r.len()
                    < j@.len() {
                    r
                } else {
                    j@
                });
            let joins = choose|joins: Seq<bool>|
                decided_by(same, p@, joins) && r == rle_bytes(rle_runs(p@, joins));
            let (b, d2) = choose|b: Vec<u8>, d2: Vec<u64>|
                b@ == c.data@ && from_json.ensures((&b,), d2) && if d2@.len() == 0 {
                    content == rle_decoded(c.data@)
                } else {
                    integrated_by(plus, d2@[0], d2@.skip(1), content)
                };
            lemma_rle_lossless(same, p@, joins);
            if r.len() < j@.len() {
                assert(b@ == rle_bytes(rle_runs(p@, joins)));
                assert(d2@.len() == 0);
            } else {
                lemma_delta_json_back(minus, plus, to_json, from_json, p@, j, b, d2, content);
                if d2@.len() == 0 {
                    assert(rle_runs(p@, joins) =~= Seq::<(u32, u64)>::empty());
                    assert(r == Seq::<u8>::empty());
                    assert(c.data@ =~= r);
                }
            }
            assert(content =~= t.content@ + Seq::<u64>::empty());
        },
    }
}

/// `threshold` gives samples that depend only on the samples it is given.
pub open spec fn threshold_once<T: Fn(&Vec<u64>) -> Vec<u64>>(threshold: T) -> bool {
    forall|c1: &Vec<u64>, c2: &Vec<u64>, p1: Vec<u64>, p2: Vec<u64>|
        #![trigger threshold.ensures((c1,), p1), threshold.ensures((c2,), p2)]
        c1@ == c2@ && threshold.ensures((c1,), p1) && threshold.ensures((c2,), p2) ==> p1@ == p2@
}

/// `minus` answers each question one way only.
pub open spec fn minus_once<D: Fn(u64, u64) -> u64>(minus: D) -> bool {
    forall|a: u64, b: u64, d1: u64, d2: u64|
        #![trigger minus.ensures((a, b), d1), minus.ensures((a, b), d2)]
        minus.ensures((a, b), d1) && minus.ensures((a, b), d2) ==> d1 == d2
}

/// `to_json` writes bytes that depend only on the samples it is given.
pub open spec fn json_once<J: Fn(&Vec<u64>) -> Vec<u8>>(to_json: J) -> bool {
    forall|d1: &Vec<u64>, d2: &Vec<u64>, j1: Vec<u8>, j2: Vec<u8>|
        #![trigger to_json.ensures((d1,), j1), to_json.ensures((d2,), j2)]
        d1@ == d2@ && to_json.ensures((d1,), j1) && to_json.ensures((d2,), j2) ==> j1@ == j2@
}

proof fn lemma_deltas_unique<D: Fn(u64, u64) -> u64>(minus: D, p: Seq<u64>, d1: Seq<u64>, d2: Seq<u64>)
    requires
        minus_once(minus),
        deltas_by(minus, p, d1),
        deltas_by(minus, p, d2),
    ensures
        d1 == d2,
{
    assert forall|i: int| 0 <= i < d1.len() implies d1[i] == d2[i] by {
        if i > 0 {
            assert(minus.ensures((p[i], p[i - 1]), d1[i]));
            assert(minus.ensures((p[i], p[i - 1]), d2[i]));
        }
    }
    assert(d1 =~= d2);
}

proof fn lemma_delta_json_unique<D: Fn(u64, u64) -> u64, J: Fn(&Vec<u64>) -> Vec<u8>>(
    minus: D,
    to_json: J,
    p: Seq<u64>,
    j1: Vec<u8>,
    j2: Vec<u8>,
)
    requires
        minus_once(minus),
        json_once(to_json),
        delta_json_of(minus, to_json, p, j1),
        delta_json_of(minus, to_json, p, j2),
    ensures
        j1@ == j2@,
{
    let d1 = choose|d: Vec<u64>| deltas_by(minus, p, d@) && to_json.ensures((&d,), j1);
    let d2 = choose|d: Vec<u64>| deltas_by(minus, p, d@) && to_json.ensures((&d,), j2);
    lemma_deltas_unique(minus, p, d1@, d2@);
}

/// With numeric steps whose results depend only on what they are given, two
/// compressions of one tile by one compressor agree: the same payload, id,
/// strategy, size and quality. So each result of `compress_batch` is what
/// `compress` gives for that tile.
pub proof fn lemma_compress_unique<
    T: Fn(&Vec<u64>) -> Vec<u64>,
    S: Fn(u64, u64) -> bool,
    D: Fn(u64, u64) -> u64,
    J: Fn(&Vec<u64>) -> Vec<u8>,
>(
    strategy: CompressionStrategy,
    quality: u64,
    threshold: T,
    same: S,
    minus: D,
    to_json: J,
    t: RawTile,
    c1: CompressedTile,
    c2: CompressedTile,
)
    requires
        threshold_once(threshold),
        answers_once(same),
        minus_once(minus),
        json_once(to_json),
        compressed_from(strategy, quality, threshold, same, minus, to_json, t, c1),
        compressed_from(strategy, quality, threshold, same, minus, to_json, t, c2),
    ensures
        c1.data@ == c2.data@,
        c1.id@ == c2.id@,
        c1.strategy == c2.strategy,
        c1.original_size == c2.original_size,
        c1.quality == c2.quality,
{
    let p1 = choose|p: Vec<u64>|
        threshold.ensures((&t.content,), p) && payload_of(strategy, same, minus, to_json, p, c1.data);
    let p2 = choose|p: Vec<u64>|
        threshold.ensures((&t.content,), p) && payload_of(strategy, same, minus, to_json, p, c2.data);
    assert(p1@ == p2@);
    match strategy {
        CompressionStrategy::RunLength => {
            let k1 = choose|joins: Seq<bool>|
                decided_by(same, p1@, joins) && c1.data@ == rle_bytes(rle_runs(p1@, joins));
            let k2 = choose|joins: Seq<bool>|
                decided_by(same, p2@, joins) && c2.data@ == rle_bytes(rle_runs(p2@, joins));
            lemma_rle_runs_unique(same, p1@, k1, k2);
        },
        CompressionStrategy::Dictionary => {},
        CompressionStrategy::Delta => {
            lemma_delta_json_unique(minus, to_json, p1@, c1.data, c2.data);
        },
        CompressionStrategy::Threshold | CompressionStrategy::Semantic => {
            assert(to_json.ensures((&p1,), c1.data));
            assert(to_json.ensures((&p2,), c2.data));
        },
        CompressionStrategy::Hybrid => {
            let (r1, j1) = choose|r: Seq<u8>, j: Vec<u8>|
                rle_of(same, p1@, r) && delta_json_of(minus, to_json, p1@, j) && c1.data@ == (if r.len()
                    < j@.len() {
                    r
                } else {
                    j@
                });
            let (r2, j2) = choose|r: Seq<u8>, j: Vec<u8>|
                rle_of(same, p2@, r) && delta_json_of(minus, to_json, p2@, j) && c2.data@ == (if r.len()
                    < j@.len() {
                    r
                } else {
                    j@
                });
            let k1 = choose|joins: Seq<bool>| decided_by(same, p1@, joins) && r1 == rle_bytes(rle_runs(p1@, joins));
            let k2 = choose|joins: Seq<bool>| decided_by(same, p2@, joins) && r2 == rle_bytes(rle_runs(p2@, joins));
            lemma_rle_runs_unique(same, p1@, k1, k2);
            lemma_delta_json_unique(minus, to_json, p1@, j1, j2);
        },
    }
}

/// Run-length compression spends at most 12 bytes per sample, which is less
/// than twice the tile's size, and nothing at all on an empty tile.
pub proof fn lemma_run_length_size<
    T: Fn(&Vec<u64>) -> Vec<u64>,
    S: Fn(u64, u64) -> bool,
    D: Fn(u64, u64) -> u64,
    J: Fn(&Vec<u64>) -> Vec<u8>,
>(quality: u64, threshold: T, same: S, minus: D, to_json: J, t: RawTile, c: CompressedTile)
    requires
        t.content@.len() <= u32::MAX,
        keeps_length(threshold),
        compressed_from(CompressionStrategy::RunLength, quality, threshold, same, minus, to_json, t, c),
    ensures
        c.data@.len() <= 12 * t.content@.len(),
        c.data@.len() < 2 * tile_size(t),
        t.content@.len() == 0 ==> c.data@.len() == 0,
{
    broadcast use vstd::layout::layout_of_primitives;

    let p = choose|p: Vec<u64>|
        threshold.ensures((&t.content,), p) && payload_of(
            CompressionStrategy::RunLength,
            same,
            minus,
            to_json,
            p,
            c.data,
        );
    let joins = choose|joins: Seq<bool>|
        decided_by(same, p@, joins) && c.data@ == rle_bytes(rle_runs(p@, joins));
    lemma_rle_size(p@, joins);
    assert(vstd::layout::size_of::<usize>() * 8 == usize::BITS);
}

/// The main compression engine; `quality` is the bit pattern of an `f64`.
#[derive(Debug, Clone, Copy)]
pub struct TileCompressor {
    pub strategy: CompressionStrategy,
    pub quality: u64,
}

/// The run-length or the delta payload, whichever is shorter; the delta one
/// on a tie.
fn shorter(rle: Vec<u8>, delta: Vec<u8>) -> (out: Vec<u8>)
    ensures
        out@ == (if rle@.len() < delta@.len() {
            rle@
        } else {
            delta@
        }),
{
    if rle.len() < delta.len() {
        rle
    } else {
        delta
    }
}

/// The running sum, by `plus`, of the deltas `d` (nothing if there are none).
fn integrate<A: Fn(u64, u64) -> u64>(d: Vec<u64>, plus: &A) -> (content: Vec<u64>)
    requires
        forall|a: u64, b: u64| plus.requires((a, b)),
    ensures
        if d@.len() == 0 {
            content@ == d@
        } else {
            integrated_by(*plus, d@[0], d@.skip(1), content@)
        },
{
    if d.len() == 0 {
        d
    } else {
        let rest = slice_subrange(d.as_slice(), 1, d.len());
        DeltaEncoder::new().decode(d[0], rest, plus)
    }
}

/// Reads the deltas in `bytes` as JSON and sums them up.
fn integrate_json<P: Fn(&Vec<u8>) -> Vec<u64>, A: Fn(u64, u64) -> u64>(
    bytes: &Vec<u8>,
    from_json: &P,
    plus: &A,
) -> (content: Vec<u64>)
    requires
        forall|v: &Vec<u8>| from_json.requires((v,)),
        forall|a: u64, b: u64| plus.requires((a, b)),
    ensures
        delta_content(*from_json, *plus, bytes@, content@),
{
    let d = from_json(bytes);
    let ghost dv = d;
    let content = integrate(d, plus);
    assert(bytes@ == bytes@ && from_json.ensures((bytes,), dv));
    content
}

/// Reads samples from `bytes` as JSON.
fn read_json<P: Fn(&Vec<u8>) -> Vec<u64>>(bytes: &Vec<u8>, from_json: &P) -> (content: Vec<u64>)
    requires
        forall|v: &Vec<u8>| from_json.requires((v,)),
    ensures
        json_content(*from_json, bytes@, content@),
{
    let v = from_json(bytes);
    assert(from_json.ensures((bytes,), v));
    v
}

impl TileCompressor {
    pub fn new(strategy: CompressionStrategy, quality: u64) -> (c: Self)
        ensures
            c.strategy == strategy,
            c.quality == quality,
    {
        Self { strategy, quality }
    }

    fn delta_json<D: Fn(u64, u64) -> u64, J: Fn(&Vec<u64>) -> Vec<u8>>(
        p: &Vec<u64>,
        minus: &D,
        to_json: &J,
    ) -> (out: Vec<u8>)
        requires
            forall|a: u64, b: u64| minus.requires((a, b)),
            forall|v: &Vec<u64>| to_json.requires((v,)),
        ensures
            delta_json_of(*minus, *to_json, p@, out),
    {
        let d = DeltaEncoder::new().encode(p.as_slice(), minus);
        let j = to_json(&d);
        assert(deltas_by(*minus, p@, d@) && to_json.ensures((&d,), j));
        j
    }

    /// Compresses one tile: thresholds its samples, then encodes them by the
    /// strategy.
    pub fn compress<
        T: Fn(&Vec<u64>) -> Vec<u64>,
        S: Fn(u64, u64) -> bool,
        D: Fn(u64, u64) -> u64,
        J: Fn(&Vec<u64>) -> Vec<u8>,
    >(&self, tile: &RawTile, threshold: &T, same: &S, minus: &D, to_json: &J) -> (c:
        CompressedTile)
        requires
            compressible(self.strategy, *tile),
            counts_runs(self.strategy) ==> runs_countable(*threshold, *same, *tile),
            forall|v: &Vec<u64>| threshold.requires((v,)),
            forall|a: u64, b: u64| same.requires((a, b)),
            forall|a: u64, b: u64| minus.requires((a, b)),
            forall|v: &Vec<u64>| to_json.requires((v,)),
        ensures
            compressed_from(
                self.strategy,
                self.quality,
                *threshold,
                *same,
                *minus,
                *to_json,
                *tile,
                c,
            ),
    {
        let p = threshold(&tile.content);
        assert(counts_runs(self.strategy) ==> runs_fit(*same, p@));
        let data = match self.strategy {
            CompressionStrategy::RunLength => RunLengthEncoder::new().encode(p.as_slice(), same),
            CompressionStrategy::Delta => Self::delta_json(&p, minus, to_json),
            CompressionStrategy::Dictionary => {
                let mut enc = DictionaryEncoder::new();
                enc.encode(p.as_slice())
            },
            CompressionStrategy::Threshold => to_json(&p),
            CompressionStrategy::Semantic => to_json(&p),
            CompressionStrategy::Hybrid => {
                let r = RunLengthEncoder::new().encode(p.as_slice(), same);
                let j = Self::delta_json(&p, minus, to_json);
                let ghost rv = r@;
                let ghost jv = j;
                let out = shorter(r, j);
                assert(rle_of(*same, p@, rv) && delta_json_of(*minus, *to_json, p@, jv));
                out
            },
        };
        assert(payload_of(self.strategy, *same, *minus, *to_json, p, data));
        assert(threshold.ensures((&tile.content,), p));
        let c = CompressedTile {
            id: tile.id.clone(),
            strategy: self.strategy,
            data,
            original_size: tile.byte_size(),
            quality: self.quality,
        };
        assert(threshold.ensures((&tile.content,), p) && payload_of(
            self.strategy,
            *same,
            *minus,
            *to_json,
            p,
            c.data,
        ));
        c
    }

    /// Decompresses a tile by this compressor's strategy. The tile comes back
    /// with its id, an empty room id, timestamp 0 and no metadata.
    pub fn decompress<P: Fn(&Vec<u8>) -> Vec<u64>, A: Fn(u64, u64) -> u64>(
        &self,
        compressed: &CompressedTile,
        from_json: &P,
        plus: &A,
    ) -> (t: RawTile)
        requires
            forall|v: &Vec<u8>| from_json.requires((v,)),
            forall|a: u64, b: u64| plus.requires((a, b)),
        ensures
            content_of(self.strategy, *from_json, *plus, compressed.data, t.content@),
            t.id@ == compressed.id@,
            t.room_id@ == Seq::<char>::empty(),
            t.timestamp == 0,
            t.metadata.wf(),
            t.metadata.entries().len() == 0,
    {
        let content = match self.strategy {
            CompressionStrategy::RunLength => RunLengthEncoder::new().decode(
                compressed.data.as_slice(),
            ),
            CompressionStrategy::Delta => integrate_json(&compressed.data, from_json, plus),
            CompressionStrategy::Dictionary => {
                let mut enc = DictionaryEncoder::new();
                enc.decode_learning(compressed.data.as_slice())
            },
            CompressionStrategy::Threshold => read_json(&compressed.data, from_json),
            CompressionStrategy::Semantic => read_json(&compressed.data, from_json),
            CompressionStrategy::Hybrid => {
                let d = from_json(&compressed.data);
                let ghost dv = d;
                let content = if d.len() == 0 {
                    RunLengthEncoder::new().decode(compressed.data.as_slice())
                } else {
                    integrate(d, plus)
                };
                assert(from_json.ensures((&compressed.data,), dv));
                content
            },
        };
        RawTile {
            id: compressed.id.clone(),
            room_id: String::new(),
            timestamp: 0,
            content,
            metadata: Metadata::new(),
        }
    }

    /// Compresses each tile in turn.
    pub fn compress_batch<
        T: Fn(&Vec<u64>) -> Vec<u64>,
        S: Fn(u64, u64) -> bool,
        D: Fn(u64, u64) -> u64,
        J: Fn(&Vec<u64>) -> Vec<u8>,
    >(&self, tiles: &[RawTile], threshold: &T, same: &S, minus: &D, to_json: &J) -> (out: Vec<
        CompressedTile,
    >)
        requires
            forall|i: int| 0 <= i < tiles@.len() ==> compressible(self.strategy, #[trigger] tiles@[i]),
            counts_runs(self.strategy) ==> forall|i: int|
                0 <= i < tiles@.len() ==> runs_countable(*threshold, *same, #[trigger] tiles@[i]),
            forall|v: &Vec<u64>| threshold.requires((v,)),
            forall|a: u64, b: u64| same.requires((a, b)),
            forall|a: u64, b: u64| minus.requires((a, b)),
            forall|v: &Vec<u64>| to_json.requires((v,)),
        ensures
            out@.len() == tiles@.len(),
            forall|i: int|
                0 <= i < tiles@.len() ==> compressed_from(
                    self.strategy,
                    self.quality,
                    *threshold,
                    *same,
                    *minus,
                    *to_json,
                    tiles@[i],
                    #[trigger] out@[i],
                ),
    {
        let mut out: Vec<CompressedTile> = Vec::new();
        let mut i: usize = 0;
        while i < tiles.len()
            invariant
                i <= tiles@.len(),
                out@.len() == i,
                forall|k: int| 0 <= k < tiles@.len() ==> compressible(self.strategy, #[trigger] tiles@[k]),
                counts_runs(self.strategy) ==> forall|k: int|
                    0 <= k < tiles@.len() ==> runs_countable(*threshold, *same, #[trigger] tiles@[k]),
                forall|v: &Vec<u64>| threshold.requires((v,)),
                forall|a: u64, b: u64| same.requires((a, b)),
                forall|a: u64, b: u64| minus.requires((a, b)),
                forall|v: &Vec<u64>| to_json.requires((v,)),
                forall|k: int|
                    0 <= k < i ==> compressed_from(
                        self.strategy,
                        self.quality,
                        *threshold,
                        *same,
                        *minus,
                        *to_json,
                        tiles@[k],
                        #[trigger] out@[k],
                    ),
            decreases tiles@.len() - i,
        {
            let c = self.compress(&tiles[i], threshold, same, minus, to_json);
            out.push(c);
            i = i + 1;
        }
        out
    }

    /// Size statistics of a batch: the total size of the original tiles
    /// against the total payload length of the compressed ones.
    pub fn stats(&self, original: &[RawTile], compressed: &[CompressedTile]) -> (s:
        CompressionStats)
        requires
            total_tile_size(original@) <= usize::MAX,
            total_data_len(compressed@) <= usize::MAX,
        ensures
            s.original_bytes == total_tile_size(original@),
            s.compressed_bytes == total_data_len(compressed@),
    {
        let mut original_bytes: usize = 0;
        let mut i: usize = 0;
        while i < original.len()
            invariant
                i <= original@.len(),
                total_tile_size(original@) <= usize::MAX,
                original_bytes == total_tile_size(original@.take(i as int)),
            decreases original@.len() - i,
        {
            proof {
                assert(original@.take(i + 1).drop_last() =~= original@.take(i as int));
                lemma_total_tile_size_prefix(original@, i + 1);
            }
            original_bytes = original_bytes + original[i].byte_size();
            i = i + 1;
        }
        assert(original@.take(i as int) =~= original@);
        let mut compressed_bytes: usize = 0;
        let mut k: usize = 0;
        while k < compressed.len()
            invariant
                k <= compressed@.len(),
                total_data_len(compressed@) <= usize::MAX,
                compressed_bytes == total_data_len(compressed@.take(k as int)),
            decreases compressed@.len() - k,
        {
            proof {
                assert(compressed@.take(k + 1).drop_last() =~= compressed@.take(k as int));
                lemma_total_data_len_prefix(compressed@, k + 1);
            }
            compressed_bytes = compressed_bytes + compressed[k].data.len();
            k = k + 1;
        }
        assert(compressed@.take(k as int) =~= compressed@);
        CompressionStats::new(original_bytes, compressed_bytes)
    }
}

pub(crate) proof fn lemma_total_tile_size_prefix(tiles: Seq<RawTile>, n: int)
    requires
        0 <= n <= tiles.len(),
    ensures
        total_tile_size(tiles.take(n)) <= total_tile_size(tiles),
    decreases tiles.len(),
{
    if n < tiles.len() {
        assert(tiles.drop_last().take(n) =~= tiles.take(n));
        lemma_total_tile_size_prefix(tiles.drop_last(), n);
    } else {
        assert(tiles.take(n) =~= tiles);
    }
}

proof fn lemma_total_data_len_prefix(tiles: Seq<CompressedTile>, n: int)
    requires
        0 <= n <= tiles.len(),
    ensures
        total_data_len(tiles.take(n)) <= total_data_len(tiles),
    decreases tiles.len(),
{
    if n < tiles.len() {
        assert(tiles.drop_last().take(n) =~= tiles.take(n));
        lemma_total_data_len_prefix(tiles.drop_last(), n);
    } else {
        assert(tiles.take(n) =~= tiles);
    }
}

/// A pipeline stage that runs a `TileCompressor`.
#[derive(Debug, Clone, Copy)]
pub struct CompressorStage {
    pub compressor: TileCompressor,
}

impl CompressorStage {
    pub fn new(compressor: TileCompressor) -> (s: Self)
        ensures
            s.compressor == compressor,
    {
        Self { compressor }
    }

    /// The name of the stage's strategy.
    pub fn name(&self) -> (n: &'static str)
        ensures
            n@ == (match self.compressor.strategy {
                CompressionStrategy::RunLength => "RunLength"@,
                CompressionStrategy::Dictionary => "Dictionary"@,
                CompressionStrategy::Delta => "Delta"@,
                CompressionStrategy::Threshold => "Threshold"@,
                CompressionStrategy::Semantic => "Semantic"@,
                CompressionStrategy::Hybrid => "Hybrid"@,
            }),
    {
        match self.compressor.strategy {
            CompressionStrategy::RunLength => "RunLength",
            CompressionStrategy::Dictionary => "Dictionary",
            CompressionStrategy::Delta => "Delta",
            CompressionStrategy::Threshold => "Threshold",
            CompressionStrategy::Semantic => "Semantic",
            CompressionStrategy::Hybrid => "Hybrid",
        }
    }
}

} // verus!
