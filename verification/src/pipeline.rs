//! Pipelines of compression stages: the tile goes through the first stage,
//! and the content flows on: each result is decompressed by the stage that
//! made it and compressed again by the next stage.
use vstd::prelude::*;
use crate::tile::{tile_size, CompressedTile, CompressionStrategy, RawTile, ONE};

verus! {

/// A pluggable compression stage. A stage that says nothing of what it
/// does keeps the defaults, under which every result qualifies.
pub trait TileCompressorTrait: Send + Sync {
    /// `c` is a compression of `t` by this stage.
    open spec fn compresses(&self, t: RawTile, c: CompressedTile) -> bool {
        true
    }

    /// `t` is a decompression of `c` by this stage.
    open spec fn decompresses(&self, c: CompressedTile, t: RawTile) -> bool {
        true
    }

    fn compress(&self, tile: &RawTile) -> (c: CompressedTile)
        ensures
            self.compresses(*tile, c),
    ;

    fn decompress(&self, compressed: &CompressedTile) -> (t: RawTile)
        ensures
            self.decompresses(*compressed, t),
    ;

    fn name(&self) -> &str;
}

/// Stage `k` of a run: the previous stage decompressed its result into
/// `ts[k]`, and stage `k` compressed that into `cs[k]`.
pub open spec fn step_ok(
    stages: Seq<Box<dyn TileCompressorTrait>>,
    cs: Seq<CompressedTile>,
    ts: Seq<RawTile>,
    k: int,
) -> bool {
    stages[k - 1].decompresses(cs[k - 1], ts[k]) && stages[k].compresses(ts[k], cs[k])
}

/// `cs` and `ts` record a run of the pipeline `stages` on `tile`: the first
/// stage compresses the tile, and for each later stage the previous stage
/// decompresses its own compression and the stage compresses what came out.
pub open spec fn chain(
    stages: Seq<Box<dyn TileCompressorTrait>>,
    tile: RawTile,
    cs: Seq<CompressedTile>,
    ts: Seq<RawTile>,
) -> bool {
    &&& cs.len() == stages.len()
    &&& ts.len() == stages.len()
    &&& stages.len() > 0
    &&& ts[0] == tile
    &&& stages[0].compresses(ts[0], cs[0])
    &&& forall|k: int| 1 <= k < stages.len() ==> #[trigger] step_ok(stages, cs, ts, k)
}

/// Chains multiple compressors sequentially. The cumulative ratio is kept as
/// the quotient `ratio_original / ratio_compressed`.
pub struct CompressionPipeline {
    pub stages: Vec<Box<dyn TileCompressorTrait>>,
    pub ratio_original: usize,
    pub ratio_compressed: usize,
}

impl CompressionPipeline {
    pub fn new() -> (p: Self)
        ensures
            p.stages@.len() == 0,
            p.ratio_original == 1,
            p.ratio_compressed == 1,
    {
        Self { stages: Vec::new(), ratio_original: 1, ratio_compressed: 1 }
    }

    pub fn add_stage(&mut self, compressor: Box<dyn TileCompressorTrait>)
        ensures
            final(self).stages@ == old(self).stages@.push(compressor),
            final(self).ratio_original == old(self).ratio_original,
            final(self).ratio_compressed == old(self).ratio_compressed,
    {
        self.stages.push(compressor);
    }

    /// Runs the tile through all stages. Without stages the tile is stored
    /// as the JSON of its samples, losslessly and as a hybrid. After a run
    /// whose result records a non-zero original size, the cumulative ratio
    /// becomes that size over the result's payload length (at least 1).
    pub fn compress<J: Fn(&Vec<u64>) -> Vec<u8>>(&mut self, tile: &RawTile, to_json: &J) -> (r:
        CompressedTile)
        requires
            tile_size(*tile) <= usize::MAX,
            forall|v: &Vec<u64>| to_json.requires((v,)),
        ensures
            final(self).stages@ == old(self).stages@,
            old(self).stages@.len() == 0 ==> {
                &&& r.id@ == tile.id@
                &&& r.strategy == CompressionStrategy::Hybrid
                &&& r.quality == ONE
                &&& r.original_size == tile_size(*tile)
                &&& to_json.ensures((&tile.content,), r.data)
            },
            old(self).stages@.len() > 0 ==> exists|cs: Seq<CompressedTile>, ts: Seq<RawTile>|
                chain(old(self).stages@, *tile, cs, ts) && r == cs.last(),
            if old(self).stages@.len() > 0 && r.original_size > 0 {
                &&& final(self).ratio_original == r.original_size
                &&& final(self).ratio_compressed == (if r.data@.len() > 1 {
                    r.data@.len()
                } else {
                    1
                })
            } else {
                &&& final(self).ratio_original == old(self).ratio_original
                &&& final(self).ratio_compressed == old(self).ratio_compressed
            },
    {
        if self.stages.len() == 0 {
            return CompressedTile {
                id: tile.id.clone(),
                strategy: CompressionStrategy::Hybrid,
                data: to_json(&tile.content),
                original_size: tile.byte_size(),
                quality: ONE,
            };
        }
        let ghost stages = self.stages@;
        let mut result = self.stages[0].compress(tile);
        let ghost mut cs: Seq<CompressedTile> = seq![result];
        let ghost mut ts: Seq<RawTile> = seq![*tile];
        let mut k: usize = 1;
        while k < self.stages.len()
            invariant
                self.stages@ == stages,
                1 <= k <= stages.len(),
                cs.len() == k,
                ts.len() == k,
                ts[0] == *tile,
                stages[0].compresses(ts[0], cs[0]),
                forall|i: int| 1 <= i < k ==> #[trigger] step_ok(stages, cs, ts, i),
                result == cs.last(),
            decreases stages.len() - k,
        {
            let ghost old_cs = cs;
            let ghost old_ts = ts;
            let current = self.stages[k - 1].decompress(&result);
            let next = self.stages[k].compress(&current);
            proof {
                assert(stages[k - 1].decompresses(cs[k - 1], current));
                assert(stages[k as int].compresses(current, next));
                ts = ts.push(current);
                cs = cs.push(next);
                assert forall|i: int| 1 <= i < k + 1 implies #[trigger] step_ok(stages, cs, ts, i) by {
                    if i < k {
                        assert(step_ok(stages, old_cs, old_ts, i));
                        assert(cs[i - 1] == old_cs[i - 1] && ts[i] == old_ts[i] && cs[i] == old_cs[i]);
                    }
                }
            }
            result = next;
            k = k + 1;
        }
        assert(chain(stages, *tile, cs, ts));
        if result.original_size > 0 {
            self.ratio_original = result.original_size;
            self.ratio_compressed = if result.data.len() > 1 {
                result.data.len()
            } else {
                1
            };
        }
        result
    }
}

impl Default for CompressionPipeline {
    fn default() -> (p: Self)
        ensures
            p.stages@.len() == 0,
            p.ratio_original == 1,
            p.ratio_compressed == 1,
    {
        Self::new()
    }
}

} // verus!
