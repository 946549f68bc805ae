use vstd::prelude::*;

verus! {

/// Statistics about a compression operation.
#[derive(Debug, Clone)]
pub struct CompressionStats {
    pub original_bytes: usize,
    pub compressed_bytes: usize,
}

/// The compression ratio `original / compressed` exceeds 1.5, read over the
/// rationals: an empty output of a non-empty input has an infinite ratio, and
/// an empty output of an empty input has ratio 1.
pub open spec fn worthwhile(original: nat, compressed: nat) -> bool {
    if compressed == 0 {
        original > 0
    } else {
        2 * original > 3 * compressed
    }
}

/// Worthwhile means a ratio above 3/2: for a non-empty output, exactly when
/// twice the original exceeds three times the output; an empty output is
/// worthwhile exactly when the input is not empty.
pub proof fn lemma_worthwhile_is_ratio_above_three_halves(original: nat, compressed: nat)
    ensures
        compressed > 0 ==> (worthwhile(original, compressed) <==> original * 2 > compressed * 3),
        compressed == 0 ==> (worthwhile(original, compressed) <==> original > 0),
{
}

/// Only the ratio matters: scaling both sizes by the same factor does not
/// change whether compression is worthwhile, and a larger original (or a
/// smaller output) never makes it less so.
pub proof fn lemma_worthwhile_depends_on_ratio(original: nat, compressed: nat, k: nat)
    requires
        k > 0,
    ensures
        worthwhile(k * original, k * compressed) == worthwhile(original, compressed),
        compressed > 0 && worthwhile(original, compressed) ==> worthwhile(original + 1, compressed),
        compressed > 1 && worthwhile(original, compressed) ==> worthwhile(
            original,
            (compressed - 1) as nat,
        ),
{
    assert(k * compressed == 0 <==> compressed == 0) by (nonlinear_arith)
        requires
            k > 0,
    ;
    assert(k * original > 0 <==> original > 0) by (nonlinear_arith)
        requires
            k > 0,
    ;
    assert(2 * (k * original) > 3 * (k * compressed) <==> 2 * original > 3 * compressed) by (
    nonlinear_arith)
        requires
            k > 0,
    ;
}

impl CompressionStats {
    pub fn new(original_bytes: usize, compressed_bytes: usize) -> (s: Self)
        ensures
            s.original_bytes == original_bytes,
            s.compressed_bytes == compressed_bytes,
    {
        Self { original_bytes, compressed_bytes }
    }

    /// Whether the compression ratio exceeds 1.5×.
    pub fn is_worthwhile(&self) -> (b: bool)
        ensures
            b == worthwhile(self.original_bytes as nat, self.compressed_bytes as nat),
    {
        if self.compressed_bytes == 0 {
            self.original_bytes > 0
        } else {
            2 * (self.original_bytes as u128) > 3 * (self.compressed_bytes as u128)
        }
    }
}

} // verus!
