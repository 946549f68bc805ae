//! Delta coding: the first sample, then the difference of each sample from
//! the one before it. The arithmetic on samples is the caller's
//! (`minus(a, b)` is `a - b`, `plus(a, b)` is `a + b`, on the `f64`s the bit
//! patterns stand for).
use vstd::prelude::*;
use std::collections::HashMap;

verus! {

/// `out` is the delta form of `data`: as long, starting with the same sample,
/// then holding what `minus` gave for each sample and the one before it.
pub open spec fn deltas_by<D: Fn(u64, u64) -> u64>(minus: D, data: Seq<u64>, out: Seq<u64>) -> bool {
    &&& out.len() == data.len()
    &&& data.len() > 0 ==> out[0] == data[0]
    &&& forall|i: int| 1 <= i < data.len() ==> #[trigger] minus.ensures((data[i], data[i - 1]), out[i])
}

/// `out` is the running sum of `deltas` started at `first`, each step being
/// what `plus` gave for the previous sum and the next delta.
pub open spec fn integrated_by<A: Fn(u64, u64) -> u64>(
    plus: A,
    first: u64,
    deltas: Seq<u64>,
    out: Seq<u64>,
) -> bool {
    &&& out.len() == deltas.len() + 1
    &&& out[0] == first
    &&& forall|i: int| 0 <= i < deltas.len() ==> #[trigger] plus.ensures((out[i], deltas[i]), out[i + 1])
}

/// On `data`, `plus` undoes `minus`: adding to each sample the difference
/// of its successor from it gives the successor back (so with `f64`
/// arithmetic, for instance, when all samples are integers below 2^52 in
/// magnitude).
pub open spec fn inverse_on<D: Fn(u64, u64) -> u64, A: Fn(u64, u64) -> u64>(
    minus: D,
    plus: A,
    data: Seq<u64>,
) -> bool {
    forall|i: int, d: u64, y: u64|
        #![trigger minus.ensures((data[i], data[i - 1]), d), plus.ensures((data[i - 1], d), y)]
        1 <= i < data.len() && minus.ensures((data[i], data[i - 1]), d) && plus.ensures(
            (data[i - 1], d),
            y,
        ) ==> y == data[i]
}

/// Delta encoder: stores the first sample and successive differences.
#[derive(Debug, Clone, Copy, Default)]
pub struct DeltaEncoder;

/// Reconstructing from the first sample and the differences gives the
/// samples back when, on these samples, `plus` undoes `minus`.
pub proof fn lemma_delta_roundtrip<D: Fn(u64, u64) -> u64, A: Fn(u64, u64) -> u64>(
    minus: D,
    plus: A,
    data: Seq<u64>,
    deltas: Seq<u64>,
    out: Seq<u64>,
)
    requires
        data.len() > 0,
        inverse_on(minus, plus, data),
        deltas_by(minus, data, deltas),
        integrated_by(plus, deltas[0], deltas.skip(1), out),
    ensures
        out == data,
{
    assert forall|i: int| 0 <= i < data.len() implies out[i] == data[i] by {
        lemma_delta_prefix(minus, plus, data, deltas, out, i);
    }
    assert(out =~= data);
}

proof fn lemma_delta_prefix<D: Fn(u64, u64) -> u64, A: Fn(u64, u64) -> u64>(
    minus: D,
    plus: A,
    data: Seq<u64>,
    deltas: Seq<u64>,
    out: Seq<u64>,
    i: int,
)
    requires
        0 <= i < data.len(),
        inverse_on(minus, plus, data),
        deltas_by(minus, data, deltas),
        integrated_by(plus, deltas[0], deltas.skip(1), out),
    ensures
        out[i] == data[i],
    decreases i,
{
    if i > 0 {
        lemma_delta_prefix(minus, plus, data, deltas, out, i - 1);
        assert(deltas.skip(1)[i - 1] == deltas[i]);
        assert(minus.ensures((data[i], data[i - 1]), deltas[i]));
        assert(plus.ensures((out[i - 1], deltas.skip(1)[i - 1]), out[i]));
    }
}

impl DeltaEncoder {
    pub fn new() -> (e: Self) {
        Self
    }

    /// The first sample, then each sample minus the one before it.
    pub fn encode<D: Fn(u64, u64) -> u64>(&self, data: &[u64], minus: &D) -> (out: Vec<u64>)
        requires
            forall|a: u64, b: u64| minus.requires((a, b)),
        ensures
            deltas_by(*minus, data@, out@),
    {
        let mut out: Vec<u64> = Vec::new();
        if data.len() == 0 {
            return out;
        }
        out.push(data[0]);
        let mut i: usize = 1;
        while i < data.len()
            invariant
                1 <= i <= data@.len(),
                out@.len() == i,
                out@[0] == data@[0],
                forall|a: u64, b: u64| minus.requires((a, b)),
                forall|k: int| 1 <= k < i ==> #[trigger] minus.ensures((data@[k], data@[k - 1]), out@[k]),
            decreases data@.len() - i,
        {
            let d = minus(data[i], data[i - 1]);
            out.push(d);
            i = i + 1;
        }
        out
    }

    /// Rebuilds samples from the first one and the differences.
    pub fn decode<A: Fn(u64, u64) -> u64>(&self, first: u64, deltas: &[u64], plus: &A) -> (out: Vec<u64>)
        requires
            forall|a: u64, b: u64| plus.requires((a, b)),
        ensures
            integrated_by(*plus, first, deltas@, out@),
    {
        let mut out: Vec<u64> = Vec::new();
        let mut current = first;
        out.push(current);
        let mut i: usize = 0;
        while i < deltas.len()
            invariant
                i <= deltas@.len(),
                out@.len() == i + 1,
                out@[0] == first,
                out@[i as int] == current,
                forall|a: u64, b: u64| plus.requires((a, b)),
                forall|k: int| 0 <= k < i ==> #[trigger] plus.ensures((out@[k], deltas@[k]), out@[k + 1]),
            decreases deltas@.len() - i,
        {
            current = plus(current, deltas[i]);
            out.push(current);
            i = i + 1;
        }
        out
    }
}

/// How often `b` occurs in `s`.
pub open spec fn occurrences(s: Seq<i64>, b: i64) -> nat
    decreases s.len(),
{
    if s.len() == 0 {
        0
    } else {
        occurrences(s.drop_last(), b) + if s.last() == b {
            1nat
        } else {
            0nat
        }
    }
}

proof fn lemma_occurrences_bound(s: Seq<i64>, b: i64)
    ensures
        occurrences(s, b) <= s.len(),
    decreases s.len(),
{
    if s.len() > 0 {
        lemma_occurrences_bound(s.drop_last(), b);
    }
}

/// The frequency table of quantised deltas: each bin that occurs, with how
/// often it occurs.
pub fn bin_counts(bins: &[i64]) -> (freq: HashMap<i64, usize>)
    ensures
        forall|b: i64| #[trigger] freq@.contains_key(b) <==> occurrences(bins@, b) > 0,
        forall|b: i64| #[trigger] freq@.contains_key(b) ==> freq@[b] == occurrences(bins@, b),
{
    broadcast use vstd::std_specs::hash::group_hash_axioms;

    let mut freq: HashMap<i64, usize> = HashMap::new();
    let mut i: usize = 0;
    while i < bins.len()
        invariant
            i <= bins@.len(),
            forall|b: i64|
                #[trigger] freq@.contains_key(b) <==> occurrences(bins@.take(i as int), b) > 0,
            forall|b: i64|
                #[trigger] freq@.contains_key(b) ==> freq@[b] == occurrences(
                    bins@.take(i as int),
                    b,
                ),
        decreases bins@.len() - i,
    {
        let b = bins[i];
        proof {
            assert(bins@.take(i + 1).drop_last() =~= bins@.take(i as int));
            lemma_occurrences_bound(bins@.take(i as int), b);
        }
        let c: usize = match freq.get(&b) {
            Some(c) => *c,
            None => 0,
        };
        freq.insert(b, c + 1);
        i = i + 1;
    }
    assert(bins@.take(i as int) =~= bins@);
    freq
}

} // verus!
