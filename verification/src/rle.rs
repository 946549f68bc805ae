//! Run-length coding of sample sequences.
//!
//! Format: one 12-byte record per run, the run's length as a little-endian
//! `u32` followed by the run's sample as a little-endian `u64` (the bit
//! pattern of the `f64`).
use vstd::prelude::*;
use crate::bytes::{get_le32, get_le64, le32, le64, lemma_read32_le32, lemma_read64_le64, push_le32, push_le64, read32, read64};

verus! {

/// The 12 bytes that stand for one run `(count, sample)`.
pub open spec fn run_record(run: (u32, u64)) -> Seq<u8> {
    le32(run.0) + le64(run.1)
}

/// The encoding of a sequence of runs: their records, one after another.
pub open spec fn rle_bytes(runs: Seq<(u32, u64)>) -> Seq<u8>
    decreases runs.len(),
{
    if runs.len() == 0 {
        Seq::empty()
    } else {
        rle_bytes(runs.drop_last()) + run_record(runs.last())
    }
}

/// The runs read from `bytes`: one per complete 12-byte record; bytes after
/// the last complete record are ignored.
pub open spec fn rle_records(bytes: Seq<u8>) -> Seq<(u32, u64)> {
    Seq::new(bytes.len() / 12, |k: int| (read32(bytes, 12 * k), read64(bytes, 12 * k + 4)))
}

/// The samples that a sequence of runs stands for.
pub open spec fn expand(runs: Seq<(u32, u64)>) -> Seq<u64>
    decreases runs.len(),
{
    if runs.len() == 0 {
        Seq::empty()
    } else {
        expand(runs.drop_last()) + Seq::new(runs.last().0 as nat, |_i: int| runs.last().1)
    }
}

/// What decoding `bytes` yields.
pub open spec fn rle_decoded(bytes: Seq<u8>) -> Seq<u64> {
    expand(rle_records(bytes))
}

/// The runs formed by the first `n` samples of `data`, where `joins[i]`
/// (for `i >= 1`) says whether sample `i` was found close to the sample of
/// the run in progress, and so lengthens it instead of starting a new run.
pub open spec fn runs_upto(data: Seq<u64>, joins: Seq<bool>, n: nat) -> Seq<(u32, u64)>
    decreases n,
{
    if n == 0 {
        Seq::empty()
    } else if n == 1 {
        seq![(1u32, data[0])]
    } else {
        let prev = runs_upto(data, joins, (n - 1) as nat);
        let last = prev.last();
        if joins[n - 1] {
            prev.update(prev.len() - 1, ((last.0 + 1) as u32, last.1))
        } else {
            prev.push((1u32, data[n - 1]))
        }
    }
}

/// The runs of all of `data` under the decisions `joins`.
pub open spec fn rle_runs(data: Seq<u64>, joins: Seq<bool>) -> Seq<(u32, u64)> {
    runs_upto(data, joins, data.len())
}

/// The sample of the run in progress when sample `i` is examined.
pub open spec fn run_sample_before(data: Seq<u64>, joins: Seq<bool>, i: int) -> u64 {
    runs_upto(data, joins, i as nat).last().1
}

/// `joins` holds, for every sample after the first, what `same` answered
/// when asked whether that sample is close to the sample of the run in
/// progress.
pub open spec fn decided_by<F: Fn(u64, u64) -> bool>(
    same: F,
    data: Seq<u64>,
    joins: Seq<bool>,
) -> bool {
    forall|i: int|
        1 <= i < data.len() ==> #[trigger] same.ensures(
            (run_sample_before(data, joins, i), data[i]),
            joins[i],
        )
}

/// `joins` only ever merged a sample into a run of the very same sample.
pub open spec fn joins_exact(data: Seq<u64>, joins: Seq<bool>) -> bool {
    forall|i: int|
        1 <= i < data.len() && #[trigger] joins[i] ==> run_sample_before(data, joins, i)
            == data[i]
}

/// Run-length encoder for sample sequences.
#[derive(Debug, Clone, Copy, Default)]
pub struct RunLengthEncoder;

proof fn lemma_runs_upto_prefix(data: Seq<u64>, j1: Seq<bool>, j2: Seq<bool>, n: nat)
    requires
        forall|k: int| 1 <= k < n ==> j1[k] == j2[k],
    ensures
        runs_upto(data, j1, n) == runs_upto(data, j2, n),
    decreases n,
{
    if n > 1 {
        lemma_runs_upto_prefix(data, j1, j2, (n - 1) as nat);
    }
}

/// How many samples the run in progress holds once the first `n` samples
/// have been taken in.
pub open spec fn run_length(joins: Seq<bool>, n: nat) -> nat
    decreases n,
{
    if n <= 1 {
        1
    } else if joins[n - 1] {
        run_length(joins, (n - 1) as nat) + 1
    } else {
        1
    }
}

/// `joins` holds what `same` answered for samples 1 up to `n - 1`.
pub open spec fn decided_upto<F: Fn(u64, u64) -> bool>(
    same: F,
    data: Seq<u64>,
    joins: Seq<bool>,
    n: nat,
) -> bool {
    forall|i: int|
        1 <= i < n ==> #[trigger] same.ensures(
            (run_sample_before(data, joins, i), data[i]),
            joins[i],
        )
}

/// Whatever `same` answers, no run of `data` grows past what a 32-bit count
/// holds.
pub open spec fn runs_fit<F: Fn(u64, u64) -> bool>(same: F, data: Seq<u64>) -> bool {
    forall|joins: Seq<bool>, n: nat|
        1 <= n <= data.len() && #[trigger] decided_upto(same, data, joins, n) ==> run_length(
            joins,
            n,
        ) <= u32::MAX
}

/// Fewer than 2^32 samples always fit.
pub proof fn lemma_short_data_runs_fit<F: Fn(u64, u64) -> bool>(same: F, data: Seq<u64>)
    requires
        data.len() <= u32::MAX,
    ensures
        runs_fit(same, data),
{
    assert forall|joins: Seq<bool>, n: nat|
        1 <= n <= data.len() && #[trigger] decided_upto(same, data, joins, n) implies run_length(
        joins,
        n,
    ) <= u32::MAX by {
        lemma_run_length_bound(joins, n);
    }
}

proof fn lemma_run_length_bound(joins: Seq<bool>, n: nat)
    ensures
        run_length(joins, n) <= if n == 0 { 1 } else { n },
    decreases n,
{
    if n > 1 {
        lemma_run_length_bound(joins, (n - 1) as nat);
    }
}

proof fn lemma_run_length_prefix(j1: Seq<bool>, j2: Seq<bool>, n: nat)
    requires
        forall|k: int| 1 <= k < n ==> j1[k] == j2[k],
    ensures
        run_length(j1, n) == run_length(j2, n),
    decreases n,
{
    if n > 1 {
        lemma_run_length_prefix(j1, j2, (n - 1) as nat);
    }
}

/// `same` answers each question one way only.
pub open spec fn answers_once<F: Fn(u64, u64) -> bool>(same: F) -> bool {
    forall|a: u64, b: u64, r1: bool, r2: bool|
        #![trigger same.ensures((a, b), r1), same.ensures((a, b), r2)]
        same.ensures((a, b), r1) && same.ensures((a, b), r2) ==> r1 == r2
}

proof fn lemma_joins_agree<F: Fn(u64, u64) -> bool>(
    same: F,
    data: Seq<u64>,
    j1: Seq<bool>,
    j2: Seq<bool>,
    n: nat,
)
    requires
        n <= data.len(),
        answers_once(same),
        decided_by(same, data, j1),
        decided_by(same, data, j2),
    ensures
        forall|k: int| 1 <= k < n ==> j1[k] == j2[k],
    decreases n,
{
    if n > 1 {
        let m = (n - 1) as nat;
        lemma_joins_agree(same, data, j1, j2, m);
        if m >= 1 {
            lemma_runs_upto_prefix(data, j1, j2, m);
            assert(same.ensures((run_sample_before(data, j1, m as int), data[m as int]), j1[m as int]));
            assert(same.ensures((run_sample_before(data, j2, m as int), data[m as int]), j2[m as int]));
        }
    }
}

/// With a closeness test that answers each question one way only, the runs
/// of `data` do not depend on which record of its answers is taken.
pub proof fn lemma_rle_runs_unique<F: Fn(u64, u64) -> bool>(
    same: F,
    data: Seq<u64>,
    j1: Seq<bool>,
    j2: Seq<bool>,
)
    requires
        answers_once(same),
        decided_by(same, data, j1),
        decided_by(same, data, j2),
    ensures
        rle_runs(data, j1) == rle_runs(data, j2),
{
    lemma_joins_agree(same, data, j1, j2, data.len());
    lemma_runs_upto_prefix(data, j1, j2, data.len());
}

proof fn lemma_runs_upto_shape(data: Seq<u64>, joins: Seq<bool>, n: nat)
    requires
        n <= data.len(),
        n <= u32::MAX,
    ensures
        n > 0 ==> runs_upto(data, joins, n).len() > 0,
        n > 0 ==> runs_upto(data, joins, n).last().0 <= n,
        runs_upto(data, joins, n).len() <= n,
        forall|k: int|
            0 <= k < runs_upto(data, joins, n).len() ==> #[trigger] runs_upto(data, joins, n)[k].0
                >= 1,
    decreases n,
{
    if n > 1 {
        lemma_runs_upto_shape(data, joins, (n - 1) as nat);
    }
}

proof fn lemma_rle_bytes_len(runs: Seq<(u32, u64)>)
    ensures
        rle_bytes(runs).len() == 12 * runs.len(),
    decreases runs.len(),
{
    if runs.len() > 0 {
        lemma_rle_bytes_len(runs.drop_last());
    }
}

proof fn lemma_rle_bytes_record(runs: Seq<(u32, u64)>, k: int)
    requires
        0 <= k < runs.len(),
    ensures
        rle_bytes(runs).len() == 12 * runs.len(),
        rle_bytes(runs).subrange(12 * k, 12 * k + 12) == run_record(runs[k]),
    decreases runs.len(),
{
    lemma_rle_bytes_len(runs);
    let init = runs.drop_last();
    lemma_rle_bytes_len(init);
    if k < runs.len() - 1 {
        lemma_rle_bytes_record(init, k);
        assert(rle_bytes(runs).subrange(12 * k, 12 * k + 12) =~= rle_bytes(init).subrange(
            12 * k,
            12 * k + 12,
        ));
    } else {
        assert(rle_bytes(runs).subrange(12 * k, 12 * k + 12) =~= run_record(runs.last()));
    }
}

/// Reading the records of an encoding gives back the runs it was made of.
pub proof fn lemma_rle_records_of_bytes(runs: Seq<(u32, u64)>)
    ensures
        rle_records(rle_bytes(runs)) == runs,
{
    let b = rle_bytes(runs);
    lemma_rle_bytes_len(runs);
    assert forall|k: int| 0 <= k < runs.len() implies #[trigger] rle_records(b)[k] == runs[k] by {
        lemma_rle_bytes_record(runs, k);
        let w = b.subrange(12 * k, 12 * k + 12);
        assert(b.subrange(12 * k, 12 * k + 4) =~= w.subrange(0, 4));
        assert(b.subrange(12 * k + 4, 12 * k + 12) =~= w.subrange(4, 12));
        assert(w.subrange(0, 4) =~= le32(runs[k].0));
        assert(w.subrange(4, 12) =~= le64(runs[k].1));
        lemma_read32_le32(b, 12 * k, runs[k].0);
        lemma_read64_le64(b, 12 * k + 4, runs[k].1);
    }
    assert(rle_records(b) =~= runs);
}

proof fn lemma_expand_exact(data: Seq<u64>, joins: Seq<bool>, n: nat)
    requires
        n <= data.len(),
        n <= u32::MAX,
        joins_exact(data, joins),
    ensures
        expand(runs_upto(data, joins, n)) == data.take(n as int),
    decreases n,
{
    if n == 1 {
        let r = runs_upto(data, joins, 1);
        assert(r.drop_last() =~= Seq::<(u32, u64)>::empty());
        assert(expand(r.drop_last()) == Seq::<u64>::empty());
        assert(expand(r) =~= data.take(1));
    } else if n > 1 {
        let m = (n - 1) as nat;
        lemma_expand_exact(data, joins, m);
        lemma_runs_upto_shape(data, joins, m);
        let prev = runs_upto(data, joins, m);
        let cur = runs_upto(data, joins, n);
        let last = prev.last();
        if joins[n - 1] {
            assert(run_sample_before(data, joins, n - 1) == data[n - 1]);
            assert(cur.drop_last() =~= prev.drop_last());
            assert(expand(prev) == expand(prev.drop_last()) + Seq::new(
                last.0 as nat,
                |_i: int| last.1,
            ));
            assert(expand(cur) =~= expand(prev).push(data[n - 1]));
        } else {
            assert(cur.drop_last() =~= prev);
            assert(expand(cur) =~= expand(prev).push(data[n - 1]));
        }
        assert(data.take(n as int) =~= data.take(m as int).push(data[n - 1]));
    }
}

/// Encoding is undone by decoding whenever no sample was merged into a run of
/// a different sample.
pub proof fn lemma_rle_roundtrip(data: Seq<u64>, joins: Seq<bool>)
    requires
        data.len() <= u32::MAX,
        joins_exact(data, joins),
    ensures
        rle_decoded(rle_bytes(rle_runs(data, joins))) == data,
{
    lemma_rle_records_of_bytes(rle_runs(data, joins));
    lemma_expand_exact(data, joins, data.len());
    assert(data.take(data.len() as int) =~= data);
}

/// The closeness test calls no two different neighbours in `data` close
/// (with `f64` samples, for instance, when neighbours are equal or at least
/// an epsilon apart).
pub open spec fn neighbours_exact<F: Fn(u64, u64) -> bool>(same: F, data: Seq<u64>) -> bool {
    forall|i: int|
        1 <= i < data.len() && #[trigger] same.ensures((data[i - 1], data[i]), true) ==> data[i
            - 1] == data[i]
}

proof fn lemma_exact_from_neighbours<F: Fn(u64, u64) -> bool>(
    same: F,
    data: Seq<u64>,
    joins: Seq<bool>,
    n: nat,
)
    requires
        1 <= n <= data.len() <= u32::MAX,
        decided_by(same, data, joins),
        neighbours_exact(same, data),
    ensures
        run_sample_before(data, joins, n as int) == data[n - 1],
        forall|i: int|
            1 <= i < n && #[trigger] joins[i] ==> run_sample_before(data, joins, i) == data[i],
    decreases n,
{
    if n > 1 {
        let m = (n - 1) as nat;
        lemma_exact_from_neighbours(same, data, joins, m);
        lemma_runs_upto_shape(data, joins, m);
        assert(same.ensures((run_sample_before(data, joins, m as int), data[m as int]), joins[m as int]));
        if joins[m as int] {
            assert(same.ensures((data[m - 1], data[m as int]), true));
        }
    }
}

/// When the closeness test calls no two different neighbours close,
/// decoding what `encode` produced gives back the samples.
pub proof fn lemma_rle_lossless<F: Fn(u64, u64) -> bool>(same: F, data: Seq<u64>, joins: Seq<bool>)
    requires
        data.len() <= u32::MAX,
        decided_by(same, data, joins),
        neighbours_exact(same, data),
    ensures
        rle_decoded(rle_bytes(rle_runs(data, joins))) == data,
{
    if data.len() > 0 {
        lemma_exact_from_neighbours(same, data, joins, data.len());
    }
    lemma_rle_roundtrip(data, joins);
}

proof fn lemma_runs_constant(data: Seq<u64>, joins: Seq<bool>, n: nat)
    requires
        1 <= n <= data.len(),
        n <= u32::MAX,
        forall|i: int| 0 <= i < data.len() ==> #[trigger] data[i] == data[0],
        forall|i: int| 1 <= i < n ==> #[trigger] joins[i],
    ensures
        runs_upto(data, joins, n) == seq![(n as u32, data[0])],
    decreases n,
{
    if n > 1 {
        lemma_runs_constant(data, joins, (n - 1) as nat);
        assert(runs_upto(data, joins, n) =~= seq![(n as u32, data[0])]);
    }
}

proof fn lemma_constant_joins<F: Fn(u64, u64) -> bool>(
    same: F,
    data: Seq<u64>,
    joins: Seq<bool>,
    n: nat,
)
    requires
        1 <= n <= data.len() <= u32::MAX,
        forall|i: int| 0 <= i < data.len() ==> #[trigger] data[i] == data[0],
        decided_by(same, data, joins),
        forall|a: u64, r: bool| same.ensures((a, a), r) ==> r,
    ensures
        forall|i: int| 1 <= i < n ==> #[trigger] joins[i],
    decreases n,
{
    if n > 1 {
        let m = (n - 1) as nat;
        lemma_constant_joins(same, data, joins, m);
        lemma_runs_constant(data, joins, m);
        assert(same.ensures((run_sample_before(data, joins, m as int), data[m as int]), joins[m as int]));
    }
}

/// A non-empty sequence of one repeated sample is encoded as a single
/// 12-byte record, however long it is, when the closeness test calls a
/// sample close to itself.
pub proof fn lemma_rle_constant_input<F: Fn(u64, u64) -> bool>(
    same: F,
    data: Seq<u64>,
    joins: Seq<bool>,
)
    requires
        1 <= data.len() <= u32::MAX,
        forall|i: int| 0 <= i < data.len() ==> #[trigger] data[i] == data[0],
        decided_by(same, data, joins),
        forall|a: u64, r: bool| same.ensures((a, a), r) ==> r,
    ensures
        rle_runs(data, joins) == seq![(data.len() as u32, data[0])],
        rle_bytes(rle_runs(data, joins)).len() == 12,
{
    lemma_constant_joins(same, data, joins, data.len());
    lemma_runs_constant(data, joins, data.len());
    lemma_rle_bytes_len(rle_runs(data, joins));
}

/// The encoding takes 12 bytes per run, and there are at most as many runs
/// as samples (and at least one for a non-empty input).
pub proof fn lemma_rle_size(data: Seq<u64>, joins: Seq<bool>)
    requires
        data.len() <= u32::MAX,
    ensures
        rle_bytes(rle_runs(data, joins)).len() == 12 * rle_runs(data, joins).len(),
        rle_runs(data, joins).len() <= data.len(),
        data.len() > 0 ==> rle_runs(data, joins).len() >= 1,
{
    lemma_rle_bytes_len(rle_runs(data, joins));
    lemma_runs_upto_shape(data, joins, data.len());
}

/// Appends `count` copies of `val`.
fn push_repeated(out: &mut Vec<u64>, val: u64, count: u32)
    ensures
        final(out)@ == old(out)@ + Seq::new(count as nat, |_i: int| val),
{
    let mut j: u32 = 0;
    while j < count
        invariant
            j <= count,
            out@ == old(out)@ + Seq::new(j as nat, |_i: int| val),
        decreases count - j,
    {
        out.push(val);
        j = j + 1;
        assert(out@ =~= old(out)@ + Seq::new(j as nat, |_i: int| val));
    }
}

impl RunLengthEncoder {
    pub fn new() -> (e: Self) {
        Self
    }

    /// Encodes `data` as runs. `same(run_sample, sample)` decides whether
    /// `sample` lengthens the run in progress, whose sample is the first one
    /// of the run.
    pub fn encode<F: Fn(u64, u64) -> bool>(&self, data: &[u64], same: &F) -> (out: Vec<u8>)
        requires
            runs_fit(*same, data@),
            forall|a: u64, b: u64| same.requires((a, b)),
        ensures
            exists|joins: Seq<bool>|
                decided_by(*same, data@, joins) && out@ == rle_bytes(rle_runs(data@, joins)),
    {
        if data.len() == 0 {
            let out = Vec::new();
            assert(decided_by(*same, data@, Seq::empty()));
            assert(out@ =~= rle_bytes(rle_runs(data@, Seq::empty())));
            return out;
        }
        let mut out: Vec<u8> = Vec::new();
        let mut count: u32 = 1;
        let mut current: u64 = data[0];
        let ghost mut joins: Seq<bool> = seq![false];
        let mut i: usize = 1;
        while i < data.len()
            invariant
                1 <= i <= data@.len(),
                runs_fit(*same, data@),
                forall|a: u64, b: u64| same.requires((a, b)),
                joins.len() == i,
                count == run_length(joins, i as nat),
                runs_upto(data@, joins, i as nat).len() > 0,
                runs_upto(data@, joins, i as nat).last() == (count, current),
                out@ == rle_bytes(runs_upto(data@, joins, i as nat).drop_last()),
                forall|k: int|
                    1 <= k < i ==> #[trigger] same.ensures(
                        (run_sample_before(data@, joins, k), data@[k]),
                        joins[k],
                    ),
            decreases data@.len() - i,
        {
            let val = data[i];
            let s = same(current, val);
            let ghost old_joins = joins;
            proof {
                joins = joins.push(s);
                lemma_runs_upto_prefix(data@, old_joins, joins, i as nat);
                assert forall|k: int| 1 <= k < i + 1 implies #[trigger] same.ensures(
                    (run_sample_before(data@, joins, k), data@[k]),
                    joins[k],
                ) by {
                    lemma_runs_upto_prefix(data@, old_joins, joins, k as nat);
                    if k == i {
                        assert(run_sample_before(data@, joins, k) == current);
                        assert(joins[k] == s);
                        assert(same.ensures((current, val), s));
                    } else {
                        assert(joins[k] == old_joins[k]);
                        assert(same.ensures(
                            (run_sample_before(data@, old_joins, k), data@[k]),
                            old_joins[k],
                        ));
                    }
                }
            }
            let ghost prev = runs_upto(data@, joins, i as nat);
            proof {
                lemma_run_length_prefix(old_joins, joins, i as nat);
                assert(decided_upto(*same, data@, joins, (i + 1) as nat));
            }
            if s {
                count = count + 1;
                assert(runs_upto(data@, joins, (i + 1) as nat).drop_last() =~= prev.drop_last());
            } else {
                push_le32(&mut out, count);
                push_le64(&mut out, current);
                assert(runs_upto(data@, joins, (i + 1) as nat).drop_last() =~= prev);
                assert(out@ =~= rle_bytes(prev.drop_last()) + run_record(prev.last()));
                current = val;
                count = 1;
            }
            i = i + 1;
        }
        let ghost runs = runs_upto(data@, joins, data@.len());
        push_le32(&mut out, count);
        push_le64(&mut out, current);
        assert(out@ =~= rle_bytes(runs.drop_last()) + run_record(runs.last()));
        assert(decided_by(*same, data@, joins));
        out
    }

    /// Decodes run records back into samples. Bytes after the last complete
    /// 12-byte record are ignored.
    pub fn decode(&self, data: &[u8]) -> (out: Vec<u64>)
        ensures
            out@ == rle_decoded(data@),
    {
        let ghost records = rle_records(data@);
        let mut out: Vec<u64> = Vec::new();
        let mut pos: usize = 0;
        let mut k: usize = 0;
        while data.len() - pos >= 12
            invariant
                pos <= data@.len(),
                pos == 12 * k,
                records == rle_records(data@),
                k <= records.len(),
                out@ == expand(records.take(k as int)),
            decreases data@.len() - pos,
        {
            let count = get_le32(data, pos);
            let val = get_le64(data, pos + 4);
            assert(k < records.len());
            assert(records[k as int] == (count, val));
            let ghost before = out@;
            push_repeated(&mut out, val, count);
            assert(out@ == expand(records.take(k + 1))) by {
                assert(records.take(k + 1).drop_last() =~= records.take(k as int));
            }
            assert(records.take(k + 1).drop_last() =~= records.take(k as int));
            pos = pos + 12;
            k = k + 1;
        }
        assert(records.take(k as int) =~= records);
        out
    }
}

} // verus!
