//! Semantic compression: tiles that are similar enough are grouped, and each
//! group is stored once, as the average of its members.
//!
//! Grouping is greedy: each tile not yet grouped leads a new group, which
//! takes in every later ungrouped tile that the caller's `similar` test
//! accepts for it. Averaging and rendering a group is the caller's
//! `merged_json`, which receives the group's tile indices.
use vstd::prelude::*;
use crate::compressor::{lemma_total_tile_size_prefix, total_tile_size};
use crate::tile::{tile_size, CompressedTile, CompressionStrategy, RawTile};

verus! {

/// The bit pattern of `0.5`, the quality recorded for merged tiles.
pub const HALF: u64 = 0x3fe0_0000_0000_0000;

/// Whether tile `k` joins the group that tile `l` leads, given which tiles
/// were grouped before (`taken`) and the answers of the similarity test for
/// leader `l` (`row[k]`).
pub open spec fn joins_group(l: int, taken: Seq<bool>, row: Seq<bool>, k: int) -> bool {
    k == l || (k > l && !taken[k] && row[k])
}

/// The members below `m` of the group that tile `l` leads, in increasing order.
pub open spec fn members(l: int, taken: Seq<bool>, row: Seq<bool>, m: nat) -> Seq<usize>
    decreases m,
{
    if m <= l || m == 0 {
        Seq::empty()
    } else {
        let prev = members(l, taken, row, (m - 1) as nat);
        if joins_group(l, taken, row, m - 1) {
            prev.push((m - 1) as usize)
        } else {
            prev
        }
    }
}

/// The groups formed, and which of the `n` tiles they hold, once the tiles
/// below `i` have had their turn to lead; `dec[l]` holds the answers of the
/// similarity test for leader `l`.
pub open spec fn grouping(n: nat, dec: Seq<Seq<bool>>, i: nat) -> (Seq<Seq<usize>>, Seq<bool>)
    decreases i,
{
    if i == 0 {
        (Seq::empty(), Seq::new(n, |_k: int| false))
    } else {
        let prev = grouping(n, dec, (i - 1) as nat);
        let l = i - 1;
        if prev.1[l] {
            prev
        } else {
            (
                prev.0.push(members(l, prev.1, dec[l], n)),
                Seq::new(n, |k: int| prev.1[k] || joins_group(l, prev.1, dec[l], k)),
            )
        }
    }
}

/// The groups of all `n` tiles.
pub open spec fn groups_of(n: nat, dec: Seq<Seq<bool>>) -> Seq<Seq<usize>> {
    grouping(n, dec, n).0
}

/// `dec` holds what `similar` answered for every pair it was asked about: a
/// leader and a later tile that was not grouped when the leader's turn came.
pub open spec fn grouping_decided_by<M: Fn(&Vec<u64>, &Vec<u64>) -> bool>(
    similar: M,
    tiles: Seq<RawTile>,
    dec: Seq<Seq<bool>>,
) -> bool {
    forall|l: int, j: int|
        0 <= l < j < tiles.len() && !grouping(tiles.len(), dec, l as nat).1[l] && !grouping(
            tiles.len(),
            dec,
            l as nat,
        ).1[j] ==> #[trigger] similar.ensures((&tiles[l].content, &tiles[j].content), dec[l][j])
}

/// Total size of the tiles of a group.
pub open spec fn group_total(tiles: Seq<RawTile>, g: Seq<usize>) -> nat
    decreases g.len(),
{
    if g.len() == 0 {
        0
    } else {
        group_total(tiles, g.drop_last()) + tile_size(tiles[g.last() as int])
    }
}

/// `c` is the merged tile of group `g`.
pub open spec fn merged_tile<G: Fn(&Vec<usize>) -> Vec<u8>>(
    merged_json: G,
    tiles: Seq<RawTile>,
    g: Seq<usize>,
    c: CompressedTile,
) -> bool {
    &&& c.id@ == tiles[g[0] as int].id@
    &&& c.strategy == CompressionStrategy::Semantic
    &&& c.original_size == group_total(tiles, g)
    &&& c.quality == HALF
    &&& exists|gv: Vec<usize>| gv@ == g && merged_json.ensures((&gv,), c.data)
}

/// A group holds distinct tiles in increasing order, led by its first.
pub open spec fn increasing(g: Seq<usize>) -> bool {
    forall|a: int, b: int| 0 <= a < b < g.len() ==> g[a] < g[b]
}

/// Compresses by merging semantically similar tiles; the threshold is the
/// bit pattern of an `f64`.
#[derive(Debug, Clone, Copy)]
pub struct SemanticCompressor {
    pub similarity_threshold: u64,
}

proof fn lemma_grouping_prefix(n: nat, d1: Seq<Seq<bool>>, d2: Seq<Seq<bool>>, i: nat)
    requires
        forall|l: int| 0 <= l < i ==> d1[l] == d2[l],
    ensures
        grouping(n, d1, i) == grouping(n, d2, i),
    decreases i,
{
    if i > 0 {
        lemma_grouping_prefix(n, d1, d2, (i - 1) as nat);
    }
}

proof fn lemma_members_shape(l: int, taken: Seq<bool>, row: Seq<bool>, m: nat)
    requires
        0 <= l,
        m <= usize::MAX + 1,
    ensures
        increasing(members(l, taken, row, m)),
        forall|t: int|
            0 <= t < members(l, taken, row, m).len() ==> l <= #[trigger] members(l, taken, row, m)[t]
                < m,
        forall|k: int|
            0 <= k < m ==> (members(l, taken, row, m).contains(k as usize) <==> joins_group(
                l,
                taken,
                row,
                k,
            )),
        l < m ==> members(l, taken, row, m).len() > 0 && members(l, taken, row, m)[0] == l,
    decreases m,
{
    if m > l && m > 0 {
        let m1 = (m - 1) as nat;
        lemma_members_shape(l, taken, row, m1);
        let prev = members(l, taken, row, m1);
        let cur = members(l, taken, row, m);
        assert forall|k: int| 0 <= k < m implies (cur.contains(k as usize) <==> joins_group(
            l,
            taken,
            row,
            k,
        )) by {
            if k < m1 {
                if cur.contains(k as usize) {
                    let t = choose|t: int| 0 <= t < cur.len() && cur[t] == k as usize;
                    if t == prev.len() {
                        assert(cur[t] == (m - 1) as usize);
                    } else {
                        assert(prev[t] == k as usize);
                    }
                }
                if prev.contains(k as usize) {
                    let t = choose|t: int| 0 <= t < prev.len() && prev[t] == k as usize;
                    assert(cur[t] == k as usize);
                }
            } else {
                if joins_group(l, taken, row, k) {
                    assert(cur[cur.len() - 1] == k as usize);
                }
                if cur.contains(k as usize) {
                    let t = choose|t: int| 0 <= t < cur.len() && cur[t] == k as usize;
                    if t < prev.len() {
                        assert(prev[t] < m1);
                    }
                }
            }
        }
        if l == m1 {
            assert(prev.len() == 0);
        }
    }
}

/// Tile `k` is in one of the groups.
pub open spec fn in_some_group(groups: Seq<Seq<usize>>, k: int) -> bool {
    exists|g: int| 0 <= g < groups.len() && #[trigger] groups[g].contains(k as usize)
}

/// The state of greedy grouping: `taken[k]` says exactly whether tile `k` is
/// in a group; groups are disjoint, increasing, and hold tiles below `n`.
pub open spec fn grouping_ok(n: nat, groups: Seq<Seq<usize>>, taken: Seq<bool>) -> bool {
    &&& taken.len() == n
    &&& forall|g: int| 0 <= g < groups.len() ==> #[trigger] increasing(groups[g])
    &&& forall|g: int| 0 <= g < groups.len() ==> #[trigger] groups[g].len() > 0
    &&& forall|g: int, t: int|
        0 <= g < groups.len() && 0 <= t < groups[g].len() ==> #[trigger] groups[g][t] < n
    &&& forall|k: int| 0 <= k < n ==> (taken[k] <==> #[trigger] in_some_group(groups, k))
    &&& forall|g1: int, g2: int, k: usize|
        0 <= g1 < g2 < groups.len() && #[trigger] groups[g1].contains(k) ==> !#[trigger] groups[g2].contains(k)
}

proof fn lemma_grouping_ok(n: nat, dec: Seq<Seq<bool>>, i: nat)
    requires
        i <= n <= usize::MAX,
    ensures
        grouping_ok(n, grouping(n, dec, i).0, grouping(n, dec, i).1),
        forall|k: int| 0 <= k < i ==> #[trigger] grouping(n, dec, i).1[k],
    decreases i,
{
    if i > 0 {
        let i1 = (i - 1) as nat;
        lemma_grouping_ok(n, dec, i1);
        let prev = grouping(n, dec, i1);
        let l = i1 as int;
        if !prev.1[l] {
            let g = members(l, prev.1, dec[l], n);
            lemma_members_shape(l, prev.1, dec[l], n);
            let cur = grouping(n, dec, i);
            assert(cur.0 == prev.0.push(g));
            assert forall|k: int| 0 <= k < n implies (cur.1[k] <==> #[trigger] in_some_group(cur.0, k)) by {
                if cur.1[k] {
                    if prev.1[k] {
                        assert(in_some_group(prev.0, k));
                        let h = choose|h: int| 0 <= h < prev.0.len() && #[trigger] prev.0[h].contains(k as usize);
                        assert(cur.0[h] == prev.0[h]);
                    } else {
                        assert(joins_group(l, prev.1, dec[l], k));
                        assert(cur.0[prev.0.len() as int] == g);
                    }
                }
                if in_some_group(cur.0, k) {
                    let h = choose|h: int| 0 <= h < cur.0.len() && #[trigger] cur.0[h].contains(k as usize);
                    if h < prev.0.len() {
                        assert(prev.0[h] == cur.0[h]);
                        assert(in_some_group(prev.0, k));
                    } else {
                        assert(cur.0[h] == g);
                        assert(joins_group(l, prev.1, dec[l], k));
                    }
                }
            }
            assert forall|g1: int, g2: int, k: usize|
                0 <= g1 < g2 < cur.0.len() && #[trigger] cur.0[g1].contains(k) implies !#[trigger] cur.0[g2].contains(k) by {
                assert(cur.0[g1] == prev.0[g1]);
                if g2 < prev.0.len() {
                    assert(cur.0[g2] == prev.0[g2]);
                } else {
                    let t = choose|t: int| 0 <= t < prev.0[g1].len() && prev.0[g1][t] == k;
                    assert(prev.0[g1][t] < n);
                    assert(prev.0[g1].contains(k));
                    assert(prev.0[g1].contains((k as int) as usize));
                    assert(in_some_group(prev.0, k as int));
                    assert(prev.1[k as int]);
                    if g.contains(k) {
                        assert(joins_group(l, prev.1, dec[l], k as int));
                    }
                }
            }
            assert forall|h: int, t: int|
                0 <= h < cur.0.len() && 0 <= t < cur.0[h].len() implies #[trigger] cur.0[h][t] < n by {
                if h < prev.0.len() {
                    assert(cur.0[h] == prev.0[h]);
                }
            }
            assert forall|h: int| 0 <= h < cur.0.len() implies #[trigger] increasing(cur.0[h]) && cur.0[h].len() > 0 by {
                if h < prev.0.len() {
                    assert(cur.0[h] == prev.0[h]);
                }
            }
        }
    }
}

/// Greedy grouping puts every tile in exactly one group; each group lists
/// its tiles in increasing order and is led by its first.
pub proof fn lemma_groups_partition(n: nat, dec: Seq<Seq<bool>>)
    requires
        n <= usize::MAX,
    ensures
        forall|k: int| 0 <= k < n ==> #[trigger] in_some_group(groups_of(n, dec), k),
        forall|g1: int, g2: int, k: usize|
            0 <= g1 < g2 < groups_of(n, dec).len() && #[trigger] groups_of(n, dec)[g1].contains(k) ==> !#[trigger] groups_of(n, dec)[g2].contains(k),
        forall|g: int| 0 <= g < groups_of(n, dec).len() ==> #[trigger] increasing(groups_of(n, dec)[g]),
        forall|g: int| 0 <= g < groups_of(n, dec).len() ==> #[trigger] groups_of(n, dec)[g].len() > 0,
        forall|g: int, t: int|
            0 <= g < groups_of(n, dec).len() && 0 <= t < groups_of(n, dec)[g].len() ==> #[trigger] groups_of(n, dec)[g][t] < n,
{
    lemma_grouping_ok(n, dec, n);
    let s = grouping(n, dec, n);
    assert forall|k: int| 0 <= k < n implies #[trigger] in_some_group(s.0, k) by {
        assert(s.1[k]);
    }
}

/// Tile `k` is in one of the first `g` groups.
pub open spec fn in_earlier_group(groups: Seq<Seq<usize>>, g: int, k: int) -> bool {
    exists|h: int| 0 <= h < g && #[trigger] groups[h].contains(k as usize)
}

/// Group `g` of `gs` was formed at its leader's turn, below `i`: the groups
/// before it were those formed by then, its leader was not yet grouped, and
/// it holds the leader's members.
pub open spec fn formed_at_turn(n: nat, dec: Seq<Seq<bool>>, gs: Seq<Seq<usize>>, g: int, i: nat) -> bool {
    let l = gs[g][0] as int;
    &&& 0 <= l < i
    &&& grouping(n, dec, l as nat).0 == gs.take(g)
    &&& !grouping(n, dec, l as nat).1[l]
    &&& gs[g] == members(l, grouping(n, dec, l as nat).1, dec[l], n)
}

proof fn lemma_grouping_history(n: nat, dec: Seq<Seq<bool>>, i: nat)
    requires
        i <= n <= usize::MAX,
    ensures
        forall|g: int|
            0 <= g < grouping(n, dec, i).0.len() ==> #[trigger] formed_at_turn(
                n,
                dec,
                grouping(n, dec, i).0,
                g,
                i,
            ),
    decreases i,
{
    if i > 0 {
        let i1 = (i - 1) as nat;
        lemma_grouping_history(n, dec, i1);
        let prev = grouping(n, dec, i1);
        let cur = grouping(n, dec, i);
        let l = i1 as int;
        if prev.1[l] {
            assert forall|g: int| 0 <= g < cur.0.len() implies #[trigger] formed_at_turn(
                n,
                dec,
                cur.0,
                g,
                i,
            ) by {
                assert(formed_at_turn(n, dec, prev.0, g, i1));
            }
        } else {
            lemma_grouping_ok(n, dec, i1);
            lemma_members_shape(l, prev.1, dec[l], n);
            assert forall|g: int| 0 <= g < cur.0.len() implies #[trigger] formed_at_turn(
                n,
                dec,
                cur.0,
                g,
                i,
            ) by {
                if g < prev.0.len() {
                    assert(formed_at_turn(n, dec, prev.0, g, i1));
                    assert(cur.0[g] == prev.0[g]);
                    assert(cur.0.take(g) =~= prev.0.take(g));
                } else {
                    assert(cur.0[g] == members(l, prev.1, dec[l], n));
                    assert(cur.0[g][0] == l);
                    assert(cur.0.take(g) =~= prev.0);
                }
            }
        }
    }
}

proof fn lemma_group_facts(n: nat, dec: Seq<Seq<bool>>, g: int)
    requires
        n <= usize::MAX,
        0 <= g < groups_of(n, dec).len(),
    ensures
        ({
            let gs = groups_of(n, dec);
            let l = gs[g][0] as int;
            let before = grouping(n, dec, l as nat);
            &&& 0 <= l < n
            &&& forall|k: int| 0 <= k < n ==> (before.1[k] <==> in_earlier_group(gs, g, k))
            &&& forall|k: int| 0 <= k < l ==> before.1[k]
            &&& !before.1[l]
            &&& gs[g] == members(l, before.1, dec[l], n)
        }),
{
    let gs = groups_of(n, dec);
    lemma_grouping_history(n, dec, n);
    assert(formed_at_turn(n, dec, gs, g, n));
    let l = gs[g][0] as int;
    let before = grouping(n, dec, l as nat);
    lemma_grouping_ok(n, dec, l as nat);
    assert(before.0 == gs.take(g));
    assert forall|k: int| 0 <= k < n implies (before.1[k] <==> in_earlier_group(gs, g, k)) by {
        assert(before.1[k] <==> in_some_group(before.0, k));
        if in_some_group(before.0, k) {
            let h = choose|h: int| 0 <= h < before.0.len() && #[trigger] before.0[h].contains(k as usize);
            assert(gs[h] == before.0[h]);
        }
        if in_earlier_group(gs, g, k) {
            let h = choose|h: int| 0 <= h < g && #[trigger] gs[h].contains(k as usize);
            assert(before.0[h] == gs[h]);
            assert(in_some_group(before.0, k));
        }
    }
}

/// Greedy grouping: each group is led by the least tile not in an earlier
/// group, and holds its leader and exactly those later tiles, not in an
/// earlier group, that the similarity test accepted for the leader.
pub proof fn lemma_groups_greedy(n: nat, dec: Seq<Seq<bool>>)
    requires
        n <= usize::MAX,
    ensures
        forall|g: int|
            0 <= g < groups_of(n, dec).len() ==> !in_earlier_group(
                groups_of(n, dec),
                g,
                #[trigger] groups_of(n, dec)[g][0] as int,
            ),
        forall|g: int, k: int|
            0 <= g < groups_of(n, dec).len() && 0 <= k < groups_of(n, dec)[g][0] ==> #[trigger] in_earlier_group(
                groups_of(n, dec),
                g,
                k,
            ),
        forall|g: int, k: int|
            0 <= g < groups_of(n, dec).len() && 0 <= k < n ==> (#[trigger] groups_of(n, dec)[g].contains(
                k as usize,
            ) <==> (k == groups_of(n, dec)[g][0] || (groups_of(n, dec)[g][0] < k && dec[groups_of(
                n,
                dec,
            )[g][0] as int][k] && !in_earlier_group(groups_of(n, dec), g, k)))),
{
    let gs = groups_of(n, dec);
    assert forall|g: int| 0 <= g < gs.len() implies !in_earlier_group(gs, g, #[trigger] gs[g][0] as int) by {
        lemma_group_facts(n, dec, g);
    }
    assert forall|g: int, k: int| 0 <= g < gs.len() && 0 <= k < gs[g][0] implies #[trigger] in_earlier_group(
        gs,
        g,
        k,
    ) by {
        lemma_group_facts(n, dec, g);
        assert(grouping(n, dec, gs[g][0] as nat).1[k]);
    }
    assert forall|g: int, k: int| 0 <= g < gs.len() && 0 <= k < n implies (#[trigger] gs[g].contains(
        k as usize,
    ) <==> (k == gs[g][0] || (gs[g][0] < k && dec[gs[g][0] as int][k] && !in_earlier_group(
        gs,
        g,
        k,
    )))) by {
        lemma_group_facts(n, dec, g);
        let l = gs[g][0] as int;
        let before = grouping(n, dec, l as nat);
        lemma_members_shape(l, before.1, dec[l], n);
        assert(gs[g] == members(l, before.1, dec[l], n));
        assert(members(l, before.1, dec[l], n).contains(k as usize) <==> joins_group(
            l,
            before.1,
            dec[l],
            k,
        ));
        assert(before.1[k] <==> in_earlier_group(gs, g, k));
    }
}

proof fn lemma_members_prefix(l: int, taken: Seq<bool>, r1: Seq<bool>, r2: Seq<bool>, m: nat)
    requires
        forall|k: int| 0 <= k < m ==> r1[k] == r2[k],
    ensures
        members(l, taken, r1, m) == members(l, taken, r2, m),
    decreases m,
{
    if m > l && m > 0 {
        lemma_members_prefix(l, taken, r1, r2, (m - 1) as nat);
    }
}

proof fn lemma_take_total_monotone(tiles: Seq<RawTile>, a: int, b: int)
    requires
        0 <= a <= b <= tiles.len(),
    ensures
        total_tile_size(tiles.take(a)) <= total_tile_size(tiles.take(b)),
{
    lemma_total_tile_size_prefix(tiles.take(b), a);
    assert(tiles.take(b).take(a) =~= tiles.take(a));
}

proof fn lemma_group_total_bound(tiles: Seq<RawTile>, g: Seq<usize>, m: int)
    requires
        increasing(g),
        forall|t: int| 0 <= t < g.len() ==> #[trigger] g[t] < m,
        0 <= m <= tiles.len(),
    ensures
        group_total(tiles, g) <= total_tile_size(tiles.take(m)),
    decreases g.len(),
{
    if g.len() > 0 {
        let e = g.last() as int;
        let init = g.drop_last();
        assert forall|t: int| 0 <= t < init.len() implies #[trigger] init[t] < e by {
            assert(g[t] < g[g.len() - 1]);
        }
        lemma_group_total_bound(tiles, init, e);
        assert(tiles.take(e + 1).drop_last() =~= tiles.take(e));
        lemma_take_total_monotone(tiles, e + 1, m);
    }
}

/// The sample sequences of a list of groups.
pub open spec fn group_views(groups: Seq<Vec<usize>>) -> Seq<Seq<usize>> {
    Seq::new(groups.len(), |g: int| groups[g]@)
}

impl SemanticCompressor {
    pub fn new(similarity_threshold: u64) -> (s: Self)
        ensures
            s.similarity_threshold == similarity_threshold,
    {
        Self { similarity_threshold }
    }

    /// Greedy grouping of the tiles by `similar`.
    fn group_tiles<M: Fn(&Vec<u64>, &Vec<u64>) -> bool>(tiles: &[RawTile], similar: &M) -> (groups:
        Vec<Vec<usize>>)
        requires
            forall|a: &Vec<u64>, b: &Vec<u64>| similar.requires((a, b)),
        ensures
            exists|dec: Seq<Seq<bool>>|
                grouping_decided_by(*similar, tiles@, dec) && group_views(groups@) == groups_of(
                    tiles@.len(),
                    dec,
                ),
    {
        let n = tiles.len();
        let mut taken: Vec<bool> = vec![false; n];
        let mut groups: Vec<Vec<usize>> = Vec::new();
        let ghost mut dec: Seq<Seq<bool>> = Seq::empty();
        assert(taken@ =~= grouping(n as nat, dec, 0).1);
        assert(group_views(groups@) =~= grouping(n as nat, dec, 0).0);
        let mut i: usize = 0;
        while i < n
            invariant
                n == tiles@.len(),
                i <= n,
                dec.len() == i,
                forall|a: &Vec<u64>, b: &Vec<u64>| similar.requires((a, b)),
                group_views(groups@) == grouping(n as nat, dec, i as nat).0,
                taken@ == grouping(n as nat, dec, i as nat).1,
                forall|l: int, j: int|
                    0 <= l < i && l < j < n && !grouping(n as nat, dec, l as nat).1[l]
                        && !grouping(n as nat, dec, l as nat).1[j] ==> #[trigger] similar.ensures(
                        (&tiles@[l].content, &tiles@[j].content),
                        dec[l][j],
                    ),
            decreases n - i,
        {
            let ghost a0 = taken@;
            let ghost old_dec = dec;
            proof {
                lemma_grouping_ok(n as nat, dec, i as nat);
            }
            if taken[i] {
                proof {
                    dec = dec.push(Seq::new(n as nat, |_k: int| false));
                    lemma_grouping_prefix(n as nat, old_dec, dec, i as nat);
                }
            } else {
                let mut group: Vec<usize> = Vec::new();
                group.push(i);
                taken.set(i, true);
                let ghost mut row: Seq<bool> = Seq::new(n as nat, |_k: int| false);
                assert(members(i as int, a0, row, i as nat) == Seq::<usize>::empty());
                assert(group@ =~= members(i as int, a0, row, (i + 1) as nat));
                assert(taken@ =~= Seq::new(
                    n as nat,
                    |k: int| a0[k] || (k < i + 1 && joins_group(i as int, a0, row, k)),
                ));
                let mut j: usize = i + 1;
                while j < n
                    invariant
                        n == tiles@.len(),
                        i < j <= n,
                        a0.len() == n,
                        !a0[i as int],
                        row.len() == n,
                        forall|a: &Vec<u64>, b: &Vec<u64>| similar.requires((a, b)),
                        group@ == members(i as int, a0, row, j as nat),
                        taken@ == Seq::new(
                            n as nat,
                            |k: int| a0[k] || (k < j && joins_group(i as int, a0, row, k)),
                        ),
                        forall|k: int|
                            i < k < j && !a0[k] ==> #[trigger] similar.ensures(
                                (&tiles@[i as int].content, &tiles@[k].content),
                                row[k],
                            ),
                    decreases n - j,
                {
                    let ghost old_row = row;
                    if !taken[j] {
                        let s = similar(&tiles[i].content, &tiles[j].content);
                        proof {
                            row = row.update(j as int, s);
                            lemma_members_prefix(i as int, a0, old_row, row, j as nat);
                        }
                        if s {
                            group.push(j);
                            taken.set(j, true);
                        }
                    }
                    assert(group@ =~= members(i as int, a0, row, (j + 1) as nat));
                    assert(taken@ =~= Seq::new(
                        n as nat,
                        |k: int| a0[k] || (k < j + 1 && joins_group(i as int, a0, row, k)),
                    ));
                    j = j + 1;
                }
                proof {
                    dec = dec.push(row);
                    lemma_grouping_prefix(n as nat, old_dec, dec, i as nat);
                    assert(taken@ =~= grouping(n as nat, dec, (i + 1) as nat).1);
                }
                groups.push(group);
                assert(group_views(groups@) =~= grouping(n as nat, dec, (i + 1) as nat).0);
            }
            proof {
                assert forall|l: int, j: int|
                    0 <= l < i + 1 && l < j < n && !grouping(n as nat, dec, l as nat).1[l]
                        && !grouping(n as nat, dec, l as nat).1[j] implies #[trigger] similar.ensures(
                        (&tiles@[l].content, &tiles@[j].content),
                        dec[l][j],
                    ) by {
                    lemma_grouping_prefix(n as nat, old_dec, dec, l as nat);
                    if l < i {
                        assert(dec[l] == old_dec[l]);
                    }
                }
            }
            i = i + 1;
        }
        assert(grouping_decided_by(*similar, tiles@, dec));
        assert(i == n);
        assert(group_views(groups@) == grouping(n as nat, dec, n as nat).0);
        assert(group_views(groups@) == groups_of(tiles@.len(), dec));
        groups
    }

    /// Groups similar tiles and merges each group into one compressed tile,
    /// named after its first tile.
    pub fn compress<M: Fn(&Vec<u64>, &Vec<u64>) -> bool, G: Fn(&Vec<usize>) -> Vec<u8>>(
        &self,
        tiles: &[RawTile],
        similar: &M,
        merged_json: &G,
    ) -> (out: Vec<CompressedTile>)
        requires
            total_tile_size(tiles@) <= usize::MAX,
            forall|a: &Vec<u64>, b: &Vec<u64>| similar.requires((a, b)),
            forall|g: &Vec<usize>| merged_json.requires((g,)),
        ensures
            exists|dec: Seq<Seq<bool>>|
                {
                    &&& grouping_decided_by(*similar, tiles@, dec)
                    &&& out@.len() == groups_of(tiles@.len(), dec).len()
                    &&& forall|g: int|
                        0 <= g < out@.len() ==> merged_tile(
                            *merged_json,
                            tiles@,
                            groups_of(tiles@.len(), dec)[g],
                            #[trigger] out@[g],
                        )
                },
    {
        let n = tiles.len();
        let groups = Self::group_tiles(tiles, similar);
        let ghost dec = choose|dec: Seq<Seq<bool>>|
            grouping_decided_by(*similar, tiles@, dec) && group_views(groups@) == groups_of(
                tiles@.len(),
                dec,
            );
        let ghost gs = groups_of(n as nat, dec);
        proof {
            lemma_groups_partition(n as nat, dec);
            assert(tiles@.take(n as int) =~= tiles@);
        }
        let mut out: Vec<CompressedTile> = Vec::new();
        let mut g: usize = 0;
        while g < groups.len()
            invariant
                n == tiles@.len(),
                total_tile_size(tiles@) <= usize::MAX,
                tiles@.take(n as int) == tiles@,
                forall|g: &Vec<usize>| merged_json.requires((g,)),
                group_views(groups@) == gs,
                forall|h: int| 0 <= h < gs.len() ==> #[trigger] increasing(gs[h]),
                forall|h: int| 0 <= h < gs.len() ==> #[trigger] gs[h].len() > 0,
                forall|h: int, t: int| 0 <= h < gs.len() && 0 <= t < gs[h].len() ==> #[trigger] gs[h][t] < n,
                g <= groups@.len(),
                out@.len() == g,
                forall|h: int| 0 <= h < g ==> merged_tile(*merged_json, tiles@, gs[h], #[trigger] out@[h]),
            decreases groups@.len() - g,
        {
            let grp = &groups[g];
            assert(grp@ == gs[g as int]);
            let mut size: usize = 0;
            let mut t: usize = 0;
            while t < grp.len()
                invariant
                    n == tiles@.len(),
                    total_tile_size(tiles@) <= usize::MAX,
                    tiles@.take(n as int) == tiles@,
                    increasing(grp@),
                    forall|u: int| 0 <= u < grp@.len() ==> #[trigger] grp@[u] < n,
                    t <= grp@.len(),
                    size == group_total(tiles@, grp@.take(t as int)),
                decreases grp@.len() - t,
            {
                proof {
                    let pre = grp@.take(t + 1);
                    assert(pre.drop_last() =~= grp@.take(t as int));
                    assert forall|u: int| 0 <= u < pre.len() implies #[trigger] pre[u] < n by {
                        assert(pre[u] == grp@[u]);
                    }
                    lemma_group_total_bound(tiles@, pre, n as int);
                }
                let k = grp[t];
                size = size + tiles[k].byte_size();
                t = t + 1;
            }
            assert(grp@.take(t as int) =~= grp@);
            let data = merged_json(grp);
            let first = grp[0];
            let c = CompressedTile {
                id: tiles[first].id.clone(),
                strategy: CompressionStrategy::Semantic,
                data,
                original_size: size,
                quality: HALF,
            };
            assert(merged_json.ensures((grp,), c.data));
            out.push(c);
            g = g + 1;
        }
        out
    }
}

} // verus!
