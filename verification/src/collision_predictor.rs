use vstd::prelude::*;

verus! {

/// The pairs that satellite `ids[i]` forms with the satellites after it.
pub open spec fn pair_row(ids: Seq<u16>, i: int) -> Seq<(u16, u16)> {
    ids.skip(i + 1).map_values(|x: u16| (ids[i], x))
}

/// The pairs formed by the first `i` satellites with those after them.
pub open spec fn pairs_upto(ids: Seq<u16>, i: nat) -> Seq<(u16, u16)>
    decreases i,
{
    if i == 0 {
        Seq::empty()
    } else {
        pairs_upto(ids, (i - 1) as nat) + pair_row(ids, i - 1)
    }
}

/// Every pair of satellites, each satellite with every one after it, in
/// the order of a double loop over the ids.
pub open spec fn analysis_pairs_spec(ids: Seq<u16>) -> Seq<(u16, u16)> {
    pairs_upto(ids, ids.len())
}

/// The pairs a collision-analysis cycle examines over the satellites whose
/// orbital elements are known: none with fewer than two satellites,
/// otherwise each satellite with every satellite after it.
pub fn analysis_pairs(ids: &Vec<u16>) -> (pairs: Vec<(u16, u16)>)
    ensures
        pairs@ == analysis_pairs_spec(ids@),
{
    let n = ids.len();
    let mut pairs: Vec<(u16, u16)> = Vec::new();
    let mut i: usize = 0;
    while i < n
        invariant
            n == ids@.len(),
            i <= n,
            pairs@ == pairs_upto(ids@, i as nat),
        decreases n - i,
    {
        let ghost base = pairs@;
        let a = ids[i];
        let mut j: usize = i + 1;
        assert(base + ids@.skip(i + 1).take(0).map_values(|x: u16| (ids@[i as int], x)) =~= base);
        while j < n
            invariant
                n == ids@.len(),
                i < n,
                i + 1 <= j <= n,
                a == ids@[i as int],
                base == pairs_upto(ids@, i as nat),
                pairs@ == base + ids@.skip(i + 1).take(j - (i + 1)).map_values(
                    |x: u16| (ids@[i as int], x),
                ),
            decreases n - j,
        {
            let b = ids[j];
            let ghost before = ids@.skip(i + 1).take(j - (i + 1));
            let ghost after = ids@.skip(i + 1).take(j + 1 - (i + 1));
            assert(after =~= before.push(b));
            assert(after.map_values(|x: u16| (ids@[i as int], x)) =~= before.map_values(
                |x: u16| (ids@[i as int], x),
            ).push((a, b)));
            pairs.push((a, b));
            j = j + 1;
        }
        assert(ids@.skip(i + 1).take(n - (i + 1)) =~= ids@.skip(i + 1));
        i = i + 1;
    }
    pairs
}

/// The pairs of one analysis cycle: with fewer than two satellites whose
/// orbital elements are known the cycle is skipped (`None`) and the previous
/// analyses stand; otherwise every pair is examined.
pub fn analysis_cycle_pairs(ids: &Vec<u16>) -> (r: Option<Vec<(u16, u16)>>)
    ensures
        ids@.len() < 2 <==> r is None,
        r matches Some(p) ==> p@ == analysis_pairs_spec(ids@),
{
    if ids.len() < 2 {
        None
    } else {
        Some(analysis_pairs(ids))
    }
}

/// The first `i` rows hold `i * (n - 1) - i * (i - 1) / 2` pairs.
proof fn lemma_pairs_len(ids: Seq<u16>, i: nat)
    requires
        i <= ids.len(),
    ensures
        2 * pairs_upto(ids, i).len() == i * (2 * ids.len() - i - 1),
    decreases i,
{
    if i > 0 {
        let j = (i - 1) as nat;
        lemma_pairs_len(ids, j);
        let n = ids.len() as int;
        let k = i as int;
        let p = pairs_upto(ids, j).len() as int;
        assert(2 * p == (k - 1) * (2 * n - (k - 1) - 1));
        assert(pair_row(ids, k - 1).len() == n - k);
        assert(pairs_upto(ids, i).len() == p + (n - k));
        assert((k - 1) * (2 * n - (k - 1) - 1) + 2 * (n - k) == i * (2 * ids.len() - i - 1))
            by (nonlinear_arith)
            requires
                k == i,
                n == ids.len(),
        ;
    } else {
        assert(i * (2 * ids.len() - i - 1) == 0) by (nonlinear_arith)
            requires
                i == 0,
        ;
    }
}

/// `p` pairs the satellites at two positions `a < b` of `ids`.
pub open spec fn is_position_pair(ids: Seq<u16>, p: (u16, u16)) -> bool {
    exists|a: int, b: int|
        #![trigger ids[a], ids[b]]
        0 <= a < b < ids.len() && p == (ids[a], ids[b])
}

/// Which positions the pairs of the first `i` rows come from.
proof fn lemma_pairs_upto_entries(ids: Seq<u16>, i: nat)
    requires
        i <= ids.len(),
    ensures
        forall|k: int|
            0 <= k < pairs_upto(ids, i).len() ==> is_position_pair(
                ids,
                #[trigger] pairs_upto(ids, i)[k],
            ),
        forall|a: int, b: int|
            0 <= a < b < ids.len() && a < i ==> pairs_upto(ids, i).contains(
                (#[trigger] ids[a], #[trigger] ids[b]),
            ),
    decreases i,
{
    if i > 0 {
        lemma_pairs_upto_entries(ids, (i - 1) as nat);
        let prev = pairs_upto(ids, (i - 1) as nat);
        let row = pair_row(ids, i - 1);
        let all = pairs_upto(ids, i);
        assert(all == prev + row);
        assert forall|k: int| 0 <= k < all.len() implies is_position_pair(ids, #[trigger] all[k]) by {
            if k < prev.len() {
                assert(all[k] == prev[k]);
                assert(is_position_pair(ids, prev[k]));
            } else {
                let b = i + (k - prev.len());
                assert(row[k - prev.len()] == (ids[i - 1], ids[b]));
                assert(all[k] == (ids[i - 1], ids[b]));
            }
        }
        assert forall|a: int, b: int| 0 <= a < b < ids.len() && a < i implies all.contains(
            (#[trigger] ids[a], #[trigger] ids[b]),
        ) by {
            if a < i - 1 {
                let k = choose|k: int| 0 <= k < prev.len() && prev[k] == (ids[a], ids[b]);
                assert(all[k] == prev[k]);
            } else {
                let k = prev.len() + (b - i);
                assert(row[b - i] == (ids[a], ids[b]));
                assert(all[k] == row[b - i]);
            }
        }
    }
}

/// A cycle examines `n * (n - 1) / 2` pairs of `n` satellites: every pair
/// of positions `a < b`, as `(ids[a], ids[b])`, and nothing else; with
/// fewer than two satellites it examines none.
pub proof fn law_every_pair_examined(ids: Seq<u16>)
    ensures
        2 * analysis_pairs_spec(ids).len() == ids.len() * (ids.len() - 1),
        ids.len() < 2 ==> analysis_pairs_spec(ids).len() == 0,
        forall|k: int|
            0 <= k < analysis_pairs_spec(ids).len() ==> is_position_pair(
                ids,
                #[trigger] analysis_pairs_spec(ids)[k],
            ),
        forall|a: int, b: int|
            0 <= a < b < ids.len() ==> analysis_pairs_spec(ids).contains(
                (#[trigger] ids[a], #[trigger] ids[b]),
            ),
{
    lemma_pairs_len(ids, ids.len());
    lemma_pairs_upto_entries(ids, ids.len());
    let n = ids.len() as int;
    assert(n * (2 * n - n - 1) == n * (n - 1)) by (nonlinear_arith);
    if n < 2 {
        assert(n * (n - 1) == 0) by (nonlinear_arith)
            requires
                0 <= n < 2,
        ;
    }
}

} // verus!
