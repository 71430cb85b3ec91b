//! Laws of the election pipeline that relate several functions, stated over
//! the same specification functions their contracts use.

use crate::arith::{
    mul_ratio_nearest_spec, ratio_parts_spec, ACCURACY_MAX,
};
use crate::assignments::{
    parts_of, ratio_distribution, staked_distribution, unstaked_distribution, StakedAssignment,
};
use crate::graph::{edges_of_votes, find_candidate_spec, votes_approval};
use crate::normalizing::sum_seq;
use crate::support::{dist_total, sum_total, total_backing, Support};
use crate::types::{backed_of, backing_in_edges, cands_ok, sum_edge_weights, Candidate, Voter};
use vstd::prelude::*;

verus! {

/// The budgets of the voters that cast any edge, summed.
pub open spec fn sum_backing_budgets(vs: Seq<Voter>) -> int
    decreases vs.len(),
{
    if vs.len() == 0 {
        0
    } else {
        sum_backing_budgets(vs.drop_last()) + (if vs.last().edges@.len() > 0 {
            vs.last().budget as int
        } else {
            0
        })
    }
}

/// Edges that all point at one candidate give it their whole weight.
proof fn lemma_backing_is_sum(es: Seq<crate::types::Edge>, c: int)
    requires
        forall|j: int| 0 <= j < es.len() ==> (#[trigger] es[j]).candidate_index == c,
    ensures
        backing_in_edges(es, c) == sum_edge_weights(es),
    decreases es.len(),
{
    if es.len() > 0 {
        assert(forall|j: int| 0 <= j < es.len() - 1 ==> (#[trigger] es.drop_last()[j]) == es[j]);
        lemma_backing_is_sum(es.drop_last(), c);
    }
}

/// When every voter's edges point at the one elected candidate and every
/// voter with an edge carries its full budget on its edges, that candidate
/// is backed by exactly the sum of those voters' budgets.
///
/// Together with the election's guarantees — a single approved candidate is
/// the single winner, and a voter with an edge to a winner ends with its
/// edge weights summing to its budget — this says that when all voters
/// approve the same single candidate, it wins with the total budget behind
/// it.
pub proof fn lemma_single_candidate_support(cands: Seq<Candidate>, vs: Seq<Voter>, c: int)
    requires
        0 <= c < cands.len(),
        cands_ok(cands, vs),
        forall|i: int, j: int|
            0 <= i < vs.len() && 0 <= j < (#[trigger] vs[i]).edges@.len() ==> (#[trigger] vs[
            i].edges@[j]).candidate_index == c,
        forall|i: int|
            0 <= i < vs.len() && (#[trigger] vs[i]).edges@.len() > 0 ==> sum_edge_weights(
                vs[i].edges@,
            ) == vs[i].budget,
    ensures
        cands[c].backed_stake == sum_backing_budgets(vs),
{
    lemma_backed_is_budgets(vs, c);
}

/// The total backing of the common target is the sum of the backing
/// voters' budgets.
proof fn lemma_backed_is_budgets(vs: Seq<Voter>, c: int)
    requires
        forall|i: int, j: int|
            0 <= i < vs.len() && 0 <= j < (#[trigger] vs[i]).edges@.len() ==> (#[trigger] vs[
            i].edges@[j]).candidate_index == c,
        forall|i: int|
            0 <= i < vs.len() && (#[trigger] vs[i]).edges@.len() > 0 ==> sum_edge_weights(
                vs[i].edges@,
            ) == vs[i].budget,
    ensures
        backed_of(vs, c) == sum_backing_budgets(vs),
    decreases vs.len(),
{
    if vs.len() > 0 {
        assert(forall|i: int| 0 <= i < vs.len() - 1 ==> (#[trigger] vs.drop_last()[i]) == vs[i]);
        lemma_backed_is_budgets(vs.drop_last(), c);
        assert(vs[vs.len() - 1] == vs.last());
        assert(forall|j: int|
            0 <= j < vs.last().edges@.len() ==> (#[trigger] vs.last().edges@[j]).candidate_index
                == c);
        lemma_backing_is_sum(vs.last().edges@, c);
        if vs.last().edges@.len() == 0 {
            assert(backing_in_edges(vs.last().edges@, c) == 0);
        }
    }
}

/// The stake one distribution gives to target `c`, over the unbounded
/// integers.
pub open spec fn int_dist_total(d: Seq<(u64, u128)>, c: u64) -> int
    decreases d.len(),
{
    if d.len() == 0 {
        0
    } else {
        int_dist_total(d.drop_last(), c) + (if d.last().0 == c {
            d.last().1 as int
        } else {
            0
        })
    }
}

/// The stake a set of assignments gives to target `c`, over the unbounded
/// integers.
pub open spec fn int_backing(asgs: Seq<StakedAssignment>, c: u64) -> int
    decreases asgs.len(),
{
    if asgs.len() == 0 {
        0
    } else {
        int_backing(asgs.drop_last(), c) + int_dist_total(asgs.last().distribution@, c)
    }
}

/// The whole stake a set of assignments distributes, over the unbounded
/// integers.
pub open spec fn int_total_stake(asgs: Seq<StakedAssignment>) -> int
    decreases asgs.len(),
{
    if asgs.len() == 0 {
        0
    } else {
        int_total_stake(asgs.drop_last()) + sum_seq(parts_of(asgs.last().distribution@))
    }
}

/// The backings of a set of keys, summed.
pub open spec fn sum_backings(keys: Seq<u64>, asgs: Seq<StakedAssignment>) -> int
    decreases keys.len(),
{
    if keys.len() == 0 {
        0
    } else {
        sum_backings(keys.drop_last(), asgs) + int_backing(asgs, keys.last())
    }
}

/// One distribution's stake toward a set of keys, summed over the keys.
pub open spec fn sum_dist_over_keys(keys: Seq<u64>, d: Seq<(u64, u128)>) -> int
    decreases keys.len(),
{
    if keys.len() == 0 {
        0
    } else {
        sum_dist_over_keys(keys.drop_last(), d) + int_dist_total(d, keys.last())
    }
}

/// One weight handed to whichever of the keys matches its target, summed.
pub open spec fn indicator_sum(keys: Seq<u64>, x: u64, w: u128) -> int
    decreases keys.len(),
{
    if keys.len() == 0 {
        0
    } else {
        indicator_sum(keys.drop_last(), x, w) + (if keys.last() == x {
            w as int
        } else {
            0
        })
    }
}

/// Over pairwise distinct keys, a weight is counted once when its target is
/// among the keys, and never otherwise.
proof fn lemma_indicator_sum(keys: Seq<u64>, x: u64, w: u128)
    requires
        forall|k1: int, k2: int| 0 <= k1 < k2 < keys.len() ==> keys[k1] != keys[k2],
    ensures
        keys.contains(x) ==> indicator_sum(keys, x, w) == w,
        !keys.contains(x) ==> indicator_sum(keys, x, w) == 0,
    decreases keys.len(),
{
    if keys.len() > 0 {
        let dl = keys.drop_last();
        assert(forall|k: int| 0 <= k < dl.len() ==> dl[k] == keys[k]);
        lemma_indicator_sum(dl, x, w);
        if keys.last() == x {
            if dl.contains(x) {
                let ix = choose|ix: int| 0 <= ix < dl.len() && dl[ix] == x;
                assert(keys[ix] == x && keys[keys.len() - 1] == x);
                assert(false);
            }
            assert(keys[keys.len() - 1] == x);
            assert(keys.contains(x));
        } else {
            if keys.contains(x) {
                let ix = choose|ix: int| 0 <= ix < keys.len() && keys[ix] == x;
                assert(dl[ix] == x);
                assert(dl.contains(x));
            }
            if dl.contains(x) {
                let ix = choose|ix: int| 0 <= ix < dl.len() && dl[ix] == x;
                assert(keys[ix] == x);
                assert(keys.contains(x));
            }
        }
    }
}

/// Appending one distribution entry raises the key-sum by that entry's
/// weight handed to its matching key.
proof fn lemma_dist_key_sum_step(keys: Seq<u64>, d: Seq<(u64, u128)>)
    requires
        d.len() > 0,
    ensures
        sum_dist_over_keys(keys, d) == sum_dist_over_keys(keys, d.drop_last()) + indicator_sum(
            keys,
            d.last().0,
            d.last().1,
        ),
    decreases keys.len(),
{
    if keys.len() > 0 {
        lemma_dist_key_sum_step(keys.drop_last(), d);
    }
}

/// Over pairwise distinct keys holding every target of a distribution, the
/// key-sum of the distribution is the whole distributed stake.
proof fn lemma_dist_key_sum(keys: Seq<u64>, d: Seq<(u64, u128)>)
    requires
        forall|k1: int, k2: int| 0 <= k1 < k2 < keys.len() ==> keys[k1] != keys[k2],
        forall|j: int| 0 <= j < d.len() ==> keys.contains((#[trigger] d[j]).0),
    ensures
        sum_dist_over_keys(keys, d) == sum_seq(parts_of(d)),
    decreases d.len(),
{
    if d.len() == 0 {
        assert(d =~= Seq::<(u64, u128)>::empty());
        assert(parts_of(d) =~= Seq::<u128>::empty());
        lemma_empty_dist_key_sum(keys);
    } else {
        assert(forall|j: int| 0 <= j < d.len() - 1 ==> (#[trigger] d.drop_last()[j]) == d[j]);
        lemma_dist_key_sum(keys, d.drop_last());
        lemma_dist_key_sum_step(keys, d);
        assert(keys.contains(d.last().0));
        lemma_indicator_sum(keys, d.last().0, d.last().1);
        assert(parts_of(d).drop_last() =~= parts_of(d.drop_last()));
        assert(parts_of(d).last() == d.last().1);
        assert(sum_seq(parts_of(d)) == sum_seq(parts_of(d.drop_last())) + d.last().1);
    }
}

/// The key-sum of an empty distribution vanishes.
proof fn lemma_empty_dist_key_sum(keys: Seq<u64>)
    ensures
        sum_dist_over_keys(keys, Seq::empty()) == 0,
    decreases keys.len(),
{
    if keys.len() > 0 {
        lemma_empty_dist_key_sum(keys.drop_last());
    }
}

/// Appending one assignment raises the backing-sum by that assignment's
/// key-sum.
proof fn lemma_backing_sum_step(keys: Seq<u64>, asgs: Seq<StakedAssignment>)
    requires
        asgs.len() > 0,
    ensures
        sum_backings(keys, asgs) == sum_backings(keys, asgs.drop_last()) + sum_dist_over_keys(
            keys,
            asgs.last().distribution@,
        ),
    decreases keys.len(),
{
    if keys.len() > 0 {
        lemma_backing_sum_step(keys.drop_last(), asgs);
    }
}

/// Over pairwise distinct keys holding every target of every assignment, the
/// summed backings of the keys equal the whole distributed stake.
proof fn lemma_backings_are_total_stake(keys: Seq<u64>, asgs: Seq<StakedAssignment>)
    requires
        forall|k1: int, k2: int| 0 <= k1 < k2 < keys.len() ==> keys[k1] != keys[k2],
        forall|a: int, j: int|
            0 <= a < asgs.len() && 0 <= j < (#[trigger] asgs[a]).distribution@.len()
                ==> keys.contains((#[trigger] asgs[a].distribution@[j]).0),
    ensures
        sum_backings(keys, asgs) == int_total_stake(asgs),
    decreases asgs.len(),
{
    if asgs.len() == 0 {
        assert(asgs =~= Seq::<StakedAssignment>::empty());
        lemma_empty_backing_sum(keys);
    } else {
        assert(forall|a: int|
            0 <= a < asgs.len() - 1 ==> (#[trigger] asgs.drop_last()[a]) == asgs[a]);
        assert forall|a: int, j: int|
            0 <= a < asgs.drop_last().len() && 0 <= j < (
            #[trigger] asgs.drop_last()[a]).distribution@.len() implies keys.contains(
            (#[trigger] asgs.drop_last()[a].distribution@[j]).0,
        ) by {
            assert(asgs.drop_last()[a] == asgs[a]);
        }
        lemma_backings_are_total_stake(keys, asgs.drop_last());
        lemma_backing_sum_step(keys, asgs);
        assert(asgs[asgs.len() - 1] == asgs.last());
        assert forall|j: int|
            0 <= j < asgs.last().distribution@.len() implies keys.contains(
            (#[trigger] asgs.last().distribution@[j]).0,
        ) by {
            assert(asgs[asgs.len() - 1].distribution@[j] == asgs.last().distribution@[j]);
        }
        lemma_dist_key_sum(keys, asgs.last().distribution@);
        assert(int_total_stake(asgs) == int_total_stake(asgs.drop_last()) + sum_seq(
            parts_of(asgs.last().distribution@),
        ));
    }
}

/// The backing-sum of no assignments vanishes.
proof fn lemma_empty_backing_sum(keys: Seq<u64>)
    ensures
        sum_backings(keys, Seq::empty()) == 0,
    decreases keys.len(),
{
    if keys.len() > 0 {
        lemma_empty_backing_sum(keys.drop_last());
    }
}

/// Every partial distribution stake is within the whole.
proof fn lemma_int_dist_total_bounds(d: Seq<(u64, u128)>, c: u64)
    ensures
        0 <= int_dist_total(d, c) <= sum_seq(parts_of(d)),
    decreases d.len(),
{
    if d.len() > 0 {
        lemma_int_dist_total_bounds(d.drop_last(), c);
        assert(parts_of(d).drop_last() =~= parts_of(d.drop_last()));
        assert(parts_of(d).last() == d.last().1);
    }
}

/// Every key's backing is within the whole distributed stake.
proof fn lemma_int_backing_bounds(asgs: Seq<StakedAssignment>, c: u64)
    ensures
        0 <= int_backing(asgs, c) <= int_total_stake(asgs),
    decreases asgs.len(),
{
    if asgs.len() > 0 {
        lemma_int_backing_bounds(asgs.drop_last(), c);
        lemma_int_dist_total_bounds(asgs.last().distribution@, c);
        crate::normalizing::lemma_sum_seq_nonneg(parts_of(asgs.last().distribution@));
    }
}

/// While the whole distributed stake fits the domain, the saturating
/// distribution fold equals the unbounded one.
proof fn lemma_dist_total_exact(d: Seq<(u64, u128)>, c: u64, init: u128)
    requires
        init + sum_seq(parts_of(d)) <= u128::MAX,
    ensures
        dist_total(d, c, init) == init + int_dist_total(d, c),
    decreases d.len(),
{
    if d.len() > 0 {
        assert(parts_of(d).drop_last() =~= parts_of(d.drop_last()));
        assert(parts_of(d).last() == d.last().1);
        crate::normalizing::lemma_sum_seq_nonneg(parts_of(d.drop_last()));
        lemma_dist_total_exact(d.drop_last(), c, init);
        lemma_int_dist_total_bounds(d.drop_last(), c);
    }
}

/// While the whole distributed stake fits the domain, the saturating backing
/// fold equals the unbounded one.
proof fn lemma_total_backing_exact(asgs: Seq<StakedAssignment>, c: u64)
    requires
        int_total_stake(asgs) <= u128::MAX,
    ensures
        total_backing(asgs, c, 0) == int_backing(asgs, c),
    decreases asgs.len(),
{
    if asgs.len() > 0 {
        lemma_int_total_stake_nonneg(asgs.drop_last());
        crate::normalizing::lemma_sum_seq_nonneg(parts_of(asgs.last().distribution@));
        lemma_total_backing_exact(asgs.drop_last(), c);
        lemma_int_backing_bounds(asgs.drop_last(), c);
        lemma_dist_total_exact(
            asgs.last().distribution@,
            c,
            (int_backing(asgs.drop_last(), c)) as u128,
        );
        lemma_int_dist_total_bounds(asgs.last().distribution@, c);
    }
}

/// The whole distributed stake is never negative.
proof fn lemma_int_total_stake_nonneg(asgs: Seq<StakedAssignment>)
    ensures
        int_total_stake(asgs) >= 0,
    decreases asgs.len(),
{
    if asgs.len() > 0 {
        lemma_int_total_stake_nonneg(asgs.drop_last());
        crate::normalizing::lemma_sum_seq_nonneg(parts_of(asgs.last().distribution@));
    }
}

/// The sum of the supports of a built support map is the whole stake the
/// assignments distribute: with every distribution target among the map's
/// keys (pairwise distinct), each entry's total the stake backing its key,
/// and the whole stake within the domain, the second component of the
/// support-map score is the sum of all distributed stake — for assignments
/// whose distributions each sum to the voter's budget, the sum of those
/// budgets.
pub proof fn lemma_support_sum_is_total_stake(
    entries: Seq<(u64, Support)>,
    asgs: Seq<StakedAssignment>,
)
    requires
        forall|k1: int, k2: int|
            0 <= k1 < k2 < entries.len() ==> (#[trigger] entries[k1]).0 != (
            #[trigger] entries[k2]).0,
        forall|e: int|
            0 <= e < entries.len() ==> (#[trigger] entries[e]).1.total == total_backing(
                asgs,
                entries[e].0,
                0,
            ),
        forall|a: int, j: int|
            0 <= a < asgs.len() && 0 <= j < (#[trigger] asgs[a]).distribution@.len() ==> exists|
                e: int,
            |
                0 <= e < entries.len() && (#[trigger] asgs[a].distribution@[j]).0 == entries[e].0,
        int_total_stake(asgs) <= u128::MAX,
    ensures
        sum_total(entries, 0) == int_total_stake(asgs),
{
    let keys = crate::support::keys_of(entries);
    assert(keys.len() == entries.len());
    assert(forall|k: int| 0 <= k < entries.len() ==> keys[k] == (#[trigger] entries[k]).0);
    assert forall|a: int, j: int|
        0 <= a < asgs.len() && 0 <= j < (#[trigger] asgs[a]).distribution@.len() implies keys.contains(
        (#[trigger] asgs[a].distribution@[j]).0,
    ) by {
        let e = choose|e: int|
            0 <= e < entries.len() && (asgs[a].distribution@[j]).0 == entries[e].0;
        assert(keys[e] == asgs[a].distribution@[j].0);
    }
    assert forall|k1: int, k2: int| 0 <= k1 < k2 < keys.len() implies keys[k1] != keys[k2] by {
        assert(keys[k1] == entries[k1].0 && keys[k2] == entries[k2].0);
    }
    lemma_backings_are_total_stake(keys, asgs);
    lemma_sum_total_as_backings(entries, asgs);
}

/// Over pairwise distinct keys, a distribution's key-sum never exceeds the
/// distributed stake (without coverage, entries may fall outside the keys).
proof fn lemma_dist_key_sum_le(keys: Seq<u64>, d: Seq<(u64, u128)>)
    requires
        forall|k1: int, k2: int| 0 <= k1 < k2 < keys.len() ==> keys[k1] != keys[k2],
    ensures
        0 <= sum_dist_over_keys(keys, d) <= sum_seq(parts_of(d)),
    decreases d.len(),
{
    if d.len() == 0 {
        assert(d =~= Seq::<(u64, u128)>::empty());
        assert(parts_of(d) =~= Seq::<u128>::empty());
        lemma_empty_dist_key_sum(keys);
    } else {
        lemma_dist_key_sum_le(keys, d.drop_last());
        lemma_dist_key_sum_step(keys, d);
        lemma_indicator_sum(keys, d.last().0, d.last().1);
        assert(parts_of(d).drop_last() =~= parts_of(d.drop_last()));
        assert(parts_of(d).last() == d.last().1);
        assert(sum_seq(parts_of(d)) == sum_seq(parts_of(d.drop_last())) + d.last().1);
    }
}

/// Over pairwise distinct keys, the backing-sum never exceeds the whole
/// distributed stake.
proof fn lemma_sum_backings_le(keys: Seq<u64>, asgs: Seq<StakedAssignment>)
    requires
        forall|k1: int, k2: int| 0 <= k1 < k2 < keys.len() ==> keys[k1] != keys[k2],
    ensures
        0 <= sum_backings(keys, asgs) <= int_total_stake(asgs),
    decreases asgs.len(),
{
    if asgs.len() == 0 {
        assert(asgs =~= Seq::<StakedAssignment>::empty());
        lemma_empty_backing_sum(keys);
        lemma_int_total_stake_nonneg(asgs);
    } else {
        lemma_sum_backings_le(keys, asgs.drop_last());
        lemma_backing_sum_step(keys, asgs);
        lemma_dist_key_sum_le(keys, asgs.last().distribution@);
        assert(int_total_stake(asgs) == int_total_stake(asgs.drop_last()) + sum_seq(
            parts_of(asgs.last().distribution@),
        ));
    }
}

/// The saturating support sum of consistent entries equals the backing-sum
/// of their keys.
proof fn lemma_sum_total_as_backings(entries: Seq<(u64, Support)>, asgs: Seq<StakedAssignment>)
    requires
        forall|k1: int, k2: int|
            0 <= k1 < k2 < entries.len() ==> (#[trigger] entries[k1]).0 != (
            #[trigger] entries[k2]).0,
        forall|e: int|
            0 <= e < entries.len() ==> (#[trigger] entries[e]).1.total == total_backing(
                asgs,
                entries[e].0,
                0,
            ),
        int_total_stake(asgs) <= u128::MAX,
    ensures
        sum_total(entries, 0) == sum_backings(crate::support::keys_of(entries), asgs),
    decreases entries.len(),
{
    let keys = crate::support::keys_of(entries);
    assert(forall|k: int| 0 <= k < entries.len() ==> keys[k] == (#[trigger] entries[k]).0);
    if entries.len() > 0 {
        assert(forall|e: int|
            0 <= e < entries.len() - 1 ==> (#[trigger] entries.drop_last()[e]) == entries[e]);
        lemma_sum_total_as_backings(entries.drop_last(), asgs);
        assert(crate::support::keys_of(entries.drop_last()) =~= keys.drop_last());
        assert(keys.last() == entries.last().0);
        assert(entries[entries.len() - 1] == entries.last());
        lemma_total_backing_exact(asgs, entries.last().0);
        lemma_int_backing_bounds(asgs, entries.last().0);
        assert forall|k1: int, k2: int| 0 <= k1 < k2 < keys.len() implies keys[k1] != keys[k2] by {
            assert(keys[k1] == entries[k1].0 && keys[k2] == entries[k2].0);
        }
        lemma_sum_backings_le(keys, asgs);
        assert(forall|k1: int, k2: int|
            0 <= k1 < k2 < keys.drop_last().len() ==> keys.drop_last()[k1] != keys.drop_last()[
            k2]);
        lemma_sum_backings_le(keys.drop_last(), asgs);
        assert(sum_backings(keys, asgs) == sum_backings(keys.drop_last(), asgs) + int_backing(
            asgs,
            keys.last(),
        ));
    }
}


/// A voter whose approvals name no actual candidate contributes nothing: the
/// graph build gives it no edges, it moves no candidate's approval stake, and
/// it can never appear in the emitted assignments.
pub proof fn lemma_stray_voter_contributes_nothing(
    whos: Seq<u64>,
    votes: Seq<u64>,
    stake: u64,
    init: u128,
    budget: u128,
    acc: u128,
)
    requires
        forall|v: int| 0 <= v < votes.len() ==> find_candidate_spec(whos, #[trigger] votes[v])
            == -1,
    ensures
        edges_of_votes(whos, votes).len() == 0,
        forall|idx: int| idx >= 0 ==> #[trigger] votes_approval(whos, votes, stake, idx, init) == init,
        ratio_distribution(edges_of_votes(whos, votes), budget, acc).len() == 0,
    decreases votes.len(),
{
    if votes.len() > 0 {
        assert(forall|v: int|
            0 <= v < votes.len() - 1 ==> (#[trigger] votes.drop_last()[v]) == votes[v]);
        lemma_stray_voter_contributes_nothing(
            whos,
            votes.drop_last(),
            stake,
            init,
            budget,
            acc,
        );
        assert(find_candidate_spec(whos, votes.last()) == -1);
        assert forall|idx: int| idx >= 0 implies #[trigger] votes_approval(
            whos,
            votes,
            stake,
            idx,
            init,
        ) == init by {
            assert(votes_approval(whos, votes.drop_last(), stake, idx, init) == init);
        }
    }
}

/// Round trip of one weight through the ratio form: for a positive total no
/// larger than the accuracy, turning a weight into a ratio of the total and
/// scaling it back moves it by at most one unit.
pub proof fn lemma_ratio_round_trip(w: u128, stake: u128, acc: u128)
    requires
        1 <= acc <= ACCURACY_MAX,
        1 <= stake <= acc,
        w <= stake,
    ensures
        0 <= ratio_parts_spec(w, stake, acc) <= acc,
        mul_ratio_nearest_spec((ratio_parts_spec(w, stake, acc)) as u128, stake, acc) - w >= -1,
        mul_ratio_nearest_spec((ratio_parts_spec(w, stake, acc)) as u128, stake, acc) - w <= 1,
{
    crate::arith::lemma_ratio_parts_bound(w, stake, acc);
    let parts = ratio_parts_spec(w, stake, acc);
    assert(parts == (w as int * acc as int) / (stake as int)) by (nonlinear_arith)
        requires
            1 <= stake <= acc,
            w <= stake,
            acc >= 1,
            parts == ratio_parts_spec(w, stake, acc),
            ratio_parts_spec(w, stake, acc) == {
                let q1: int = if stake >= 1 { stake as int } else { 1 };
                let p1: int = if w as int <= q1 { w as int } else { q1 };
                let factor: int = if q1 / (acc as int) >= 1 { q1 / (acc as int) } else { 1 };
                (p1 / factor) * acc / (q1 / factor)
            },
    ;
    let t = parts * stake;
    assert(w * acc - stake < t && t <= w * acc) by (nonlinear_arith)
        requires
            stake >= 1,
            parts == (w as int * acc as int) / (stake as int),
            t == parts * stake,
            w >= 0,
            acc >= 1,
    ;
    let back = mul_ratio_nearest_spec(parts as u128, stake, acc);
    assert(back == crate::arith::drn(t, acc as int));
    assert(w - 1 <= t / (acc as int) && t / (acc as int) <= w && (t % (acc as int) > (acc as int)
        / 2 ==> crate::arith::drn(t, acc as int) == t / (acc as int) + 1) && (t % (acc as int)
        <= (acc as int) / 2 ==> crate::arith::drn(t, acc as int) == t / (acc as int)))
        by (nonlinear_arith)
        requires
            1 <= stake <= acc,
            w * acc - stake < t,
            t <= w * acc,
            t >= 0,
            crate::arith::drn(t, acc as int) == (if t % (acc as int) > (acc as int) / 2 {
                t / (acc as int) + 1
            } else {
                t / (acc as int)
            }),
    ;
}

/// Round trip of a staked distribution: converting the weights to ratios of
/// the total and scaling them back preserves every target and moves every
/// weight by at most one unit — provided the total is positive and at most
/// one whole of the accuracy, every weight is within the total, and no
/// weight's ratio vanishes (a vanishing entry would be dropped).
pub proof fn lemma_staked_round_trip(d: Seq<(u64, u128)>, stake: u128, acc: u128)
    requires
        1 <= acc <= ACCURACY_MAX,
        1 <= stake <= acc,
        forall|i: int| 0 <= i < d.len() ==> (#[trigger] d[i]).1 <= stake,
        forall|i: int|
            0 <= i < d.len() ==> ratio_parts_spec((#[trigger] d[i]).1, stake, acc) != 0,
    ensures
        staked_distribution(unstaked_distribution(d, stake, acc), stake, acc).len() == d.len(),
        forall|i: int|
            0 <= i < d.len() ==> {
                let rt = #[trigger] staked_distribution(
                    unstaked_distribution(d, stake, acc),
                    stake,
                    acc,
                )[i];
                &&& rt.0 == d[i].0
                &&& rt.1 as int - d[i].1 as int >= -1
                &&& rt.1 as int - d[i].1 as int <= 1
            },
    decreases d.len(),
{
    if d.len() > 0 {
        assert(forall|i: int| 0 <= i < d.len() - 1 ==> (#[trigger] d.drop_last()[i]) == d[i]);
        lemma_staked_round_trip(d.drop_last(), stake, acc);
        lemma_ratio_round_trip(d.last().1, stake, acc);
        let u_rest = unstaked_distribution(d.drop_last(), stake, acc);
        let parts = ratio_parts_spec(d.last().1, stake, acc);
        let u = unstaked_distribution(d, stake, acc);
        assert(u == u_rest.push((d.last().0, parts as u128)));
        assert(u.drop_last() =~= u_rest);
        assert(u.last() == (d.last().0, parts as u128));
        let rt = staked_distribution(u, stake, acc);
        let rt_rest = staked_distribution(u_rest, stake, acc);
        assert(rt == rt_rest.push(
            (d.last().0, mul_ratio_nearest_spec(parts as u128, stake, acc) as u128),
        ));
        assert forall|i: int| 0 <= i < d.len() implies {
            let e = #[trigger] rt[i];
            &&& e.0 == d[i].0
            &&& e.1 as int - d[i].1 as int >= -1
            &&& e.1 as int - d[i].1 as int <= 1
        } by {
            if i < d.len() - 1 {
                assert(rt[i] == rt_rest[i]);
            } else {
                assert(rt[i] == (
                    d.last().0,
                    mul_ratio_nearest_spec(parts as u128, stake, acc) as u128,
                ));
            }
        }
    }
}

} // verus!
