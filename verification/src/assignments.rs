//! Assignments: how one voter's stake is spread over its targets, either as
//! ratios of the budget or as absolute stake values, with conversions in both
//! directions and normalization of either form.

use crate::arith::{mul_ratio_nearest, mul_ratio_nearest_spec, ratio_parts, ratio_parts_spec, sat_add_spec, ACCURACY_MAX};
use crate::normalizing::{
    lemma_sum_seq_bounded, lemma_sum_seq_nonneg, lemma_sum_seq_take, normalize_weights,
    normalized_of, sum_seq,
};
use crate::types::{
    backing_in_edges, lemma_backing_bounds, lemma_update_edge, sum_edge_weights, Candidate, Edge,
    Voter,
};
use vstd::prelude::*;

verus! {

/// A voter's stake assignment among a set of targets, as ratios. Each entry
/// pairs a target with the scaled part (out of the accuracy `acc` in use) of
/// the voter's budget given to it.
#[derive(Clone, Debug, PartialEq, Eq)]
pub struct Assignment {
    /// Voter's identifier.
    pub who: u64,
    /// The distribution of the voter's stake, as `(target, ratio parts)`.
    pub distribution: Vec<(u64, u128)>,
}

/// A voter's stake assignment among a set of targets, as absolute stake.
#[derive(Clone, Debug, PartialEq, Eq)]
pub struct StakedAssignment {
    /// Voter's identifier.
    pub who: u64,
    /// The distribution of the voter's stake, as `(target, stake)`.
    pub distribution: Vec<(u64, u128)>,
}

/// Final result of the election.
#[derive(Clone, Debug)]
pub struct ElectionResult {
    /// Winners, in election order, each with the stake backing it.
    pub winners: Vec<(u64, u128)>,
    /// One ratio assignment per voter with a non-empty distribution.
    pub assignments: Vec<Assignment>,
}

/// The second components of a distribution: its parts or weights.
pub open spec fn parts_of(d: Seq<(u64, u128)>) -> Seq<u128> {
    d.map_values(|e: (u64, u128)| e.1)
}

/// The first components of a distribution: its targets.
pub open spec fn targets_of(d: Seq<(u64, u128)>) -> Seq<u64> {
    d.map_values(|e: (u64, u128)| e.0)
}

/// The saturating sum of a sequence of weights, folded left to right.
pub open spec fn sat_sum(s: Seq<u128>) -> u128
    decreases s.len(),
{
    if s.len() == 0 {
        0
    } else {
        sat_add_spec(sat_sum(s.drop_last()), s.last())
    }
}

/// The ratio distribution of a sequence of edges: one entry per edge whose
/// weight, approximated as a ratio of the budget, is non-zero.
pub open spec fn ratio_distribution(es: Seq<Edge>, budget: u128, acc: u128) -> Seq<(u64, u128)>
    decreases es.len(),
{
    if es.len() == 0 {
        Seq::empty()
    } else {
        let rest = ratio_distribution(es.drop_last(), budget, acc);
        let parts = ratio_parts_spec(es.last().weight, budget, acc);
        if parts != 0 {
            rest.push((es.last().who, parts as u128))
        } else {
            rest
        }
    }
}

/// The staked distribution of a ratio distribution: zero ratios are dropped,
/// others are scaled by the stake, rounding to nearest.
pub open spec fn staked_distribution(d: Seq<(u64, u128)>, stake: u128, acc: u128) -> Seq<
    (u64, u128),
>
    decreases d.len(),
{
    if d.len() == 0 {
        Seq::empty()
    } else {
        let rest = staked_distribution(d.drop_last(), stake, acc);
        if d.last().1 != 0 {
            rest.push((d.last().0, mul_ratio_nearest_spec(d.last().1, stake, acc) as u128))
        } else {
            rest
        }
    }
}

/// The ratio distribution of a staked distribution: each weight is
/// approximated as a ratio of the total, entries whose ratio vanishes are
/// dropped.
pub open spec fn unstaked_distribution(d: Seq<(u64, u128)>, stake: u128, acc: u128) -> Seq<
    (u64, u128),
>
    decreases d.len(),
{
    if d.len() == 0 {
        Seq::empty()
    } else {
        let rest = unstaked_distribution(d.drop_last(), stake, acc);
        let parts = ratio_parts_spec(d.last().1, stake, acc);
        if parts != 0 {
            rest.push((d.last().0, parts as u128))
        } else {
            rest
        }
    }
}

/// Edges without weight produce no ratio entries.
pub proof fn lemma_zero_ratio_distribution(es: Seq<Edge>, budget: u128, acc: u128)
    requires
        1 <= acc <= ACCURACY_MAX,
        forall|j: int| 0 <= j < es.len() ==> (#[trigger] es[j]).weight == 0,
    ensures
        ratio_distribution(es, budget, acc).len() == 0,
    decreases es.len(),
{
    if es.len() > 0 {
        assert(forall|j: int| 0 <= j < es.len() - 1 ==> (#[trigger] es.drop_last()[j]) == es[j]);
        lemma_zero_ratio_distribution(es.drop_last(), budget, acc);
        crate::arith::lemma_ratio_parts_zero(budget, acc);
        assert(es.last().weight == 0);
    }
}

impl Assignment {
    /// Every ratio part is within the fixed-point range of accuracy `acc`.
    pub open spec fn wf(self, acc: u128) -> bool {
        forall|i: int|
            0 <= i < self.distribution@.len() ==> (#[trigger] self.distribution@[i]).1 <= acc
    }

    /// Convert into an absolute-stake assignment against the given total
    /// `stake`, dropping zero ratios and rounding each product to nearest.
    pub fn into_staked(self, stake: u128, acc: u128) -> (r: StakedAssignment)
        requires
            self.wf(acc),
            1 <= acc <= ACCURACY_MAX,
        ensures
            r.who == self.who,
            r.distribution@ == staked_distribution(self.distribution@, stake, acc),
    {
        let mut distribution: Vec<(u64, u128)> = Vec::new();
        let n = self.distribution.len();
        let mut i: usize = 0;
        while i < n
            invariant
                n == self.distribution@.len(),
                i <= n,
                self.wf(acc),
                1 <= acc <= ACCURACY_MAX,
                distribution@ == staked_distribution(self.distribution@.take(i as int), stake, acc),
            decreases n - i,
        {
            let (target, parts) = self.distribution[i];
            if parts != 0 {
                let w = mul_ratio_nearest(parts, stake, acc);
                distribution.push((target, w));
            }
            proof {
                assert(self.distribution@.take(i + 1).drop_last() =~= self.distribution@.take(
                    i as int,
                ));
                assert(self.distribution@.take(i + 1).last() == self.distribution@[i as int]);
            }
            i = i + 1;
        }
        proof {
            assert(self.distribution@.take(n as int) =~= self.distribution@);
        }
        StakedAssignment { who: self.who, distribution }
    }

    /// Adjust the ratios so that they sum to exactly one (all `acc` parts).
    /// For a well-formed assignment this always succeeds.
    pub fn try_normalize(&mut self, acc: u128) -> (r: Result<(), &'static str>)
        requires
            old(self).wf(acc),
            1 <= acc <= ACCURACY_MAX,
        ensures
            r is Ok,
            final(self).who == old(self).who,
            targets_of(final(self).distribution@) == targets_of(old(self).distribution@),
            parts_of(final(self).distribution@) == normalized_of(
                parts_of(old(self).distribution@),
                acc,
            ),
            old(self).distribution@.len() > 0 ==> sum_seq(parts_of(final(self).distribution@))
                == acc,
            final(self).distribution@.len() == old(self).distribution@.len(),
    {
        let ghost d0 = self.distribution@;
        let mut parts: Vec<u128> = Vec::new();
        let n = self.distribution.len();
        let mut i: usize = 0;
        while i < n
            invariant
                n == self.distribution@.len(),
                i <= n,
                parts@ == parts_of(self.distribution@.take(i as int)),
            decreases n - i,
        {
            parts.push(self.distribution[i].1);
            proof {
                assert(parts_of(self.distribution@.take(i + 1)) =~= parts_of(
                    self.distribution@.take(i as int),
                ).push(self.distribution@[i as int].1));
            }
            i = i + 1;
        }
        proof {
            assert(self.distribution@.take(n as int) =~= self.distribution@);
            lemma_sum_seq_bounded(parts@, acc);
            assert(parts@.len() * acc < u128::MAX) by (nonlinear_arith)
                requires
                    parts@.len() <= usize::MAX,
                    1 <= acc <= ACCURACY_MAX,
            ;
        }
        match normalize_weights(&parts, acc) {
            Some(corrected) => {
                let mut j: usize = 0;
                while j < n
                    invariant
                        n == self.distribution@.len(),
                        n == d0.len(),
                        j <= n,
                        corrected@.len() == n,
                        self.who == old(self).who,
                        forall|k: int|
                            0 <= k < n ==> (#[trigger] self.distribution@[k]).0 == d0[k].0,
                        forall|k: int| 0 <= k < j ==> (#[trigger] self.distribution@[k]).1
                            == corrected@[k],
                        forall|k: int|
                            j <= k < n ==> (#[trigger] self.distribution@[k]).1 == d0[k].1,
                    decreases n - j,
                {
                    let target = self.distribution[j].0;
                    let c = corrected[j];
                    self.distribution[j] = (target, c);
                    j = j + 1;
                }
                proof {
                    assert(targets_of(self.distribution@) =~= targets_of(d0));
                    assert(parts_of(self.distribution@) =~= corrected@);
                }
                Ok(())
            },
            None => Err("failed to normalize ratio assignment"),
        }
    }
}

impl StakedAssignment {
    /// Convert into a ratio assignment of accuracy `acc`, against the total
    /// of this assignment; entries whose ratio vanishes are dropped.
    pub fn into_assignment(self, acc: u128) -> (r: Assignment)
        requires
            1 <= acc <= ACCURACY_MAX,
        ensures
            r.who == self.who,
            r.distribution@ == unstaked_distribution(
                self.distribution@,
                sat_sum(parts_of(self.distribution@)),
                acc,
            ),
            r.wf(acc),
    {
        let stake = self.total();
        let mut distribution: Vec<(u64, u128)> = Vec::new();
        let n = self.distribution.len();
        let mut i: usize = 0;
        while i < n
            invariant
                n == self.distribution@.len(),
                i <= n,
                1 <= acc <= ACCURACY_MAX,
                stake == sat_sum(parts_of(self.distribution@)),
                distribution@ == unstaked_distribution(
                    self.distribution@.take(i as int),
                    stake,
                    acc,
                ),
                forall|k: int| 0 <= k < distribution@.len() ==> (#[trigger] distribution@[k]).1
                    <= acc,
            decreases n - i,
        {
            let (target, w) = self.distribution[i];
            let parts = ratio_parts(w, stake, acc);
            if parts != 0 {
                distribution.push((target, parts));
            }
            proof {
                assert(self.distribution@.take(i + 1).drop_last() =~= self.distribution@.take(
                    i as int,
                ));
                assert(self.distribution@.take(i + 1).last() == self.distribution@[i as int]);
            }
            i = i + 1;
        }
        proof {
            assert(self.distribution@.take(n as int) =~= self.distribution@);
        }
        Assignment { who: self.who, distribution }
    }

    /// Adjust the weights so that they sum to exactly `stake`. Fails exactly
    /// when the current weights' sum does not fit the stake domain.
    pub fn try_normalize(&mut self, stake: u128) -> (r: Result<(), &'static str>)
        ensures
            r is Ok <==> sum_seq(parts_of(old(self).distribution@)) <= u128::MAX,
            r is Err ==> *final(self) == *old(self),
            r is Ok ==> {
                &&& final(self).who == old(self).who
                &&& targets_of(final(self).distribution@) == targets_of(old(self).distribution@)
                &&& parts_of(final(self).distribution@) == normalized_of(
                    parts_of(old(self).distribution@),
                    stake,
                )
                &&& final(self).distribution@.len() == old(self).distribution@.len()
                &&& old(self).distribution@.len() > 0 ==> sum_seq(
                    parts_of(final(self).distribution@),
                ) == stake
            },
    {
        let ghost d0 = self.distribution@;
        let mut weights: Vec<u128> = Vec::new();
        let n = self.distribution.len();
        let mut i: usize = 0;
        while i < n
            invariant
                n == self.distribution@.len(),
                i <= n,
                weights@ == parts_of(self.distribution@.take(i as int)),
            decreases n - i,
        {
            weights.push(self.distribution[i].1);
            proof {
                assert(parts_of(self.distribution@.take(i + 1)) =~= parts_of(
                    self.distribution@.take(i as int),
                ).push(self.distribution@[i as int].1));
            }
            i = i + 1;
        }
        proof {
            assert(self.distribution@.take(n as int) =~= self.distribution@);
        }
        match normalize_weights(&weights, stake) {
            Some(corrected) => {
                let mut j: usize = 0;
                while j < n
                    invariant
                        n == self.distribution@.len(),
                        n == d0.len(),
                        j <= n,
                        corrected@.len() == n,
                        self.who == old(self).who,
                        forall|k: int|
                            0 <= k < n ==> (#[trigger] self.distribution@[k]).0 == d0[k].0,
                        forall|k: int| 0 <= k < j ==> (#[trigger] self.distribution@[k]).1
                            == corrected@[k],
                        forall|k: int|
                            j <= k < n ==> (#[trigger] self.distribution@[k]).1 == d0[k].1,
                    decreases n - j,
                {
                    let target = self.distribution[j].0;
                    let c = corrected[j];
                    self.distribution[j] = (target, c);
                    j = j + 1;
                }
                proof {
                    assert(targets_of(self.distribution@) =~= targets_of(d0));
                    assert(parts_of(self.distribution@) =~= corrected@);
                }
                Ok(())
            },
            None => Err("failed to normalize staked assignment"),
        }
    }

    /// The total stake of this assignment (the voter budget it stands for),
    /// summed with saturation.
    pub fn total(&self) -> (r: u128)
        ensures
            r == sat_sum(parts_of(self.distribution@)),
    {
        let n = self.distribution.len();
        let mut acc: u128 = 0;
        let mut i: usize = 0;
        while i < n
            invariant
                n == self.distribution@.len(),
                i <= n,
                acc == sat_sum(parts_of(self.distribution@.take(i as int))),
            decreases n - i,
        {
            acc = acc.saturating_add(self.distribution[i].1);
            proof {
                assert(parts_of(self.distribution@.take(i + 1)) =~= parts_of(
                    self.distribution@.take(i as int),
                ).push(self.distribution@[i as int].1));
                assert(parts_of(self.distribution@.take(i + 1)).drop_last() =~= parts_of(
                    self.distribution@.take(i as int),
                ));
            }
            i = i + 1;
        }
        proof {
            assert(self.distribution@.take(n as int) =~= self.distribution@);
        }
        acc
    }
}

/// The weights of a sequence of edges, in order.
pub open spec fn edge_weights_of(es: Seq<Edge>) -> Seq<u128> {
    es.map_values(|e: Edge| e.weight)
}

/// The edge-weight sum equals the sum of the weight sequence.
pub proof fn lemma_sum_weights_as_seq(es: Seq<Edge>)
    ensures
        sum_edge_weights(es) == sum_seq(edge_weights_of(es)),
    decreases es.len(),
{
    if es.len() > 0 {
        lemma_sum_weights_as_seq(es.drop_last());
        assert(edge_weights_of(es).drop_last() =~= edge_weights_of(es.drop_last()));
        assert(edge_weights_of(es).last() == es.last().weight);
    }
}

impl Voter {
    /// Turn this voter into a ratio assignment of accuracy `acc`: one entry
    /// per edge whose weight, as a ratio of the budget, is non-zero. Returns
    /// nothing when no entry remains.
    pub fn into_assignment(&self, acc: u128) -> (r: Option<Assignment>)
        requires
            1 <= acc <= ACCURACY_MAX,
        ensures
            r is Some <==> ratio_distribution(self.edges@, self.budget, acc).len() > 0,
            r matches Some(a) ==> a.who == self.who && a.distribution@ == ratio_distribution(
                self.edges@,
                self.budget,
                acc,
            ) && a.wf(acc),
    {
        let mut distribution: Vec<(u64, u128)> = Vec::new();
        let n = self.edges.len();
        let mut i: usize = 0;
        while i < n
            invariant
                n == self.edges@.len(),
                i <= n,
                1 <= acc <= ACCURACY_MAX,
                distribution@ == ratio_distribution(self.edges@.take(i as int), self.budget, acc),
                forall|k: int| 0 <= k < distribution@.len() ==> (#[trigger] distribution@[k]).1
                    <= acc,
            decreases n - i,
        {
            let parts = ratio_parts(self.edges[i].weight, self.budget, acc);
            if parts != 0 {
                distribution.push((self.edges[i].who, parts));
            }
            proof {
                assert(self.edges@.take(i + 1).drop_last() =~= self.edges@.take(i as int));
                assert(self.edges@.take(i + 1).last() == self.edges@[i as int]);
            }
            i = i + 1;
        }
        proof {
            assert(self.edges@.take(n as int) =~= self.edges@);
        }
        if distribution.len() > 0 {
            Some(Assignment { who: self.who, distribution })
        } else {
            None
        }
    }

    /// Adjust this voter's edge weights so that they sum to exactly its
    /// budget, moving each touched candidate's backing by the same
    /// correction. Requires a sound slice of the graph: edges point into the
    /// arena, each candidate is backed at least by this voter's edges, the
    /// weights sum to at most the budget, and the backings leave headroom
    /// for the correction.
    pub fn try_normalize(&mut self, candidates: &mut Vec<Candidate>) -> (r: Result<
        (),
        &'static str,
    >)
        requires
            old(self).budget <= u64::MAX,
            sum_edge_weights(old(self).edges@) <= old(self).budget,
            forall|j: int|
                0 <= j < old(self).edges@.len() ==> (#[trigger] old(self).edges@[j]).candidate_index
                    < old(candidates)@.len(),
            forall|c: int|
                0 <= c < old(candidates)@.len() ==> backing_in_edges(old(self).edges@, c) <= (
                #[trigger] old(candidates)@[c]).backed_stake,
            forall|c: int|
                0 <= c < old(candidates)@.len() ==> (#[trigger] old(candidates)@[c]).backed_stake
                    <= u128::MAX - 2 * (u64::MAX as u128),
        ensures
            r is Ok,
            final(self).who == old(self).who,
            final(self).budget == old(self).budget,
            final(self).load == old(self).load,
            final(self).edges@.len() == old(self).edges@.len(),
            forall|j: int|
                0 <= j < old(self).edges@.len() ==> {
                    let e = #[trigger] final(self).edges@[j];
                    &&& e.who == old(self).edges@[j].who
                    &&& e.candidate_index == old(self).edges@[j].candidate_index
                    &&& e.load == old(self).edges@[j].load
                },
            edge_weights_of(final(self).edges@) == normalized_of(
                edge_weights_of(old(self).edges@),
                old(self).budget,
            ),
            old(self).edges@.len() > 0 ==> sum_edge_weights(final(self).edges@) == old(
                self,
            ).budget,
            final(candidates)@.len() == old(candidates)@.len(),
            forall|c: int|
                0 <= c < old(candidates)@.len() ==> {
                    let nc = #[trigger] final(candidates)@[c];
                    &&& nc.who == old(candidates)@[c].who
                    &&& nc.approval_stake == old(candidates)@[c].approval_stake
                    &&& nc.elected == old(candidates)@[c].elected
                    &&& nc.round == old(candidates)@[c].round
                    &&& nc.score == old(candidates)@[c].score
                    &&& nc.backed_stake == old(candidates)@[c].backed_stake - backing_in_edges(
                        old(self).edges@,
                        c,
                    ) + backing_in_edges(final(self).edges@, c)
                },
    {
        let ghost es0 = self.edges@;
        let ghost cands0 = candidates@;
        let ghost w0 = edge_weights_of(es0);
        let budget = self.budget;
        let n = self.edges.len();
        let mut weights: Vec<u128> = Vec::new();
        let mut i: usize = 0;
        while i < n
            invariant
                n == self.edges@.len(),
                self.edges@ == es0,
                i <= n,
                weights@ == edge_weights_of(es0.take(i as int)),
            decreases n - i,
        {
            weights.push(self.edges[i].weight);
            proof {
                assert(edge_weights_of(es0.take(i + 1)) =~= edge_weights_of(
                    es0.take(i as int),
                ).push(es0[i as int].weight));
            }
            i = i + 1;
        }
        proof {
            assert(es0.take(n as int) =~= es0);
            lemma_sum_weights_as_seq(es0);
        }
        match normalize_weights(&weights, budget) {
            Some(corrected) => {
                let mut j: usize = 0;
                while j < n
                    invariant
                        n == self.edges@.len(),
                        n == es0.len(),
                        j <= n,
                        corrected@.len() == n,
                        budget == old(self).budget,
                        budget <= u64::MAX,
                        self.who == old(self).who,
                        self.budget == old(self).budget,
                        self.load == old(self).load,
                        es0 == old(self).edges@,
                        cands0 == old(candidates)@,
                        w0 == edge_weights_of(es0),
                        corrected@ == normalized_of(w0, budget),
                        sum_seq(w0) <= budget,
                        n > 0 ==> sum_seq(corrected@) == budget,
                        forall|j2: int|
                            0 <= j2 < n ==> {
                                let e = #[trigger] self.edges@[j2];
                                &&& e.who == es0[j2].who
                                &&& e.candidate_index == es0[j2].candidate_index
                                &&& e.load == es0[j2].load
                            },
                        forall|j2: int|
                            0 <= j2 < j ==> (#[trigger] self.edges@[j2]).weight == corrected@[j2],
                        forall|j2: int| j <= j2 < n ==> #[trigger] self.edges@[j2] == es0[j2],
                        candidates@.len() == cands0.len(),
                        forall|j2: int|
                            0 <= j2 < n ==> (#[trigger] es0[j2]).candidate_index < cands0.len(),
                        forall|c: int|
                            0 <= c < cands0.len() ==> backing_in_edges(es0, c) <= (
                            #[trigger] cands0[c]).backed_stake,
                        forall|c: int|
                            0 <= c < cands0.len() ==> (#[trigger] cands0[c]).backed_stake
                                <= u128::MAX - 2 * (u64::MAX as u128),
                        forall|c: int|
                            0 <= c < cands0.len() ==> {
                                let nc = #[trigger] candidates@[c];
                                &&& nc.who == cands0[c].who
                                &&& nc.approval_stake == cands0[c].approval_stake
                                &&& nc.elected == cands0[c].elected
                                &&& nc.round == cands0[c].round
                                &&& nc.score == cands0[c].score
                                &&& nc.backed_stake == cands0[c].backed_stake - backing_in_edges(
                                    es0,
                                    c,
                                ) + backing_in_edges(self.edges@, c)
                            },
                        sum_edge_weights(self.edges@) == sum_seq(w0) - sum_seq(
                            w0.take(j as int),
                        ) + sum_seq(corrected@.take(j as int)),
                    decreases n - j,
                {
                    proof {
                        assert(w0.take(j + 1).drop_last() =~= w0.take(j as int));
                        assert(w0.take(j + 1).last() == w0[j as int]);
                        assert(corrected@.take(j + 1).drop_last() =~= corrected@.take(j as int));
                        assert(corrected@.take(j + 1).last() == corrected@[j as int]);
                        lemma_sum_seq_take(w0, j + 1);
                        lemma_sum_seq_take(corrected@, j + 1);
                        lemma_sum_seq_take(w0, j as int);
                        lemma_sum_seq_take(corrected@, j as int);
                        lemma_sum_seq_nonneg(corrected@);
                        lemma_backing_bounds(self.edges@, self.edges@[j as int].candidate_index as int);
                        crate::types::lemma_backing_bounds(es0, self.edges@[j as int].candidate_index as int);
                    }
                    let old_w = self.edges[j].weight;
                    let new_w = corrected[j];
                    let ci = self.edges[j].candidate_index;
                    let ghost es_b = self.edges@;
                    let cur_e = self.edges[j];
                    self.edges[j] = Edge {
                        who: cur_e.who,
                        candidate_index: cur_e.candidate_index,
                        load: cur_e.load,
                        weight: new_w,
                    };
                    proof {
                        lemma_update_edge(es_b, j as int, self.edges@[j as int]);
                        assert(self.edges@ =~= es_b.update(j as int, self.edges@[j as int]));
                        lemma_backing_bounds(self.edges@, ci as int);
                        assert(sum_edge_weights(self.edges@) <= budget + budget);
                    }
                    let cur_c = candidates[ci];
                    candidates[ci] = Candidate {
                        who: cur_c.who,
                        score: cur_c.score,
                        approval_stake: cur_c.approval_stake,
                        backed_stake: cur_c.backed_stake - old_w + new_w,
                        elected: cur_c.elected,
                        round: cur_c.round,
                    };
                    j = j + 1;
                }
                proof {
                    assert(w0.take(n as int) =~= w0);
                    assert(corrected@.take(n as int) =~= corrected@);
                    assert(edge_weights_of(self.edges@) =~= corrected@);
                    lemma_sum_weights_as_seq(self.edges@);
                }
                Ok(())
            },
            None => Err("failed to normalize the voter"),
        }
    }
}

} // verus!
