//! Star balancing: equalize the backing of the elected candidates by
//! reassigning one voter's stake at a time across its elected edges.
//!
//! One pass takes each voter in turn, removes its stake from all elected
//! edges, and pours it back over the candidates with the least residual
//! backing until all filled candidates reach a common level (a water fill):
//! the candidates with the `ways` smallest residuals are raised to the level
//! of the largest of them, and what remains of the voter's stake is split
//! evenly among them, the first few receiving one more unit of the division
//! remainder. Residuals are taken as of the start of the voter's move, so the
//! fill provably redistributes exactly the stake that was removed.

use crate::arith::sat_mul;
use crate::types::{
    backed_of, backing_in_edges, cands_ok, graph_ok, has_edge_to, lemma_backed_bounds,
    lemma_backing_bounds, lemma_sum_budgets_shape, lemma_sum_take, lemma_total_fits,
    lemma_update_edge, lemma_update_voter, same_voter_shape, sum_budgets, sum_edge_weights,
    voter_ok, voters_ok, Candidate, Edge, Voter,
};
use vstd::prelude::*;

verus! {

/// The cost of raising the first `m` residuals of `bs` to the level of
/// `bs[lv]`: the sum of the differences, over the unbounded integers.
pub open spec fn level_cost(bs: Seq<u128>, lv: int, m: int) -> int
    decreases m,
{
    if m <= 0 {
        0
    } else {
        level_cost(bs, lv, m - 1) + (bs[lv] as int - bs[m - 1] as int)
    }
}

/// Raising the level by one sorted position adds `m` times the level step.
proof fn lemma_level_cost_step(bs: Seq<u128>, lv: int, m: int)
    requires
        1 <= lv < bs.len(),
        0 <= m,
    ensures
        level_cost(bs, lv, m) == level_cost(bs, lv - 1, m) + m * (bs[lv] as int - bs[lv
            - 1] as int),
    decreases m,
{
    if m <= 0 {
        assert(m * (bs[lv] as int - bs[lv - 1] as int) == 0) by (nonlinear_arith)
            requires
                m <= 0,
                0 <= m,
        ;
    } else {
        lemma_level_cost_step(bs, lv, m - 1);
        assert(m * (bs[lv] as int - bs[lv - 1] as int) == (m - 1) * (bs[lv] as int - bs[lv
            - 1] as int) + (bs[lv] as int - bs[lv - 1] as int)) by (nonlinear_arith);
    }
}

/// For a sorted prefix the leveling cost grows with the number of filled
/// positions.
proof fn lemma_level_cost_mono(bs: Seq<u128>, lv: int, m1: int, m2: int)
    requires
        0 <= lv < bs.len(),
        0 <= m1 <= m2 <= lv + 1,
        forall|a: int, b: int| 0 <= a <= b < bs.len() ==> (#[trigger] bs[a]) as int <= (
        #[trigger] bs[b]) as int,
    ensures
        level_cost(bs, lv, m1) <= level_cost(bs, lv, m2),
    decreases m2 - m1,
{
    if m1 < m2 {
        lemma_level_cost_mono(bs, lv, m1, m2 - 1);
    }
}

/// How many of a voter's edges point at elected candidates.
pub open spec fn count_elected(cands: Seq<Candidate>, es: Seq<Edge>) -> int
    decreases es.len(),
{
    if es.len() == 0 {
        0
    } else {
        count_elected(cands, es.drop_last()) + (if es.last().candidate_index < cands.len()
            && cands[es.last().candidate_index as int].elected {
            1int
        } else {
            0int
        })
    }
}

/// The smallest backing among the elected candidates a voter approves.
pub open spec fn min_elected_backed(cands: Seq<Candidate>, es: Seq<Edge>) -> u128
    decreases es.len(),
{
    if es.len() == 0 {
        u128::MAX
    } else {
        let rest = min_elected_backed(cands, es.drop_last());
        if es.last().candidate_index < cands.len() && cands[es.last().candidate_index as int].elected
            && cands[es.last().candidate_index as int].backed_stake < rest {
            cands[es.last().candidate_index as int].backed_stake
        } else {
            rest
        }
    }
}

/// The largest backing among the elected candidates the voter gives weight.
pub open spec fn max_backing_backed(cands: Seq<Candidate>, es: Seq<Edge>) -> u128
    decreases es.len(),
{
    if es.len() == 0 {
        0
    } else {
        let rest = max_backing_backed(cands, es.drop_last());
        if es.last().candidate_index < cands.len() && cands[es.last().candidate_index as int].elected
            && es.last().weight > 0 && cands[es.last().candidate_index as int].backed_stake
            > rest {
            cands[es.last().candidate_index as int].backed_stake
        } else {
            rest
        }
    }
}

/// Whether the voter gives any weight to an elected candidate.
pub open spec fn has_backing(cands: Seq<Candidate>, es: Seq<Edge>) -> bool
    decreases es.len(),
{
    if es.len() == 0 {
        false
    } else {
        has_backing(cands, es.drop_last()) || (es.last().candidate_index < cands.len()
            && cands[es.last().candidate_index as int].elected && es.last().weight > 0)
    }
}

/// The spread a voter's move reports: the largest backed it contributes to
/// minus the smallest backed it could reach; zero with fewer than two
/// elected edges or no contribution at all.
pub open spec fn move_diff(cands: Seq<Candidate>, es: Seq<Edge>) -> u128 {
    if count_elected(cands, es) < 2 || !has_backing(cands, es) {
        0
    } else if max_backing_backed(cands, es) >= min_elected_backed(cands, es) {
        (max_backing_backed(cands, es) - min_elected_backed(cands, es)) as u128
    } else {
        0
    }
}

/// Whether a voter's move is skipped: nothing to balance, or the spread is
/// within the tolerance.
pub open spec fn move_skipped(cands: Seq<Candidate>, es: Seq<Edge>, tolerance: u128) -> bool {
    count_elected(cands, es) < 2 || !has_backing(cands, es) || move_diff(cands, es) <= tolerance
}

/// A moved voter's new weights level its elected candidates: writing `resid`
/// for a candidate's backing with the voter's old weights taken out, every
/// elected edge the voter now funds lands within one unit of the common
/// `level`, and every elected edge left unfunded already rested at or above
/// it.
pub open spec fn level_ok(c0: Seq<Candidate>, v0: Voter, v1: Voter, level: int) -> bool {
    forall|j: int|
        0 <= j < v1.edges@.len() && j < v0.edges@.len() && (#[trigger] v1.edges@[j]).candidate_index
            < c0.len() && c0[v1.edges@[j].candidate_index as int].elected ==> {
            let resid = c0[v1.edges@[j].candidate_index as int].backed_stake as int
                - backing_in_edges(v0.edges@, v1.edges@[j].candidate_index as int);
            &&& (v1.edges@[j].weight > 0 ==> level <= resid + v1.edges@[j].weight && resid
                + v1.edges@[j].weight <= level + 1)
            &&& (v1.edges@[j].weight == 0 ==> resid >= level)
        }
}

/// A moved voter ends leveled at some common level.
pub open spec fn leveled_move(c0: Seq<Candidate>, v0: Voter, v1: Voter) -> bool {
    exists|level: int| #[trigger] level_ok(c0, v0, v1, level)
}

/// One voter's turn of a balancing pass, as a relation between the states
/// around it: the reported spread is the voter's pre-move spread; a skipped
/// move (nothing to balance, or spread within tolerance) changes nothing; a
/// taken move touches only this voter, preserves its total edge weight
/// exactly, and leaves its elected edges leveled. Everything else — lengths,
/// candidate fields other than backing, voter shape, graph soundness — is
/// preserved either way.
#[verifier::opaque]
pub open spec fn voter_move_ok(
    c0: Seq<Candidate>,
    v0: Seq<Voter>,
    c1: Seq<Candidate>,
    v1: Seq<Voter>,
    vi: int,
    tolerance: u128,
    diff: u128,
) -> bool {
    &&& 0 <= vi < v0.len()
    &&& c1.len() == c0.len()
    &&& v1.len() == v0.len()
    &&& graph_ok(c0, v0, -1)
    &&& graph_ok(c1, v1, -1)
    &&& same_voter_shape(v0, v1)
    &&& forall|c: int|
        0 <= c < c0.len() ==> {
            let cc = #[trigger] c1[c];
            &&& cc.who == c0[c].who
            &&& cc.approval_stake == c0[c].approval_stake
            &&& cc.elected == c0[c].elected
            &&& cc.round == c0[c].round
            &&& cc.score == c0[c].score
        }
    &&& forall|i: int| 0 <= i < v0.len() && i != vi ==> #[trigger] v1[i] == v0[i]
    &&& sum_edge_weights(v1[vi].edges@) == sum_edge_weights(v0[vi].edges@)
    &&& diff == move_diff(c0, v0[vi].edges@)
    &&& (move_skipped(c0, v0[vi].edges@, tolerance) ==> c1 == c0 && v1 == v0)
    &&& (!move_skipped(c0, v0[vi].edges@, tolerance) ==> leveled_move(c0, v0[vi], v1[vi]))
}

/// Rebalance one voter: remove its stake from every edge, then water-fill it
/// back over its elected edges. Touches only that voter; preserves its total
/// edge weight exactly; keeps the graph sound. Returns the spread (largest
/// backing the voter contributed to minus smallest backing it could reach)
/// seen before the move, the measure the caller's stopping rule uses.
fn balance_voter(candidates: &mut Vec<Candidate>, voters: &mut Vec<Voter>, vi: usize, tolerance: u128) -> (diff: u128)
    requires
        vi < old(voters)@.len(),
        graph_ok(old(candidates)@, old(voters)@, -1),
    ensures
        final(candidates)@.len() == old(candidates)@.len(),
        forall|c: int|
            0 <= c < old(candidates)@.len() ==> {
                let nc = #[trigger] final(candidates)@[c];
                &&& nc.who == old(candidates)@[c].who
                &&& nc.approval_stake == old(candidates)@[c].approval_stake
                &&& nc.elected == old(candidates)@[c].elected
                &&& nc.round == old(candidates)@[c].round
                &&& nc.score == old(candidates)@[c].score
            },
        same_voter_shape(old(voters)@, final(voters)@),
        graph_ok(final(candidates)@, final(voters)@, -1),
        forall|i: int|
            0 <= i < old(voters)@.len() && i != vi ==> #[trigger] final(voters)@[i] == old(
                voters,
            )@[i],
        sum_edge_weights(final(voters)@[vi as int].edges@) == sum_edge_weights(
            old(voters)@[vi as int].edges@,
        ),
        voter_move_ok(
            old(candidates)@,
            old(voters)@,
            final(candidates)@,
            final(voters)@,
            vi as int,
            tolerance,
            diff,
        ),
{
    let ghost cands0 = old(candidates)@;
    let ghost vs0 = old(voters)@;
    let ghost es0 = vs0[vi as int].edges@;
    let ne = voters[vi].edges.len();

    // Walk the edges once: collect the elected ones, count them, and track
    // the smallest backing, the largest funded backing, and whether any
    // elected edge is funded at all.
    let mut js: Vec<usize> = Vec::new();
    let mut min_backed: u128 = u128::MAX;
    let mut max_backing: u128 = 0;
    let mut any_backing: bool = false;
    let mut j: usize = 0;
    while j < ne
        invariant
            vi < voters@.len(),
            ne == voters@[vi as int].edges@.len(),
            j <= ne,
            voters@ == vs0,
            candidates@ == cands0,
            es0 == vs0[vi as int].edges@,
            graph_ok(cands0, vs0, -1),
            js@.len() == count_elected(cands0, es0.take(j as int)),
            min_backed == min_elected_backed(cands0, es0.take(j as int)),
            max_backing == max_backing_backed(cands0, es0.take(j as int)),
            any_backing == has_backing(cands0, es0.take(j as int)),
            forall|k: int|
                0 <= k < js@.len() ==> {
                    let jj = #[trigger] js@[k];
                    &&& jj < ne
                    &&& (jj as int) < j
                    &&& candidates@[voters@[vi as int].edges@[jj as int].candidate_index as int].elected
                },
            forall|k1: int, k2: int| 0 <= k1 < k2 < js@.len() ==> js@[k1] < js@[k2],
            forall|e: int|
                0 <= e < j && es0[e].candidate_index < cands0.len() && cands0[(
                #[trigger] es0[e]).candidate_index as int].elected ==> exists|k: int|
                    0 <= k < js@.len() && #[trigger] js@[k] == e,
        decreases ne - j,
    {
        proof {
            assert(voter_ok(cands0, vs0[vi as int], -1));
            assert(es0.take(j + 1).drop_last() =~= es0.take(j as int));
            assert(es0.take(j + 1).last() == es0[j as int]);
        }
        let ghost js_a = js@;
        let ci = voters[vi].edges[j].candidate_index;
        if candidates[ci].elected {
            js.push(j);
            proof {
                assert(js@[js@.len() - 1] == j);
                assert(forall|k: int| 0 <= k < js_a.len() ==> #[trigger] js@[k] == js_a[k]);
            }
            let b = candidates[ci].backed_stake;
            if b < min_backed {
                min_backed = b;
            }
            if voters[vi].edges[j].weight > 0 {
                any_backing = true;
                if b > max_backing {
                    max_backing = b;
                }
            }
        }
        proof {
            assert(forall|k: int| 0 <= k < js_a.len() ==> #[trigger] js@[k] == js_a[k]);
            assert forall|e: int|
                0 <= e < j + 1 && es0[e].candidate_index < cands0.len() && cands0[(
                #[trigger] es0[e]).candidate_index as int].elected implies exists|k: int|
                0 <= k < js@.len() && #[trigger] js@[k] == e by {
                if e < j {
                    let k = choose|k: int| 0 <= k < js_a.len() && #[trigger] js_a[k] == e;
                    assert(js@[k] == e);
                } else {
                    assert(js@[js@.len() - 1] == e);
                }
            }
        }
        j = j + 1;
    }
    proof {
        assert(es0.take(ne as int) =~= es0);
    }
    if js.len() < 2 {
        proof {
            reveal(voter_move_ok);
        }
        return 0;
    }
    if !any_backing {
        proof {
            reveal(voter_move_ok);
        }
        return 0;
    }
    let diff = max_backing.saturating_sub(min_backed);
    if diff <= tolerance {
        proof {
            reveal(voter_move_ok);
        }
        return diff;
    }

    let njs = js.len();
    let budget = voters[vi].budget;
    proof {
        assert(voter_ok(cands0, vs0[vi as int], -1));
    }
    let stake_used = edge_weight_residual(&voters[vi].edges, budget);

    // Remove this voter's stake from every edge (only elected edges carry
    // weight).
    let mut j2: usize = 0;
    while j2 < ne
        invariant
            vi < voters@.len(),
            voters@.len() == vs0.len(),
            candidates@.len() == cands0.len(),
            ne == voters@[vi as int].edges@.len(),
            j2 <= ne,
            graph_ok(cands0, vs0, -1),
            budget == vs0[vi as int].budget,
            forall|c: int|
                0 <= c < cands0.len() ==> {
                    let cc = #[trigger] candidates@[c];
                    &&& cc.who == cands0[c].who
                    &&& cc.approval_stake == cands0[c].approval_stake
                    &&& cc.elected == cands0[c].elected
                    &&& cc.round == cands0[c].round
                    &&& cc.score == cands0[c].score
                },
            same_voter_shape(vs0, voters@),
            voters_ok(candidates@, voters@, -1),
            cands_ok(candidates@, voters@),
            forall|i: int| 0 <= i < vs0.len() && i != vi ==> #[trigger] voters@[i] == vs0[i],
            forall|e: int|
                0 <= e < j2 ==> (#[trigger] voters@[vi as int].edges@[e]).weight == 0,
            forall|e: int|
                j2 <= e < ne ==> #[trigger] voters@[vi as int].edges@[e] == vs0[vi as int].edges@[e],
        decreases ne - j2,
    {
        let w = voters[vi].edges[j2].weight;
        if w > 0 {
            proof {
                assert(voter_ok(candidates@, voters@[vi as int], -1));
                lemma_backing_bounds(voters@[vi as int].edges@, voters@[vi as int].edges@[j2 as int].candidate_index as int);
                lemma_backed_bounds(
                    candidates@,
                    voters@,
                    voters@[vi as int].edges@[j2 as int].candidate_index as int,
                    -1,
                );
            }
            let ci = voters[vi].edges[j2].candidate_index;
            let ghost vs_a = voters@;
            let cur_e = voters[vi].edges[j2];
            voters[vi].edges[j2] = Edge {
                who: cur_e.who,
                candidate_index: cur_e.candidate_index,
                load: cur_e.load,
                weight: 0,
            };
            proof {
                lemma_update_edge(vs_a[vi as int].edges@, j2 as int, voters@[vi as int].edges@[j2 as int]);
                lemma_update_voter(vs_a, vi as int, voters@[vi as int]);
                assert(voters@ =~= vs_a.update(vi as int, voters@[vi as int]));
            }
            let cur_c = candidates[ci];
            candidates[ci] = Candidate {
                who: cur_c.who,
                score: cur_c.score,
                approval_stake: cur_c.approval_stake,
                backed_stake: cur_c.backed_stake - w,
                elected: cur_c.elected,
                round: cur_c.round,
            };
        }
        j2 = j2 + 1;
    }
    let ghost vs_removed = voters@;
    let ghost cands_rm = candidates@;
    proof {
        crate::graph::lemma_zero_edges(voters@[vi as int].edges@);
        // the arena now holds each candidate's residual backing: its old
        // backing with this voter's old weights taken out
        assert(vs_removed =~= vs0.update(vi as int, vs_removed[vi as int]));
        lemma_update_voter(vs0, vi as int, vs_removed[vi as int]);
        assert forall|c: int| 0 <= c < cands0.len() implies (#[trigger] cands_rm[c]).backed_stake
            as int == cands0[c].backed_stake as int - backing_in_edges(es0, c) by {
            assert(backing_in_edges(vs_removed[vi as int].edges@, c) == 0);
            assert(cands_rm[c].backed_stake == backed_of(vs_removed, c));
            assert(cands0[c].backed_stake == backed_of(vs0, c));
        }
    }

    // Capture each elected edge's residual backing and sort ascending.
    let mut rs: Vec<(u128, usize)> = Vec::new();
    let mut k2: usize = 0;
    while k2 < njs
        invariant
            vi < voters@.len(),
            ne == voters@[vi as int].edges@.len(),
            njs == js@.len(),
            k2 <= njs,
            rs@.len() == k2,
            candidates@.len() == cands0.len(),
            forall|k3: int|
                0 <= k3 < js@.len() ==> {
                    let jj = #[trigger] js@[k3];
                    &&& jj < ne
                    &&& candidates@[voters@[vi as int].edges@[jj as int].candidate_index as int].elected
                },
            forall|k1: int, k3: int| 0 <= k1 < k3 < js@.len() ==> js@[k1] < js@[k3],
            forall|e: int|
                0 <= e < ne ==> (#[trigger] voters@[vi as int].edges@[e]).candidate_index
                    < cands0.len(),
            forall|k3: int|
                0 <= k3 < k2 ==> (#[trigger] rs@[k3]).1 == js@[k3] && rs@[k3].0 == candidates@[
                    voters@[vi as int].edges@[js@[k3] as int].candidate_index as int].backed_stake,
        decreases njs - k2,
    {
        let jj = js[k2];
        let ci = voters[vi].edges[jj].candidate_index;
        rs.push((candidates[ci].backed_stake, jj));
        k2 = k2 + 1;
    }

    proof {
        assert forall|k3: int| 0 <= k3 < rs@.len() implies pair_names_elected_edge(
            #[trigger] rs@[k3],
            candidates@,
            voters@,
            vi as int,
        ) by {
            assert(rs@[k3].1 == js@[k3]);
        }
    }
    let ghost rs_pre = rs@;
    let ghost_perm = sort_pairs(&mut rs, Ghost(candidates@), Ghost(voters@), Ghost(vi as int));

    proof {
        assert forall|e: int|
            #![trigger vs_removed[vi as int].edges@[e]]
            0 <= e < vs_removed[vi as int].edges@.len() && vs_removed[vi as int].edges@[e].candidate_index
                < cands0.len() && candidates@[vs_removed[vi as int].edges@[e].candidate_index as int].elected
                implies exists|k: int| #![trigger rs@[k]] 0 <= k < rs@.len() && rs@[k].1 == e by {
            assert(vs_removed[vi as int].edges@[e].candidate_index == es0[e].candidate_index);
            let kj = choose|kj: int| 0 <= kj < js@.len() && #[trigger] js@[kj] == e;
            assert(rs_pre[kj].1 == e);
            let k = ghost_perm@[kj];
            assert(0 <= k < rs@.len() && rs@[k] == rs_pre[kj]);
        }
    }
    fill_edges(candidates, voters, vi, &rs, stake_used, Ghost(cands0), Ghost(vs0), Ghost(vs_removed));
    proof {
        assert(count_elected(cands0, es0) >= 2);
        assert(has_backing(cands0, es0));
        assert(!move_skipped(cands0, es0, tolerance));
        let level = choose|level: int|
            #[trigger] residual_level_ok(cands_rm, voters@[vi as int], level);
        assert forall|j2: int|
            0 <= j2 < voters@[vi as int].edges@.len() && j2 < vs0[vi as int].edges@.len() && (
            #[trigger] voters@[vi as int].edges@[j2]).candidate_index < cands0.len() && cands0[voters@[
            vi as int].edges@[j2].candidate_index as int].elected implies {
            let resid = cands0[voters@[vi as int].edges@[j2].candidate_index as int].backed_stake
                as int - backing_in_edges(vs0[vi as int].edges@, voters@[vi as int].edges@[j2].candidate_index as int);
            &&& (voters@[vi as int].edges@[j2].weight > 0 ==> level <= resid + voters@[vi as int].edges@[j2].weight
                && resid + voters@[vi as int].edges@[j2].weight <= level + 1)
            &&& (voters@[vi as int].edges@[j2].weight == 0 ==> resid >= level)
        } by {
            let ci = voters@[vi as int].edges@[j2].candidate_index as int;
            assert(cands_rm[ci].backed_stake as int == cands0[ci].backed_stake as int
                - backing_in_edges(es0, ci));
            assert(cands_rm[ci].elected == cands0[ci].elected);
        }
        assert(level_ok(cands0, vs0[vi as int], voters@[vi as int], level));
        assert(leveled_move(cands0, vs0[vi as int], voters@[vi as int]));
        reveal(voter_move_ok);
    }
    diff
}

/// The voter's stake available for refilling: the sum of its edge weights,
/// bounded by the budget that warrants it fits the stake domain.
fn edge_weight_residual(edges: &Vec<Edge>, budget: u128) -> (r: u128)
    requires
        sum_edge_weights(edges@) <= budget,
    ensures
        r == sum_edge_weights(edges@),
{
    let n = edges.len();
    let mut total: u128 = 0;
    let mut i: usize = 0;
    while i < n
        invariant
            n == edges@.len(),
            i <= n,
            sum_edge_weights(edges@) <= budget,
            total == sum_edge_weights(edges@.take(i as int)),
        decreases n - i,
    {
        proof {
            assert(edges@.take(i + 1).drop_last() =~= edges@.take(i as int));
            assert(edges@.take(i + 1).last() == edges@[i as int]);
            lemma_sum_take(edges@, i + 1);
        }
        total = total + edges[i].weight;
        i = i + 1;
    }
    proof {
        assert(edges@.take(n as int) =~= edges@);
    }
    total
}

/// Sort residual/edge pairs ascending by residual, by repeated selection of
/// the minimum. The edge indices stay pairwise distinct, every pair keeps
/// naming an elected edge of the voter with its residual backing, and the
/// returned permutation says where each input pair went.
fn sort_pairs(
    rs: &mut Vec<(u128, usize)>,
    Ghost(cands_entry): Ghost<Seq<Candidate>>,
    Ghost(vs_rm): Ghost<Seq<Voter>>,
    Ghost(vi): Ghost<int>,
) -> (perm: Ghost<Seq<int>>)
    requires
        0 <= vi < vs_rm.len(),
        forall|k1: int, k2: int| 0 <= k1 < k2 < old(rs)@.len() ==> (#[trigger] old(rs)@[k1]).1 != (
        #[trigger] old(rs)@[k2]).1,
        forall|k: int|
            0 <= k < old(rs)@.len() ==> pair_names_elected_edge(
                #[trigger] old(rs)@[k],
                cands_entry,
                vs_rm,
                vi,
            ),
    ensures
        final(rs)@.len() == old(rs)@.len(),
        forall|k1: int, k2: int| 0 <= k1 < k2 < final(rs)@.len() ==> (#[trigger] final(rs)@[k1]).1
            != (#[trigger] final(rs)@[k2]).1,
        forall|k1: int, k2: int| 0 <= k1 <= k2 < final(rs)@.len() ==> (#[trigger] final(rs)@[k1]).0
            <= (#[trigger] final(rs)@[k2]).0,
        forall|k: int|
            0 <= k < final(rs)@.len() ==> pair_names_elected_edge(
                #[trigger] final(rs)@[k],
                cands_entry,
                vs_rm,
                vi,
            ),
        perm@.len() == old(rs)@.len(),
        forall|k0: int|
            0 <= k0 < old(rs)@.len() ==> 0 <= #[trigger] perm@[k0] < final(rs)@.len()
                && final(rs)@[perm@[k0]] == old(rs)@[k0],
{
    let n = rs.len();
    let ghost rs0 = rs@;
    let ghost mut perm: Seq<int> = Seq::new(rs0.len(), |k0: int| k0);
    let mut i: usize = 0;
    while i < n
        invariant
            n == rs@.len(),
            i <= n,
            0 <= vi < vs_rm.len(),
            rs0 == old(rs)@,
            rs0.len() == n,
            perm.len() == n,
            forall|k0: int|
                0 <= k0 < n ==> 0 <= #[trigger] perm[k0] < n && rs@[perm[k0]] == rs0[k0],
            forall|k1: int, k2: int| 0 <= k1 < k2 < rs@.len() ==> (#[trigger] rs@[k1]).1 != (
            #[trigger] rs@[k2]).1,
            forall|k1: int, k2: int| 0 <= k1 <= k2 < i ==> (#[trigger] rs@[k1]).0 <= (
            #[trigger] rs@[k2]).0,
            forall|k1: int, k2: int| 0 <= k1 < i && i <= k2 < n ==> (#[trigger] rs@[k1]).0 <= (
            #[trigger] rs@[k2]).0,
            forall|k: int|
                0 <= k < rs@.len() ==> pair_names_elected_edge(
                    #[trigger] rs@[k],
                    cands_entry,
                    vs_rm,
                    vi,
                ),
        decreases n - i,
    {
        // find the minimum residual in the unsorted tail
        let mut m: usize = i;
        let mut k: usize = i + 1;
        while k < n
            invariant
                n == rs@.len(),
                i <= m < n,
                i < k <= n,
                forall|k2: int| i <= k2 < k ==> (#[trigger] rs@[k2]).0 >= rs@[m as int].0,
            decreases n - k,
        {
            if rs[k].0 < rs[m].0 {
                m = k;
            }
            k = k + 1;
        }
        let ghost rs_a = rs@;
        let tmp_i = rs[i];
        let tmp_m = rs[m];
        rs[i] = tmp_m;
        rs[m] = tmp_i;
        proof {
            assert(forall|k2: int|
                0 <= k2 < n && k2 != i && k2 != m ==> #[trigger] rs@[k2] == rs_a[k2]);
            assert(rs@[i as int] == rs_a[m as int] && rs@[m as int] == rs_a[i as int]);
            perm = perm.map_values(
                |p: int|
                    if p == i {
                        m as int
                    } else if p == m {
                        i as int
                    } else {
                        p
                    },
            );
            assert forall|k0: int| 0 <= k0 < n implies 0 <= #[trigger] perm[k0] < n && rs@[perm[k0]]
                == rs0[k0] by {
            }
        }
        i = i + 1;
    }
    Ghost(perm)
}

/// A residual/edge pair names an elected edge of the voter, with the backing
/// its candidate had when the pair was captured.
pub open spec fn pair_names_elected_edge(
    p: (u128, usize),
    cands_entry: Seq<Candidate>,
    vs_rm: Seq<Voter>,
    vi: int,
) -> bool {
    &&& p.1 < vs_rm[vi].edges@.len()
    &&& vs_rm[vi].edges@[p.1 as int].candidate_index < cands_entry.len()
    &&& cands_entry[vs_rm[vi].edges@[p.1 as int].candidate_index as int].elected
    &&& p.0 == cands_entry[vs_rm[vi].edges@[p.1 as int].candidate_index as int].backed_stake
}

/// Pour `stake_used` back over the elected edges named by the sorted residual
/// pairs: raise the `ways` least-backed up to the level of the last of them
/// and split the excess evenly, handing the first pairs one extra unit of the
/// remainder. The weights handed out sum to exactly `stake_used`.
#[verifier::rlimit(50)]
/// The moved voter's new weights, read against the residual backings (the
/// backings with the voter's old stake removed, as the candidate arena holds
/// them at fill time): every funded elected edge lands within one unit above
/// `level`, and every unfunded elected edge already rested at or above it.
pub open spec fn residual_level_ok(cands_rm: Seq<Candidate>, v1: Voter, level: int) -> bool {
    forall|j: int|
        0 <= j < v1.edges@.len() && (#[trigger] v1.edges@[j]).candidate_index < cands_rm.len()
            && cands_rm[v1.edges@[j].candidate_index as int].elected ==> {
            let resid = cands_rm[v1.edges@[j].candidate_index as int].backed_stake as int;
            &&& (v1.edges@[j].weight > 0 ==> level <= resid + v1.edges@[j].weight && resid
                + v1.edges@[j].weight <= level + 1)
            &&& (v1.edges@[j].weight == 0 ==> resid >= level)
        }
}

fn fill_edges(
    candidates: &mut Vec<Candidate>,
    voters: &mut Vec<Voter>,
    vi: usize,
    rs: &Vec<(u128, usize)>,
    stake_used: u128,
    Ghost(cands0): Ghost<Seq<Candidate>>,
    Ghost(vs0): Ghost<Seq<Voter>>,
    Ghost(vs_removed): Ghost<Seq<Voter>>,
)
    requires
        vi < old(voters)@.len(),
        old(voters)@ == vs_removed,
        vs0.len() == vs_removed.len(),
        cands0.len() == old(candidates)@.len(),
        graph_ok(cands0, vs0, -1),
        graph_ok(old(candidates)@, old(voters)@, -1),
        same_voter_shape(vs0, vs_removed),
        forall|i: int| 0 <= i < vs0.len() && i != vi ==> #[trigger] vs_removed[i] == vs0[i],
        forall|c: int|
            0 <= c < cands0.len() ==> {
                let cc = #[trigger] old(candidates)@[c];
                &&& cc.who == cands0[c].who
                &&& cc.approval_stake == cands0[c].approval_stake
                &&& cc.elected == cands0[c].elected
                &&& cc.round == cands0[c].round
                &&& cc.score == cands0[c].score
            },
        forall|e: int|
            0 <= e < vs_removed[vi as int].edges@.len() ==> (#[trigger] vs_removed[vi as int].edges@[e]).weight == 0,
        stake_used <= vs_removed[vi as int].budget,
        rs@.len() >= 1,
        forall|k1: int, k2: int| 0 <= k1 < k2 < rs@.len() ==> (#[trigger] rs@[k1]).1 != (
        #[trigger] rs@[k2]).1,
        forall|k1: int, k2: int| 0 <= k1 <= k2 < rs@.len() ==> (#[trigger] rs@[k1]).0 <= (
        #[trigger] rs@[k2]).0,
        forall|k: int|
            0 <= k < rs@.len() ==> pair_names_elected_edge(
                #[trigger] rs@[k],
                old(candidates)@,
                vs_removed,
                vi as int,
            ),
        forall|e: int|
            #![trigger vs_removed[vi as int].edges@[e]]
            0 <= e < vs_removed[vi as int].edges@.len() && vs_removed[vi as int].edges@[e].candidate_index
                < cands0.len() && old(candidates)@[vs_removed[vi as int].edges@[e].candidate_index as int].elected
                ==> exists|k: int| #![trigger rs@[k]] 0 <= k < rs@.len() && rs@[k].1 == e,
    ensures
        final(candidates)@.len() == old(candidates)@.len(),
        forall|c: int|
            0 <= c < old(candidates)@.len() ==> {
                let nc = #[trigger] final(candidates)@[c];
                &&& nc.who == old(candidates)@[c].who
                &&& nc.approval_stake == old(candidates)@[c].approval_stake
                &&& nc.elected == old(candidates)@[c].elected
                &&& nc.round == old(candidates)@[c].round
                &&& nc.score == old(candidates)@[c].score
            },
        same_voter_shape(old(voters)@, final(voters)@),
        graph_ok(final(candidates)@, final(voters)@, -1),
        forall|i: int|
            0 <= i < old(voters)@.len() && i != vi ==> #[trigger] final(voters)@[i] == old(
                voters,
            )@[i],
        sum_edge_weights(final(voters)@[vi as int].edges@) == stake_used,
        exists|level: int|
            #[trigger] residual_level_ok(old(candidates)@, final(voters)@[vi as int], level),
{
    let ghost cands_entry = old(candidates)@;
    let nv_total = voters.len();
    let nrs = rs.len();
    let ghost bs = rs@.map_values(|p: (u128, usize)| p.0);
    proof {
        assert(voter_ok(old(candidates)@, vs_removed[vi as int], -1));
        assert(stake_used < u128::MAX);
    }

    // Find how many of the least-backed candidates the stake can level up.
    let mut last_index: usize = 0;
    let mut dk: u128 = 0;
    let mut idx: usize = 1;
    proof {
        assert(level_cost(bs, 0, 0) == 0);
        assert(level_cost(bs, 0, 1) == 0);
    }
    while idx < nrs
        invariant
            nrs == rs@.len(),
            bs == rs@.map_values(|p: (u128, usize)| p.0),
            1 <= idx <= nrs,
            last_index == idx - 1,
            stake_used < u128::MAX,
            forall|k1: int, k2: int| 0 <= k1 <= k2 < rs@.len() ==> (#[trigger] rs@[k1]).0 <= (
            #[trigger] rs@[k2]).0,
            dk == level_cost(bs, last_index as int, last_index as int + 1),
            dk <= stake_used,
        ensures
            last_index == nrs - 1 || dk as int + (last_index + 1) * (rs@[last_index as int + 1].0
                as int - rs@[last_index as int].0 as int) > stake_used,
        decreases nrs - idx,
    {
        let step_gap = rs[idx].0 - rs[idx - 1].0;
        let step = sat_mul(idx as u128, step_gap);
        let nd = dk.saturating_add(step);
        if nd > stake_used {
            proof {
                assert(dk as int + idx as int * step_gap as int >= nd) by (nonlinear_arith)
                    requires
                        step == (if idx as int * step_gap as int > u128::MAX {
                            u128::MAX as int
                        } else {
                            idx as int * step_gap as int
                        }),
                        nd == (if dk + step > u128::MAX {
                            u128::MAX as int
                        } else {
                            dk as int + step as int
                        }),
                        idx as int * step_gap as int >= 0,
                ;
            }
            break ;
        }
        proof {
            assert(step == idx as int * step_gap as int && nd == dk + step) by (nonlinear_arith)
                requires
                    nd <= stake_used < u128::MAX,
                    step == (if idx as int * step_gap as int > u128::MAX {
                        u128::MAX as int
                    } else {
                        idx as int * step_gap as int
                    }),
                    nd == (if dk + step > u128::MAX {
                        u128::MAX as int
                    } else {
                        dk as int + step as int
                    }),
                    idx as int * step_gap as int >= 0,
            ;
            lemma_level_cost_step(bs, idx as int, idx as int);
            assert(level_cost(bs, idx as int, idx as int + 1) == level_cost(bs, idx as int, idx as int));
            assert(bs[idx as int] == rs@[idx as int].0 && bs[idx as int - 1] == rs@[idx as int - 1].0);
        }
        dk = nd;
        last_index = idx;
        idx = idx + 1;
    }
    let ways = last_index + 1;
    let ways_u: u128 = ways as u128;
    let last_stake = rs[last_index].0;
    let excess = stake_used - dk;
    let base = excess / ways_u;
    let rem = excess % ways_u;

    // Hand out the new weights.
    let budget = voters[vi].budget;
    proof {
        crate::graph::lemma_zero_edges(voters@[vi as int].edges@);
        assert(level_cost(bs, last_index as int, 0) == 0);
    }
    let mut k: usize = 0;
    while k < ways
        invariant
            vi < voters@.len(),
            voters@.len() == vs0.len(),
            candidates@.len() == cands0.len(),
            nrs == rs@.len(),
            bs == rs@.map_values(|p: (u128, usize)| p.0),
            0 <= last_index < nrs,
            ways == last_index + 1,
            ways_u == ways as u128,
            k <= ways,
            budget == vs_removed[vi as int].budget,
            graph_ok(cands0, vs0, -1),
            same_voter_shape(vs0, vs_removed),
            vs0.len() == vs_removed.len(),
            stake_used <= budget,
            dk == level_cost(bs, last_index as int, last_index as int + 1),
            0 <= dk <= stake_used,
            excess == stake_used - dk,
            base == excess / ways_u,
            rem == excess % ways_u,
            last_stake == rs@[last_index as int].0,
            forall|k1: int, k2: int| 0 <= k1 < k2 < rs@.len() ==> (#[trigger] rs@[k1]).1 != (
            #[trigger] rs@[k2]).1,
            forall|k1: int, k2: int| 0 <= k1 <= k2 < rs@.len() ==> (#[trigger] rs@[k1]).0 <= (
            #[trigger] rs@[k2]).0,
            graph_ok(cands_entry, vs_removed, -1),
            cands_entry.len() == cands0.len(),
            vs_removed.len() <= usize::MAX,
            forall|c: int|
                0 <= c < cands0.len() ==> (#[trigger] cands_entry[c]).elected == cands0[c].elected,
            vs_removed[vi as int].budget == vs0[vi as int].budget,
            forall|k2: int|
                0 <= k2 < rs@.len() ==> pair_names_elected_edge(
                    #[trigger] rs@[k2],
                    cands_entry,
                    vs_removed,
                    vi as int,
                ),
            forall|c: int|
                0 <= c < cands0.len() ==> {
                    let cc = #[trigger] candidates@[c];
                    &&& cc.who == cands0[c].who
                    &&& cc.approval_stake == cands0[c].approval_stake
                    &&& cc.elected == cands0[c].elected
                    &&& cc.round == cands0[c].round
                    &&& cc.score == cands0[c].score
                },
            same_voter_shape(vs0, voters@),
            voters_ok(candidates@, voters@, -1),
            cands_ok(candidates@, voters@),
            forall|i: int| 0 <= i < vs0.len() && i != vi ==> #[trigger] voters@[i] == vs_removed[i],
            voters@[vi as int].edges@.len() == vs_removed[vi as int].edges@.len(),
            forall|k2: int|
                k <= k2 < rs@.len() ==> (#[trigger] voters@[vi as int].edges@[rs@[k2].1 as int]).weight
                    == 0,
            forall|k2: int|
                0 <= k2 < k ==> (#[trigger] voters@[vi as int].edges@[rs@[k2].1 as int]).weight as int
                    == base + (if k2 < rem { 1int } else { 0int }) + (last_stake - rs@[k2].0),
            sum_edge_weights(voters@[vi as int].edges@) == level_cost(bs, last_index as int, k as int)
                + (k as int) * base + (if k <= rem { k as int } else { rem as int }),
            sum_edge_weights(voters@[vi as int].edges@) <= stake_used,
        decreases ways - k,
    {
        let jj = rs[k].1;
        let b_k = rs[k].0;
        let extra: u128 = if (k as u128) < rem {
            1
        } else {
            0
        };
        proof {
            assert(b_k <= last_stake);
            assert(base <= excess && excess <= stake_used);
            let ci_last = vs_removed[vi as int].edges@[rs@[last_index as int].1 as int].candidate_index as int;
            lemma_backed_bounds(cands_entry, vs_removed, ci_last, -1);
            assert(last_stake == backed_of(vs_removed, ci_last));
            assert(voter_ok(cands_entry, vs_removed[vi as int], -1));
            assert(vs_removed.len() <= usize::MAX);
            assert(base + extra + (last_stake - b_k) <= u128::MAX) by (nonlinear_arith)
                requires
                    base <= stake_used,
                    stake_used <= vs_removed[vi as int].budget,
                    vs_removed[vi as int].budget <= u64::MAX,
                    extra <= 1,
                    b_k <= last_stake,
                    last_stake <= vs_removed.len() * (u64::MAX as int),
                    vs_removed.len() <= usize::MAX,
                    usize::MAX <= u64::MAX,
            ;
        }
        let w = base + extra + (last_stake - b_k);
        let ghost vs_b = voters@;
        let cur_e = voters[vi].edges[jj];
        proof {
            assert(cur_e == voters@[vi as int].edges@[rs@[k as int].1 as int]);
            assert(cur_e.weight == 0);
        }
        voters[vi].edges[jj] = Edge {
            who: cur_e.who,
            candidate_index: cur_e.candidate_index,
            load: cur_e.load,
            weight: w,
        };
        proof {
            lemma_update_edge(vs_b[vi as int].edges@, jj as int, voters@[vi as int].edges@[jj as int]);
            lemma_update_voter(vs_b, vi as int, voters@[vi as int]);
            assert(voters@ =~= vs_b.update(vi as int, voters@[vi as int]));
            // the voter's new weight total stays within its budget
            let bsq = bs;
            assert forall|a: int, b2: int| 0 <= a <= b2 < bsq.len() implies (#[trigger] bsq[a]) as int
                <= (#[trigger] bsq[b2]) as int by {
                assert(bsq[a] == rs@[a].0 && bsq[b2] == rs@[b2].0);
            }
            assert(bsq[k as int] == rs@[k as int].0 && bsq[last_index as int] == rs@[
                last_index as int].0);
            assert(level_cost(bsq, last_index as int, k + 1) == level_cost(
                bsq,
                last_index as int,
                k as int,
            ) + (last_stake as int - b_k as int));
            assert((k + 1) as int * base == k as int * base + base) by (nonlinear_arith);
            assert(sum_edge_weights(voters@[vi as int].edges@) == level_cost(
                bsq,
                last_index as int,
                k + 1,
            ) + (k + 1) as int * base + (if k + 1 <= rem {
                (k + 1) as int
            } else {
                rem as int
            }));
            lemma_level_cost_mono(bsq, last_index as int, k + 1, last_index as int + 1);
            assert((k + 1) as int * base + (ways as int - (k + 1)) * base == ways as int * base)
                by (nonlinear_arith);
            assert((ways as int - (k + 1)) * base >= 0) by (nonlinear_arith)
                requires
                    k + 1 <= ways,
                    base >= 0,
            ;
            vstd::arithmetic::div_mod::lemma_fundamental_div_mod(excess as int, ways_u as int);
            assert(ways as int * base == ways_u as int * (excess as int / ways_u as int))
                by (nonlinear_arith)
                requires
                    base == excess as int / ways_u as int,
                    ways_u == ways as u128,
            ;
            assert(sum_edge_weights(voters@[vi as int].edges@) <= stake_used);
            assert forall|i: int| 0 <= i < voters@.len() implies voter_ok(
                candidates@,
                #[trigger] voters@[i],
                -1,
            ) by {
                if i == vi {
                    assert(voters@[i].budget == vs0[vi as int].budget);
                    assert(sum_edge_weights(voters@[i].edges@) <= voters@[i].budget);
                    let es2 = voters@[i].edges@;
                    assert forall|e: int| 0 <= e < es2.len() implies crate::types::edge_ok(
                        candidates@,
                        #[trigger] es2[e],
                        -1,
                    ) by {
                        if e == jj {
                            assert(cands_entry[es2[e].candidate_index as int].elected);
                        } else {
                            assert(es2[e] == vs_b[i].edges@[e]);
                            assert(crate::types::edge_ok(candidates@, vs_b[i].edges@[e], -1));
                        }
                    }
                } else {
                    assert(voters@[i] == vs_b[i]);
                    assert(voter_ok(candidates@, vs_b[i], -1));
                }
            }
            assert(voters_ok(candidates@, voters@, -1));
            lemma_backed_bounds(
                candidates@,
                voters@,
                voters@[vi as int].edges@[jj as int].candidate_index as int,
                -1,
            );
            lemma_sum_budgets_shape(vs0, voters@);
            lemma_total_fits(candidates@, voters@, -1);
        }
        let ci = voters[vi].edges[jj].candidate_index;
        let cur_c = candidates[ci];
        candidates[ci] = Candidate {
            who: cur_c.who,
            score: cur_c.score,
            approval_stake: cur_c.approval_stake,
            backed_stake: cur_c.backed_stake + w,
            elected: cur_c.elected,
            round: cur_c.round,
        };
        proof {
            assert(bs[k as int] == rs@[k as int].0 && bs[last_index as int] == rs@[last_index as int].0);
            assert(level_cost(bs, last_index as int, k + 1) == level_cost(bs, last_index as int, k as int)
                + (last_stake as int - b_k as int));
            assert((k + 1) as int * base == k as int * base + base) by (nonlinear_arith);
        }
        k = k + 1;
    }
    proof {
        vstd::arithmetic::div_mod::lemma_fundamental_div_mod(excess as int, ways_u as int);
        assert(ways_u as int * (excess as int / ways_u as int) + excess as int % ways_u as int
            == excess);
        assert(ways as int * base == ways_u as int * (excess as int / ways_u as int))
            by (nonlinear_arith)
            requires
                base == excess as int / ways_u as int,
                ways_u == ways as u128,
        ;
        assert(rem <= excess);
        assert(sum_edge_weights(voters@[vi as int].edges@) == stake_used);
        // the filled edges level out: one unit of the split above the common
        // floor, with every untouched elected edge already resting above it
        let lvl = last_stake as int + base as int;
        if last_index < nrs - 1 {
            let gap = rs@[last_index as int + 1].0 as int - rs@[last_index as int].0 as int;
            assert(dk as int + ways as int * gap > stake_used);
            assert(base < gap) by (nonlinear_arith)
                requires
                    excess == stake_used - dk,
                    dk as int + ways as int * gap > stake_used,
                    base == excess as int / ways_u as int,
                    ways_u == ways as u128,
                    ways >= 1,
                    excess >= 0,
                    gap >= 0,
            ;
        }
        assert forall|j2: int|
            0 <= j2 < voters@[vi as int].edges@.len() && (#[trigger] voters@[vi as int].edges@[j2]).candidate_index
                < cands_entry.len() && cands_entry[voters@[vi as int].edges@[j2].candidate_index as int].elected
                implies {
            let resid = cands_entry[voters@[vi as int].edges@[j2].candidate_index as int].backed_stake as int;
            &&& (voters@[vi as int].edges@[j2].weight > 0 ==> lvl <= resid + voters@[vi as int].edges@[j2].weight
                && resid + voters@[vi as int].edges@[j2].weight <= lvl + 1)
            &&& (voters@[vi as int].edges@[j2].weight == 0 ==> resid >= lvl)
        } by {
            assert(voters@[vi as int].edges@[j2].candidate_index == vs_removed[vi as int].edges@[j2].candidate_index);
            let kx = choose|kx: int| 0 <= kx < rs@.len() && (#[trigger] rs@[kx]).1 == j2;
            assert(pair_names_elected_edge(rs@[kx], cands_entry, vs_removed, vi as int));
            assert(rs@[kx].0 == cands_entry[voters@[vi as int].edges@[j2].candidate_index as int].backed_stake);
            if kx < ways {
                assert(voters@[vi as int].edges@[rs@[kx].1 as int].weight as int == base + (
                if kx < rem {
                    1int
                } else {
                    0int
                }) + (last_stake - rs@[kx].0));
                assert(rs@[kx].0 <= last_stake);
            } else {
                assert(voters@[vi as int].edges@[rs@[kx].1 as int].weight == 0);
                assert(rs@[last_index as int + 1].0 <= rs@[kx].0);
            }
        }
        assert(residual_level_ok(cands_entry, voters@[vi as int], lvl));
    }
}

/// A run of balancing moves: after the m-th move the graph stands at
/// `states[m]`, the move reported the spread `diffs[m]`, and each move is one
/// voter's turn, the voters taken in order, pass after pass.
pub open spec fn passes_ok(
    c0: Seq<Candidate>,
    v0: Seq<Voter>,
    states: Seq<(Seq<Candidate>, Seq<Voter>)>,
    diffs: Seq<u128>,
    nv: int,
    tolerance: u128,
) -> bool {
    &&& states.len() == diffs.len()
    &&& forall|m: int|
        0 <= m < states.len() ==> voter_move_ok(
            if m == 0 {
                c0
            } else {
                states[m - 1].0
            },
            if m == 0 {
                v0
            } else {
                states[m - 1].1
            },
            (#[trigger] states[m]).0,
            states[m].1,
            m % nv,
            tolerance,
            diffs[m],
        )
}

/// The largest spread among the moves `[lo, hi)`; zero when there are none.
pub open spec fn max_diff_of(diffs: Seq<u128>, lo: int, hi: int) -> u128
    decreases hi - lo,
{
    if hi <= lo {
        0
    } else {
        let rest = max_diff_of(diffs, lo, hi - 1);
        if diffs[hi - 1] > rest {
            diffs[hi - 1]
        } else {
            rest
        }
    }
}

/// The largest spread of a range only reads the entries of that range.
proof fn lemma_max_diff_prefix(d1: Seq<u128>, d2: Seq<u128>, lo: int, hi: int)
    requires
        0 <= lo,
        hi <= d1.len(),
        hi <= d2.len(),
        forall|m: int| lo <= m < hi ==> d1[m] == d2[m],
    ensures
        max_diff_of(d1, lo, hi) == max_diff_of(d2, lo, hi),
    decreases hi - lo,
{
    if hi > lo {
        lemma_max_diff_prefix(d1, d2, lo, hi - 1);
    }
}

/// Earlier passes' maxima are unchanged by later moves.
proof fn lemma_pass_maxima_keep(
    d1: Seq<u128>,
    d0: Seq<u128>,
    r: int,
    nv: int,
    tolerance: u128,
)
    requires
        0 <= nv,
        0 <= r,
        d0.len() == r * nv,
        d0.len() <= d1.len(),
        forall|m: int| 0 <= m < d0.len() ==> #[trigger] d1[m] == d0[m],
        forall|q: int|
            0 <= q < r ==> #[trigger] max_diff_of(d0, q * nv, (q + 1) * nv) > tolerance,
    ensures
        forall|q: int|
            0 <= q < r ==> #[trigger] max_diff_of(d1, q * nv, (q + 1) * nv) > tolerance,
{
    assert forall|q: int| 0 <= q < r implies #[trigger] max_diff_of(d1, q * nv, (q + 1) * nv)
        > tolerance by {
        assert((q + 1) * nv <= r * nv && q * nv >= 0) by (nonlinear_arith)
            requires
                0 <= q < r,
                nv >= 0,
        ;
        lemma_max_diff_prefix(d1, d0, q * nv, (q + 1) * nv);
    }
}

/// Iteratively balance all voters, up to `iterations` passes, stopping early
/// once a whole pass finds no voter whose spread exceeds the tolerance. The
/// final state is reached by whole passes of leveling moves, one per voter in
/// voter order, each pass before the last finding some spread above the
/// tolerance; every voter's total edge weight is preserved exactly, and the
/// graph stays sound.
#[verifier::rlimit(100)]
pub fn balance(candidates: &mut Vec<Candidate>, voters: &mut Vec<Voter>, iterations: usize, tolerance: u128)
    requires
        graph_ok(old(candidates)@, old(voters)@, -1),
    ensures
        iterations == 0 || old(voters)@.len() == 0 ==> final(candidates)@ == old(candidates)@
            && final(voters)@ == old(voters)@,
        iterations >= 1 && old(voters)@.len() >= 1 ==> exists|
            states: Seq<(Seq<Candidate>, Seq<Voter>)>,
            diffs: Seq<u128>,
        |
            {
                &&& #[trigger] passes_ok(
                    old(candidates)@,
                    old(voters)@,
                    states,
                    diffs,
                    old(voters)@.len() as int,
                    tolerance,
                )
                &&& (states.len() as int) % (old(voters)@.len() as int) == 0
                &&& old(voters)@.len() <= states.len() <= iterations * old(voters)@.len()
                &&& final(candidates)@ == states.last().0
                &&& final(voters)@ == states.last().1
                &&& forall|q: int|
                    0 <= q < (states.len() as int) / (old(voters)@.len() as int) - 1
                        ==> #[trigger] max_diff_of(
                        diffs,
                        q * (old(voters)@.len() as int),
                        (q + 1) * (old(voters)@.len() as int),
                    ) > tolerance
                &&& (states.len() == iterations * old(voters)@.len() || max_diff_of(
                    diffs,
                    states.len() - old(voters)@.len(),
                    states.len() as int,
                ) <= tolerance)
            },
        final(candidates)@.len() == old(candidates)@.len(),
        final(voters)@.len() == old(voters)@.len(),
        forall|c: int|
            0 <= c < old(candidates)@.len() ==> {
                let nc = #[trigger] final(candidates)@[c];
                &&& nc.who == old(candidates)@[c].who
                &&& nc.approval_stake == old(candidates)@[c].approval_stake
                &&& nc.elected == old(candidates)@[c].elected
                &&& nc.round == old(candidates)@[c].round
                &&& nc.score == old(candidates)@[c].score
            },
        same_voter_shape(old(voters)@, final(voters)@),
        graph_ok(final(candidates)@, final(voters)@, -1),
        forall|i: int|
            0 <= i < old(voters)@.len() ==> sum_edge_weights(
                (#[trigger] final(voters)@[i]).edges@,
            ) == sum_edge_weights(old(voters)@[i].edges@),
{
    let ghost cands0 = old(candidates)@;
    let ghost vs0 = old(voters)@;
    let nv = voters.len();
    let ghost mut states: Seq<(Seq<Candidate>, Seq<Voter>)> = Seq::empty();
    let ghost mut diffs: Seq<u128> = Seq::empty();
    let mut r: usize = 0;
    while r < iterations
        invariant_except_break
            r == 0 ==> candidates@ == cands0 && voters@ == vs0,
            states.len() == r * nv,
            r >= 1 ==> states.len() >= nv,
            nv == 0 ==> states.len() == 0,
            r == 0 ==> states.len() == 0,
            nv >= 1 ==> (states.len() as int) % (nv as int) == 0 && (states.len() as int) / (
            nv as int) == r,
        invariant
            nv == voters@.len(),
            nv == vs0.len(),
            candidates@.len() == cands0.len(),
            r <= iterations,
            states.len() == diffs.len(),
            states.len() <= iterations * nv,
            passes_ok(cands0, vs0, states, diffs, nv as int, tolerance),
            states.len() > 0 ==> candidates@ == states.last().0 && voters@ == states.last().1,
            states.len() == 0 ==> candidates@ == cands0 && voters@ == vs0,
            forall|q: int|
                0 <= q < r ==> #[trigger] max_diff_of(diffs, q * (nv as int), (q + 1) * (nv as int))
                    > tolerance,
            forall|c: int|
                0 <= c < cands0.len() ==> {
                    let cc = #[trigger] candidates@[c];
                    &&& cc.who == cands0[c].who
                    &&& cc.approval_stake == cands0[c].approval_stake
                    &&& cc.elected == cands0[c].elected
                    &&& cc.round == cands0[c].round
                    &&& cc.score == cands0[c].score
                },
            same_voter_shape(vs0, voters@),
            graph_ok(candidates@, voters@, -1),
            forall|i: int|
                0 <= i < nv ==> sum_edge_weights((#[trigger] voters@[i]).edges@)
                    == sum_edge_weights(vs0[i].edges@),
        ensures
            iterations == 0 || nv == 0 ==> candidates@ == cands0 && voters@ == vs0,
            iterations >= 1 && nv >= 1 ==> exists|
                st: Seq<(Seq<Candidate>, Seq<Voter>)>,
                df: Seq<u128>,
            |
                {
                    &&& #[trigger] passes_ok(cands0, vs0, st, df, nv as int, tolerance)
                    &&& (st.len() as int) % (nv as int) == 0
                    &&& nv <= st.len() <= iterations * nv
                    &&& candidates@ == st.last().0
                    &&& voters@ == st.last().1
                    &&& forall|q: int|
                        0 <= q < (st.len() as int) / (nv as int) - 1 ==> #[trigger] max_diff_of(
                            df,
                            q * (nv as int),
                            (q + 1) * (nv as int),
                        ) > tolerance
                    &&& (st.len() == iterations * nv || max_diff_of(
                        df,
                        st.len() - nv,
                        st.len() as int,
                    ) <= tolerance)
                },
        decreases iterations - r,
    {
        let ghost pass_base = states.len() as int;
        let ghost diffs_before = diffs;
        let mut max_diff: u128 = 0;
        let mut vi: usize = 0;
        while vi < nv
            invariant
                nv == voters@.len(),
                nv == vs0.len(),
                candidates@.len() == cands0.len(),
                vi <= nv,
                r < iterations,
                states.len() == diffs.len(),
                pass_base == r * nv,
                states.len() == pass_base + vi,
                passes_ok(cands0, vs0, states, diffs, nv as int, tolerance),
                states.len() > 0 ==> candidates@ == states.last().0 && voters@ == states.last().1,
                states.len() == 0 ==> candidates@ == cands0 && voters@ == vs0,
                max_diff == max_diff_of(diffs, pass_base, pass_base + vi),
                diffs_before.len() == pass_base,
                forall|m: int| 0 <= m < pass_base ==> #[trigger] diffs[m] == diffs_before[m],
                forall|q: int|
                    0 <= q < r ==> #[trigger] max_diff_of(
                        diffs_before,
                        q * (nv as int),
                        (q + 1) * (nv as int),
                    ) > tolerance,
                forall|c: int|
                    0 <= c < cands0.len() ==> {
                        let cc = #[trigger] candidates@[c];
                        &&& cc.who == cands0[c].who
                        &&& cc.approval_stake == cands0[c].approval_stake
                        &&& cc.elected == cands0[c].elected
                        &&& cc.round == cands0[c].round
                        &&& cc.score == cands0[c].score
                    },
                same_voter_shape(vs0, voters@),
                graph_ok(candidates@, voters@, -1),
                forall|i: int|
                    0 <= i < nv ==> sum_edge_weights((#[trigger] voters@[i]).edges@)
                        == sum_edge_weights(vs0[i].edges@),
            decreases nv - vi,
        {
            let ghost states_a = states;
            let ghost diffs_a = diffs;
            let d = balance_voter(candidates, voters, vi, tolerance);
            proof {
                states = states.push((candidates@, voters@));
                diffs = diffs.push(d);
                vstd::arithmetic::div_mod::lemma_mod_multiples_vanish(
                    r as int,
                    vi as int,
                    nv as int,
                );
                vstd::arithmetic::div_mod::lemma_small_mod(vi as nat, nv as nat);
                assert(pass_base + vi == (nv as int) * (r as int) + (vi as int))
                    by (nonlinear_arith)
                    requires
                        pass_base == r * (nv as int),
                ;
                assert((pass_base + vi) % (nv as int) == vi as int);
                assert forall|m: int| 0 <= m < states.len() implies voter_move_ok(
                    if m == 0 {
                        cands0
                    } else {
                        states[m - 1].0
                    },
                    if m == 0 {
                        vs0
                    } else {
                        states[m - 1].1
                    },
                    (#[trigger] states[m]).0,
                    states[m].1,
                    m % (nv as int),
                    tolerance,
                    diffs[m],
                ) by {
                    if m < states.len() - 1 {
                        assert(states[m] == states_a[m] && diffs[m] == diffs_a[m]);
                        if m > 0 {
                            assert(states[m - 1] == states_a[m - 1]);
                        }
                    } else {
                        if m > 0 {
                            assert(states[m - 1] == states_a[m - 1]);
                        }
                    }
                }
                lemma_max_diff_prefix(diffs, diffs_a, pass_base, pass_base + vi);
            }
            if d > max_diff {
                max_diff = d;
            }
            vi = vi + 1;
        }
        proof {
            lemma_pass_maxima_keep(diffs, diffs_before, r as int, nv as int, tolerance);
        }
        if max_diff <= tolerance {
            proof {
                assert((r + 1) * (nv as int) == r * (nv as int) + nv) by (nonlinear_arith);
                if nv == 0 {
                    assert(r * (nv as int) == 0) by (nonlinear_arith)
                        requires
                            nv == 0,
                    ;
                    assert(states.len() == 0);
                }
                if nv >= 1 {
                    assert(states.len() == (r + 1) * (nv as int));
                    assert(states.len() > 0);
                    assert((states.len() as int) % (nv as int) == 0 && (states.len() as int) / (
                    nv as int) == r + 1) by (nonlinear_arith)
                        requires
                            states.len() == (r + 1) * (nv as int),
                            nv >= 1,
                    ;
                    assert(states.len() <= iterations * nv) by (nonlinear_arith)
                        requires
                            states.len() == (r + 1) * (nv as int),
                            r + 1 <= iterations,
                            nv >= 1,
                    ;
                    assert(max_diff_of(diffs, states.len() - nv, states.len() as int)
                        <= tolerance);
                }
            }
            break ;
        }
        proof {
            assert((r + 1) * (nv as int) == r * (nv as int) + nv) by (nonlinear_arith);
            assert(max_diff_of(diffs, r * (nv as int), (r + 1) * (nv as int)) > tolerance);
            assert((r + 1) * (nv as int) <= iterations * (nv as int)) by (nonlinear_arith)
                requires
                    r + 1 <= iterations,
                    nv >= 0,
            ;
            if nv >= 1 {
                assert(((r + 1) * (nv as int)) % (nv as int) == 0 && ((r + 1) * (nv as int)) / (
                nv as int) == r + 1) by (nonlinear_arith)
                    requires
                        nv >= 1,
                ;
            }
            assert(states.len() >= nv) by (nonlinear_arith)
                requires
                    states.len() == (r + 1) * (nv as int),
                    nv >= 0,
                    r >= 0,
            ;
            if nv == 0 {
                assert((r + 1) * (nv as int) == 0) by (nonlinear_arith)
                    requires
                        nv == 0,
                ;
            }
        }
        r = r + 1;
    }
}

} // verus!
