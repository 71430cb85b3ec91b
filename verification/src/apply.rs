//! Edge-weight update after a round's election: route each voter's remaining
//! budget onto its edge to the new winner, then shift stake away from prior
//! winners backed above the cutoff implied by the winner's round score.

use crate::arith::{div_round_nearest, sat_mul};
use crate::types::{
    backed_of, backing_in_edges, cands_ok, graph_ok, has_edge_to, lemma_backed_bounds,
    lemma_backing_bounds, lemma_sum_budgets_shape, lemma_sum_take, lemma_total_fits,
    lemma_update_edge, lemma_update_voter, same_voter_shape, sum_budgets, sum_edge_weights,
    voter_ok, voters_ok, Candidate, Edge, Voter,
};
use vstd::prelude::*;

verus! {

/// The weight of every edge of one voter, summed. The caller warrants that
/// the sum fits the stake domain (a voter's weights never exceed its budget).
fn edge_weight_total(edges: &Vec<Edge>) -> (r: u128)
    requires
        sum_edge_weights(edges@) <= u128::MAX,
    ensures
        r == sum_edge_weights(edges@),
{
    let n = edges.len();
    let mut total: u128 = 0;
    let mut i: usize = 0;
    while i < n
        invariant
            n == edges@.len(),
            i <= n,
            sum_edge_weights(edges@) <= u128::MAX,
            total == sum_edge_weights(edges@.take(i as int)),
        decreases n - i,
    {
        proof {
            assert(edges@.take(i + 1).drop_last() =~= edges@.take(i as int));
            assert(edges@.take(i + 1).last() == edges@[i as int]);
            lemma_sum_take(edges@, i + 1);
        }
        total = total + edges[i].weight;
        i = i + 1;
    }
    proof {
        assert(edges@.take(n as int) =~= edges@);
    }
    total
}

/// Update the voters' edge weights after `winner` has won this round.
///
/// Every voter with an edge to the winner routes its unused budget onto that
/// edge, then moves part of the weight it gave to prior winners backed above
/// the cutoff (the winner's score rescaled to denominator one) over to the
/// winner. Voters without an edge to the winner are untouched. Afterwards a
/// voter with an edge to the winner backs candidates with exactly its budget.
pub fn apply_elected(candidates: &mut Vec<Candidate>, voters: &mut Vec<Voter>, winner: usize)
    requires
        winner < old(candidates)@.len(),
        !old(candidates)@[winner as int].elected,
        graph_ok(old(candidates)@, old(voters)@, -1),
    ensures
        final(candidates)@.len() == old(candidates)@.len(),
        forall|c: int|
            0 <= c < old(candidates)@.len() ==> {
                let nc = #[trigger] final(candidates)@[c];
                &&& nc.who == old(candidates)@[c].who
                &&& nc.approval_stake == old(candidates)@[c].approval_stake
                &&& nc.elected == old(candidates)@[c].elected
                &&& nc.round == old(candidates)@[c].round
                &&& nc.score == old(candidates)@[c].score
            },
        forall|c: int|
            0 <= c < old(candidates)@.len() ==> {
                &&& (c == winner ==> (#[trigger] final(candidates)@[c]).backed_stake
                    >= old(candidates)@[c].backed_stake)
                &&& (c != winner ==> final(candidates)@[c].backed_stake
                    <= old(candidates)@[c].backed_stake)
                &&& (c != winner && !old(candidates)@[c].elected
                    ==> final(candidates)@[c].backed_stake == old(candidates)@[c].backed_stake)
                &&& (c != winner && old(candidates)@[c].backed_stake as int <= crate::arith::drn(
                    old(candidates)@[winner as int].score.n as int,
                    old(candidates)@[winner as int].score.d as int,
                ) ==> final(candidates)@[c].backed_stake == old(candidates)@[c].backed_stake)
            },
        same_voter_shape(old(voters)@, final(voters)@),
        graph_ok(final(candidates)@, final(voters)@, winner as int),
        forall|i: int|
            0 <= i < old(voters)@.len() ==> {
                &&& (has_edge_to(old(voters)@[i], winner as int) ==> sum_edge_weights(
                    (#[trigger] final(voters)@[i]).edges@,
                ) == old(voters)@[i].budget)
                &&& (!has_edge_to(old(voters)@[i], winner as int) ==> final(voters)@[i] == old(
                    voters,
                )@[i])
            },
{
    let ghost cands0 = old(candidates)@;
    let ghost vs0 = old(voters)@;
    let sn = candidates[winner].score.n;
    let sd = candidates[winner].score.d;
    let cutoff = div_round_nearest(sn, sd);
    let nv = voters.len();
    let nc = candidates.len();
    let mut vi: usize = 0;
    while vi < nv
        invariant
            nv == voters@.len(),
            nv == vs0.len(),
            nc == candidates@.len(),
            nc == cands0.len(),
            winner < nc,
            vi <= nv,
            !cands0[winner as int].elected,
            graph_ok(cands0, vs0, -1),
            forall|c: int|
                0 <= c < nc ==> {
                    let cc = #[trigger] candidates@[c];
                    &&& cc.who == cands0[c].who
                    &&& cc.approval_stake == cands0[c].approval_stake
                    &&& cc.elected == cands0[c].elected
                    &&& cc.round == cands0[c].round
                    &&& cc.score == cands0[c].score
                },
            forall|c: int|
                0 <= c < nc ==> {
                    &&& (c == winner ==> (#[trigger] candidates@[c]).backed_stake >= cands0[c].backed_stake)
                    &&& (c != winner ==> candidates@[c].backed_stake <= cands0[c].backed_stake)
                    &&& (c != winner && !cands0[c].elected ==> candidates@[c].backed_stake == cands0[c].backed_stake)
                    &&& (c != winner && cands0[c].backed_stake <= cutoff ==> candidates@[c].backed_stake == cands0[c].backed_stake)
                },
            same_voter_shape(vs0, voters@),
            voters_ok(candidates@, voters@, winner as int),
            cands_ok(candidates@, voters@),
            forall|i: int| vi <= i < nv ==> #[trigger] voters@[i] == vs0[i],
            forall|i: int|
                0 <= i < vi ==> {
                    &&& (has_edge_to(vs0[i], winner as int) ==> sum_edge_weights(
                        (#[trigger] voters@[i]).edges@,
                    ) == vs0[i].budget)
                    &&& (!has_edge_to(vs0[i], winner as int) ==> voters@[i] == vs0[i])
                },
        decreases nv - vi,
    {
        let ne = voters[vi].edges.len();
        let ghost mut touched: bool = false;
        let mut j: usize = 0;
        while j < ne
            invariant
                nv == voters@.len(),
                nv == vs0.len(),
                nc == candidates@.len(),
                nc == cands0.len(),
                winner < nc,
                0 <= vi < nv,
                j <= ne,
                ne == voters@[vi as int].edges@.len(),
                !cands0[winner as int].elected,
                graph_ok(cands0, vs0, -1),
                forall|c: int|
                    0 <= c < nc ==> {
                        let cc = #[trigger] candidates@[c];
                        &&& cc.who == cands0[c].who
                        &&& cc.approval_stake == cands0[c].approval_stake
                        &&& cc.elected == cands0[c].elected
                        &&& cc.round == cands0[c].round
                        &&& cc.score == cands0[c].score
                    },
                forall|c: int|
                    0 <= c < nc ==> {
                        &&& (c == winner ==> (#[trigger] candidates@[c]).backed_stake >= cands0[c].backed_stake)
                        &&& (c != winner ==> candidates@[c].backed_stake <= cands0[c].backed_stake)
                        &&& (c != winner && !cands0[c].elected ==> candidates@[c].backed_stake == cands0[c].backed_stake)
                        &&& (c != winner && cands0[c].backed_stake <= cutoff ==> candidates@[c].backed_stake == cands0[c].backed_stake)
                    },
                same_voter_shape(vs0, voters@),
                voters_ok(candidates@, voters@, winner as int),
                cands_ok(candidates@, voters@),
                forall|i: int| vi < i < nv ==> #[trigger] voters@[i] == vs0[i],
                forall|i: int|
                    0 <= i < vi ==> {
                        &&& (has_edge_to(vs0[i], winner as int) ==> sum_edge_weights(
                            (#[trigger] voters@[i]).edges@,
                        ) == vs0[i].budget)
                        &&& (!has_edge_to(vs0[i], winner as int) ==> voters@[i] == vs0[i])
                    },
                touched ==> sum_edge_weights(voters@[vi as int].edges@) == vs0[vi as int].budget,
                touched ==> has_edge_to(vs0[vi as int], winner as int),
                !touched ==> voters@[vi as int] == vs0[vi as int],
                !touched ==> forall|j2: int|
                    0 <= j2 < j ==> (#[trigger] voters@[vi as int].edges@[j2]).candidate_index
                        != winner,
                forall|j2: int|
                    j <= j2 < ne && (#[trigger] voters@[vi as int].edges@[j2]).candidate_index
                        == winner ==> voters@[vi as int].edges@[j2].weight == 0,
            decreases ne - j,
        {
            let target = voters[vi].edges[j].candidate_index;
            if target == winner {
                proof {
                    assert(voter_ok(candidates@, voters@[vi as int], winner as int));
                    lemma_total_fits(candidates@, voters@, winner as int);
                    assert(vs0[vi as int].edges@[j as int].candidate_index == winner);
                    assert(has_edge_to(vs0[vi as int], winner as int));
                }
                let budget = voters[vi].budget;
                let used = edge_weight_total(&voters[vi].edges);
                let new_w = budget.saturating_sub(used);
                let ghost vs_a = voters@;
                let ghost e_old = voters@[vi as int].edges@[j as int];
                let cur_e = voters[vi].edges[j];
                voters[vi].edges[j] = Edge {
                    who: cur_e.who,
                    candidate_index: cur_e.candidate_index,
                    load: cur_e.load,
                    weight: new_w,
                };
                proof {
                    lemma_update_edge(vs_a[vi as int].edges@, j as int, voters@[vi as int].edges@[j as int]);
                    lemma_update_voter(vs_a, vi as int, voters@[vi as int]);
                    assert(voters@ =~= vs_a.update(vi as int, voters@[vi as int]));
                    assert(e_old.weight == 0);
                    assert(sum_edge_weights(voters@[vi as int].edges@) == sum_edge_weights(
                        vs_a[vi as int].edges@,
                    ) + new_w);
                    assert(backed_of(voters@, winner as int) == backed_of(vs_a, winner as int)
                        + new_w);
                    assert(forall|c: int|
                        0 <= c < nc && c != winner ==> #[trigger] backed_of(voters@, c)
                            == backed_of(vs_a, c));
                    lemma_backed_bounds(candidates@, voters@, winner as int, winner as int);
                    lemma_sum_budgets_shape(vs0, voters@);
                    lemma_total_fits(candidates@, voters@, winner as int);
                    touched = true;
                }
                let cur_c = candidates[winner];
                candidates[winner] = Candidate {
                    who: cur_c.who,
                    score: cur_c.score,
                    approval_stake: cur_c.approval_stake,
                    backed_stake: cur_c.backed_stake + new_w,
                    elected: cur_c.elected,
                    round: cur_c.round,
                };

                // Shift stake from over-backed prior winners onto the new one.
                let mut k: usize = 0;
                while k < ne
                    invariant
                        nv == voters@.len(),
                        nv == vs0.len(),
                        nc == candidates@.len(),
                        nc == cands0.len(),
                        winner < nc,
                        0 <= vi < nv,
                        0 <= j < ne,
                        k <= ne,
                        ne == voters@[vi as int].edges@.len(),
                        !cands0[winner as int].elected,
                        graph_ok(cands0, vs0, -1),
                        touched,
                        has_edge_to(vs0[vi as int], winner as int),
                        voters@[vi as int].edges@[j as int].candidate_index == winner,
                        forall|c: int|
                            0 <= c < nc ==> {
                                let cc = #[trigger] candidates@[c];
                                &&& cc.who == cands0[c].who
                                &&& cc.approval_stake == cands0[c].approval_stake
                                &&& cc.elected == cands0[c].elected
                                &&& cc.round == cands0[c].round
                                &&& cc.score == cands0[c].score
                            },
                        forall|c: int|
                            0 <= c < nc ==> {
                                &&& (c == winner ==> (#[trigger] candidates@[c]).backed_stake >= cands0[c].backed_stake)
                                &&& (c != winner ==> candidates@[c].backed_stake <= cands0[c].backed_stake)
                                &&& (c != winner && !cands0[c].elected ==> candidates@[c].backed_stake == cands0[c].backed_stake)
                                &&& (c != winner && cands0[c].backed_stake <= cutoff ==> candidates@[c].backed_stake == cands0[c].backed_stake)
                            },
                        same_voter_shape(vs0, voters@),
                        voters_ok(candidates@, voters@, winner as int),
                        cands_ok(candidates@, voters@),
                        forall|i: int| vi < i < nv ==> #[trigger] voters@[i] == vs0[i],
                        forall|i: int|
                            0 <= i < vi ==> {
                                &&& (has_edge_to(vs0[i], winner as int) ==> sum_edge_weights(
                                    (#[trigger] voters@[i]).edges@,
                                ) == vs0[i].budget)
                                &&& (!has_edge_to(vs0[i], winner as int) ==> voters@[i] == vs0[i])
                            },
                        sum_edge_weights(voters@[vi as int].edges@) == vs0[vi as int].budget,
                        forall|j2: int|
                            j < j2 < ne && (#[trigger] voters@[vi as int].edges@[j2]).candidate_index
                                == winner ==> voters@[vi as int].edges@[j2].weight == 0,
                    decreases ne - k,
                {
                    let k_ci = voters[vi].edges[k].candidate_index;
                    let k_w = voters[vi].edges[k].weight;
                    if k_w > 0 && k_ci != winner {
                        let backed = candidates[k_ci].backed_stake;
                        if backed > cutoff {
                            proof {
                                assert(voter_ok(candidates@, voters@[vi as int], winner as int));
                                lemma_backing_bounds(voters@[vi as int].edges@, k_ci as int);
                                lemma_backed_bounds(
                                    candidates@,
                                    voters@,
                                    k_ci as int,
                                    winner as int,
                                );
                            }
                            let stake_to_take = sat_mul(k_w, cutoff) / backed;
                            proof {
                                assert(stake_to_take <= k_w) by (nonlinear_arith)
                                    requires
                                        backed > cutoff,
                                        backed >= 1,
                                        stake_to_take == (if k_w * cutoff > u128::MAX {
                                            u128::MAX as int
                                        } else {
                                            k_w as int * cutoff as int
                                        }) / backed as int,
                                        k_w * cutoff >= 0,
                                        k_w <= u128::MAX,
                                ;
                            }
                            let ghost vs_b = voters@;
                            let cur_e2 = voters[vi].edges[k];
                            voters[vi].edges[k] = Edge {
                                who: cur_e2.who,
                                candidate_index: cur_e2.candidate_index,
                                load: cur_e2.load,
                                weight: cur_e2.weight - stake_to_take,
                            };
                            proof {
                                lemma_update_edge(
                                    vs_b[vi as int].edges@,
                                    k as int,
                                    voters@[vi as int].edges@[k as int],
                                );
                                lemma_update_voter(vs_b, vi as int, voters@[vi as int]);
                                assert(voters@ =~= vs_b.update(vi as int, voters@[vi as int]));
                            }
                            let cur_ck = candidates[k_ci];
                            candidates[k_ci] = Candidate {
                                who: cur_ck.who,
                                score: cur_ck.score,
                                approval_stake: cur_ck.approval_stake,
                                backed_stake: cur_ck.backed_stake - stake_to_take,
                                elected: cur_ck.elected,
                                round: cur_ck.round,
                            };
                            let ghost vs_c = voters@;
                            let cur_e3 = voters[vi].edges[j];
                            proof {
                                lemma_backed_bounds(
                                    candidates@,
                                    voters@,
                                    winner as int,
                                    winner as int,
                                );
                                lemma_sum_budgets_shape(vs0, voters@);
                                lemma_total_fits(candidates@, voters@, winner as int);
                                lemma_backing_bounds(voters@[vi as int].edges@, winner as int);
                            }
                            voters[vi].edges[j] = Edge {
                                who: cur_e3.who,
                                candidate_index: cur_e3.candidate_index,
                                load: cur_e3.load,
                                weight: cur_e3.weight + stake_to_take,
                            };
                            proof {
                                lemma_update_edge(
                                    vs_c[vi as int].edges@,
                                    j as int,
                                    voters@[vi as int].edges@[j as int],
                                );
                                lemma_update_voter(vs_c, vi as int, voters@[vi as int]);
                                assert(voters@ =~= vs_c.update(vi as int, voters@[vi as int]));
                            }
                            let cur_cw = candidates[winner];
                            candidates[winner] = Candidate {
                                who: cur_cw.who,
                                score: cur_cw.score,
                                approval_stake: cur_cw.approval_stake,
                                backed_stake: cur_cw.backed_stake + stake_to_take,
                                elected: cur_cw.elected,
                                round: cur_cw.round,
                            };
                        }
                    }
                    k = k + 1;
                }
            }
            j = j + 1;
        }
        proof {
            if has_edge_to(vs0[vi as int], winner as int) {
                assert(touched);
            }
        }
        vi = vi + 1;
    }
}

} // verus!
