//! The balanced-heuristic election: iteratively score, elect and rebalance,
//! then emit the winners and the normalized ratio assignments.

use crate::apply::apply_elected;
use crate::arith::ACCURACY_MAX;
use crate::assignments::{parts_of, ratio_distribution, Assignment, ElectionResult};
use crate::normalizing::sum_seq;
use crate::balancing::balance;
use crate::rational::Rational;
use crate::graph::{built_candidate, setup_inputs};
use crate::score::{calculate_max_score, qualified};
use crate::types::{
    graph_ok, has_edge_to, sum_edge_weights, same_voter_shape, voter_ok, voters_ok, Candidate,
    Voter,
};
use vstd::prelude::*;

verus! {

/// Whether a voter has an edge to some elected candidate.
pub open spec fn has_elected_edge(cands: Seq<Candidate>, v: Voter) -> bool {
    exists|j: int|
        0 <= j < v.edges@.len() && (#[trigger] v.edges@[j]).candidate_index < cands.len()
            && cands[v.edges@[j].candidate_index as int].elected
}

/// How many candidates could still be elected: unelected, with approvals.
pub open spec fn count_qualified(cands: Seq<Candidate>) -> int
    decreases cands.len(),
{
    if cands.len() == 0 {
        0
    } else {
        count_qualified(cands.drop_last()) + (if !cands.last().elected
            && cands.last().approval_stake > 0 {
            1int
        } else {
            0int
        })
    }
}

/// The count only reads the election flag and the approval stake.
pub proof fn lemma_count_same(a: Seq<Candidate>, b: Seq<Candidate>)
    requires
        a.len() == b.len(),
        forall|c: int|
            0 <= c < a.len() ==> (#[trigger] b[c]).elected == a[c].elected && b[c].approval_stake
                == a[c].approval_stake,
    ensures
        count_qualified(a) == count_qualified(b),
    decreases a.len(),
{
    if a.len() > 0 {
        assert(forall|c: int|
            0 <= c < a.len() - 1 ==> (#[trigger] a.drop_last()[c]) == a[c] && b.drop_last()[c]
                == b[c]);
        lemma_count_same(a.drop_last(), b.drop_last());
    }
}

/// Electing one qualified candidate lowers the count by one.
pub proof fn lemma_count_elect(a: Seq<Candidate>, w: int, cw: Candidate)
    requires
        qualified(a, w),
        cw.elected,
        cw.approval_stake == a[w].approval_stake,
    ensures
        count_qualified(a.update(w, cw)) == count_qualified(a) - 1,
    decreases a.len(),
{
    let b = a.update(w, cw);
    if w == a.len() - 1 {
        assert(b.drop_last() =~= a.drop_last());
        assert(b.last() == cw);
    } else {
        assert(b.drop_last() =~= a.drop_last().update(w, cw));
        lemma_count_elect(a.drop_last(), w, cw);
        assert(b.last() == a.last());
    }
}

/// A positive count yields a qualified candidate; a zero count none.
pub proof fn lemma_count_bounds(a: Seq<Candidate>)
    ensures
        count_qualified(a) >= 0,
        count_qualified(a) == 0 <==> (forall|c: int| !qualified(a, c)),
    decreases a.len(),
{
    if a.len() == 0 {
        assert(forall|c: int| !qualified(a, c));
    } else {
        lemma_count_bounds(a.drop_last());
        assert(forall|c: int|
            0 <= c < a.len() - 1 ==> (#[trigger] a.drop_last()[c]) == a[c]);
        if count_qualified(a) == 0 {
            assert forall|c: int| !qualified(a, c) by {
                if 0 <= c < a.len() - 1 {
                    assert(!qualified(a.drop_last(), c));
                }
            }
        } else {
            if qualified(a, a.len() - 1) {
            } else {
                assert(count_qualified(a.drop_last()) > 0);
                let c0 = choose|c: int| qualified(a.drop_last(), c);
                assert(qualified(a, c0));
            }
        }
    }
}

/// Run the rounds of the election on a freshly built graph: in each round
/// score, pick the winner, reroute the stake, mark the winner elected with
/// the round number, and rebalance. Returns the winners' arena indices in
/// election order.
///
/// The number of winners is exactly the smaller of `to_elect` and the number
/// of candidates with approvals; the k-th winner carries round number k; a
/// voter with an edge to some elected candidate ends with its edge weights
/// summing to exactly its budget; and every candidate's recorded backing
/// equals the total weight on its incident edges.
#[verifier::rlimit(100)]
#[verifier::spinoff_prover]
pub fn run_election(
    to_elect: usize,
    candidates: &mut Vec<Candidate>,
    voters: &mut Vec<Voter>,
    acc: u128,
) -> (winners: Vec<usize>)
    requires
        1 <= acc <= ACCURACY_MAX,
        graph_ok(old(candidates)@, old(voters)@, -1),
        forall|c: int| 0 <= c < old(candidates)@.len() ==> !(#[trigger] old(candidates)@[c]).elected,
    ensures
        final(candidates)@.len() == old(candidates)@.len(),
        same_voter_shape(old(voters)@, final(voters)@),
        graph_ok(final(candidates)@, final(voters)@, -1),
        forall|c: int|
            0 <= c < old(candidates)@.len() ==> {
                let nc = #[trigger] final(candidates)@[c];
                &&& nc.who == old(candidates)@[c].who
                &&& nc.approval_stake == old(candidates)@[c].approval_stake
            },
        winners@.len() == vstd::math::min(to_elect as int, count_qualified(old(candidates)@)),
        forall|k: int|
            0 <= k < winners@.len() ==> {
                let w = #[trigger] winners@[k];
                &&& w < final(candidates)@.len()
                &&& final(candidates)@[w as int].elected
                &&& final(candidates)@[w as int].round == k
            },
        forall|c: int|
            0 <= c < final(candidates)@.len() && (#[trigger] final(candidates)@[c]).elected
                ==> final(candidates)@[c].approval_stake > 0,
        forall|k1: int, k2: int|
            0 <= k1 < k2 < winners@.len() ==> (#[trigger] winners@[k1]) != (#[trigger] winners@[k2]),
        forall|c: int|
            0 <= c < final(candidates)@.len() ==> ((#[trigger] final(candidates)@[c]).elected
                <==> exists|k: int| 0 <= k < winners@.len() && (#[trigger] winners@[k]) == c),
        to_elect >= count_qualified(old(candidates)@) ==> forall|c: int|
            0 <= c < final(candidates)@.len() && (#[trigger] final(candidates)@[c]).approval_stake
                > 0 ==> final(candidates)@[c].elected,
        forall|i: int|
            0 <= i < final(voters)@.len() && has_elected_edge(
                final(candidates)@,
                #[trigger] final(voters)@[i],
            ) ==> sum_edge_weights(final(voters)@[i].edges@) == final(voters)@[i].budget,
        to_elect == 0 ==> final(voters)@ == old(voters)@ && final(candidates)@ == old(candidates)@,
        exists|trace: Seq<RoundRecord>|
            #[trigger] round_chain_ok(
                old(candidates)@,
                old(voters)@,
                final(candidates)@,
                final(voters)@,
                winners@,
                acc,
                trace,
            ),
{
    let ghost cands0 = old(candidates)@;
    let ghost vs0 = old(voters)@;
    let ghost mut trace: Seq<RoundRecord> = Seq::empty();
    proof {
        lemma_count_bounds(cands0);
    }
    let mut winners: Vec<usize> = Vec::new();
    let nc = candidates.len();
    proof {
        assert(chain_links_ok(cands0, vs0, winners@, acc, trace)) by {
            reveal(chain_links_ok);
        }
    }
    let mut round: usize = 0;
    while round < to_elect
        invariant_except_break
            round == 0 ==> voters@ == vs0 && candidates@ == cands0,
            trace.len() > 0 ==> candidates@ == trace.last().2.0 && voters@ == trace.last().2.1,
            trace.len() == 0 ==> candidates@ == cands0 && voters@ == vs0,
        invariant
            trace.len() == winners@.len(),
            chain_links_ok(cands0, vs0, winners@, acc, trace),
            1 <= acc <= ACCURACY_MAX,
            nc == candidates@.len(),
            nc == cands0.len(),
            voters@.len() == vs0.len(),
            round <= to_elect,
            graph_ok(candidates@, voters@, -1),
            same_voter_shape(vs0, voters@),
            forall|c: int|
                0 <= c < nc ==> {
                    let cc = #[trigger] candidates@[c];
                    &&& cc.who == cands0[c].who
                    &&& cc.approval_stake == cands0[c].approval_stake
                },
            winners@.len() == round,
            count_qualified(candidates@) == count_qualified(cands0) - round,
            forall|k: int|
                0 <= k < winners@.len() ==> {
                    let w = #[trigger] winners@[k];
                    &&& w < nc
                    &&& candidates@[w as int].elected
                    &&& candidates@[w as int].round == k
                },
            forall|c: int|
                0 <= c < nc && (#[trigger] candidates@[c]).elected ==> candidates@[c].approval_stake
                    > 0,
            forall|c: int|
                0 <= c < nc ==> ((#[trigger] candidates@[c]).elected <==> exists|k: int|
                    0 <= k < winners@.len() && (#[trigger] winners@[k]) == c),
            forall|i: int|
                0 <= i < voters@.len() && has_elected_edge(candidates@, #[trigger] voters@[i])
                    ==> sum_edge_weights(voters@[i].edges@) == voters@[i].budget,
            count_qualified(cands0) >= round,
        ensures
            winners@.len() == vstd::math::min(to_elect as int, count_qualified(cands0)),
            to_elect == 0 ==> voters@ == vs0 && candidates@ == cands0,
            round_chain_ok(cands0, vs0, candidates@, voters@, winners@, acc, trace),
        decreases to_elect - round,
    {
        proof {
            lemma_count_bounds(candidates@);
        }
        if candidates.len() == 0 {
            proof {
                assert(count_qualified(candidates@) == 0);
                reveal(round_ok);
                reveal(chain_links_ok);
                if trace.len() > 0 {
                    assert(round_ok(trace[0].0, trace[0].1, trace[0].2, winners@[0] as int, 0, acc));
                    assert(qualified(trace[0].0.0, winners@[0] as int));
                    assert(trace[0].0 == (cands0, vs0));
                    assert(false);
                }
                assert(round_chain_ok(cands0, vs0, candidates@, voters@, winners@, acc, trace));
            }
            break ;
        }
        let ghost cands_r = candidates@;
        let ghost vs_r = voters@;
        let round_winner = calculate_max_score(candidates, voters, acc);
        proof {
            lemma_count_same(cands_r, candidates@);
        }
        if candidates[round_winner].elected || candidates[round_winner].approval_stake == 0 {
            // no unelected candidate with approvals is left: the rounds end
            proof {
                if exists|c: int| qualified(cands_r, c) {
                    assert(qualified(cands_r, round_winner as int));
                    assert(candidates@[round_winner as int].elected == cands_r[round_winner as int].elected);
                }
                assert(forall|c: int| !qualified(cands_r, c));
                lemma_count_bounds(cands_r);
                assert(count_qualified(candidates@) == 0);
                reveal(chain_links_ok);
                assert(candidates@ =~= scored_state(cands_r, vs_r, acc));
                if trace.len() > 0 {
                    assert(cands_r == trace.last().2.0 && vs_r == trace.last().2.1);
                } else {
                    assert(cands_r == cands0 && vs_r == vs0);
                }
                assert(round_chain_ok(cands0, vs0, candidates@, voters@, winners@, acc, trace));
            }
            break ;
        }
        let ghost cands_s = candidates@;
        let ghost vs_s = voters@;
        apply_elected(candidates, voters, round_winner);
        proof {
            lemma_count_same(cands_s, candidates@);
        }

        // mark the winner as elected in this round
        let cur = candidates[round_winner];
        let ghost cands_m = candidates@;
        let ghost vs_m = voters@;
        candidates[round_winner] = Candidate {
            who: cur.who,
            score: cur.score,
            approval_stake: cur.approval_stake,
            backed_stake: cur.backed_stake,
            elected: true,
            round,
        };
        let ghost winners_prev = winners@;
        winners.push(round_winner);
        proof {
            lemma_count_elect(cands_m, round_winner as int, candidates@[round_winner as int]);
            assert forall|c: int|
                0 <= c < nc implies ((#[trigger] candidates@[c]).elected <==> exists|k: int|
                    0 <= k < winners@.len() && (#[trigger] winners@[k]) == c) by {
                if c == round_winner {
                    assert(winners@[winners@.len() - 1] == c);
                } else {
                    if candidates@[c].elected {
                        let k = choose|k: int|
                            0 <= k < winners_prev.len() && winners_prev[k] == c;
                        assert(winners@[k] == c);
                    }
                    if exists|k: int| 0 <= k < winners@.len() && winners@[k] == c {
                        let k = choose|k: int| 0 <= k < winners@.len() && winners@[k] == c;
                        assert(k < winners_prev.len() && winners_prev[k] == c);
                    }
                }
            }
            // marking the winner elected legitimizes the weight it carries
            assert forall|i: int| 0 <= i < voters@.len() implies voter_ok(
                candidates@,
                #[trigger] voters@[i],
                -1,
            ) by {
                assert(voter_ok(cands_m, voters@[i], round_winner as int));
                assert forall|j: int| 0 <= j < voters@[i].edges@.len() implies crate::types::edge_ok(
                    candidates@,
                    #[trigger] voters@[i].edges@[j],
                    -1,
                ) by {
                    assert(crate::types::edge_ok(cands_m, voters@[i].edges@[j], round_winner as int));
                }
            }
            assert(crate::types::cands_ok(candidates@, voters@));
            // a voter backing some elected candidate carries its full budget
            assert forall|i: int|
                0 <= i < voters@.len() && has_elected_edge(candidates@, #[trigger] voters@[i])
                    implies sum_edge_weights(voters@[i].edges@) == voters@[i].budget by {
                let j = choose|j: int|
                    0 <= j < voters@[i].edges@.len() && (#[trigger] voters@[i].edges@[j]).candidate_index
                        < candidates@.len() && candidates@[voters@[i].edges@[j].candidate_index as int].elected;
                if voters@[i].edges@[j].candidate_index == round_winner {
                    assert(has_edge_to(vs_s[i], round_winner as int));
                } else {
                    assert(cands_m[voters@[i].edges@[j].candidate_index as int].elected);
                    assert(has_elected_edge(cands_m, vs_s[i]));
                    if has_edge_to(vs_s[i], round_winner as int) {
                    } else {
                        assert(voters@[i] == vs_s[i]);
                    }
                }
            }
        }

        let ghost cands_b = candidates@;
        let ghost vs_b = voters@;
        balance(candidates, voters, 2, 0);
        proof {
            lemma_count_same(cands_b, candidates@);
            lemma_count_bounds(candidates@);
            // assemble this round's record and extend the chain
            reveal(routed_rel);
            reveal(balanced_rel);
            reveal(round_ok);
            reveal(chain_links_ok);
            assert(cands_s =~= scored_state(cands_r, vs_r, acc));
            assert(vs_s == vs_r);
            assert(routed_rel(cands_s, vs_s, cands_m, vs_m, round_winner as int));
            assert(cands_b =~= marked_state(cands_m, round_winner as int, round as int));
            assert(vs_b == vs_m);
            if vs_b.len() >= 1 {
                let (st, df) = choose|st: Seq<(Seq<Candidate>, Seq<Voter>)>, df: Seq<u128>|
                    {
                        &&& #[trigger] crate::balancing::passes_ok(cands_b, vs_b, st, df, vs_b.len() as int, 0)
                        &&& (st.len() as int) % (vs_b.len() as int) == 0
                        &&& vs_b.len() <= st.len() <= 2 * vs_b.len()
                        &&& candidates@ == st.last().0
                        &&& voters@ == st.last().1
                    };
                assert(crate::balancing::passes_ok(cands_b, vs_b, st, df, vs_b.len() as int, 0));
            }
            assert(balanced_rel(cands_b, vs_b, candidates@, voters@));
            let ghost pre_k: RoundState = if trace.len() == 0 { (cands0, vs0) } else { trace.last().2 };
            assert(pre_k == (cands_r, vs_r));
            assert(round_ok(
                (cands_r, vs_r),
                (cands_m, vs_m),
                (candidates@, voters@),
                round_winner as int,
                round as int,
                acc,
            ));
            let ghost trace_a = trace;
            trace = trace.push((
                (cands_r, vs_r),
                (cands_m, vs_m),
                (candidates@, voters@),
            ));
            assert forall|k: int| #![trigger trace[k]] 0 <= k < trace.len() implies round_ok(
                trace[k].0,
                trace[k].1,
                trace[k].2,
                winners@[k] as int,
                k,
                acc,
            ) && trace[k].0 == (if k == 0 {
                (cands0, vs0)
            } else {
                trace[k - 1].2
            }) by {
                if k < trace.len() - 1 {
                    assert(trace[k] == trace_a[k]);
                    if k > 0 {
                        assert(trace[k - 1] == trace_a[k - 1]);
                    }
                    assert(winners@[k] == winners@[k]);
                } else {
                    if k > 0 {
                        assert(trace[k - 1] == trace_a[k - 1]);
                    }
                }
            }
            assert(chain_links_ok(cands0, vs0, winners@, acc, trace)) by {
                reveal(chain_links_ok);
            }
            assert forall|i: int|
                0 <= i < voters@.len() && has_elected_edge(candidates@, #[trigger] voters@[i])
                    implies sum_edge_weights(voters@[i].edges@) == voters@[i].budget by {
                let j = choose|j: int|
                    0 <= j < voters@[i].edges@.len() && (#[trigger] voters@[i].edges@[j]).candidate_index
                        < candidates@.len() && candidates@[voters@[i].edges@[j].candidate_index as int].elected;
                assert(voters@[i].edges@[j].candidate_index == vs_b[i].edges@[j].candidate_index);
                assert(has_elected_edge(cands_b, vs_b[i]));
            }
        }
        round = round + 1;
    }
    proof {
        lemma_count_bounds(candidates@);
        lemma_count_bounds(cands0);
        assert forall|k1: int, k2: int| 0 <= k1 < k2 < winners@.len() implies (
        #[trigger] winners@[k1]) != (#[trigger] winners@[k2]) by {
            assert(candidates@[winners@[k1] as int].round == k1);
            assert(candidates@[winners@[k2] as int].round == k2);
        }
        if to_elect >= count_qualified(cands0) {
            assert(count_qualified(candidates@) == 0);
            assert forall|c: int|
                0 <= c < candidates@.len() && (#[trigger] candidates@[c]).approval_stake > 0
                    implies candidates@[c].elected by {
                assert(!qualified(candidates@, c));
            }
        }
    }
    winners
}

/// The candidate arena the graph build makes of the raw inputs.
pub open spec fn built_arena(whos: Seq<u64>, rows: Seq<(u64, u64, Vec<u64>)>) -> Seq<Candidate> {
    Seq::new(whos.len(), |c: int| built_candidate(whos, rows, c))
}

/// How many of the named candidates the raw voters give any approval.
pub open spec fn count_approved(whos: Seq<u64>, rows: Seq<(u64, u64, Vec<u64>)>) -> int {
    count_qualified(built_arena(whos, rows))
}

/// The assignments a set of voters gives rise to, before normalization: one
/// entry per voter with a non-empty ratio distribution, in voter order.
pub open spec fn raw_emission(vs: Seq<Voter>, acc: u128) -> Seq<(u64, Seq<(u64, u128)>)>
    decreases vs.len(),
{
    if vs.len() == 0 {
        Seq::empty()
    } else {
        let rest = raw_emission(vs.drop_last(), acc);
        let d = ratio_distribution(vs.last().edges@, vs.last().budget, acc);
        if d.len() > 0 {
            rest.push((vs.last().who, d))
        } else {
            rest
        }
    }
}

/// What an election result says of its run: there is a final graph state,
/// reached from the given inputs, whose elected candidates are exactly the
/// returned winners (paired with their recorded backing, in round order,
/// pairwise distinct, each approved), whose voters with an elected edge carry
/// their full budget, and whose per-voter ratio distributions — normalized —
/// are exactly the returned assignments, in voter order.
#[verifier::opaque]
pub open spec fn election_outcome_ok(
    res: ElectionResult,
    to_elect: int,
    whos: Seq<u64>,
    rows: Seq<(u64, u64, Vec<u64>)>,
    acc: u128,
    cands: Seq<Candidate>,
    vs: Seq<Voter>,
    widx: Seq<int>,
) -> bool {
    &&& graph_ok(cands, vs, -1)
    &&& (to_elect >= count_approved(whos, rows) ==> forall|c: int|
        0 <= c < cands.len() && (#[trigger] cands[c]).approval_stake > 0 ==> cands[c].elected)
    &&& cands.len() == whos.len()
    &&& forall|c: int|
        0 <= c < cands.len() ==> (#[trigger] cands[c]).who == whos[c] && cands[c].approval_stake
            == built_candidate(whos, rows, c).approval_stake
    &&& vs.len() == rows.len()
    &&& forall|i: int|
        0 <= i < vs.len() ==> {
            let v = #[trigger] vs[i];
            &&& v.who == rows[i].0
            &&& v.budget == rows[i].1 as u128
            &&& v.edges@.len() == crate::graph::edges_of_votes(whos, rows[i].2@).len()
            &&& forall|j: int|
                0 <= j < v.edges@.len() ==> (#[trigger] v.edges@[j]).who
                    == crate::graph::edges_of_votes(whos, rows[i].2@)[j].who
                    && v.edges@[j].candidate_index == crate::graph::edges_of_votes(
                    whos,
                    rows[i].2@,
                )[j].candidate_index
        }
    &&& widx.len() == res.winners@.len()
    &&& forall|k: int|
        0 <= k < widx.len() ==> {
            let w = #[trigger] widx[k];
            &&& 0 <= w < cands.len()
            &&& cands[w].elected
            &&& cands[w].round == k
            &&& cands[w].approval_stake > 0
            &&& res.winners@[k] == (cands[w].who, cands[w].backed_stake)
        }
    &&& forall|k1: int, k2: int| 0 <= k1 < k2 < widx.len() ==> widx[k1] != widx[k2]
    &&& forall|c: int|
        0 <= c < cands.len() ==> ((#[trigger] cands[c]).elected <==> exists|k: int|
            0 <= k < widx.len() && widx[k] == c)
    &&& forall|i: int|
        0 <= i < vs.len() && has_elected_edge(cands, #[trigger] vs[i]) ==> sum_edge_weights(
            vs[i].edges@,
        ) == vs[i].budget
    &&& exists|v_init: Seq<Voter>, widx_u: Seq<usize>, trace: Seq<RoundRecord>|
        {
            &&& #[trigger] round_chain_ok(
                built_arena(whos, rows),
                v_init,
                cands,
                vs,
                widx_u,
                acc,
                trace,
            )
            &&& widx_u.len() == widx.len()
            &&& (forall|k: int| 0 <= k < widx.len() ==> (#[trigger] widx_u[k]) as int == widx[k])
            &&& v_init.len() == rows.len()
            &&& forall|i: int|
                0 <= i < v_init.len() ==> {
                    let v = #[trigger] v_init[i];
                    &&& v.who == rows[i].0
                    &&& v.budget == rows[i].1 as u128
                    &&& v.edges@ == crate::graph::edges_of_votes(whos, rows[i].2@)
                    &&& v.load == (Rational { n: 0, d: 1 })
                }
        }
    &&& res.assignments@.len() == raw_emission(vs, acc).len()
    &&& forall|k: int|
        0 <= k < res.assignments@.len() ==> {
            let a = #[trigger] res.assignments@[k];
            let raw = raw_emission(vs, acc)[k];
            &&& a.who == raw.0
            &&& a.distribution@.len() == raw.1.len()
            &&& crate::assignments::targets_of(a.distribution@)
                == crate::assignments::targets_of(raw.1)
            &&& parts_of(a.distribution@) == crate::normalizing::normalized_of(
                parts_of(raw.1),
                acc,
            )
        }
}

/// The candidate arena with every score finalized for a round: what the
/// scoring pass leaves, as a function of the state it reads.
pub open spec fn scored_state(cands: Seq<Candidate>, vs: Seq<Voter>, acc: u128) -> Seq<Candidate> {
    Seq::new(
        cands.len(),
        |c: int|
            Candidate {
                who: cands[c].who,
                score: crate::score::final_score(cands, vs, c, acc),
                approval_stake: cands[c].approval_stake,
                backed_stake: cands[c].backed_stake,
                elected: cands[c].elected,
                round: cands[c].round,
            },
    )
}

/// The candidate arena with the round's winner marked elected.
pub open spec fn marked_state(cands: Seq<Candidate>, w: int, round_no: int) -> Seq<Candidate> {
    cands.update(
        w,
        Candidate {
            who: cands[w].who,
            score: cands[w].score,
            approval_stake: cands[w].approval_stake,
            backed_stake: cands[w].backed_stake,
            elected: true,
            round: round_no as usize,
        },
    )
}

/// The stake-routing step as a relation between the states around it: what
/// `apply_elected` ensures of its caller, read over explicit pre and post
/// states (`c0` is the arena with the round's scores already in place).
#[verifier::opaque]
pub open spec fn routed_rel(
    c0: Seq<Candidate>,
    v0: Seq<Voter>,
    c1: Seq<Candidate>,
    v1: Seq<Voter>,
    w: int,
) -> bool {
    &&& 0 <= w < c0.len()
    &&& c1.len() == c0.len()
    &&& forall|c: int|
        0 <= c < c0.len() ==> {
            let nc = #[trigger] c1[c];
            &&& nc.who == c0[c].who
            &&& nc.approval_stake == c0[c].approval_stake
            &&& nc.elected == c0[c].elected
            &&& nc.round == c0[c].round
            &&& nc.score == c0[c].score
        }
    &&& forall|c: int|
        0 <= c < c0.len() ==> {
            &&& (c == w ==> (#[trigger] c1[c]).backed_stake >= c0[c].backed_stake)
            &&& (c != w ==> c1[c].backed_stake <= c0[c].backed_stake)
            &&& (c != w && !c0[c].elected ==> c1[c].backed_stake == c0[c].backed_stake)
            &&& (c != w && c0[c].backed_stake as int <= crate::arith::drn(
                c0[w].score.n as int,
                c0[w].score.d as int,
            ) ==> c1[c].backed_stake == c0[c].backed_stake)
        }
    &&& same_voter_shape(v0, v1)
    &&& graph_ok(c1, v1, w)
    &&& forall|i: int|
        0 <= i < v0.len() ==> {
            &&& (has_edge_to(v0[i], w) ==> sum_edge_weights((#[trigger] v1[i]).edges@) == v0[
                i].budget)
            &&& (!has_edge_to(v0[i], w) ==> v1[i] == v0[i])
        }
}

/// The between-rounds balancing as a relation between the states around it:
/// what `balance` ensures of its caller for the shipped parameters (two
/// passes, zero tolerance).
#[verifier::opaque]
pub open spec fn balanced_rel(
    c0: Seq<Candidate>,
    v0: Seq<Voter>,
    c1: Seq<Candidate>,
    v1: Seq<Voter>,
) -> bool {
    &&& c1.len() == c0.len()
    &&& v1.len() == v0.len()
    &&& (v0.len() == 0 ==> c1 == c0 && v1 == v0)
    &&& (v0.len() >= 1 ==> exists|
        states: Seq<(Seq<Candidate>, Seq<Voter>)>,
        diffs: Seq<u128>,
    |
        {
            &&& #[trigger] crate::balancing::passes_ok(c0, v0, states, diffs, v0.len() as int, 0)
            &&& (states.len() as int) % (v0.len() as int) == 0
            &&& v0.len() <= states.len() <= 2 * v0.len()
            &&& c1 == states.last().0
            &&& v1 == states.last().1
        })
    &&& forall|c: int|
        0 <= c < c0.len() ==> {
            let cc = #[trigger] c1[c];
            &&& cc.who == c0[c].who
            &&& cc.approval_stake == c0[c].approval_stake
            &&& cc.elected == c0[c].elected
            &&& cc.round == c0[c].round
            &&& cc.score == c0[c].score
        }
    &&& same_voter_shape(v0, v1)
    &&& graph_ok(c1, v1, -1)
    &&& forall|i: int|
        0 <= i < v0.len() ==> sum_edge_weights((#[trigger] v1[i]).edges@) == sum_edge_weights(
            v0[i].edges@,
        )
}

/// One full round as a relation: the winner is a qualified candidate whose
/// finalized score for the pre-round state no other qualified candidate
/// beats (the first such, on ties); the stake is then routed to it per the
/// routing relation over the scored arena; and the winner is marked elected
/// with the round number before the balancing relation leads to the next
/// round's state.
#[verifier::opaque]
pub open spec fn round_ok(
    pre: (Seq<Candidate>, Seq<Voter>),
    mid: (Seq<Candidate>, Seq<Voter>),
    post: (Seq<Candidate>, Seq<Voter>),
    w: int,
    k: int,
    acc: u128,
) -> bool {
    &&& qualified(pre.0, w)
    &&& forall|j: int|
        qualified(pre.0, j) ==> !crate::rational::rat_gt_spec(
            crate::score::final_score(pre.0, pre.1, j, acc).n,
            crate::score::final_score(pre.0, pre.1, j, acc).d,
            crate::score::final_score(pre.0, pre.1, w, acc).n,
            crate::score::final_score(pre.0, pre.1, w, acc).d,
        )
    &&& forall|j: int|
        qualified(pre.0, j) && j < w ==> crate::rational::rat_gt_spec(
            crate::score::final_score(pre.0, pre.1, w, acc).n,
            crate::score::final_score(pre.0, pre.1, w, acc).d,
            crate::score::final_score(pre.0, pre.1, j, acc).n,
            crate::score::final_score(pre.0, pre.1, j, acc).d,
        )
    &&& routed_rel(scored_state(pre.0, pre.1, acc), pre.1, mid.0, mid.1, w)
    &&& balanced_rel(marked_state(mid.0, w, k), mid.1, post.0, post.1)
}

/// One point of the election: the candidate arena and the voters.
pub type RoundState = (Seq<Candidate>, Seq<Voter>);

/// One round's record: the state it read, the state after routing, and the
/// state its balancing left.
pub type RoundRecord = (RoundState, RoundState, RoundState);

/// The links of a round trace: each record reads the state the previous one
/// left (the first reads the built graph) and satisfies the round relation
/// for its winner and round number.
#[verifier::opaque]
pub open spec fn chain_links_ok(
    c_init: Seq<Candidate>,
    v_init: Seq<Voter>,
    widx: Seq<usize>,
    acc: u128,
    trace: Seq<RoundRecord>,
) -> bool {
    &&& trace.len() == widx.len()
    &&& forall|k: int|
        #![trigger trace[k]]
        0 <= k < trace.len() ==> round_ok(
            trace[k].0,
            trace[k].1,
            trace[k].2,
            widx[k] as int,
            k,
            acc,
        )
    &&& forall|k: int| 0 <= k < trace.len() ==> (#[trigger] trace[k]).0 == (if k == 0 {
        (c_init, v_init)
    } else {
        trace[k - 1].2
    })
}

/// The whole run of rounds as a chained relation: round k starts where round
/// k-1's balancing ended (round 0 at the built graph), elects `widx[k]` as
/// that round's score maximizer, and the final state is the last round's
/// outcome — directly, when the round budget ran out; or after one more
/// scoring pass (or none, for an empty arena) that found no qualified
/// candidate left.
pub open spec fn round_chain_ok(
    c_init: Seq<Candidate>,
    v_init: Seq<Voter>,
    c_fin: Seq<Candidate>,
    v_fin: Seq<Voter>,
    widx: Seq<usize>,
    acc: u128,
    trace: Seq<RoundRecord>,
) -> bool {
    let last_post: RoundState = if trace.len() == 0 {
        (c_init, v_init)
    } else {
        trace.last().2
    };
    &&& chain_links_ok(c_init, v_init, widx, acc, trace)
    &&& {
        ||| (c_fin == last_post.0 && v_fin == last_post.1)
        ||| (c_fin == scored_state(last_post.0, last_post.1, acc) && v_fin == last_post.1 && (
        forall|j: int| !qualified(last_post.0, j)))
    }
}

/// There is a final graph state that ties the returned election result to
/// the given inputs as [`election_outcome_ok`] demands.
pub open spec fn election_result_ok(
    res: ElectionResult,
    to_elect: int,
    whos: Seq<u64>,
    rows: Seq<(u64, u64, Vec<u64>)>,
    acc: u128,
) -> bool {
    exists|cands: Seq<Candidate>, vs: Seq<Voter>, widx: Seq<int>|
        #[trigger] election_outcome_ok(res, to_elect, whos, rows, acc, cands, vs, widx)
}

/// Elect up to `to_elect` of the given candidates from the given voters, and
/// spread each voter's stake over the winners it approves, as ratios of
/// accuracy `acc` normalized to sum to exactly one whole.
///
/// The election always succeeds; the number of winners is exactly the
/// smaller of `to_elect` and the number of candidates with any approval;
/// asking for no winners yields no winners and no assignments; and every
/// returned assignment is non-empty with ratios summing to one whole.
#[verifier::rlimit(100)]
#[verifier::spinoff_prover]
pub fn balanced_heuristic(
    to_elect: usize,
    initial_candidates: Vec<u64>,
    initial_voters: Vec<(u64, u64, Vec<u64>)>,
    acc: u128,
) -> (r: Result<ElectionResult, &'static str>)
    requires
        1 <= acc <= ACCURACY_MAX,
    ensures
        r is Ok,
        r matches Ok(res) ==> res.winners@.len() == vstd::math::min(
            to_elect as int,
            count_approved(initial_candidates@, initial_voters@),
        ),
        r matches Ok(res) ==> (to_elect == 0 ==> res.winners@.len() == 0 && res.assignments@.len()
            == 0),
        r matches Ok(res) ==> forall|k: int|
            0 <= k < res.assignments@.len() ==> {
                let a = #[trigger] res.assignments@[k];
                &&& a.distribution@.len() > 0
                &&& sum_seq(parts_of(a.distribution@)) == acc
            },
        r matches Ok(res) ==> election_result_ok(
            res,
            to_elect as int,
            initial_candidates@,
            initial_voters@,
            acc,
        ),
{
    let ghost whos0 = initial_candidates@;
    let ghost rows0 = initial_voters@;
    let (mut candidates, mut voters) = setup_inputs(initial_candidates, initial_voters);
    proof {
        let built = Seq::new(candidates@.len(), |c: int| built_candidate(whos0, rows0, c));
        assert(candidates@ =~= built);
    }
    let ghost cands_setup = candidates@;
    let ghost vs_setup = voters@;
    let winners_idx = run_election(to_elect, &mut candidates, &mut voters, acc);
    let ghost cands_fin = candidates@;
    let ghost vs_fin = voters@;

    // Emit one ratio assignment per voter that kept any stake.
    let mut assignments: Vec<Assignment> = Vec::new();
    let nv = voters.len();
    let mut i: usize = 0;
    while i < nv
        invariant
            nv == voters@.len(),
            i <= nv,
            1 <= acc <= ACCURACY_MAX,
            voters@ == vs_fin,
            assignments@.len() == raw_emission(vs_fin.take(i as int), acc).len(),
            forall|k: int|
                0 <= k < assignments@.len() ==> {
                    let a = #[trigger] assignments@[k];
                    &&& a.who == raw_emission(vs_fin.take(i as int), acc)[k].0
                    &&& a.distribution@ == raw_emission(vs_fin.take(i as int), acc)[k].1
                    &&& a.distribution@.len() > 0
                    &&& a.wf(acc)
                },
            to_elect == 0 ==> assignments@.len() == 0,
            to_elect == 0 ==> forall|i2: int, j2: int|
                0 <= i2 < voters@.len() && 0 <= j2 < (#[trigger] voters@[i2]).edges@.len() ==> (
                #[trigger] voters@[i2].edges@[j2]).weight == 0,
        decreases nv - i,
    {
        proof {
            assert(vs_fin.take(i + 1).drop_last() =~= vs_fin.take(i as int));
            assert(vs_fin.take(i + 1).last() == vs_fin[i as int]);
        }
        let ghost raw_prev = raw_emission(vs_fin.take(i as int), acc);
        match voters[i].into_assignment(acc) {
            Some(assignment) => {
                proof {
                    if to_elect == 0 {
                        crate::assignments::lemma_zero_ratio_distribution(
                            voters@[i as int].edges@,
                            voters@[i as int].budget,
                            acc,
                        );
                    }
                    assert(raw_emission(vs_fin.take(i + 1), acc) == raw_prev.push(
                        (
                            vs_fin[i as int].who,
                            ratio_distribution(
                                vs_fin[i as int].edges@,
                                vs_fin[i as int].budget,
                                acc,
                            ),
                        ),
                    ));
                }
                assignments.push(assignment);
            },
            None => {
                proof {
                    assert(raw_emission(vs_fin.take(i + 1), acc) == raw_prev);
                }
            },
        }
        i = i + 1;
    }
    proof {
        assert(vs_fin.take(nv as int) =~= vs_fin);
    }
    let ghost asg_raw = assignments@;

    // Normalize every assignment so its ratios sum to exactly one whole.
    let na = assignments.len();
    let mut k: usize = 0;
    while k < na
        invariant
            na == assignments@.len(),
            na == asg_raw.len(),
            k <= na,
            1 <= acc <= ACCURACY_MAX,
            forall|k2: int| k <= k2 < na ==> #[trigger] assignments@[k2] == asg_raw[k2],
            forall|k2: int|
                0 <= k2 < na ==> {
                    let a = #[trigger] asg_raw[k2];
                    &&& a.distribution@.len() > 0
                    &&& a.wf(acc)
                },
            forall|k2: int|
                0 <= k2 < k ==> {
                    let a = #[trigger] assignments@[k2];
                    &&& a.who == asg_raw[k2].who
                    &&& a.distribution@.len() == asg_raw[k2].distribution@.len()
                    &&& a.distribution@.len() > 0
                    &&& crate::assignments::targets_of(a.distribution@)
                        == crate::assignments::targets_of(asg_raw[k2].distribution@)
                    &&& parts_of(a.distribution@) == crate::normalizing::normalized_of(
                        parts_of(asg_raw[k2].distribution@),
                        acc,
                    )
                    &&& sum_seq(parts_of(a.distribution@)) == acc
                },
        decreases na - k,
    {
        let res = assignments[k].try_normalize(acc);
        match res {
            Ok(()) => {},
            Err(e) => {
                return Err(e);
            },
        }
        k = k + 1;
    }

    // Pair each winner with the stake that backs it.
    let mut winners: Vec<(u64, u128)> = Vec::new();
    let nw = winners_idx.len();
    let mut w: usize = 0;
    while w < nw
        invariant
            nw == winners_idx@.len(),
            w <= nw,
            winners@.len() == w,
            candidates@ == cands_fin,
            forall|k2: int| 0 <= k2 < nw ==> (#[trigger] winners_idx@[k2]) < candidates@.len(),
            forall|k2: int|
                0 <= k2 < w ==> #[trigger] winners@[k2] == (
                    cands_fin[winners_idx@[k2] as int].who,
                    cands_fin[winners_idx@[k2] as int].backed_stake,
                ),
        decreases nw - w,
    {
        let idx = winners_idx[w];
        winners.push((candidates[idx].who, candidates[idx].backed_stake));
        w = w + 1;
    }

    let result = ElectionResult { winners, assignments };
    proof {
        reveal(election_outcome_ok);
        let built = Seq::new(whos0.len(), |c: int| built_candidate(whos0, rows0, c));
        let widx = winners_idx@.map_values(|u: usize| u as int);
        assert forall|k2: int| 0 <= k2 < widx.len() implies {
            let wk = #[trigger] widx[k2];
            &&& 0 <= wk < cands_fin.len()
            &&& cands_fin[wk].elected
            &&& cands_fin[wk].round == k2
            &&& cands_fin[wk].approval_stake > 0
            &&& result.winners@[k2] == (cands_fin[wk].who, cands_fin[wk].backed_stake)
        } by {
            assert(widx[k2] == winners_idx@[k2] as int);
        }
        assert forall|k1: int, k2: int| 0 <= k1 < k2 < widx.len() implies widx[k1] != widx[k2] by {
            assert(winners_idx@[k1] != winners_idx@[k2]);
        }
        assert forall|c: int|
            0 <= c < cands_fin.len() implies ((#[trigger] cands_fin[c]).elected <==> exists|
            k2: int,
        | 0 <= k2 < widx.len() && widx[k2] == c) by {
            if cands_fin[c].elected {
                let k2 = choose|k2: int|
                    0 <= k2 < winners_idx@.len() && (#[trigger] winners_idx@[k2]) == c;
                assert(widx[k2] == c);
            }
            if exists|k2: int| 0 <= k2 < widx.len() && widx[k2] == c {
                let k2 = choose|k2: int| 0 <= k2 < widx.len() && widx[k2] == c;
                assert(winners_idx@[k2] == c);
            }
        }
        assert(Seq::new(whos0.len(), |c: int| built_candidate(whos0, rows0, c)) =~= built);
        assert(count_approved(whos0, rows0) == count_qualified(built));
        let tr = choose|tr: Seq<RoundRecord>|
            #[trigger] round_chain_ok(cands_setup, vs_setup, cands_fin, vs_fin, winners_idx@, acc, tr);
        assert(round_chain_ok(cands_setup, vs_setup, cands_fin, vs_fin, winners_idx@, acc, tr));
        assert(cands_setup == built_arena(whos0, rows0));
        assert(result.winners@.len() == vstd::math::min(to_elect as int, count_approved(
            whos0,
            rows0,
        )));
        assert(election_outcome_ok(result, to_elect as int, whos0, rows0, acc, cands_fin, vs_fin, widx));
        assert(election_result_ok(result, to_elect as int, whos0, rows0, acc)) by {
            assert(election_outcome_ok(
                result,
                to_elect as int,
                whos0,
                rows0,
                acc,
                cands_fin,
                vs_fin,
                widx,
            ));
        }
    }
    Ok(result)
}

} // verus!
