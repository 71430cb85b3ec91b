//! The scoring round: compute every candidate's score for this round and pick
//! the best unelected candidate.
//!
//! A candidate's score is the rational `approval_stake * acc / d`, where `d`
//! accumulates, over every edge of every voter incident to it, the voter's
//! load denominator: the sum over the voter's elected edges of the ratio of
//! edge weight to the backing of the elected candidate, scaled by `acc`.

use crate::arith::{ratio_parts, ratio_parts_spec, sat_mul, sat_add_spec, sat_mul_spec, ACCURACY_MAX};
use crate::rational::{rat_gt_spec, Rational};
use crate::types::{graph_ok, voter_ok, Candidate, Edge, Voter};
use vstd::prelude::*;

verus! {

/// A candidate that can still win this round: unelected, with approvals.
pub open spec fn qualified(cands: Seq<Candidate>, c: int) -> bool {
    &&& 0 <= c < cands.len()
    &&& !cands[c].elected
    &&& cands[c].approval_stake > 0
}

/// The denominator contribution of one voter: over its elected edges, the
/// saturating sum of each edge's weight approximated as a ratio of its
/// candidate's backing, in `acc` parts.
pub open spec fn dc_of(cands: Seq<Candidate>, es: Seq<Edge>, acc: u128) -> u128
    decreases es.len(),
{
    if es.len() == 0 {
        0
    } else {
        let rest = dc_of(cands, es.drop_last(), acc);
        let e = es.last();
        if e.candidate_index < cands.len() && cands[e.candidate_index as int].elected {
            sat_add_spec(
                rest,
                ratio_parts_spec(
                    e.weight,
                    cands[e.candidate_index as int].backed_stake,
                    acc,
                ) as u128,
            )
        } else {
            rest
        }
    }
}

/// The score denominator of candidate `c` after one voter's edges are folded
/// in: each edge of the voter pointing at the (unelected) candidate `c` adds
/// the voter's denominator contribution `dc`, saturating, onto `init`.
pub open spec fn score_d_votes(
    cands: Seq<Candidate>,
    es: Seq<Edge>,
    c: int,
    dc: u128,
    init: u128,
) -> u128
    decreases es.len(),
{
    if es.len() == 0 {
        init
    } else {
        let rest = score_d_votes(cands, es.drop_last(), c, dc, init);
        if es.last().candidate_index == c {
            sat_add_spec(rest, dc)
        } else {
            rest
        }
    }
}

/// The score denominator of the unelected candidate `c` after all voters are
/// folded in, starting from `init` (one whole unit of `acc` parts).
pub open spec fn score_d_voters(
    cands: Seq<Candidate>,
    vs: Seq<Voter>,
    c: int,
    acc: u128,
    init: u128,
) -> u128
    decreases vs.len(),
{
    if vs.len() == 0 {
        init
    } else {
        score_d_votes(cands, vs.last().edges@, c, dc_of(cands, vs.last().edges@, acc), score_d_voters(
            cands,
            vs.drop_last(),
            c,
            acc,
            init,
        ))
    }
}

/// The finalized score of candidate `c` for this round: zero for a candidate
/// without approvals; otherwise the approval stake scaled by `acc` over the
/// accumulated denominator (an elected candidate keeps its old denominator).
pub open spec fn final_score(cands: Seq<Candidate>, vs: Seq<Voter>, c: int, acc: u128)
    -> Rational {
    if cands[c].approval_stake > 0 {
        Rational {
            n: sat_mul_spec(cands[c].approval_stake, acc),
            d: if cands[c].elected {
                cands[c].score.d
            } else {
                score_d_voters(cands, vs, c, acc, acc)
            },
        }
    } else {
        Rational { n: 0, d: 1 }
    }
}

/// Folding denominator contributions never lowers the accumulator.
pub proof fn lemma_score_d_votes_ge(cands: Seq<Candidate>, es: Seq<Edge>, c: int, dc: u128, init: u128)
    ensures
        score_d_votes(cands, es, c, dc, init) >= init,
    decreases es.len(),
{
    if es.len() > 0 {
        lemma_score_d_votes_ge(cands, es.drop_last(), c, dc, init);
    }
}

/// The accumulated score denominator stays at least its starting value.
pub proof fn lemma_score_d_voters_ge(cands: Seq<Candidate>, vs: Seq<Voter>, c: int, acc: u128, init: u128)
    ensures
        score_d_voters(cands, vs, c, acc, init) >= init,
    decreases vs.len(),
{
    if vs.len() > 0 {
        lemma_score_d_voters_ge(cands, vs.drop_last(), c, acc, init);
        lemma_score_d_votes_ge(
            cands,
            vs.last().edges@,
            c,
            dc_of(cands, vs.last().edges@, acc),
            score_d_voters(cands, vs.drop_last(), c, acc, init),
        );
    }
}

/// For positive denominators the rational order is plain cross-multiplication.
pub proof fn lemma_rat_gt_cross(n1: u128, d1: u128, n2: u128, d2: u128)
    requires
        d1 >= 1,
        d2 >= 1,
    ensures
        rat_gt_spec(n1, d1, n2, d2) <==> n1 as int * d2 as int > n2 as int * d1 as int,
{
    if d1 == d2 {
        assert(n1 > n2 <==> n1 as int * d2 as int > n2 as int * d1 as int) by (nonlinear_arith)
            requires
                d1 == d2,
                d1 >= 1,
        ;
    }
}

/// The rational order is transitive across a middle value it does not beat.
pub proof fn lemma_rat_gt_chain(
    n1: u128,
    d1: u128,
    n2: u128,
    d2: u128,
    n3: u128,
    d3: u128,
)
    requires
        d1 >= 1,
        d2 >= 1,
        d3 >= 1,
        rat_gt_spec(n1, d1, n2, d2),
        !rat_gt_spec(n3, d3, n2, d2),
    ensures
        rat_gt_spec(n1, d1, n3, d3),
{
    lemma_rat_gt_cross(n1, d1, n2, d2);
    lemma_rat_gt_cross(n3, d3, n2, d2);
    lemma_rat_gt_cross(n1, d1, n3, d3);
    assert(n1 as int * d3 as int > n3 as int * d1 as int) by (nonlinear_arith)
        requires
            d1 >= 1,
            d2 >= 1,
            d3 >= 1,
            n1 as int * d2 as int > n2 as int * d1 as int,
            n3 as int * d2 as int <= n2 as int * d3 as int,
    ;
}

/// Compute every candidate's score for this round and return the index of
/// the winner: the first unelected candidate with approvals whose score no
/// other such candidate beats. Index zero is returned when no candidate
/// qualifies. Only scores change; every other candidate field is kept.
pub fn calculate_max_score(candidates: &mut Vec<Candidate>, voters: &Vec<Voter>, acc: u128) -> (winner: usize)
    requires
        1 <= acc <= ACCURACY_MAX,
        old(candidates)@.len() > 0,
        graph_ok(old(candidates)@, voters@, -1),
    ensures
        winner < final(candidates)@.len(),
        final(candidates)@.len() == old(candidates)@.len(),
        forall|c: int|
            0 <= c < old(candidates)@.len() ==> {
                let nc = #[trigger] final(candidates)@[c];
                &&& nc.who == old(candidates)@[c].who
                &&& nc.approval_stake == old(candidates)@[c].approval_stake
                &&& nc.backed_stake == old(candidates)@[c].backed_stake
                &&& nc.elected == old(candidates)@[c].elected
                &&& nc.round == old(candidates)@[c].round
                &&& nc.score == final_score(old(candidates)@, voters@, c, acc)
            },
        graph_ok(final(candidates)@, voters@, -1),
        (exists|c: int| qualified(old(candidates)@, c)) ==> qualified(old(candidates)@, winner as int),
        forall|j: int|
            qualified(old(candidates)@, j) ==> !rat_gt_spec(
                final(candidates)@[j].score.n,
                final(candidates)@[j].score.d,
                final(candidates)@[winner as int].score.n,
                final(candidates)@[winner as int].score.d,
            ),
        forall|j: int|
            qualified(old(candidates)@, j) && j < winner ==> rat_gt_spec(
                final(candidates)@[winner as int].score.n,
                final(candidates)@[winner as int].score.d,
                final(candidates)@[j].score.n,
                final(candidates)@[j].score.d,
            ),
        (forall|c: int| !qualified(old(candidates)@, c)) ==> winner == 0,
{
    let ghost cands0 = old(candidates)@;
    let nc = candidates.len();
    let nv = voters.len();

    // Reset the score of every unelected candidate to one whole unit.
    let mut i: usize = 0;
    while i < nc
        invariant
            nc == candidates@.len(),
            nc == cands0.len(),
            i <= nc,
            1 <= acc <= ACCURACY_MAX,
            forall|c: int|
                0 <= c < nc ==> {
                    let cc = #[trigger] candidates@[c];
                    &&& cc.who == cands0[c].who
                    &&& cc.approval_stake == cands0[c].approval_stake
                    &&& cc.backed_stake == cands0[c].backed_stake
                    &&& cc.elected == cands0[c].elected
                    &&& cc.round == cands0[c].round
                },
            forall|c: int|
                0 <= c < i && !cands0[c].elected ==> (#[trigger] candidates@[c]).score == (Rational {
                    n: 1,
                    d: acc,
                }),
            forall|c: int|
                (i <= c < nc || cands0[c].elected) && 0 <= c < nc ==> (#[trigger] candidates@[c]).score
                    == cands0[c].score,
        decreases nc - i,
    {
        if !candidates[i].elected {
            let cur = candidates[i];
            candidates[i] = Candidate {
                who: cur.who,
                score: Rational { n: 1, d: acc },
                approval_stake: cur.approval_stake,
                backed_stake: cur.backed_stake,
                elected: cur.elected,
                round: cur.round,
            };
        }
        i = i + 1;
    }

    // Accumulate every voter's denominator contribution onto the unelected
    // candidates it approves.
    let mut k: usize = 0;
    while k < nv
        invariant
            nc == candidates@.len(),
            nc == cands0.len(),
            nv == voters@.len(),
            k <= nv,
            1 <= acc <= ACCURACY_MAX,
            graph_ok(cands0, voters@, -1),
            forall|c: int|
                0 <= c < nc ==> {
                    let cc = #[trigger] candidates@[c];
                    &&& cc.who == cands0[c].who
                    &&& cc.approval_stake == cands0[c].approval_stake
                    &&& cc.backed_stake == cands0[c].backed_stake
                    &&& cc.elected == cands0[c].elected
                    &&& cc.round == cands0[c].round
                },
            forall|c: int|
                0 <= c < nc && !cands0[c].elected ==> (#[trigger] candidates@[c]).score == (Rational {
                    n: 1,
                    d: score_d_voters(cands0, voters@.take(k as int), c, acc, acc),
                }),
            forall|c: int|
                0 <= c < nc && cands0[c].elected ==> (#[trigger] candidates@[c]).score == cands0[c].score,
        decreases nv - k,
    {
        let ghost vsk = voters@.take(k as int);
        let ne = voters[k].edges.len();
        let ghost es = voters@[k as int].edges@;

        // The voter's denominator contribution, over its elected edges.
        let mut dc: u128 = 0;
        let mut j: usize = 0;
        while j < ne
            invariant
                0 <= k < nv,
                nv == voters@.len(),
                nc == candidates@.len(),
                nc == cands0.len(),
                ne == es.len(),
                es == voters@[k as int].edges@,
                j <= ne,
                1 <= acc <= ACCURACY_MAX,
                graph_ok(cands0, voters@, -1),
                dc == dc_of(cands0, es.take(j as int), acc),
                forall|c: int|
                    0 <= c < nc ==> {
                        let cc = #[trigger] candidates@[c];
                        &&& cc.backed_stake == cands0[c].backed_stake
                        &&& cc.elected == cands0[c].elected
                    },
            decreases ne - j,
        {
            proof {
                assert(es.take(j + 1).drop_last() =~= es.take(j as int));
                assert(es.take(j + 1).last() == es[j as int]);
                assert(voter_ok(cands0, voters@[k as int], -1));
            }
            let e_ci = voters[k].edges[j].candidate_index;
            let e_w = voters[k].edges[j].weight;
            if candidates[e_ci].elected {
                let share = ratio_parts(e_w, candidates[e_ci].backed_stake, acc);
                dc = dc.saturating_add(share);
            }
            j = j + 1;
        }
        proof {
            assert(es.take(ne as int) =~= es);
        }

        // Fold the contribution onto each unelected approved candidate.
        let mut j2: usize = 0;
        while j2 < ne
            invariant
                0 <= k < nv,
                nv == voters@.len(),
                nc == candidates@.len(),
                nc == cands0.len(),
                ne == es.len(),
                es == voters@[k as int].edges@,
                vsk == voters@.take(k as int),
                j2 <= ne,
                1 <= acc <= ACCURACY_MAX,
                graph_ok(cands0, voters@, -1),
                dc == dc_of(cands0, es, acc),
                forall|c: int|
                    0 <= c < nc ==> {
                        let cc = #[trigger] candidates@[c];
                        &&& cc.who == cands0[c].who
                        &&& cc.approval_stake == cands0[c].approval_stake
                        &&& cc.backed_stake == cands0[c].backed_stake
                        &&& cc.elected == cands0[c].elected
                        &&& cc.round == cands0[c].round
                    },
                forall|c: int|
                    0 <= c < nc && !cands0[c].elected ==> (#[trigger] candidates@[c]).score
                        == (Rational {
                        n: 1,
                        d: score_d_votes(
                            cands0,
                            es.take(j2 as int),
                            c,
                            dc,
                            score_d_voters(cands0, vsk, c, acc, acc),
                        ),
                    }),
                forall|c: int|
                    0 <= c < nc && cands0[c].elected ==> (#[trigger] candidates@[c]).score
                        == cands0[c].score,
            decreases ne - j2,
        {
            proof {
                assert(es.take(j2 + 1).drop_last() =~= es.take(j2 as int));
                assert(es.take(j2 + 1).last() == es[j2 as int]);
                assert(voter_ok(cands0, voters@[k as int], -1));
            }
            let e_ci = voters[k].edges[j2].candidate_index;
            if !candidates[e_ci].elected {
                let cur = candidates[e_ci];
                let new_d = dc.saturating_add(cur.score.d);
                candidates[e_ci] = Candidate {
                    who: cur.who,
                    score: Rational { n: 1, d: new_d },
                    approval_stake: cur.approval_stake,
                    backed_stake: cur.backed_stake,
                    elected: cur.elected,
                    round: cur.round,
                };
            }
            j2 = j2 + 1;
        }
        proof {
            assert(es.take(ne as int) =~= es);
            assert(voters@.take(k + 1).drop_last() =~= vsk);
            assert(voters@.take(k + 1).last() == voters@[k as int]);
        }
        k = k + 1;
    }
    proof {
        assert(voters@.take(nv as int) =~= voters@);
        assert forall|c2: int| 0 <= c2 < nc implies (#[trigger] candidates@[c2]).score.wf() by {
            if !cands0[c2].elected {
                lemma_score_d_voters_ge(cands0, voters@, c2, acc, acc);
            }
        }
    }

    // Finalize every score and pick the best unelected candidate.
    let mut best_score = Rational::zero();
    let mut best_idx: usize = 0;
    let mut c: usize = 0;
    while c < nc
        invariant
            nc == candidates@.len(),
            nc == cands0.len(),
            c <= nc,
            best_idx < nc,
            1 <= acc <= ACCURACY_MAX,
            best_score.wf(),
            forall|c2: int|
                0 <= c2 < nc ==> {
                    let cc = #[trigger] candidates@[c2];
                    &&& cc.who == cands0[c2].who
                    &&& cc.approval_stake == cands0[c2].approval_stake
                    &&& cc.backed_stake == cands0[c2].backed_stake
                    &&& cc.elected == cands0[c2].elected
                    &&& cc.round == cands0[c2].round
                },
            forall|c2: int|
                0 <= c2 < c ==> (#[trigger] candidates@[c2]).score == final_score(
                    cands0,
                    voters@,
                    c2,
                    acc,
                ),
            forall|c2: int|
                c <= c2 < nc && !cands0[c2].elected ==> (#[trigger] candidates@[c2]).score
                    == (Rational { n: 1, d: score_d_voters(cands0, voters@, c2, acc, acc) }),
            forall|c2: int|
                c <= c2 < nc && cands0[c2].elected ==> (#[trigger] candidates@[c2]).score
                    == cands0[c2].score,
            forall|c2: int| 0 <= c2 < nc ==> (#[trigger] candidates@[c2]).score.wf(),
            (forall|c2: int| 0 <= c2 < c ==> !qualified(cands0, c2)) ==> best_idx == 0 && best_score
                == (Rational { n: 0, d: 1 }),
            (exists|c2: int| 0 <= c2 < c && qualified(cands0, c2)) ==> {
                &&& qualified(cands0, best_idx as int)
                &&& best_idx < c
                &&& best_score == final_score(cands0, voters@, best_idx as int, acc)
                &&& forall|j: int|
                    0 <= j < c && qualified(cands0, j) ==> !rat_gt_spec(
                        final_score(cands0, voters@, j, acc).n,
                        final_score(cands0, voters@, j, acc).d,
                        best_score.n,
                        best_score.d,
                    )
                &&& forall|j: int|
                    0 <= j < best_idx && qualified(cands0, j) ==> rat_gt_spec(
                        best_score.n,
                        best_score.d,
                        final_score(cands0, voters@, j, acc).n,
                        final_score(cands0, voters@, j, acc).d,
                    )
            },
        decreases nc - c,
    {
        let cur = candidates[c];
        let ghost old_best = best_score;
        if cur.approval_stake > 0 {
            let score_n = sat_mul(cur.approval_stake, acc);
            let score_d = cur.score.d;
            let new_score = Rational { n: score_n, d: score_d };
            candidates[c] = Candidate {
                who: cur.who,
                score: new_score,
                approval_stake: cur.approval_stake,
                backed_stake: cur.backed_stake,
                elected: cur.elected,
                round: cur.round,
            };
            if !cur.elected && new_score.gt(&best_score) {
                proof {
                    if exists|c2: int| 0 <= c2 < c && qualified(cands0, c2) {
                        assert forall|j: int| 0 <= j < c && qualified(cands0, j) implies rat_gt_spec(
                            new_score.n,
                            new_score.d,
                            final_score(cands0, voters@, j, acc).n,
                            final_score(cands0, voters@, j, acc).d,
                        ) by {
                            let fj = final_score(cands0, voters@, j, acc);
                            lemma_rat_gt_chain(
                                new_score.n,
                                new_score.d,
                                old_best.n,
                                old_best.d,
                                fj.n,
                                fj.d,
                            );
                        }
                    }
                }
                best_score = new_score;
                best_idx = c;
            }
        } else {
            candidates[c] = Candidate {
                who: cur.who,
                score: Rational { n: 0, d: 1 },
                approval_stake: cur.approval_stake,
                backed_stake: cur.backed_stake,
                elected: cur.elected,
                round: cur.round,
            };
        }
        proof {
            if qualified(cands0, c as int) && (forall|c2: int|
                0 <= c2 < c ==> !qualified(cands0, c2)) {
                // the first qualified candidate always beats the zero score
                let fc = final_score(cands0, voters@, c as int, acc);
                assert(fc.n >= 1) by {
                    assert(sat_mul_spec(cands0[c as int].approval_stake, acc) >= 1)
                        by (nonlinear_arith)
                        requires
                            cands0[c as int].approval_stake >= 1,
                            acc >= 1,
                    ;
                }
                assert(rat_gt_spec(fc.n, fc.d, 0, 1));
            }
        }
        c = c + 1;
    }
    proof {
        if exists|c2: int| qualified(cands0, c2) {
            let ghost w = choose|c2: int| qualified(cands0, c2);
            assert(0 <= w < nc && qualified(cands0, w));
        }
    }
    best_idx
}

} // verus!
