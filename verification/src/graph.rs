//! Graph builder: turn raw candidates and voters-with-approvals into the
//! bipartite election graph, dropping approvals of unknown candidates.

use crate::rational::Rational;
use crate::arith::sat_add_spec;
use crate::types::{
    backed_of, backing_in_edges, cands_ok, graph_ok, sum_edge_weights, voter_ok, voters_ok,
    Candidate, Edge, Voter,
};
use vstd::prelude::*;

verus! {

/// The identifiers of a candidate arena, in order.
pub open spec fn cand_whos(cands: Seq<Candidate>) -> Seq<u64> {
    cands.map_values(|c: Candidate| c.who)
}

/// The index a vote for `id` resolves to: the last index bearing `id`, or -1
/// when there is none (a later duplicate candidate shadows an earlier one).
pub open spec fn find_candidate_spec(whos: Seq<u64>, id: u64) -> int
    decreases whos.len(),
{
    if whos.len() == 0 {
        -1
    } else if whos.last() == id {
        whos.len() - 1
    } else {
        find_candidate_spec(whos.drop_last(), id)
    }
}

/// A resolved vote index is in range and bears the looked-up identifier.
pub proof fn lemma_find_candidate(whos: Seq<u64>, id: u64)
    ensures
        find_candidate_spec(whos, id) == -1 || (0 <= find_candidate_spec(whos, id) < whos.len()
            && whos[find_candidate_spec(whos, id)] == id),
    decreases whos.len(),
{
    if whos.len() > 0 && whos.last() != id {
        lemma_find_candidate(whos.drop_last(), id);
    }
}

/// The edges a voter's approvals resolve to: one edge of weight zero per
/// approval naming a known candidate, in approval order.
pub open spec fn edges_of_votes(whos: Seq<u64>, votes: Seq<u64>) -> Seq<Edge>
    decreases votes.len(),
{
    if votes.len() == 0 {
        Seq::empty()
    } else {
        let rest = edges_of_votes(whos, votes.drop_last());
        let f = find_candidate_spec(whos, votes.last());
        if f == -1 {
            rest
        } else {
            rest.push(
                Edge {
                    who: votes.last(),
                    candidate_index: f as usize,
                    load: Rational { n: 0, d: 1 },
                    weight: 0,
                },
            )
        }
    }
}

/// The approval stake one voter's approvals add to the candidate at `idx`,
/// folded with saturation onto `init` in approval order.
pub open spec fn votes_approval(whos: Seq<u64>, votes: Seq<u64>, stake: u64, idx: int, init: u128)
    -> u128
    decreases votes.len(),
{
    if votes.len() == 0 {
        init
    } else {
        let rest = votes_approval(whos, votes.drop_last(), stake, idx, init);
        if find_candidate_spec(whos, votes.last()) == idx {
            sat_add_spec(rest, stake as u128)
        } else {
            rest
        }
    }
}

/// The approval stake of the candidate at `idx` over a sequence of raw
/// voters, folded with saturation in input order.
pub open spec fn total_approval(
    whos: Seq<u64>,
    vs: Seq<(u64, u64, Vec<u64>)>,
    idx: int,
    init: u128,
) -> u128
    decreases vs.len(),
{
    if vs.len() == 0 {
        init
    } else {
        votes_approval(whos, vs.last().2@, vs.last().1, idx, total_approval(
            whos,
            vs.drop_last(),
            idx,
            init,
        ))
    }
}

/// The candidate at `idx` as the graph build leaves it.
pub open spec fn built_candidate(whos: Seq<u64>, vs: Seq<(u64, u64, Vec<u64>)>, idx: int)
    -> Candidate {
    Candidate {
        who: whos[idx],
        score: Rational { n: 0, d: 1 },
        approval_stake: total_approval(whos, vs, idx, 0),
        backed_stake: 0,
        elected: false,
        round: 0,
    }
}

/// All edges built from votes have weight zero, point into the arena, and
/// bear the identifier of the candidate they point at.
pub proof fn lemma_edges_of_votes_ok(whos: Seq<u64>, votes: Seq<u64>)
    requires
        whos.len() <= usize::MAX,
    ensures
        forall|j: int|
            0 <= j < edges_of_votes(whos, votes).len() ==> {
                let e = #[trigger] edges_of_votes(whos, votes)[j];
                &&& e.weight == 0
                &&& e.candidate_index < whos.len()
                &&& whos[e.candidate_index as int] == e.who
                &&& e.load == (Rational { n: 0, d: 1 })
            },
    decreases votes.len(),
{
    if votes.len() > 0 {
        lemma_edges_of_votes_ok(whos, votes.drop_last());
        lemma_find_candidate(whos, votes.last());
        let es = edges_of_votes(whos, votes);
        let rest = edges_of_votes(whos, votes.drop_last());
        assert forall|j: int| 0 <= j < es.len() implies {
            let e = #[trigger] es[j];
            &&& e.weight == 0
            &&& e.candidate_index < whos.len()
            &&& whos[e.candidate_index as int] == e.who
            &&& e.load == (Rational { n: 0, d: 1 })
        } by {
            let f = find_candidate_spec(whos, votes.last());
            if f == -1 {
                assert(es == rest);
                assert(es[j] == rest[j]);
            } else {
                let e = Edge {
                    who: votes.last(),
                    candidate_index: f as usize,
                    load: Rational { n: 0, d: 1 },
                    weight: 0,
                };
                assert(es == rest.push(e));
                if j < rest.len() {
                    assert(es[j] == rest[j]);
                } else {
                    assert(es[j] == e);
                }
            }
        }
    }
}

/// A sequence of weight-zero edges sums to zero and backs nobody.
pub proof fn lemma_zero_edges(es: Seq<Edge>)
    requires
        forall|j: int| 0 <= j < es.len() ==> (#[trigger] es[j]).weight == 0,
    ensures
        sum_edge_weights(es) == 0,
        forall|c: int| #[trigger] backing_in_edges(es, c) == 0,
    decreases es.len(),
{
    if es.len() > 0 {
        assert(forall|j: int| 0 <= j < es.len() - 1 ==> (#[trigger] es.drop_last()[j]) == es[j]);
        lemma_zero_edges(es.drop_last());
        assert(es.last().weight == 0);
        assert forall|c: int| #[trigger] backing_in_edges(es, c) == 0 by {
            assert(backing_in_edges(es.drop_last(), c) == 0);
        }
    }
}

/// Voters whose edges all carry weight zero back nobody.
pub proof fn lemma_zero_backed(vs: Seq<Voter>)
    requires
        forall|i: int, j: int|
            0 <= i < vs.len() && 0 <= j < (#[trigger] vs[i]).edges@.len() ==> (#[trigger] vs[
                i].edges@[j]).weight == 0,
    ensures
        forall|c: int| #[trigger] backed_of(vs, c) == 0,
    decreases vs.len(),
{
    if vs.len() > 0 {
        assert(forall|i: int| 0 <= i < vs.len() - 1 ==> (#[trigger] vs.drop_last()[i]) == vs[i]);
        assert(forall|j: int|
            0 <= j < vs.last().edges@.len() ==> (#[trigger] vs.last().edges@[j]).weight == 0);
        lemma_zero_backed(vs.drop_last());
        lemma_zero_edges(vs.last().edges@);
        assert forall|c: int| #[trigger] backed_of(vs, c) == 0 by {
            assert(backed_of(vs.drop_last(), c) == 0);
            assert(backing_in_edges(vs.last().edges@, c) == 0);
        }
    }
}

/// Find the candidate a vote for `id` resolves to: the last arena index
/// bearing `id`.
fn find_candidate(candidates: &Vec<Candidate>, id: u64) -> (r: Option<usize>)
    ensures
        r matches Some(i) ==> find_candidate_spec(cand_whos(candidates@), id) == i && i
            < candidates@.len(),
        r is None ==> find_candidate_spec(cand_whos(candidates@), id) == -1,
{
    let n = candidates.len();
    let mut best: Option<usize> = None;
    let mut i: usize = 0;
    while i < n
        invariant
            n == candidates@.len(),
            i <= n,
            best matches Some(b) ==> find_candidate_spec(cand_whos(candidates@).take(i as int), id)
                == b && b < n,
            best is None ==> find_candidate_spec(cand_whos(candidates@).take(i as int), id) == -1,
        decreases n - i,
    {
        proof {
            assert(cand_whos(candidates@).take(i + 1).drop_last() =~= cand_whos(
                candidates@,
            ).take(i as int));
            assert(cand_whos(candidates@).take(i + 1).last() == candidates@[i as int].who);
        }
        if candidates[i].who == id {
            best = Some(i);
        }
        i = i + 1;
    }
    proof {
        assert(cand_whos(candidates@).take(n as int) =~= cand_whos(candidates@));
    }
    best
}

/// Convert raw inputs into the election graph. Approvals naming no candidate
/// are dropped; each approval of a known candidate contributes one edge and
/// adds the voter's stake to that candidate's approval stake (saturating).
/// Input order is preserved on both sides.
pub fn setup_inputs(initial_candidates: Vec<u64>, initial_voters: Vec<(u64, u64, Vec<u64>)>) -> (r:
    (Vec<Candidate>, Vec<Voter>))
    ensures
        r.0@.len() == initial_candidates@.len(),
        forall|c: int|
            0 <= c < r.0@.len() ==> #[trigger] r.0@[c] == built_candidate(
                initial_candidates@,
                initial_voters@,
                c,
            ),
        r.1@.len() == initial_voters@.len(),
        forall|i: int|
            0 <= i < r.1@.len() ==> {
                let v = #[trigger] r.1@[i];
                &&& v.who == initial_voters@[i].0
                &&& v.budget == initial_voters@[i].1 as u128
                &&& v.load == (Rational { n: 0, d: 1 })
                &&& v.edges@ == edges_of_votes(initial_candidates@, initial_voters@[i].2@)
            },
        graph_ok(r.0@, r.1@, -1),
        cand_whos(r.0@) == initial_candidates@,
{
    let nc = initial_candidates.len();
    let mut candidates: Vec<Candidate> = Vec::new();
    let mut i: usize = 0;
    while i < nc
        invariant
            nc == initial_candidates@.len(),
            i <= nc,
            candidates@.len() == i,
            forall|c: int|
                0 <= c < i ==> #[trigger] candidates@[c] == (Candidate {
                    who: initial_candidates@[c],
                    score: Rational { n: 0, d: 1 },
                    approval_stake: 0,
                    backed_stake: 0,
                    elected: false,
                    round: 0,
                }),
        decreases nc - i,
    {
        candidates.push(
            Candidate {
                who: initial_candidates[i],
                score: Rational { n: 0, d: 1 },
                approval_stake: 0,
                backed_stake: 0,
                elected: false,
                round: 0,
            },
        );
        i = i + 1;
    }
    proof {
        assert(cand_whos(candidates@) =~= initial_candidates@);
    }
    let ghost whos = initial_candidates@;
    let nv = initial_voters.len();
    let mut voters: Vec<Voter> = Vec::new();
    let mut k: usize = 0;
    while k < nv
        invariant
            nv == initial_voters@.len(),
            k <= nv,
            candidates@.len() == nc,
            nc == initial_candidates@.len(),
            cand_whos(candidates@) == whos,
            whos == initial_candidates@,
            voters@.len() == k,
            forall|c: int|
                0 <= c < nc ==> #[trigger] candidates@[c] == built_candidate(
                    whos,
                    initial_voters@.take(k as int),
                    c,
                ),
            forall|i2: int|
                0 <= i2 < k ==> {
                    let v = #[trigger] voters@[i2];
                    &&& v.who == initial_voters@[i2].0
                    &&& v.budget == initial_voters@[i2].1 as u128
                    &&& v.load == (Rational { n: 0, d: 1 })
                    &&& v.edges@ == edges_of_votes(whos, initial_voters@[i2].2@)
                },
        decreases nv - k,
    {
        let who = initial_voters[k].0;
        let voter_stake = initial_voters[k].1;
        let nj = initial_voters[k].2.len();
        let ghost votes = initial_voters@[k as int].2@;
        let ghost base = initial_voters@.take(k as int);
        let mut edges: Vec<Edge> = Vec::new();
        let mut j: usize = 0;
        while j < nj
            invariant
                0 <= k < nv,
                nv == initial_voters@.len(),
                nj == votes.len(),
                votes == initial_voters@[k as int].2@,
                voter_stake == initial_voters@[k as int].1,
                base == initial_voters@.take(k as int),
                j <= nj,
                candidates@.len() == nc,
                cand_whos(candidates@) == whos,
                edges@ == edges_of_votes(whos, votes.take(j as int)),
                forall|c: int|
                    0 <= c < nc ==> #[trigger] candidates@[c] == (Candidate {
                        who: whos[c],
                        score: Rational { n: 0, d: 1 },
                        approval_stake: votes_approval(
                            whos,
                            votes.take(j as int),
                            voter_stake,
                            c,
                            total_approval(whos, base, c, 0),
                        ),
                        backed_stake: 0,
                        elected: false,
                        round: 0,
                    }),
            decreases nj - j,
        {
            proof {
                assert(votes.take(j + 1).drop_last() =~= votes.take(j as int));
                assert(votes.take(j + 1).last() == votes[j as int]);
            }
            let v = initial_voters[k].2[j];
            match find_candidate(&candidates, v) {
                Some(idx) => {
                    let cur = candidates[idx];
                    candidates[idx] = Candidate {
                        who: cur.who,
                        score: cur.score,
                        approval_stake: cur.approval_stake.saturating_add(voter_stake as u128),
                        backed_stake: cur.backed_stake,
                        elected: cur.elected,
                        round: cur.round,
                    };
                    edges.push(
                        Edge {
                            who: v,
                            candidate_index: idx,
                            load: Rational { n: 0, d: 1 },
                            weight: 0,
                        },
                    );
                },
                None => {},
            }
            j = j + 1;
        }
        proof {
            assert(votes.take(nj as int) =~= votes);
            assert(initial_voters@.take(k + 1).drop_last() =~= base);
            assert(initial_voters@.take(k + 1).last() == initial_voters@[k as int]);
        }
        voters.push(
            Voter { who, edges, budget: voter_stake as u128, load: Rational { n: 0, d: 1 } },
        );
        k = k + 1;
    }
    proof {
        assert(initial_voters@.take(nv as int) =~= initial_voters@);
        assert forall|i2: int| 0 <= i2 < voters@.len() implies voter_ok(
            candidates@,
            #[trigger] voters@[i2],
            -1,
        ) by {
            lemma_edges_of_votes_ok(whos, initial_voters@[i2].2@);
            lemma_zero_edges(voters@[i2].edges@);
        }
        assert forall|i2: int, j2: int|
            0 <= i2 < voters@.len() && 0 <= j2 < (#[trigger] voters@[i2]).edges@.len() implies (
        #[trigger] voters@[i2].edges@[j2]).weight == 0 by {
            lemma_edges_of_votes_ok(whos, initial_voters@[i2].2@);
        }
        lemma_zero_backed(voters@);
        assert(cands_ok(candidates@, voters@));
    }
    (candidates, voters)
}

} // verus!
