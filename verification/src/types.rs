//! The bipartite election graph: candidates, voters and weighted edges, with
//! the invariants that every public operation preserves.
//!
//! Candidates live in one arena (a vector); an edge refers to its candidate
//! by index. The central invariants: every edge points into the arena at a
//! candidate with the edge's target identifier; a voter's edge weights sum to
//! at most its budget; a candidate's `backed_stake` equals the sum of the
//! weights of its incident edges; and weight sits only on elected candidates
//! (except, transiently, the candidate being elected this round).

use crate::rational::Rational;
use vstd::prelude::*;

verus! {

/// A candidate entity for the election.
#[derive(Clone, Copy, Debug)]
pub struct Candidate {
    /// Identifier.
    pub who: u64,
    /// Intermediary value used to rank candidates within a round.
    pub score: Rational,
    /// Sum of the stake of all voters that approve this candidate; fixed at
    /// graph build time.
    pub approval_stake: u128,
    /// Current sum of the weights of the edges incident to this candidate.
    pub backed_stake: u128,
    /// Whether this candidate has been elected.
    pub elected: bool,
    /// The round in which this candidate was elected; meaningful only once
    /// `elected` holds.
    pub round: usize,
}

/// A vote of one voter for one candidate.
#[derive(Clone, Copy, Debug)]
pub struct Edge {
    /// Identifier of the approved candidate.
    pub who: u64,
    /// Index of the approved candidate in the candidate arena.
    pub candidate_index: usize,
    /// Load of this vote; kept for uniformity with the classic algorithm.
    pub load: Rational,
    /// The portion of the voter's budget given to the candidate.
    pub weight: u128,
}

/// A voter entity.
#[derive(Clone, Debug)]
pub struct Voter {
    /// Identifier.
    pub who: u64,
    /// One edge per approved candidate that existed at build time, in the
    /// order the approvals were supplied.
    pub edges: Vec<Edge>,
    /// The stake of this voter.
    pub budget: u128,
    /// Accumulated load; kept for uniformity with the classic algorithm.
    pub load: Rational,
}

/// The sum of the weights of a sequence of edges.
pub open spec fn sum_edge_weights(es: Seq<Edge>) -> int
    decreases es.len(),
{
    if es.len() == 0 {
        0
    } else {
        sum_edge_weights(es.drop_last()) + es.last().weight
    }
}

/// The weight a sequence of edges gives to the candidate at index `c`.
pub open spec fn backing_in_edges(es: Seq<Edge>, c: int) -> int
    decreases es.len(),
{
    if es.len() == 0 {
        0
    } else {
        backing_in_edges(es.drop_last(), c) + (if es.last().candidate_index == c {
            es.last().weight as int
        } else {
            0
        })
    }
}

/// The total weight all voters give to the candidate at index `c`.
pub open spec fn backed_of(vs: Seq<Voter>, c: int) -> int
    decreases vs.len(),
{
    if vs.len() == 0 {
        0
    } else {
        backed_of(vs.drop_last(), c) + backing_in_edges(vs.last().edges@, c)
    }
}

/// The sum of all voters' budgets.
pub open spec fn sum_budgets(vs: Seq<Voter>) -> int
    decreases vs.len(),
{
    if vs.len() == 0 {
        0
    } else {
        sum_budgets(vs.drop_last()) + vs.last().budget
    }
}

/// One edge is sound with respect to the candidate arena: it points into the
/// arena, at a candidate bearing the edge's target identifier, and it carries
/// weight only if that candidate is elected (or is the candidate at index
/// `except`, the one being elected in the current round; `except` is -1 when
/// no election is in progress).
pub open spec fn edge_ok(cands: Seq<Candidate>, e: Edge, except: int) -> bool {
    &&& e.candidate_index < cands.len()
    &&& cands[e.candidate_index as int].who == e.who
    &&& (e.weight > 0 ==> cands[e.candidate_index as int].elected || e.candidate_index == except)
}

/// One voter is sound: its budget fits the vote-weight domain, its edges are
/// sound, and its edge weights sum to at most its budget.
pub open spec fn voter_ok(cands: Seq<Candidate>, v: Voter, except: int) -> bool {
    &&& v.budget <= u64::MAX
    &&& sum_edge_weights(v.edges@) <= v.budget
    &&& forall|i: int| 0 <= i < v.edges@.len() ==> edge_ok(cands, #[trigger] v.edges@[i], except)
}

/// All voters are sound.
pub open spec fn voters_ok(cands: Seq<Candidate>, vs: Seq<Voter>, except: int) -> bool {
    forall|i: int| 0 <= i < vs.len() ==> voter_ok(cands, #[trigger] vs[i], except)
}

/// Every candidate's `backed_stake` equals the total weight the voters give
/// it, and its score has a positive denominator.
pub open spec fn cands_ok(cands: Seq<Candidate>, vs: Seq<Voter>) -> bool {
    forall|c: int|
        0 <= c < cands.len() ==> (#[trigger] cands[c]).backed_stake == backed_of(vs, c)
            && cands[c].score.wf()
}

/// The whole graph is sound.
pub open spec fn graph_ok(cands: Seq<Candidate>, vs: Seq<Voter>, except: int) -> bool {
    &&& voters_ok(cands, vs, except)
    &&& cands_ok(cands, vs)
}

/// Structure preserved: same voters with the same edges to the same targets,
/// only the edge weights may differ.
pub open spec fn same_voter_shape(a: Seq<Voter>, b: Seq<Voter>) -> bool {
    &&& a.len() == b.len()
    &&& forall|i: int|
        0 <= i < a.len() ==> {
            &&& (#[trigger] b[i]).who == a[i].who
            &&& b[i].budget == a[i].budget
            &&& b[i].load == a[i].load
            &&& b[i].edges@.len() == a[i].edges@.len()
            &&& forall|j: int|
                0 <= j < a[i].edges@.len() ==> (#[trigger] b[i].edges@[j]).who == a[i].edges@[j].who
                    && b[i].edges@[j].candidate_index == a[i].edges@[j].candidate_index
                    && b[i].edges@[j].load == a[i].edges@[j].load
        }
}

/// Updating one edge of a sequence shifts its weight sum by the difference of
/// the weights, and its backing of each candidate accordingly.
pub proof fn lemma_update_edge(es: Seq<Edge>, i: int, e: Edge)
    requires
        0 <= i < es.len(),
    ensures
        sum_edge_weights(es.update(i, e)) == sum_edge_weights(es) - es[i].weight + e.weight,
        forall|c: int|
            #[trigger] backing_in_edges(es.update(i, e), c) == backing_in_edges(es, c) - (if es[
                i].candidate_index == c {
                es[i].weight as int
            } else {
                0
            }) + (if e.candidate_index == c {
                e.weight as int
            } else {
                0
            }),
    decreases es.len(),
{
    let es2 = es.update(i, e);
    if i == es.len() - 1 {
        assert(es2.drop_last() =~= es.drop_last());
        assert(es2.last() == e);
    } else {
        assert(es2.drop_last() =~= es.drop_last().update(i, e));
        lemma_update_edge(es.drop_last(), i, e);
        assert(es2.last() == es.last());
        assert(es.drop_last()[i] == es[i]);
        assert forall|c: int|
            #[trigger] backing_in_edges(es2, c) == backing_in_edges(es, c) - (if es[
                i].candidate_index == c {
                es[i].weight as int
            } else {
                0
            }) + (if e.candidate_index == c {
                e.weight as int
            } else {
                0
            }) by {
            assert(backing_in_edges(es2.drop_last(), c) == backing_in_edges(es.drop_last(), c) - (
            if es[i].candidate_index == c {
                es[i].weight as int
            } else {
                0
            }) + (if e.candidate_index == c {
                e.weight as int
            } else {
                0
            }));
        }
    }
}

/// Updating one voter of a sequence shifts each candidate's total backing by
/// the difference of that voter's backings, and the budget sum by the
/// difference of budgets.
pub proof fn lemma_update_voter(vs: Seq<Voter>, i: int, v: Voter)
    requires
        0 <= i < vs.len(),
    ensures
        forall|c: int|
            #[trigger] backed_of(vs.update(i, v), c) == backed_of(vs, c) - backing_in_edges(
                vs[i].edges@,
                c,
            ) + backing_in_edges(v.edges@, c),
        sum_budgets(vs.update(i, v)) == sum_budgets(vs) - vs[i].budget + v.budget,
    decreases vs.len(),
{
    let vs2 = vs.update(i, v);
    if i == vs.len() - 1 {
        assert(vs2.drop_last() =~= vs.drop_last());
        assert(vs2.last() == v);
    } else {
        assert(vs2.drop_last() =~= vs.drop_last().update(i, v));
        lemma_update_voter(vs.drop_last(), i, v);
        assert(vs2.last() == vs.last());
        assert(vs.drop_last()[i] == vs[i]);
        assert forall|c: int|
            #[trigger] backed_of(vs2, c) == backed_of(vs, c) - backing_in_edges(vs[i].edges@, c)
                + backing_in_edges(v.edges@, c) by {
            assert(backed_of(vs2.drop_last(), c) == backed_of(vs.drop_last(), c)
                - backing_in_edges(vs[i].edges@, c) + backing_in_edges(v.edges@, c));
        }
    }
}

/// The backing of one candidate never exceeds the weight sum, and both are
/// non-negative; the backing is at least any single incident edge's weight.
pub proof fn lemma_backing_bounds(es: Seq<Edge>, c: int)
    ensures
        0 <= backing_in_edges(es, c) <= sum_edge_weights(es),
        forall|j: int|
            0 <= j < es.len() && es[j].candidate_index == c ==> (#[trigger] es[j]).weight
                <= backing_in_edges(es, c),
    decreases es.len(),
{
    if es.len() > 0 {
        lemma_backing_bounds(es.drop_last(), c);
        assert(forall|j: int|
            0 <= j < es.len() - 1 ==> (#[trigger] es[j]) == es.drop_last()[j]);
    }
}

/// A candidate's total backing is bounded by the sum of the budgets, itself
/// bounded by the number of voters times the largest vote weight; one voter's
/// backing never exceeds the total.
pub proof fn lemma_backed_bounds(cands: Seq<Candidate>, vs: Seq<Voter>, c: int, except: int)
    requires
        voters_ok(cands, vs, except),
    ensures
        0 <= backed_of(vs, c) <= sum_budgets(vs),
        sum_budgets(vs) <= vs.len() * (u64::MAX as int),
        forall|i: int|
            0 <= i < vs.len() ==> backing_in_edges((#[trigger] vs[i]).edges@, c) <= backed_of(
                vs,
                c,
            ),
    decreases vs.len(),
{
    if vs.len() > 0 {
        assert(voter_ok(cands, vs[vs.len() - 1], except));
        lemma_backed_bounds(cands, vs.drop_last(), c, except);
        lemma_backing_bounds(vs.last().edges@, c);
        assert((vs.len() - 1) * (u64::MAX as int) + u64::MAX == vs.len() * (u64::MAX as int))
            by (nonlinear_arith);
        assert(forall|i: int| 0 <= i < vs.len() - 1 ==> (#[trigger] vs[i]) == vs.drop_last()[i]);
    }
}

/// Whether a voter has an edge to the candidate at index `w`.
pub open spec fn has_edge_to(v: Voter, w: int) -> bool {
    exists|j: int| 0 <= j < v.edges@.len() && (#[trigger] v.edges@[j]).candidate_index == w
}

/// A prefix of a sequence of edges weighs no more than the whole.
pub proof fn lemma_sum_take(es: Seq<Edge>, i: int)
    requires
        0 <= i <= es.len(),
    ensures
        0 <= sum_edge_weights(es.take(i)) <= sum_edge_weights(es),
    decreases es.len(),
{
    if i == es.len() {
        assert(es.take(i) =~= es);
        lemma_backing_bounds(es, 0);
    } else {
        assert(es.take(i) =~= es.drop_last().take(i));
        lemma_sum_take(es.drop_last(), i);
    }
}

/// Voters of the same shape carry the same budgets.
pub proof fn lemma_sum_budgets_shape(a: Seq<Voter>, b: Seq<Voter>)
    requires
        a.len() == b.len(),
        forall|i: int| 0 <= i < a.len() ==> (#[trigger] a[i]).budget == b[i].budget,
    ensures
        sum_budgets(a) == sum_budgets(b),
    decreases a.len(),
{
    if a.len() > 0 {
        assert(forall|i: int|
            0 <= i < a.len() - 1 ==> (#[trigger] a.drop_last()[i]) == a[i] && b.drop_last()[i]
                == b[i]);
        lemma_sum_budgets_shape(a.drop_last(), b.drop_last());
    }
}

/// The total stake routed anywhere fits the stake domain: budgets fit the
/// vote-weight domain and there are fewer voters than stake values.
pub proof fn lemma_total_fits(cands: Seq<Candidate>, vs: Seq<Voter>, except: int)
    requires
        voters_ok(cands, vs, except),
        vs.len() <= usize::MAX,
    ensures
        sum_budgets(vs) < u128::MAX,
{
    lemma_backed_bounds(cands, vs, 0, except);
    assert(vs.len() * (u64::MAX as int) < u128::MAX) by (nonlinear_arith)
        requires
            vs.len() <= usize::MAX,
    ;
}

} // verus!
