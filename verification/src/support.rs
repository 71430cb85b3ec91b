//! The election result from the candidates' perspective: how much support
//! each winner receives, the score of a support map, and the comparison of
//! two scores under a tolerance ratio.

use crate::arith::{mul_ratio_ceil, mul_ratio_ceil_spec, sat_add_spec, sat_mul, sat_mul_spec, ACCURACY_MAX};
use crate::assignments::StakedAssignment;
use crate::graph::find_candidate_spec;
use vstd::prelude::*;

verus! {

/// The score of an assignment set: minimal support, sum of supports, and sum
/// of squared supports.
pub type ElectionScore = [u128; 3];

/// The support each voter routes to one candidate.
#[derive(Clone, Debug, Default, PartialEq, Eq)]
pub struct Support {
    /// Total support.
    pub total: u128,
    /// Support from the individual voters.
    pub voters: Vec<(u64, u128)>,
}

/// A mapping from candidates to their support, in first-appearance order of
/// the winners it was built from, with pairwise distinct keys.
#[derive(Clone, Debug, Default, PartialEq, Eq)]
pub struct SupportMap {
    /// One entry per winner.
    pub entries: Vec<(u64, Support)>,
}

/// The keys of a support map's entries.
pub open spec fn keys_of(entries: Seq<(u64, Support)>) -> Seq<u64> {
    entries.map_values(|e: (u64, Support)| e.0)
}

/// The winners with later duplicates dropped, in first-appearance order.
pub open spec fn dedup_keys(s: Seq<u64>) -> Seq<u64>
    decreases s.len(),
{
    if s.len() == 0 {
        Seq::empty()
    } else {
        let rest = dedup_keys(s.drop_last());
        if s.drop_last().contains(s.last()) {
            rest
        } else {
            rest.push(s.last())
        }
    }
}

/// The stake one distribution gives to target `c`, saturating onto `init`.
pub open spec fn dist_total(d: Seq<(u64, u128)>, c: u64, init: u128) -> u128
    decreases d.len(),
{
    if d.len() == 0 {
        init
    } else {
        let rest = dist_total(d.drop_last(), c, init);
        if d.last().0 == c {
            sat_add_spec(rest, d.last().1)
        } else {
            rest
        }
    }
}

/// The stake a set of assignments gives to target `c`.
pub open spec fn total_backing(assignments: Seq<StakedAssignment>, c: u64, init: u128) -> u128
    decreases assignments.len(),
{
    if assignments.len() == 0 {
        init
    } else {
        dist_total(assignments.last().distribution@, c, total_backing(
            assignments.drop_last(),
            c,
            init,
        ))
    }
}

/// The voters (with their stakes) one distribution lists for target `c`.
pub open spec fn dist_voters(d: Seq<(u64, u128)>, who: u64, c: u64, init: Seq<(u64, u128)>) -> Seq<
    (u64, u128),
>
    decreases d.len(),
{
    if d.len() == 0 {
        init
    } else {
        let rest = dist_voters(d.drop_last(), who, c, init);
        if d.last().0 == c {
            rest.push((who, d.last().1))
        } else {
            rest
        }
    }
}

/// All voters (with their stakes) behind target `c`, in assignment order.
pub open spec fn voters_list(assignments: Seq<StakedAssignment>, c: u64, init: Seq<(u64, u128)>)
    -> Seq<(u64, u128)>
    decreases assignments.len(),
{
    if assignments.len() == 0 {
        init
    } else {
        dist_voters(
            assignments.last().distribution@,
            assignments.last().who,
            c,
            voters_list(assignments.drop_last(), c, init),
        )
    }
}

/// How many distribution entries point at no winner, saturating on u32.
pub open spec fn dist_errors(d: Seq<(u64, u128)>, winners: Seq<u64>, init: u32) -> u32
    decreases d.len(),
{
    if d.len() == 0 {
        init
    } else {
        let rest = dist_errors(d.drop_last(), winners, init);
        if find_candidate_spec(winners, d.last().0) == -1 {
            if rest < u32::MAX {
                (rest + 1) as u32
            } else {
                u32::MAX
            }
        } else {
            rest
        }
    }
}

/// The total count of edges of a set of assignments pointing at no winner.
pub open spec fn total_errors(assignments: Seq<StakedAssignment>, winners: Seq<u64>, init: u32)
    -> u32
    decreases assignments.len(),
{
    if assignments.len() == 0 {
        init
    } else {
        dist_errors(assignments.last().distribution@, winners, total_errors(
            assignments.drop_last(),
            winners,
            init,
        ))
    }
}

/// Find a key in the support map entries: the index of the last entry with
/// this key (under unique keys, the only one); nothing when absent.
fn find_support(entries: &Vec<(u64, Support)>, id: u64) -> (r: Option<usize>)
    ensures
        r matches Some(i) ==> find_candidate_spec(keys_of(entries@), id) == i && i
            < entries@.len(),
        r is None ==> find_candidate_spec(keys_of(entries@), id) == -1,
{
    let n = entries.len();
    let mut best: Option<usize> = None;
    let mut i: usize = 0;
    while i < n
        invariant
            n == entries@.len(),
            i <= n,
            best matches Some(b) ==> find_candidate_spec(keys_of(entries@).take(i as int), id) == b
                && b < n,
            best is None ==> find_candidate_spec(keys_of(entries@).take(i as int), id) == -1,
        decreases n - i,
    {
        proof {
            assert(keys_of(entries@).take(i + 1).drop_last() =~= keys_of(entries@).take(i as int));
            assert(keys_of(entries@).take(i + 1).last() == entries@[i as int].0);
        }
        if entries[i].0 == id {
            best = Some(i);
        }
        i = i + 1;
    }
    proof {
        assert(keys_of(entries@).take(n as int) =~= keys_of(entries@));
    }
    best
}

/// Build the support map of an election result: one entry per distinct
/// winner, totalling the stake the assignments route to it and listing the
/// contributing voters; the second result counts the distribution entries
/// that point at no winner.
pub fn build_support_map(winners: &Vec<u64>, assignments: &Vec<StakedAssignment>) -> (r: (
    SupportMap,
    u32,
))
    ensures
        keys_of(r.0.entries@) == dedup_keys(winners@),
        forall|e: int|
            0 <= e < r.0.entries@.len() ==> {
                let entry = #[trigger] r.0.entries@[e];
                &&& entry.1.total == total_backing(assignments@, entry.0, 0)
                &&& entry.1.voters@ == voters_list(assignments@, entry.0, Seq::empty())
            },
        r.1 == total_errors(assignments@, winners@, 0),
{
    let mut entries: Vec<(u64, Support)> = Vec::new();
    let nw = winners.len();
    let mut i: usize = 0;
    while i < nw
        invariant
            nw == winners@.len(),
            i <= nw,
            keys_of(entries@) == dedup_keys(winners@.take(i as int)),
            forall|e: int|
                0 <= e < entries@.len() ==> (#[trigger] entries@[e]).1.total == 0 && entries@[
                e].1.voters@.len() == 0,
        decreases nw - i,
    {
        proof {
            assert(winners@.take(i + 1).drop_last() =~= winners@.take(i as int));
            assert(winners@.take(i + 1).last() == winners@[i as int]);
        }
        let w = winners[i];
        let mut seen: bool = false;
        let ne0 = entries.len();
        let mut k: usize = 0;
        while k < ne0
            invariant
                ne0 == entries@.len(),
                k <= ne0,
                seen <==> exists|e: int| 0 <= e < k && (#[trigger] entries@[e]).0 == w,
            decreases ne0 - k,
        {
            if entries[k].0 == w {
                seen = true;
            }
            k = k + 1;
        }
        proof {
            lemma_dedup_contains(winners@.take(i as int), w);
            if seen {
                let e = choose|e: int| 0 <= e < entries@.len() && (#[trigger] entries@[e]).0 == w;
                assert(keys_of(entries@)[e] == w);
                assert(dedup_keys(winners@.take(i as int)).contains(w));
                assert(winners@.take(i as int).contains(w));
                assert(dedup_keys(winners@.take(i + 1)) =~= dedup_keys(winners@.take(i as int)));
            } else {
                if winners@.take(i as int).contains(w) {
                    let ix = choose|ix: int|
                        0 <= ix < dedup_keys(winners@.take(i as int)).len() && dedup_keys(
                            winners@.take(i as int),
                        )[ix] == w;
                    assert(entries@[ix].0 == keys_of(entries@)[ix]);
                    assert(false);
                }
            }
        }
        if !seen {
            entries.push((w, Support { total: 0, voters: Vec::new() }));
            proof {
                assert(keys_of(entries@) =~= dedup_keys(winners@.take(i + 1)));
            }
        }
        i = i + 1;
    }
    proof {
        assert(winners@.take(nw as int) =~= winners@);
    }

    // accumulate the assignments into the map
    let mut errors: u32 = 0;
    let na = assignments.len();
    let mut a: usize = 0;
    while a < na
        invariant
            na == assignments@.len(),
            a <= na,
            keys_of(entries@) == dedup_keys(winners@),
            forall|e: int|
                0 <= e < entries@.len() ==> {
                    let entry = #[trigger] entries@[e];
                    &&& entry.1.total == total_backing(assignments@.take(a as int), entry.0, 0)
                    &&& entry.1.voters@ == voters_list(
                        assignments@.take(a as int),
                        entry.0,
                        Seq::empty(),
                    )
                },
            errors == total_errors(assignments@.take(a as int), winners@, 0),
        decreases na - a,
    {
        proof {
            assert(assignments@.take(a + 1).drop_last() =~= assignments@.take(a as int));
            assert(assignments@.take(a + 1).last() == assignments@[a as int]);
        }
        let who = assignments[a].who;
        let nd = assignments[a].distribution.len();
        let ghost dist = assignments@[a as int].distribution@;
        let mut j: usize = 0;
        while j < nd
            invariant
                na == assignments@.len(),
                0 <= a < na,
                nd == dist.len(),
                dist == assignments@[a as int].distribution@,
                who == assignments@[a as int].who,
                j <= nd,
                keys_of(entries@) == dedup_keys(winners@),
                forall|e: int|
                    0 <= e < entries@.len() ==> {
                        let entry = #[trigger] entries@[e];
                        &&& entry.1.total == dist_total(
                            dist.take(j as int),
                            entry.0,
                            total_backing(assignments@.take(a as int), entry.0, 0),
                        )
                        &&& entry.1.voters@ == dist_voters(
                            dist.take(j as int),
                            who,
                            entry.0,
                            voters_list(assignments@.take(a as int), entry.0, Seq::empty()),
                        )
                    },
                errors == dist_errors(
                    dist.take(j as int),
                    winners@,
                    total_errors(assignments@.take(a as int), winners@, 0),
                ),
            decreases nd - j,
        {
            proof {
                assert(dist.take(j + 1).drop_last() =~= dist.take(j as int));
                assert(dist.take(j + 1).last() == dist[j as int]);
            }
            let c = assignments[a].distribution[j].0;
            let weight = assignments[a].distribution[j].1;
            match find_support(&entries, c) {
                Some(idx) => {
                    proof {
                        crate::graph::lemma_find_candidate(keys_of(entries@), c);
                        lemma_dedup_no_winner(winners@, c);
                        lemma_dedup_distinct(winners@);
                        assert(entries@[idx as int].0 == keys_of(entries@)[idx as int]);
                        assert(entries@[idx as int].0 == c);
                    }
                    let ghost entries_a = entries@;
                    let cur_total = entries[idx].1.total;
                    entries[idx].1.total = cur_total.saturating_add(weight);
                    entries[idx].1.voters.push((who, weight));
                    proof {
                        assert(entries@ =~= entries_a.update(
                            idx as int,
                            entries@[idx as int],
                        ));
                        assert(keys_of(entries@) =~= keys_of(entries_a));
                        assert forall|e: int| 0 <= e < entries@.len() implies {
                            let entry = #[trigger] entries@[e];
                            &&& entry.1.total == dist_total(
                                dist.take(j + 1),
                                entry.0,
                                total_backing(assignments@.take(a as int), entry.0, 0),
                            )
                            &&& entry.1.voters@ == dist_voters(
                                dist.take(j + 1),
                                who,
                                entry.0,
                                voters_list(assignments@.take(a as int), entry.0, Seq::empty()),
                            )
                        } by {
                            if e != idx {
                                assert(entries@[e] == entries_a[e]);
                                assert(keys_of(entries_a)[e] == entries_a[e].0);
                                assert(keys_of(entries_a)[idx as int] == c);
                                assert(entries_a[e].0 != c);
                            }
                        }
                    }
                },
                None => {
                    proof {
                        lemma_dedup_no_winner(winners@, c);
                        crate::graph::lemma_find_candidate(keys_of(entries@), c);
                        lemma_find_contains(keys_of(entries@), c);
                        assert forall|e: int| 0 <= e < entries@.len() implies (
                        #[trigger] entries@[e]).0 != c by {
                            if entries@[e].0 == c {
                                assert(keys_of(entries@)[e] == c);
                                assert(keys_of(entries@).contains(c));
                            }
                        }
                    }
                    errors = errors.saturating_add(1);
                },
            }
            j = j + 1;
        }
        proof {
            assert(dist.take(nd as int) =~= dist);
        }
        a = a + 1;
    }
    proof {
        assert(assignments@.take(na as int) =~= assignments@);
    }
    (SupportMap { entries }, errors)
}

/// A key is in the deduplicated winners exactly when the winners hold it.
pub proof fn lemma_dedup_contains(s: Seq<u64>, w: u64)
    ensures
        dedup_keys(s).contains(w) <==> s.contains(w),
    decreases s.len(),
{
    if s.len() > 0 {
        let dl = s.drop_last();
        let rest = dedup_keys(dl);
        lemma_dedup_contains(dl, w);
        if s.contains(w) {
            let iw = choose|iw: int| 0 <= iw < s.len() && s[iw] == w;
            if iw < s.len() - 1 {
                assert(dl[iw] == w);
                assert(dl.contains(w));
                let ir = choose|ir: int| 0 <= ir < rest.len() && rest[ir] == w;
                if dl.contains(s.last()) {
                    assert(dedup_keys(s)[ir] == w);
                } else {
                    assert(dedup_keys(s)[ir] == w);
                }
                assert(dedup_keys(s).contains(w));
            } else {
                if dl.contains(s.last()) {
                    let ir = choose|ir: int| 0 <= ir < rest.len() && rest[ir] == w;
                    assert(dedup_keys(s)[ir] == w);
                } else {
                    assert(dedup_keys(s)[rest.len() as int] == w);
                }
                assert(dedup_keys(s).contains(w));
            }
        }
        if dedup_keys(s).contains(w) {
            let iw = choose|iw: int| 0 <= iw < dedup_keys(s).len() && dedup_keys(s)[iw] == w;
            if dl.contains(s.last()) {
                assert(rest[iw] == w);
                assert(rest.contains(w));
                let id = choose|id: int| 0 <= id < dl.len() && dl[id] == w;
                assert(s[id] == w);
                assert(s.contains(w));
            } else {
                if iw < rest.len() {
                    assert(rest[iw] == w);
                    assert(rest.contains(w));
                    let id = choose|id: int| 0 <= id < dl.len() && dl[id] == w;
                    assert(s[id] == w);
                    assert(s.contains(w));
                } else {
                    assert(w == s.last());
                    assert(s[s.len() - 1] == w);
                    assert(s.contains(w));
                }
            }
        }
    }
}

/// The deduplicated winners are pairwise distinct.
pub proof fn lemma_dedup_distinct(s: Seq<u64>)
    ensures
        forall|k1: int, k2: int|
            0 <= k1 < k2 < dedup_keys(s).len() ==> dedup_keys(s)[k1] != dedup_keys(s)[k2],
    decreases s.len(),
{
    if s.len() > 0 {
        let dl = s.drop_last();
        let rest = dedup_keys(dl);
        lemma_dedup_distinct(dl);
        if dl.contains(s.last()) {
        } else {
            lemma_dedup_contains(dl, s.last());
            assert forall|k1: int, k2: int|
                0 <= k1 < k2 < dedup_keys(s).len() implies dedup_keys(s)[k1] != dedup_keys(
                s,
            )[k2] by {
                if k2 < rest.len() {
                    assert(dedup_keys(s)[k1] == rest[k1] && dedup_keys(s)[k2] == rest[k2]);
                } else {
                    assert(dedup_keys(s)[k2] == s.last());
                    assert(dedup_keys(s)[k1] == rest[k1]);
                    if rest[k1] == s.last() {
                        assert(rest.contains(s.last()));
                    }
                }
            }
        }
    }
}

/// Resolving a key against the deduplicated winners fails exactly when the
/// winners do not hold it.
pub proof fn lemma_dedup_no_winner(winners: Seq<u64>, c: u64)
    ensures
        (find_candidate_spec(dedup_keys(winners), c) == -1) <==> (find_candidate_spec(winners, c)
            == -1),
{
    lemma_dedup_contains(winners, c);
    lemma_find_contains(dedup_keys(winners), c);
    lemma_find_contains(winners, c);
}

/// A key resolves exactly when the sequence holds it.
pub proof fn lemma_find_contains(s: Seq<u64>, c: u64)
    ensures
        (find_candidate_spec(s, c) == -1) <==> !s.contains(c),
    decreases s.len(),
{
    if s.len() > 0 {
        lemma_find_contains(s.drop_last(), c);
        if s.last() == c {
            assert(s.contains(c));
        } else {
            if s.contains(c) {
                let ix = choose|ix: int| 0 <= ix < s.len() && s[ix] == c;
                assert(s.drop_last()[ix] == c);
                assert(s.drop_last().contains(c));
            }
            assert forall|x: u64| s.drop_last().contains(x) implies s.contains(x) by {
                let ix = choose|ix: int| 0 <= ix < s.drop_last().len() && s.drop_last()[ix] == x;
                assert(s[ix] == x);
            }
        }
    }
}

/// The minimal support of a map's entries, folded from `init`.
pub open spec fn min_total(entries: Seq<(u64, Support)>, init: u128) -> u128
    decreases entries.len(),
{
    if entries.len() == 0 {
        init
    } else {
        let rest = min_total(entries.drop_last(), init);
        if entries.last().1.total < rest {
            entries.last().1.total
        } else {
            rest
        }
    }
}

/// The saturating sum of the supports of a map's entries.
pub open spec fn sum_total(entries: Seq<(u64, Support)>, init: u128) -> u128
    decreases entries.len(),
{
    if entries.len() == 0 {
        init
    } else {
        sat_add_spec(sum_total(entries.drop_last(), init), entries.last().1.total)
    }
}

/// The saturating sum of the squared supports of a map's entries.
pub open spec fn sum_square(entries: Seq<(u64, Support)>, init: u128) -> u128
    decreases entries.len(),
{
    if entries.len() == 0 {
        init
    } else {
        sat_add_spec(
            sum_square(entries.drop_last(), init),
            sat_mul_spec(entries.last().1.total, entries.last().1.total),
        )
    }
}

/// Evaluate a support map: the minimal support (to be maximized), the sum of
/// supports (to be maximized), and the saturating sum of squared supports
/// (to be minimized).
pub fn evaluate_support(support: &SupportMap) -> (r: ElectionScore)
    ensures
        r[0] == min_total(support.entries@, u128::MAX),
        r[1] == sum_total(support.entries@, 0),
        r[2] == sum_square(support.entries@, 0),
{
    let mut min_support: u128 = u128::MAX;
    let mut sum: u128 = 0;
    let mut sum_squared: u128 = 0;
    let n = support.entries.len();
    let mut i: usize = 0;
    while i < n
        invariant
            n == support.entries@.len(),
            i <= n,
            min_support == min_total(support.entries@.take(i as int), u128::MAX),
            sum == sum_total(support.entries@.take(i as int), 0),
            sum_squared == sum_square(support.entries@.take(i as int), 0),
        decreases n - i,
    {
        proof {
            assert(support.entries@.take(i + 1).drop_last() =~= support.entries@.take(i as int));
            assert(support.entries@.take(i + 1).last() == support.entries@[i as int]);
        }
        let total = support.entries[i].1.total;
        sum = sum.saturating_add(total);
        let squared = sat_mul(total, total);
        sum_squared = sum_squared.saturating_add(squared);
        if total < min_support {
            min_support = total;
        }
        i = i + 1;
    }
    proof {
        assert(support.entries@.take(n as int) =~= support.entries@);
    }
    [min_support, sum, sum_squared]
}

/// Compare `a` against `b` within the threshold `thr`: larger only at or
/// beyond `b + thr` (over the unbounded integers, so a bound past the
/// numeric domain is never met), smaller only below `b - thr`; with a zero
/// threshold, the plain order. Returns 1, -1 or 0.
pub open spec fn threshold_cmp_spec(a: u128, b: u128, thr: u128) -> int {
    if thr == 0 {
        if a > b {
            1int
        } else if a < b {
            -1int
        } else {
            0int
        }
    } else {
        if a as int >= b as int + thr as int {
            1int
        } else if b >= thr && a < (b - thr) as u128 {
            -1int
        } else {
            0int
        }
    }
}

/// Whether the score `this` is better than the score `that`, each component
/// compared within `epsilon` (the ratio `eps_parts / eps_acc`, applied to
/// `that`'s component, rounded up). Lexicographic: the first two components
/// must not fall behind and are better beyond the threshold; the third is
/// better below it.
pub fn is_score_better(
    this: ElectionScore,
    that: ElectionScore,
    eps_parts: u128,
    eps_acc: u128,
) -> (r: bool)
    requires
        eps_parts <= eps_acc,
        1 <= eps_acc <= ACCURACY_MAX,
    ensures
        r == {
            let cmp0 = threshold_cmp_spec(
                this[0],
                that[0],
                mul_ratio_ceil_spec(eps_parts, that[0], eps_acc) as u128,
            );
            let cmp1 = threshold_cmp_spec(
                this[1],
                that[1],
                mul_ratio_ceil_spec(eps_parts, that[1], eps_acc) as u128,
            );
            let cmp2 = threshold_cmp_spec(
                this[2],
                that[2],
                mul_ratio_ceil_spec(eps_parts, that[2], eps_acc) as u128,
            );
            ||| cmp0 == 1
            ||| (this[0] >= that[0] && cmp0 == 0 && cmp1 == 1)
            ||| (this[0] >= that[0] && cmp0 == 0 && this[1] >= that[1] && cmp1 == 0 && cmp2 == -1)
        },
{
    let thr0 = mul_ratio_ceil(eps_parts, that[0], eps_acc);
    let thr1 = mul_ratio_ceil(eps_parts, that[1], eps_acc);
    let thr2 = mul_ratio_ceil(eps_parts, that[2], eps_acc);
    let cmp0 = threshold_cmp(this[0], that[0], thr0);
    let cmp1 = threshold_cmp(this[1], that[1], thr1);
    let cmp2 = threshold_cmp(this[2], that[2], thr2);
    if cmp0 == 1 {
        true
    } else if this[0] >= that[0] && cmp0 == 0 && cmp1 == 1 {
        true
    } else if this[0] >= that[0] && cmp0 == 0 && this[1] >= that[1] && cmp1 == 0 && cmp2 == -1 {
        true
    } else {
        false
    }
}

/// Comparing a value against itself lands inside any threshold.
pub proof fn lemma_threshold_cmp_refl(a: u128, thr: u128)
    ensures
        threshold_cmp_spec(a, a, thr) == 0,
{
}

/// A score is never better than itself, under any tolerance: every component
/// compares equal within its threshold and the third is not below it, so no
/// accepting case of the comparison matches.
pub proof fn lemma_score_not_better_than_itself(x: ElectionScore, eps_parts: u128, eps_acc: u128)
    requires
        eps_parts <= eps_acc,
        1 <= eps_acc <= ACCURACY_MAX,
    ensures
        !({
            let cmp0 = threshold_cmp_spec(
                x[0],
                x[0],
                mul_ratio_ceil_spec(eps_parts, x[0], eps_acc) as u128,
            );
            let cmp1 = threshold_cmp_spec(
                x[1],
                x[1],
                mul_ratio_ceil_spec(eps_parts, x[1], eps_acc) as u128,
            );
            let cmp2 = threshold_cmp_spec(
                x[2],
                x[2],
                mul_ratio_ceil_spec(eps_parts, x[2], eps_acc) as u128,
            );
            ||| cmp0 == 1
            ||| (x[0] >= x[0] && cmp0 == 0 && cmp1 == 1)
            ||| (x[0] >= x[0] && cmp0 == 0 && x[1] >= x[1] && cmp1 == 0 && cmp2 == -1)
        }),
{
    lemma_threshold_cmp_refl(x[0], mul_ratio_ceil_spec(eps_parts, x[0], eps_acc) as u128);
    lemma_threshold_cmp_refl(x[1], mul_ratio_ceil_spec(eps_parts, x[1], eps_acc) as u128);
    lemma_threshold_cmp_refl(x[2], mul_ratio_ceil_spec(eps_parts, x[2], eps_acc) as u128);
}

/// Compare within a threshold, executable form.
fn threshold_cmp(a: u128, b: u128, thr: u128) -> (r: i8)
    ensures
        r as int == threshold_cmp_spec(a, b, thr),
{
    if thr == 0 {
        if a > b {
            1
        } else if a < b {
            -1
        } else {
            0
        }
    } else {
        if b <= u128::MAX - thr && a >= b + thr {
            1
        } else if b >= thr && a < b - thr {
            -1
        } else {
            0
        }
    }
}

} // verus!
