use npos_elections::assignments::{Assignment, StakedAssignment};
use npos_elections::support::{build_support_map, evaluate_support, is_score_better};

const PERCENT: u128 = 100;
const PERBILL: u128 = 1_000_000_000;

#[test]
fn score_comparison_beats_by_epsilon_in_first_component() {
    // component 0 beats by at least 20 percent
    assert!(is_score_better([12, 20, 5], [10, 20, 7], 20, PERCENT));
    assert!(!is_score_better([11, 20, 5], [10, 20, 7], 20, PERCENT));
}

#[test]
fn score_is_never_better_than_itself() {
    assert!(!is_score_better([12, 20, 5], [12, 20, 5], 20, PERCENT));
    // even where the first component leaves no room above it
    assert!(!is_score_better([u128::MAX, 0, 0], [u128::MAX, 0, 0], 1, PERCENT));
    assert!(!is_score_better(
        [u128::MAX, u128::MAX, u128::MAX],
        [u128::MAX, u128::MAX, u128::MAX],
        20,
        PERCENT,
    ));
}

#[test]
fn score_comparison_with_zero_epsilon_is_plain_order() {
    assert!(is_score_better([11, 20, 7], [10, 20, 7], 0, PERCENT));
    assert!(!is_score_better([10, 20, 7], [10, 20, 7], 0, PERCENT));
    assert!(is_score_better([10, 20, 6], [10, 20, 7], 0, PERCENT));
}

#[test]
fn support_map_totals_and_errors() {
    let winners = vec![1u64, 2];
    let assignments = vec![
        StakedAssignment { who: 10, distribution: vec![(1, 5), (2, 5)] },
        StakedAssignment { who: 20, distribution: vec![(1, 15), (3, 5)] },
    ];
    let (support, errors) = build_support_map(&winners, &assignments);
    assert_eq!(errors, 1);
    assert_eq!(support.entries.len(), 2);
    assert_eq!(support.entries[0].0, 1);
    assert_eq!(support.entries[0].1.total, 20);
    assert_eq!(support.entries[0].1.voters, vec![(10, 5), (20, 15)]);
    assert_eq!(support.entries[1].0, 2);
    assert_eq!(support.entries[1].1.total, 5);
    assert_eq!(support.entries[1].1.voters, vec![(10, 5)]);

    let score = evaluate_support(&support);
    assert_eq!(score, [5, 25, 425]);
}

#[test]
fn support_sum_matches_total_budget() {
    // every edge points at a winner, so the middle score component is the
    // whole routed stake
    let winners = vec![1u64, 2];
    let assignments = vec![
        StakedAssignment { who: 10, distribution: vec![(1, 30), (2, 70)] },
        StakedAssignment { who: 20, distribution: vec![(2, 50)] },
    ];
    let (support, errors) = build_support_map(&winners, &assignments);
    assert_eq!(errors, 0);
    let score = evaluate_support(&support);
    assert_eq!(score[1], 150);
}

#[test]
fn ratio_assignment_normalizes_to_one() {
    let mut assignment = Assignment {
        who: 30,
        distribution: vec![(2, 666_666_666), (3, 333_333_333)],
    };
    assignment.try_normalize(PERBILL).unwrap();
    let total: u128 = assignment.distribution.iter().map(|(_, p)| *p).sum();
    assert_eq!(total, PERBILL);
    assert_eq!(assignment.distribution, vec![(2, 666_666_666), (3, 333_333_334)]);
}

#[test]
fn staked_assignment_normalizes_to_stake() {
    let mut assignment = StakedAssignment { who: 30, distribution: vec![(2, 20), (3, 9)] };
    assignment.try_normalize(30).unwrap();
    let total: u128 = assignment.distribution.iter().map(|(_, w)| *w).sum();
    assert_eq!(total, 30);
}

#[test]
fn staked_normalize_rejects_overflowing_sum() {
    let mut assignment = StakedAssignment {
        who: 30,
        distribution: vec![(2, u128::MAX), (3, u128::MAX)],
    };
    assert!(assignment.try_normalize(10).is_err());
}

#[test]
fn staked_round_trip_keeps_targets_and_stakes() {
    let staked = StakedAssignment { who: 30, distribution: vec![(2, 20), (3, 10)] };
    let total = staked.total();
    assert_eq!(total, 30);
    let ratio = staked.clone().into_assignment(PERBILL);
    assert_eq!(ratio.who, 30);
    assert_eq!(ratio.distribution, vec![(2, 666_666_666), (3, 333_333_333)]);
    let back = ratio.into_staked(total, PERBILL);
    assert_eq!(back.who, 30);
    // each target survives, each stake within one rounding unit
    assert_eq!(back.distribution.len(), 2);
    assert_eq!(back.distribution[0].0, 2);
    assert_eq!(back.distribution[1].0, 3);
    assert!(back.distribution[0].1.abs_diff(20) <= 1);
    assert!(back.distribution[1].1.abs_diff(10) <= 1);
}

#[test]
fn into_staked_drops_zero_ratios_and_rounds_to_nearest() {
    let assignment = Assignment { who: 1, distribution: vec![(2, 0), (3, 50)] };
    let staked = assignment.into_staked(15, PERCENT);
    assert_eq!(staked.distribution, vec![(3, 7)]);
}

#[test]
fn voter_try_normalize_corrects_weights_and_backings() {
    let candidates = vec![1u64, 2];
    let voters = vec![(10u64, 30u64, vec![1u64, 2])];
    let (mut candidates, mut voters) = npos_elections::graph::setup_inputs(candidates, voters);

    // hand-route weights that fall one short of the budget
    voters[0].edges[0].weight = 20;
    voters[0].edges[1].weight = 9;
    candidates[0].backed_stake = 20;
    candidates[1].backed_stake = 9;

    let mut voter = voters.remove(0);
    voter.try_normalize(&mut candidates).unwrap();
    let total: u128 = voter.edges.iter().map(|e| e.weight).sum();
    assert_eq!(total, 30);
    assert_eq!(
        candidates[0].backed_stake + candidates[1].backed_stake,
        30,
    );
}
