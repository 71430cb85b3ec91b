use npos_elections::apply::apply_elected;
use npos_elections::balancing::balance;
use npos_elections::graph::setup_inputs;
use npos_elections::heuristic::balanced_heuristic;
use npos_elections::rational::Rational;
use npos_elections::score::calculate_max_score;
use npos_elections::types::Voter;

const PERCENT: u128 = 100;
const PERBILL: u128 = 1_000_000_000;

fn edges_of(voters: &[Voter], who: u64) -> (u64, Vec<(u64, u128)>) {
    let v = voters.iter().find(|x| x.who == who).unwrap();
    (v.who, v.edges.iter().map(|e| (e.who, e.weight)).collect::<Vec<_>>())
}

#[test]
fn basic_election_manual_works() {
    let candidates = vec![1, 2, 3];
    let voters = vec![(10, 10, vec![1, 2]), (20, 20, vec![1, 3]), (30, 30, vec![2, 3])];

    let (mut candidates, mut voters) = setup_inputs(candidates, voters);

    // Round 1
    let winner = calculate_max_score(&mut candidates, &voters, PERCENT);
    assert_eq!(candidates[winner].who, 3);
    assert_eq!(candidates[winner].score, Rational::new(50, 1));

    apply_elected(&mut candidates, &mut voters, winner);
    assert_eq!(edges_of(&voters, 30), (30, vec![(2, 0), (3, 30)]));
    assert_eq!(edges_of(&voters, 20), (20, vec![(1, 0), (3, 20)]));

    // finish the round.
    candidates[winner].elected = true;
    candidates[winner].round = 0;

    // balancing makes no difference here but anyhow.
    balance(&mut candidates, &mut voters, 10, 0);

    // round 2
    let winner = calculate_max_score(&mut candidates, &voters, PERCENT);
    assert_eq!(candidates[winner].who, 2);
    assert_eq!(candidates[winner].score, Rational::new(25, 1));

    apply_elected(&mut candidates, &mut voters, winner);
    assert_eq!(edges_of(&voters, 30), (30, vec![(2, 15), (3, 15)]));
    assert_eq!(edges_of(&voters, 20), (20, vec![(1, 0), (3, 20)]));
    assert_eq!(edges_of(&voters, 10), (10, vec![(1, 0), (2, 10)]));

    // finish the round.
    candidates[winner].elected = true;
    candidates[winner].round = 0;

    // balancing will improve stuff here.
    balance(&mut candidates, &mut voters, 10, 0);

    assert_eq!(edges_of(&voters, 30), (30, vec![(2, 20), (3, 10)]));
    assert_eq!(edges_of(&voters, 20), (20, vec![(1, 0), (3, 20)]));
    assert_eq!(edges_of(&voters, 10), (10, vec![(1, 0), (2, 10)]));
}

#[test]
fn basic_election_works() {
    let candidates = vec![1, 2, 3];
    let voters = vec![(10, 10, vec![1, 2]), (20, 20, vec![1, 3]), (30, 30, vec![2, 3])];

    let result = balanced_heuristic(2, candidates, voters, PERBILL).unwrap();
    assert_eq!(result.winners, vec![(3, 30), (2, 30)]);
    assert_eq!(result.assignments.len(), 3);
    assert_eq!(result.assignments[0].who, 10u64);
    assert_eq!(result.assignments[0].distribution, vec![(2, 1_000_000_000)]);
    assert_eq!(result.assignments[1].who, 20);
    assert_eq!(result.assignments[1].distribution, vec![(3, 1_000_000_000)]);
    assert_eq!(result.assignments[2].who, 30);
    assert_eq!(
        result.assignments[2].distribution,
        vec![(2, 666_666_666), (3, 333_333_334)],
    );
}

#[test]
fn linear_voting_example_works() {
    let candidates = vec![11, 21, 31, 41, 51, 61, 71];
    let voters = vec![
        (2, 2000, vec![11]),
        (4, 1000, vec![11, 21]),
        (6, 1000, vec![21, 31]),
        (8, 1000, vec![31, 41]),
        (110, 1000, vec![41, 51]),
        (120, 1000, vec![51, 61]),
        (130, 1000, vec![61, 71]),
    ];

    let result = balanced_heuristic(4, candidates, voters, PERBILL).unwrap();
    assert_eq!(result.winners, vec![(11, 3000), (31, 2000), (51, 1500), (61, 1500)]);
}

#[test]
fn same_inputs_give_identical_outputs() {
    let candidates = vec![11, 21, 31, 41, 51, 61, 71];
    let voters = vec![
        (2, 2000, vec![11]),
        (4, 1000, vec![11, 21]),
        (6, 1000, vec![21, 31]),
        (8, 1000, vec![31, 41]),
        (110, 1000, vec![41, 51]),
        (120, 1000, vec![51, 61]),
        (130, 1000, vec![61, 71]),
    ];

    let first = balanced_heuristic(3, candidates.clone(), voters.clone(), PERBILL).unwrap();
    let second = balanced_heuristic(3, candidates, voters, PERBILL).unwrap();
    assert_eq!(first.winners, second.winners);
    assert_eq!(first.assignments, second.assignments);
}

#[test]
fn single_voter_multiple_approvals_elects_first() {
    // input-order tie break between two equally approved candidates
    let candidates = vec![100, 200];
    let voters = vec![(7, 100, vec![100, 200])];

    let result = balanced_heuristic(1, candidates, voters, PERBILL).unwrap();
    assert_eq!(result.winners, vec![(100, 100)]);
    assert_eq!(result.assignments.len(), 1);
    assert_eq!(result.assignments[0].who, 7);
    assert_eq!(result.assignments[0].distribution, vec![(100, 1_000_000_000)]);
}

#[test]
fn zero_approval_candidate_is_never_elected() {
    let candidates = vec![100, 200];
    let voters = vec![(7, 10, vec![100])];

    let result = balanced_heuristic(2, candidates, voters, PERBILL).unwrap();
    assert_eq!(result.winners, vec![(100, 10)]);
}

#[test]
fn to_elect_zero_yields_nothing() {
    let candidates = vec![1, 2, 3];
    let voters = vec![(10, 10, vec![1, 2]), (20, 20, vec![1, 3])];

    let result = balanced_heuristic(0, candidates, voters, PERBILL).unwrap();
    assert!(result.winners.is_empty());
    assert!(result.assignments.is_empty());
}

#[test]
fn to_elect_beyond_candidates_elects_all_approved() {
    let candidates = vec![1, 2, 3];
    let voters = vec![(10, 10, vec![1, 2]), (20, 20, vec![1, 3]), (30, 30, vec![2, 3])];

    let result = balanced_heuristic(10, candidates, voters, PERBILL).unwrap();
    assert_eq!(result.winners.len(), 3);
}

#[test]
fn unknown_approvals_contribute_nothing() {
    // voter 99 approves only candidates that do not exist
    let candidates = vec![1, 2];
    let voters = vec![(10, 10, vec![1]), (99, 50, vec![8, 9])];

    let result = balanced_heuristic(2, candidates, voters, PERBILL).unwrap();
    assert_eq!(result.winners, vec![(1, 10)]);
    assert_eq!(result.assignments.len(), 1);
    assert_eq!(result.assignments[0].who, 10);
}

#[test]
fn all_voters_behind_one_candidate() {
    let candidates = vec![5, 6, 7];
    let voters = vec![(1, 10, vec![7]), (2, 20, vec![7]), (3, 30, vec![7])];

    let result = balanced_heuristic(3, candidates, voters, PERBILL).unwrap();
    assert_eq!(result.winners, vec![(7, 60)]);
}

#[test]
fn duplicate_approvals_form_two_edges() {
    let candidates = vec![1];
    let voters = vec![(10, 50, vec![1, 1])];

    let (candidates, voters) = setup_inputs(candidates, voters);
    assert_eq!(voters[0].edges.len(), 2);
    assert_eq!(candidates[0].approval_stake, 100);
}
