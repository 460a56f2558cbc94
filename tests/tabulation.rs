use report_pipeline::model::{
    Allocatee, NormalizedBallot, TabulationOptions, TabulatorAllocation, TabulatorRound, TieBreakMode,
    Transfer, WinningThreshold,
};
use report_pipeline::report::winner;
use report_pipeline::tabulator::tabulate;

fn ballots(groups: &[(usize, &[u32])]) -> Vec<NormalizedBallot> {
    let mut out = Vec::new();
    for (count, choices) in groups {
        for _ in 0..*count {
            out.push(NormalizedBallot::new(format!("b{}", out.len()), choices.to_vec(), false));
        }
    }
    out
}

fn held(c: u32, votes: u32) -> TabulatorAllocation {
    TabulatorAllocation { allocatee: Allocatee::Candidate(c), votes }
}

fn exhausted(votes: u32) -> TabulatorAllocation {
    TabulatorAllocation { allocatee: Allocatee::Exhausted, votes }
}

fn final_two() -> TabulationOptions {
    TabulationOptions { winning_threshold: WinningThreshold::PluralityFinalTwo, ..Default::default() }
}

fn total(round: &TabulatorRound) -> u32 {
    round.allocations.iter().map(|a| a.votes).sum()
}

#[test]
fn plurality_without_transfers() {
    let b = ballots(&[(5, &[0]), (3, &[1]), (2, &[2])]);
    let rounds = tabulate(&b, &TabulationOptions::default());
    assert_eq!(rounds.len(), 2);
    assert_eq!(rounds[0].allocations, vec![held(0, 5), held(1, 3), held(2, 2)]);
    assert_eq!(rounds[0].continuing_ballots, 10);
    assert_eq!(rounds[1].allocations, vec![held(0, 5), held(1, 3), exhausted(2)]);
    assert_eq!(rounds[1].continuing_ballots, 8);
    assert_eq!(rounds[1].transfers, vec![Transfer { from: 2, to: Allocatee::Exhausted, count: 2 }]);
    assert_eq!(rounds[0].round_number, 1);
    assert_eq!(rounds[1].round_number, 2);
    assert_eq!(winner(&rounds), Some(0));
}

#[test]
fn full_transfer_cascade() {
    let b = ballots(&[(4, &[0, 1]), (3, &[1, 2]), (2, &[2, 1])]);
    let rounds = tabulate(&b, &TabulationOptions::default());
    assert_eq!(rounds.len(), 2);
    assert_eq!(rounds[0].allocations, vec![held(0, 4), held(1, 3), held(2, 2)]);
    assert!(rounds[0].transfers.is_empty());
    assert_eq!(rounds[1].allocations, vec![held(1, 5), held(0, 4)]);
    assert_eq!(rounds[1].transfers, vec![Transfer { from: 2, to: Allocatee::Candidate(1), count: 2 }]);
    assert_eq!(winner(&rounds), Some(1));
}

#[test]
fn exhaustion_with_final_two_breaks_tie_by_id() {
    let b = ballots(&[(3, &[0]), (3, &[1]), (2, &[2])]);
    let rounds = tabulate(&b, &final_two());
    assert_eq!(rounds.len(), 2);
    assert_eq!(rounds[1].allocations, vec![held(0, 3), held(1, 3), exhausted(2)]);
    assert_eq!(winner(&rounds), Some(0));
}

#[test]
fn exhaustion_under_majority_runs_to_one_candidate() {
    let b = ballots(&[(3, &[0]), (3, &[1]), (2, &[2])]);
    let rounds = tabulate(&b, &TabulationOptions::default());
    assert_eq!(rounds.len(), 3);
    assert_eq!(rounds[2].allocations, vec![held(0, 3), exhausted(5)]);
    assert_eq!(winner(&rounds), Some(0));
}

#[test]
fn permutation_decides_ties() {
    let b = ballots(&[(3, &[0]), (3, &[1]), (2, &[2])]);
    let options = TabulationOptions {
        tie_break_mode: TieBreakMode::UsePermutation,
        candidate_permutation: Some(vec![1, 0, 2]),
        ..final_two()
    };
    let rounds = tabulate(&b, &options);
    assert_eq!(rounds[1].allocations, vec![held(1, 3), held(0, 3), exhausted(2)]);
    assert_eq!(winner(&rounds), Some(1));
}

#[test]
fn stable_hash_orders_ties() {
    // 0 hashes to 0, 1 to 2654435761 and 2 to 1013904226 (mod 2^32).
    let b = ballots(&[(2, &[0]), (2, &[1]), (2, &[2])]);
    let options = TabulationOptions { tie_break_mode: TieBreakMode::RandomStableHash, ..Default::default() };
    let rounds = tabulate(&b, &options);
    assert_eq!(rounds[0].allocations, vec![held(0, 2), held(2, 2), held(1, 2)]);
    assert_eq!(rounds[1].transfers, vec![Transfer { from: 1, to: Allocatee::Exhausted, count: 2 }]);
}

#[test]
fn batch_elimination_removes_trailing_run() {
    let b = ballots(&[(10, &[0]), (3, &[1]), (2, &[2]), (1, &[3])]);
    let options = TabulationOptions { batch_elimination: true, ..final_two() };
    let rounds = tabulate(&b, &options);
    assert_eq!(rounds.len(), 2);
    assert_eq!(rounds[1].allocations, vec![held(0, 10), exhausted(6)]);
    assert_eq!(
        rounds[1].transfers,
        vec![
            Transfer { from: 1, to: Allocatee::Exhausted, count: 3 },
            Transfer { from: 2, to: Allocatee::Exhausted, count: 2 },
            Transfer { from: 3, to: Allocatee::Exhausted, count: 1 },
        ]
    );
    let single = tabulate(&b, &final_two());
    assert_eq!(single.len(), 3);
}

#[test]
fn no_ballots_no_rounds() {
    assert!(tabulate(&[], &TabulationOptions::default()).is_empty());
    let b = ballots(&[(3, &[])]);
    let rounds = tabulate(&b, &TabulationOptions::default());
    assert!(rounds.is_empty());
    assert_eq!(winner(&rounds), None);
}

#[test]
fn votes_add_up_and_never_drop() {
    let b = ballots(&[(4, &[0, 2, 1]), (3, &[1, 2, 0]), (2, &[2, 0, 1]), (1, &[3]), (2, &[])]);
    let rounds = tabulate(&b, &TabulationOptions::default());
    assert!(rounds.len() >= 2);
    for round in &rounds {
        assert_eq!(total(round), 12);
    }
    for pair in rounds.windows(2) {
        for later in &pair[1].allocations {
            if let Some(earlier) = pair[0].allocations.iter().find(|a| a.allocatee == later.allocatee) {
                if later.allocatee != Allocatee::Exhausted {
                    assert!(later.votes >= earlier.votes);
                }
            }
        }
    }
    let last = rounds.last().unwrap();
    assert!(2 * last.allocations[0].votes > last.continuing_ballots);
}

#[test]
fn final_two_leaves_at_most_two() {
    let b = ballots(&[(10, &[0]), (9, &[1]), (8, &[2]), (7, &[3])]);
    let rounds = tabulate(&b, &final_two());
    let last = rounds.last().unwrap();
    let candidates = last.allocations.iter().filter(|a| a.allocatee != Allocatee::Exhausted).count();
    assert_eq!(candidates, 2);
    assert_eq!(rounds.len(), 3);
}

#[test]
fn zero_first_choice_candidate_goes_first() {
    let b = ballots(&[(3, &[0, 2]), (2, &[1, 2]), (2, &[3])]);
    let rounds = tabulate(&b, &TabulationOptions::default());
    assert_eq!(rounds[0].allocations, vec![held(0, 3), held(1, 2), held(3, 2), held(2, 0)]);
    assert!(rounds[1].transfers.is_empty());
    assert_eq!(rounds[1].allocations, vec![held(0, 3), held(1, 2), held(3, 2)]);
}

#[test]
fn exhaustion_counted_by_cause() {
    let mut b = ballots(&[(4, &[0]), (3, &[1]), (1, &[2])]);
    b.push(NormalizedBallot::new("o1".to_string(), vec![2], true));
    b.push(NormalizedBallot::new("o2".to_string(), vec![], true));
    b.push(NormalizedBallot::new("u1".to_string(), vec![], false));
    let options = TabulationOptions { exhaust_on_overvote: true, ..Default::default() };
    let rounds = tabulate(&b, &options);
    assert_eq!(rounds.len(), 2);
    assert_eq!((rounds[0].undervote, rounds[0].overvote), (1, 1));
    assert_eq!((rounds[1].undervote, rounds[1].overvote), (1, 1));
    let plain = tabulate(&b, &TabulationOptions::default());
    assert_eq!((plain[1].undervote, plain[1].overvote), (0, 0));
}
