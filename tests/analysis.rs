use report_pipeline::model::{
    CandidateVotes, Allocatee, Candidate, CandidatePairEntry, CandidateType, ElectionInfo, ElectionPreprocessed,
    NormalizedBallot, NormalizedElection, TabulationOptions,
};
use report_pipeline::report::{
    generate_first_alternate, generate_first_final, generate_pairwise_counts, generate_pairwise_preferences,
    generate_ranking_distribution, generate_report, graph, smith_set, total_votes,
};
use report_pipeline::model::{TabulatorAllocation, TabulatorRound, Transfer};
use report_pipeline::tabulator::tabulate;
use std::collections::BTreeMap;

fn ballots(groups: &[(usize, &[u32])]) -> Vec<NormalizedBallot> {
    let mut out = Vec::new();
    for (count, choices) in groups {
        for _ in 0..*count {
            out.push(NormalizedBallot::new(format!("b{}", out.len()), choices.to_vec(), false));
        }
    }
    out
}

fn entry(votes: u32, total: u32) -> Option<CandidatePairEntry> {
    Some(CandidatePairEntry::new(votes, total))
}

fn preprocessed(b: Vec<NormalizedBallot>, names: &[&str]) -> ElectionPreprocessed {
    let candidates = names
        .iter()
        .map(|n| Candidate::new(n.to_string(), if *n == "Write-in" { CandidateType::WriteIn } else { CandidateType::Regular }))
        .collect();
    ElectionPreprocessed {
        info: ElectionInfo {
            name: "Mayor".to_string(),
            office: "mayor".to_string(),
            date: "2024-11-05".to_string(),
            data_format: "preflib".to_string(),
            tabulation_options: TabulationOptions::default(),
            loader_params: None,
            jurisdiction_path: "us/xx".to_string(),
            election_path: "us/xx/2024".to_string(),
            jurisdiction_name: "Somewhere".to_string(),
            office_name: "Mayor".to_string(),
            election_name: "General".to_string(),
            website: None,
        },
        ballots: NormalizedElection { candidates, ballots: b },
    }
}

#[test]
fn condorcet_loser_wins_instant_runoff() {
    let b = ballots(&[(4, &[0, 2, 1]), (3, &[1, 2, 0]), (2, &[2, 0, 1])]);
    let report = generate_report(&preprocessed(b, &["A", "B", "C"]));
    assert_eq!(report.winner, Some(0));
    assert_eq!(report.smith_set, vec![2]);
    assert_eq!(report.condorcet, Some(2));
    assert_eq!(report.ballot_count, 9);
    assert_eq!(report.num_candidates, 3);
    let p = &report.pairwise_preferences;
    assert_eq!(p.entries[0][2], entry(4, 9));
    assert_eq!(p.entries[2][0], entry(5, 9));
    assert_eq!(p.entries[0][1], entry(6, 9));
    assert_eq!(p.entries[2][1], entry(6, 9));
    assert_eq!(p.entries[0][0], None);
}

#[test]
fn plurality_report_has_condorcet_winner() {
    let b = ballots(&[(5, &[0]), (3, &[1]), (2, &[2])]);
    let report = generate_report(&preprocessed(b, &["A", "B", "C"]));
    assert_eq!(report.winner, Some(0));
    assert_eq!(report.smith_set, vec![0]);
    assert_eq!(report.condorcet, Some(0));
    assert_eq!(report.rounds.len(), 2);
}

#[test]
fn cycle_has_no_condorcet_winner() {
    let b = ballots(&[(1, &[0, 1, 2]), (1, &[1, 2, 0]), (1, &[2, 0, 1])]);
    let report = generate_report(&preprocessed(b, &["A", "B", "C"]));
    assert_eq!(report.smith_set, vec![0, 1, 2]);
    assert_eq!(report.condorcet, None);
}

#[test]
fn empty_election_gives_skeleton() {
    let report = generate_report(&preprocessed(Vec::new(), &["A", "Write-in"]));
    assert_eq!(report.ballot_count, 0);
    assert!(report.rounds.is_empty());
    assert_eq!(report.winner, None);
    assert_eq!(report.num_candidates, 0);
    assert!(report.smith_set.is_empty());
    assert_eq!(report.condorcet, None);
    assert_eq!(report.candidates.len(), 2);
}

#[test]
fn write_ins_are_not_counted_as_candidates() {
    let b = ballots(&[(2, &[0]), (1, &[1])]);
    let report = generate_report(&preprocessed(b, &["A", "Write-in"]));
    assert_eq!(report.num_candidates, 1);
}

#[test]
fn pairwise_counts_rank_over_unranked() {
    let b = ballots(&[(2, &[0]), (1, &[1, 0])]);
    let counts = generate_pairwise_counts(&[0, 1, 2], &b);
    assert_eq!(counts.counts[0][1], 2);
    assert_eq!(counts.counts[1][0], 1);
    assert_eq!(counts.counts[0][2], 3);
    assert_eq!(counts.counts[2][0], 0);
    assert_eq!(counts.counts[1][2], 1);
    assert_eq!(counts.counts[2][2], 0);
    let table = generate_pairwise_preferences(&[0, 1, 2], &counts);
    assert_eq!(table.rows, vec![Allocatee::Candidate(0), Allocatee::Candidate(1), Allocatee::Candidate(2)]);
    assert_eq!(table.cols, table.rows);
    for i in 0..3 {
        for j in 0..3 {
            if i != j {
                if let Some(e) = table.entries[i][j] {
                    let back = table.entries[j][i].unwrap();
                    assert_eq!(e.votes + back.votes, e.total);
                }
            }
        }
    }
    let g = graph(&[0, 1, 2], &counts);
    assert!(g[1][0] && g[2][0] && g[2][1]);
    assert!(!g[0][1] && !g[0][0]);
    assert_eq!(smith_set(&[0, 1, 2], &g), vec![0]);
}

#[test]
fn first_alternate_table() {
    let b = ballots(&[(4, &[0, 1]), (3, &[1, 2]), (2, &[2, 1]), (1, &[0])]);
    let t = generate_first_alternate(&[0, 1, 2], &b);
    assert_eq!(t.cols.len(), 4);
    assert_eq!(t.cols[3], Allocatee::Exhausted);
    assert_eq!(t.entries[0], vec![None, entry(4, 5), None, entry(1, 5)]);
    assert_eq!(t.entries[1], vec![None, None, entry(3, 3), None]);
    assert_eq!(t.entries[2], vec![None, entry(2, 2), None, None]);
}

#[test]
fn first_final_table() {
    let b = ballots(&[(4, &[0, 1]), (3, &[1, 2]), (2, &[2, 1]), (1, &[2])]);
    let t = generate_first_final(&[0, 1, 2], &b, &[0, 1]);
    assert_eq!(t.rows, vec![Allocatee::Candidate(2)]);
    assert_eq!(t.cols, vec![Allocatee::Candidate(0), Allocatee::Candidate(1), Allocatee::Exhausted]);
    assert_eq!(t.entries, vec![vec![None, entry(2, 3), entry(1, 3)]]);
}

#[test]
fn ranking_distribution_counts_lengths() {
    let b = ballots(&[(2, &[0]), (1, &[0, 1]), (1, &[1, 0]), (1, &[1]), (2, &[])]);
    let d = generate_ranking_distribution(&[0, 1], &b);
    assert_eq!(d.total_ballots, 5);
    assert_eq!(d.overall_distribution, BTreeMap::from([(1, 3), (2, 2)]));
    assert_eq!(d.candidate_totals, BTreeMap::from([(0, 3), (1, 2)]));
    assert_eq!(
        d.candidate_distributions,
        BTreeMap::from([(0, BTreeMap::from([(1, 2), (2, 1)])), (1, BTreeMap::from([(1, 1), (2, 1)]))])
    );
}

#[test]
fn report_is_deterministic() {
    let b = ballots(&[(4, &[0, 2, 1]), (3, &[1, 2, 0]), (2, &[2, 0, 1])]);
    let e = preprocessed(b, &["A", "B", "C"]);
    let r1 = generate_report(&e);
    let r2 = generate_report(&e);
    assert_eq!(format!("{:?}", r1.rounds), format!("{:?}", r2.rounds));
    assert_eq!(format!("{:?}", r1.pairwise_preferences), format!("{:?}", r2.pairwise_preferences));
    assert_eq!(r1.smith_set, r2.smith_set);
}

fn record(candidate: u32, first: u32, transfer: u32, eliminated: Option<u32>) -> CandidateVotes {
    CandidateVotes { candidate, first_round_votes: first, transfer_votes: transfer, round_eliminated: eliminated }
}

#[test]
fn total_votes_follow_transfers() {
    let b = ballots(&[(4, &[0, 1]), (3, &[1, 2]), (2, &[2, 1])]);
    let rounds = tabulate(&b, &TabulationOptions::default());
    let tv = total_votes(&rounds);
    assert_eq!(tv, vec![record(1, 3, 2, None), record(0, 4, 0, None), record(2, 2, 0, Some(2))]);
    let report = generate_report(&preprocessed(b, &["A", "B", "C"]));
    assert_eq!(report.total_votes, vec![record(0, 4, 0, None), record(1, 3, 2, None), record(2, 2, 0, Some(2))]);
}

#[test]
fn smith_set_is_smallest_dominating_set() {
    // 0 beats everyone; 1 beats 2, 2 beats 3, 3 beats 1. Row j lists who beats j.
    let g = vec![
        vec![false, false, false, false],
        vec![true, false, false, true],
        vec![true, true, false, false],
        vec![true, false, true, false],
    ];
    assert_eq!(smith_set(&[0, 1, 2, 3], &g), vec![0]);
    assert_eq!(smith_set(&[], &Vec::new()), Vec::<u32>::new());
}

#[test]
fn condorcet_winner_above_a_cycle() {
    let b = ballots(&[(1, &[0, 1, 2, 3]), (1, &[0, 2, 3, 1]), (1, &[0, 3, 1, 2])]);
    let report = generate_report(&preprocessed(b, &["A", "B", "C", "D"]));
    assert_eq!(report.smith_set, vec![0]);
    assert_eq!(report.condorcet, Some(0));
    assert_eq!(report.winner, Some(0));
}

#[test]
fn report_copies_info_and_candidates() {
    let b = ballots(&[(2, &[0]), (1, &[1])]);
    let e = preprocessed(b, &["A", "B"]);
    let report = generate_report(&e);
    assert_eq!(report.info.name, "Mayor");
    assert_eq!(report.info.election_path, "us/xx/2024");
    assert_eq!(report.candidates.len(), 2);
    assert_eq!(report.candidates[1].name, "B");
    assert_eq!(report.first_final.rows, vec![]);
    assert_eq!(report.first_final.cols, vec![Allocatee::Candidate(0), Allocatee::Candidate(1), Allocatee::Exhausted]);
}

#[test]
fn total_votes_on_given_rounds() {
    let a = |c: u32, v: u32| TabulatorAllocation { allocatee: Allocatee::Candidate(c), votes: v };
    let rounds = vec![
        TabulatorRound { round_number: 1, allocations: vec![a(0, 4), a(1, 3), a(2, 2)], continuing_ballots: 9, undervote: 0, overvote: 0, transfers: vec![] },
        TabulatorRound {
            round_number: 2,
            allocations: vec![a(1, 5), a(0, 4)],
            continuing_ballots: 9,
            undervote: 0,
            overvote: 0,
            transfers: vec![Transfer { from: 2, to: Allocatee::Candidate(1), count: 2 }],
        },
    ];
    assert_eq!(total_votes(&rounds), vec![record(1, 3, 2, None), record(0, 4, 0, None), record(2, 2, 0, Some(2))]);
}
