use vstd::prelude::*;

verus! {

/// Index of a candidate within a contest's candidate vector.
pub type CandidateId = u32;

#[derive(Clone, Copy, Debug, PartialEq, Eq, Structural)]
pub enum CandidateType {
    Regular,
    WriteIn,
    QualifiedWriteIn,
}

#[derive(Clone, Debug)]
pub struct Candidate {
    pub name: String,
    pub candidate_type: CandidateType,
}

impl Candidate {
    pub fn new(name: String, candidate_type: CandidateType) -> (r: Candidate)
        ensures
            r.name == name,
            r.candidate_type == candidate_type,
    {
        Candidate { name, candidate_type }
    }
}

/// The mark found at one rank of a raw ballot.
#[derive(Clone, Copy, Debug, PartialEq, Eq, Structural)]
pub enum Choice {
    Vote(CandidateId),
    Undervote,
    Overvote,
}

/// A raw ballot: one choice per rank, rank 1 first.
#[derive(Clone, Debug)]
pub struct Ballot {
    pub id: String,
    pub choices: Vec<Choice>,
}

impl Ballot {
    pub fn new(id: String, choices: Vec<Choice>) -> (r: Ballot)
        ensures
            r.id == id,
            r.choices@ == choices@,
    {
        Ballot { id, choices }
    }
}

/// A raw election as produced by a format reader.
#[derive(Clone, Debug)]
pub struct Election {
    pub candidates: Vec<Candidate>,
    pub ballots: Vec<Ballot>,
}

impl Election {
    pub fn new(candidates: Vec<Candidate>, ballots: Vec<Ballot>) -> (r: Election)
        ensures
            r.candidates@ == candidates@,
            r.ballots@ == ballots@,
    {
        Election { candidates, ballots }
    }

    /// Every vote on every ballot names a candidate of the election.
    pub open spec fn wf(&self) -> bool {
        forall|b: int, k: int|
            0 <= b < self.ballots@.len() && 0 <= k < self.ballots@[b].choices@.len()
                ==> #[trigger] choice_in_range(self.ballots@[b].choices@[k], self.candidates@.len())
    }
}

pub open spec fn choice_in_range(c: Choice, n: nat) -> bool {
    match c {
        Choice::Vote(id) => (id as int) < n,
        _ => true,
    }
}

/// A ballot after normalization: distinct candidates in order of preference.
/// `overvoted` records that normalization stopped at an overvote.
#[derive(Clone, Debug)]
pub struct NormalizedBallot {
    pub id: String,
    pub choices: Vec<CandidateId>,
    pub overvoted: bool,
}

impl NormalizedBallot {
    pub fn new(id: String, choices: Vec<CandidateId>, overvoted: bool) -> (r: NormalizedBallot)
        ensures
            r.id == id,
            r.choices@ == choices@,
            r.overvoted == overvoted,
    {
        NormalizedBallot { id, choices, overvoted }
    }

    pub fn choices(&self) -> (r: &Vec<CandidateId>)
        ensures
            r@ == self.choices@,
    {
        &self.choices
    }
}

/// The rankings of a sequence of normalized ballots.
pub open spec fn rankings(ballots: Seq<NormalizedBallot>) -> Seq<Seq<CandidateId>> {
    ballots.map_values(|b: NormalizedBallot| b.choices@)
}

/// A normalized election: the candidates and the normalized ballots.
#[derive(Clone, Debug)]
pub struct NormalizedElection {
    pub candidates: Vec<Candidate>,
    pub ballots: Vec<NormalizedBallot>,
}

/// Where a ballot sits in a round: with a candidate, or exhausted.
#[derive(Clone, Copy, Debug, PartialEq, Eq, Structural)]
pub enum Allocatee {
    Candidate(CandidateId),
    Exhausted,
}

impl Allocatee {
    pub open spec fn spec_candidate_id(&self) -> Option<CandidateId> {
        match *self {
            Allocatee::Candidate(c) => Some(c),
            Allocatee::Exhausted => None,
        }
    }

    #[verifier::when_used_as_spec(spec_candidate_id)]
    pub fn candidate_id(&self) -> (r: Option<CandidateId>)
        ensures
            r == self.spec_candidate_id(),
    {
        match self {
            Allocatee::Candidate(c) => Some(*c),
            Allocatee::Exhausted => None,
        }
    }
}

#[derive(Clone, Copy, Debug, PartialEq, Eq, Structural)]
pub enum TieBreakMode {
    UsePermutation,
    RandomStableHash,
    LexicographicById,
}

#[derive(Clone, Copy, Debug, PartialEq, Eq, Structural)]
pub enum WinningThreshold {
    Majority,
    PluralityFinalTwo,
}

/// Configuration of the tabulator.
#[derive(Clone, Debug)]
pub struct TabulationOptions {
    pub tie_break_mode: TieBreakMode,
    pub candidate_permutation: Option<Vec<CandidateId>>,
    pub batch_elimination: bool,
    pub winning_threshold: WinningThreshold,
    /// Count the ballots each round exhausts by cause: those whose normalization stopped at an
    /// overvote (`NormalizedBallot::overvoted`, set under `OvervotePolicy::Exhaust`) and the rest.
    pub exhaust_on_overvote: bool,
}

impl Default for TabulationOptions {
    fn default() -> (r: TabulationOptions)
        ensures
            r.tie_break_mode == TieBreakMode::LexicographicById,
            r.candidate_permutation.is_none(),
            !r.batch_elimination,
            r.winning_threshold == WinningThreshold::Majority,
            !r.exhaust_on_overvote,
    {
        TabulationOptions {
            tie_break_mode: TieBreakMode::LexicographicById,
            candidate_permutation: None,
            batch_elimination: false,
            winning_threshold: WinningThreshold::Majority,
            exhaust_on_overvote: false,
        }
    }
}

/// The votes held by one allocatee in a round.
#[derive(Clone, Copy, Debug, PartialEq, Eq, Structural)]
pub struct TabulatorAllocation {
    pub allocatee: Allocatee,
    pub votes: u32,
}

/// Ballots that moved from an eliminated candidate to `to` between two rounds.
#[derive(Clone, Copy, Debug, PartialEq, Eq, Structural)]
pub struct Transfer {
    pub from: CandidateId,
    pub to: Allocatee,
    pub count: u32,
}

/// One round of an instant-runoff tabulation.
#[derive(Clone, Debug)]
pub struct TabulatorRound {
    pub round_number: usize,
    pub allocations: Vec<TabulatorAllocation>,
    pub continuing_ballots: u32,
    /// Ballots this round exhausted that did not end at an overvote (counted only when the
    /// options ask for exhaustion by cause).
    pub undervote: u32,
    /// Ballots this round exhausted whose ranking ended at an overvote (likewise).
    pub overvote: u32,
    pub transfers: Vec<Transfer>,
}

} // verus!

verus! {

/// One cell of a candidate table: `votes` out of `total`.
#[derive(Clone, Copy, Debug, PartialEq, Eq, Structural)]
pub struct CandidatePairEntry {
    pub votes: u32,
    pub total: u32,
}

impl CandidatePairEntry {
    pub fn new(votes: u32, total: u32) -> (r: CandidatePairEntry)
        ensures
            r.votes == votes,
            r.total == total,
    {
        CandidatePairEntry { votes, total }
    }
}

/// A table with one row per `rows` entry and one column per `cols` entry.
#[derive(Clone, Debug)]
pub struct CandidatePairTable {
    pub rows: Vec<Allocatee>,
    pub cols: Vec<Allocatee>,
    pub entries: Vec<Vec<Option<CandidatePairEntry>>>,
}

impl CandidatePairTable {
    pub open spec fn entry(&self, i: int, j: int) -> Option<CandidatePairEntry> {
        self.entries@[i]@[j]
    }

    /// The entries form a `rows.len()` by `cols.len()` matrix.
    pub open spec fn is_matrix(&self) -> bool {
        &&& self.entries@.len() == self.rows@.len()
        &&& forall|i: int| 0 <= i < self.rows@.len() ==> (#[trigger] self.entries@[i])@.len() == self.cols@.len()
    }
}

} // verus!

verus! {

/// How many candidates ballots rank, overall and by first choice.
#[derive(Clone, Debug)]
pub struct RankingDistribution {
    pub overall_distribution: std::collections::BTreeMap<u32, u32>,
    pub candidate_distributions: std::collections::BTreeMap<CandidateId, std::collections::BTreeMap<u32, u32>>,
    pub total_ballots: u32,
    pub candidate_totals: std::collections::BTreeMap<CandidateId, u32>,
}

} // verus!

verus! {

/// Where a contest comes from and how it is tabulated.
#[derive(Clone, Debug)]
pub struct ElectionInfo {
    pub name: String,
    pub office: String,
    pub date: String,
    pub data_format: String,
    pub tabulation_options: TabulationOptions,
    pub loader_params: Option<std::collections::BTreeMap<String, String>>,
    pub jurisdiction_path: String,
    pub election_path: String,
    pub jurisdiction_name: String,
    pub office_name: String,
    pub election_name: String,
    pub website: Option<String>,
}

/// A contest ready for tabulation.
#[derive(Clone, Debug)]
pub struct ElectionPreprocessed {
    pub info: ElectionInfo,
    pub ballots: NormalizedElection,
}

/// A candidate's votes over a tabulation.
#[derive(Clone, Copy, Debug, PartialEq, Eq, Structural)]
pub struct CandidateVotes {
    pub candidate: CandidateId,
    pub first_round_votes: u32,
    pub transfer_votes: u32,
    pub round_eliminated: Option<u32>,
}

/// The full analysis of one contest.
#[derive(Clone, Debug)]
pub struct ContestReport {
    pub info: ElectionInfo,
    pub ballot_count: u32,
    pub candidates: Vec<Candidate>,
    pub winner: Option<CandidateId>,
    pub num_candidates: u32,
    pub rounds: Vec<TabulatorRound>,
    pub total_votes: Vec<CandidateVotes>,
    pub pairwise_preferences: CandidatePairTable,
    pub first_alternate: CandidatePairTable,
    pub first_final: CandidatePairTable,
    pub ranking_distribution: Option<RankingDistribution>,
    pub smith_set: Vec<CandidateId>,
    pub condorcet: Option<CandidateId>,
}

} // verus!

verus! {

/// An office of a jurisdiction.
#[derive(Clone, Debug)]
pub struct Office {
    pub name: String,
}

/// A jurisdiction and its offices, keyed by office id.
#[derive(Clone, Debug)]
pub struct Jurisdiction {
    pub name: String,
    pub path: String,
    pub offices: std::collections::BTreeMap<String, Office>,
}

/// One contest of an election: the office it fills and the reader's parameters.
#[derive(Clone, Debug)]
pub struct Contest {
    pub office: String,
    pub loader_params: Option<std::collections::BTreeMap<String, String>>,
}

/// What is known of an election: how its ballots are read, normalized and tabulated.
#[derive(Clone, Debug)]
pub struct ElectionMetadata {
    pub name: String,
    pub date: String,
    pub data_format: String,
    pub normalization: crate::normalizer::NormalizationPolicy,
    pub tabulation_options: Option<TabulationOptions>,
    pub website: Option<String>,
}

} // verus!
