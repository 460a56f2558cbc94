use vstd::prelude::*;
use crate::model::{
    choice_in_range, Ballot, Candidate, CandidateId, CandidateType, Choice, Election, NormalizedBallot,
    NormalizedElection,
};
use crate::seqs::position_of;

verus! {

#[derive(Clone, Copy, Debug, PartialEq, Eq, Structural)]
pub enum OvervotePolicy {
    Exhaust,
    Skip,
}

#[derive(Clone, Copy, Debug, PartialEq, Eq, Structural)]
pub enum DuplicatePolicy {
    Skip,
    Exhaust,
}

/// How raw marks reduce to a ranking.
#[derive(Clone, Copy, Debug, PartialEq, Eq, Structural)]
pub struct NormalizationPolicy {
    /// An undervote skips its rank (else it ends the ballot).
    pub skip_undervote: bool,
    pub overvote_policy: OvervotePolicy,
    pub duplicate_policy: DuplicatePolicy,
    /// At most this many candidates are kept.
    pub max_rankings: Option<usize>,
    /// A vote for a write-in counts as an undervote.
    pub exclude_write_ins: bool,
}

impl Default for NormalizationPolicy {
    fn default() -> (r: NormalizationPolicy)
        ensures
            r.skip_undervote,
            r.overvote_policy == OvervotePolicy::Exhaust,
            r.duplicate_policy == DuplicatePolicy::Skip,
            r.max_rankings.is_none(),
            !r.exclude_write_ins,
    {
        NormalizationPolicy {
            skip_undervote: true,
            overvote_policy: OvervotePolicy::Exhaust,
            duplicate_policy: DuplicatePolicy::Skip,
            max_rankings: None,
            exclude_write_ins: false,
        }
    }
}

/// The mark at a rank as the policy reads it: an excluded write-in reads as an undervote.
pub open spec fn effective(c: Choice, types: Seq<CandidateType>, policy: NormalizationPolicy) -> Choice {
    match c {
        Choice::Vote(id) => if policy.exclude_write_ins && types[id as int] == CandidateType::WriteIn {
            Choice::Undervote
        } else {
            c
        },
        _ => c,
    }
}

pub open spec fn at_cap(policy: NormalizationPolicy, len: int) -> bool {
    match policy.max_rankings {
        Some(m) => len >= m,
        None => false,
    }
}

/// Normalizes `choices` from rank `i` on, having kept `acc` so far: the kept candidates, and
/// whether the ballot ended at an overvote.
pub open spec fn normalize_from(
    choices: Seq<Choice>,
    types: Seq<CandidateType>,
    policy: NormalizationPolicy,
    i: int,
    acc: Seq<CandidateId>,
) -> (Seq<CandidateId>, bool)
    decreases choices.len() - i,
{
    if i >= choices.len() || i < 0 || at_cap(policy, acc.len() as int) {
        (acc, false)
    } else {
        match effective(choices[i], types, policy) {
            Choice::Vote(c) => if acc.contains(c) {
                if policy.duplicate_policy == DuplicatePolicy::Skip {
                    normalize_from(choices, types, policy, i + 1, acc)
                } else {
                    (acc, false)
                }
            } else {
                normalize_from(choices, types, policy, i + 1, acc.push(c))
            },
            Choice::Undervote => if policy.skip_undervote {
                normalize_from(choices, types, policy, i + 1, acc)
            } else {
                (acc, false)
            },
            Choice::Overvote => if policy.overvote_policy == OvervotePolicy::Skip {
                normalize_from(choices, types, policy, i + 1, acc)
            } else {
                (acc, true)
            },
        }
    }
}

/// The normalization of a whole ballot.
pub open spec fn normalized(choices: Seq<Choice>, types: Seq<CandidateType>, policy: NormalizationPolicy) -> (Seq<CandidateId>, bool) {
    normalize_from(choices, types, policy, 0, Seq::empty())
}

pub open spec fn candidate_types(candidates: Seq<Candidate>) -> Seq<CandidateType> {
    candidates.map_values(|c: Candidate| c.candidate_type)
}

pub open spec fn votes_in_range(choices: Seq<Choice>, n: nat) -> bool {
    forall|k: int| 0 <= k < choices.len() ==> #[trigger] choice_in_range(choices[k], n)
}

/// Reduces a raw ballot to a ranking under `policy`, scanning from rank one: undervotes,
/// overvotes, repeated candidates and excluded write-ins are skipped or end the ballot as
/// the policy says, and at most `max_rankings` candidates are kept.
pub fn normalize_ballot(ballot: &Ballot, candidates: &Vec<Candidate>, policy: &NormalizationPolicy) -> (r: NormalizedBallot)
    requires
        votes_in_range(ballot.choices@, candidates@.len()),
    ensures
        r.id == ballot.id,
        (r.choices@, r.overvoted) == normalized(ballot.choices@, candidate_types(candidates@), *policy),
{
    let ghost types = candidate_types(candidates@);
    let ghost choices = ballot.choices@;
    let mut acc: Vec<CandidateId> = Vec::new();
    let mut overvoted = false;
    let mut i: usize = 0;
    while i < ballot.choices.len()
        invariant_except_break
            normalized(choices, types, *policy) == normalize_from(choices, types, *policy, i as int, acc@),
            !overvoted,
        invariant
            i <= choices.len(),
            choices == ballot.choices@,
            types == candidate_types(candidates@),
            votes_in_range(choices, candidates@.len()),
        ensures
            normalized(choices, types, *policy) == (acc@, overvoted),
        decreases choices.len() - i,
    {
        let capped = match policy.max_rankings {
            Some(m) => acc.len() >= m,
            None => false,
        };
        if capped {
            break;
        }
        let raw = ballot.choices[i];
        assert(choice_in_range(choices[i as int], candidates@.len()));
        let c = match raw {
            Choice::Vote(id) => if policy.exclude_write_ins
                && candidates[id as usize].candidate_type == CandidateType::WriteIn {
                Choice::Undervote
            } else {
                raw
            },
            _ => raw,
        };
        assert(c == effective(choices[i as int], types, *policy));
        match c {
            Choice::Vote(id) => {
                let p = position_of(acc.as_slice(), id);
                proof {
                    crate::seqs::lemma_index_of_bounds(acc@, id);
                }
                if p < acc.len() {
                    if policy.duplicate_policy == DuplicatePolicy::Exhaust {
                        break;
                    }
                } else {
                    acc.push(id);
                }
            },
            Choice::Undervote => {
                if !policy.skip_undervote {
                    break;
                }
            },
            Choice::Overvote => {
                if policy.overvote_policy == OvervotePolicy::Exhaust {
                    overvoted = true;
                    break;
                }
            },
        }
        i = i + 1;
    }
    NormalizedBallot { id: ballot.id.clone(), choices: acc, overvoted }
}

/// Normalizes every ballot of `election` under `policy`.
pub fn normalize_election(policy: &NormalizationPolicy, election: Election) -> (r: NormalizedElection)
    requires
        election.wf(),
    ensures
        r.candidates@ == election.candidates@,
        r.ballots@.len() == election.ballots@.len(),
        forall|b: int| 0 <= b < r.ballots@.len() ==> (#[trigger] r.ballots@[b]).id == election.ballots@[b].id
            && (r.ballots@[b].choices@, r.ballots@[b].overvoted)
                == normalized(election.ballots@[b].choices@, candidate_types(election.candidates@), *policy),
{
    let mut ballots: Vec<NormalizedBallot> = Vec::new();
    let mut b: usize = 0;
    while b < election.ballots.len()
        invariant
            b <= election.ballots@.len(),
            election.wf(),
            ballots@.len() == b,
            forall|k: int| 0 <= k < b ==> (#[trigger] ballots@[k]).id == election.ballots@[k].id
                && (ballots@[k].choices@, ballots@[k].overvoted)
                    == normalized(election.ballots@[k].choices@, candidate_types(election.candidates@), *policy),
        decreases election.ballots@.len() - b,
    {
        assert(votes_in_range(election.ballots@[b as int].choices@, election.candidates@.len())) by {
            assert forall|k: int| 0 <= k < election.ballots@[b as int].choices@.len()
                implies #[trigger] choice_in_range(election.ballots@[b as int].choices@[k], election.candidates@.len()) by {
                assert(choice_in_range(election.ballots@[b as int].choices@[k], election.candidates@.len()));
            }
        }
        let nb = normalize_ballot(&election.ballots[b], &election.candidates, policy);
        ballots.push(nb);
        b = b + 1;
    }
    NormalizedElection { candidates: election.candidates, ballots }
}

/// Each candidate of `s` once, known, not an excluded write-in, and within the cap.
pub open spec fn clean(s: Seq<CandidateId>, types: Seq<CandidateType>, policy: NormalizationPolicy) -> bool {
    &&& s.no_duplicates()
    &&& forall|k: int| 0 <= k < s.len() ==> (#[trigger] s[k] as int) < types.len()
        && !(policy.exclude_write_ins && types[s[k] as int] == CandidateType::WriteIn)
    &&& (policy.max_rankings matches Some(m) ==> s.len() <= m)
}

/// The votes for the candidates of `s`, one per rank.
pub open spec fn votes_of(s: Seq<CandidateId>) -> Seq<Choice> {
    s.map_values(|c: CandidateId| Choice::Vote(c))
}

proof fn lemma_output_clean(
    choices: Seq<Choice>,
    types: Seq<CandidateType>,
    policy: NormalizationPolicy,
    i: int,
    acc: Seq<CandidateId>,
)
    requires
        votes_in_range(choices, types.len()),
        clean(acc, types, policy),
    ensures
        clean(normalize_from(choices, types, policy, i, acc).0, types, policy),
    decreases choices.len() - i,
{
    if i >= choices.len() || i < 0 || at_cap(policy, acc.len() as int) {
    } else {
        assert(choice_in_range(choices[i], types.len()));
        match effective(choices[i], types, policy) {
            Choice::Vote(c) => {
                if acc.contains(c) {
                    lemma_output_clean(choices, types, policy, i + 1, acc);
                } else {
                    let next = acc.push(c);
                    assert forall|x: int, y: int| 0 <= x < y < next.len() implies next[x] != next[y] by {
                        if y == acc.len() {
                            assert(acc.contains(next[x]) ==> next[x] != c);
                            assert(next[x] == acc[x]);
                        }
                    }
                    lemma_output_clean(choices, types, policy, i + 1, next);
                }
            },
            _ => {
                lemma_output_clean(choices, types, policy, i + 1, acc);
            },
        }
    }
}

proof fn lemma_clean_fixed(s: Seq<CandidateId>, types: Seq<CandidateType>, policy: NormalizationPolicy, i: int)
    requires
        clean(s, types, policy),
        0 <= i <= s.len(),
    ensures
        normalize_from(votes_of(s), types, policy, i, s.take(i)) == (s, false),
    decreases s.len() - i,
{
    let v = votes_of(s);
    if i == s.len() {
        assert(s.take(i) =~= s);
    } else {
        assert(v[i] == Choice::Vote(s[i]));
        assert(effective(v[i], types, policy) == Choice::Vote(s[i]));
        assert(!s.take(i).contains(s[i])) by {
            if s.take(i).contains(s[i]) {
                let k = choose|k: int| 0 <= k < i && s.take(i)[k] == s[i];
                assert(s[k] == s[i]);
            }
        }
        assert(s.take(i).push(s[i]) =~= s.take(i + 1));
        lemma_clean_fixed(s, types, policy, i + 1);
    }
}

/// Normalization is idempotent: normalizing a normalized ballot again, its candidates written
/// back as votes, gives the same ranking.
pub proof fn lemma_normalize_idempotent(choices: Seq<Choice>, types: Seq<CandidateType>, policy: NormalizationPolicy)
    requires
        votes_in_range(choices, types.len()),
    ensures
        normalized(votes_of(normalized(choices, types, policy).0), types, policy).0
            == normalized(choices, types, policy).0,
{
    let out = normalized(choices, types, policy).0;
    lemma_output_clean(choices, types, policy, 0, Seq::empty());
    lemma_clean_fixed(out, types, policy, 0);
    assert(out.take(0) =~= Seq::<CandidateId>::empty());
}

} // verus!
