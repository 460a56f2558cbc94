use std::collections::BTreeMap;
use vstd::prelude::*;
use vstd::utf8::encode_utf8;
use crate::formats::common::CandidateMap;
use crate::model::{Candidate, CandidateType, Choice};
use crate::formats::params::{
    bool_text, decimal_u32, has_param, param, param_text, parse_bool, parse_u32, required_param,
};

verus! {

/// Options of the NIST SP 1500 reader.
pub struct ReaderOptions {
    pub cvr: String,
    pub contest: u32,
    pub drop_unqualified_write_in: bool,
}

impl ReaderOptions {
    /// Reads the `cvr` and `contest` parameters, and `dropUnqualifiedWriteIn` (false when absent).
    pub fn from_params(params: BTreeMap<String, String>) -> (r: ReaderOptions)
        requires
            has_param(params@, "cvr"@),
            has_param(params@, "contest"@),
            decimal_u32(encode_utf8(param_text(params@, "contest"@))) is Some,
            has_param(params@, "dropUnqualifiedWriteIn"@)
                ==> bool_text(param_text(params@, "dropUnqualifiedWriteIn"@)) is Some,
        ensures
            r.cvr@ == param_text(params@, "cvr"@),
            Some(r.contest) == decimal_u32(encode_utf8(param_text(params@, "contest"@))),
            r.drop_unqualified_write_in == if has_param(params@, "dropUnqualifiedWriteIn"@) {
                bool_text(param_text(params@, "dropUnqualifiedWriteIn"@)) == Some(true)
            } else {
                false
            },
    {
        let cvr = required_param(&params, "cvr");
        let contest_text = required_param(&params, "contest");
        let contest = match parse_u32(contest_text.as_str()) {
            Some(c) => c,
            None => 0,
        };
        let drop_unqualified_write_in = match param(&params, "dropUnqualifiedWriteIn") {
            Some(v) => match parse_bool(&v) {
                Some(b) => b,
                None => false,
            },
            None => false,
        };
        ReaderOptions { cvr, contest, drop_unqualified_write_in }
    }
}

/// The kind of a candidate in a candidate manifest.
#[derive(Clone, Copy, Debug, PartialEq, Eq, Structural)]
pub enum ManifestCandidateType {
    Regular,
    WriteIn,
    QualifiedWriteIn,
}

/// One entry of a candidate manifest.
#[derive(Clone, Debug)]
pub struct ManifestCandidate {
    pub id: u32,
    pub description: String,
    pub contest_id: u32,
    pub candidate_type: ManifestCandidateType,
}

/// The candidates of all contests of a cast-vote-record export.
#[derive(Clone, Debug)]
pub struct CandidateManifest {
    pub list: Vec<ManifestCandidate>,
}

/// One mark on a ballot: a candidate at a rank.
#[derive(Clone, Copy, Debug, PartialEq, Eq, Structural)]
pub struct Mark {
    pub candidate_id: u32,
    pub rank: u32,
    pub is_ambiguous: bool,
}

/// The candidates of one contest, and the manifest id of the unqualified write-in dropped
/// from it, if any.
pub struct ContestCandidates {
    pub map: CandidateMap,
    pub candidates: Vec<Candidate>,
    pub dropped_write_in: Option<u32>,
}

pub open spec fn candidate_type_of(t: ManifestCandidateType) -> CandidateType {
    match t {
        ManifestCandidateType::Regular => CandidateType::Regular,
        ManifestCandidateType::WriteIn => CandidateType::WriteIn,
        ManifestCandidateType::QualifiedWriteIn => CandidateType::QualifiedWriteIn,
    }
}

/// The entry is of the contest and is kept: unqualified write-ins are dropped when `drop` holds.
pub open spec fn kept(m: ManifestCandidate, contest: u32, drop: bool) -> bool {
    m.contest_id == contest && !(drop && m.candidate_type == ManifestCandidateType::WriteIn)
}

/// The kept entries of `list`, in order.
pub open spec fn kept_entries(list: Seq<ManifestCandidate>, contest: u32, drop: bool) -> Seq<ManifestCandidate>
    decreases list.len(),
{
    if list.len() == 0 {
        Seq::empty()
    } else {
        let rest = kept_entries(list.drop_last(), contest, drop);
        if kept(list.last(), contest, drop) { rest.push(list.last()) } else { rest }
    }
}

/// The id of the last unqualified write-in of the contest in `list`, if any.
pub open spec fn last_write_in(list: Seq<ManifestCandidate>, contest: u32) -> Option<u32>
    decreases list.len(),
{
    if list.len() == 0 {
        None
    } else if list.last().contest_id == contest && list.last().candidate_type == ManifestCandidateType::WriteIn {
        Some(list.last().id)
    } else {
        last_write_in(list.drop_last(), contest)
    }
}

/// The candidates of contest `contest_id` in the manifest, in manifest order, each with the
/// matching candidate type; when `drop_unqualified_write_in` holds, unqualified write-ins are
/// left out and the id of the last of them is returned.
pub fn get_candidates(manifest: &CandidateManifest, contest_id: u32, drop_unqualified_write_in: bool) -> (r: ContestCandidates)
    ensures
        ({
            let k = kept_entries(manifest.list@, contest_id, drop_unqualified_write_in);
            &&& r.map.external@ == k.map_values(|m: ManifestCandidate| m.id)
            &&& r.candidates@.len() == k.len()
            &&& forall|i: int| 0 <= i < k.len() ==> (#[trigger] r.candidates@[i]).name == k[i].description
                && r.candidates@[i].candidate_type == candidate_type_of(k[i].candidate_type)
            &&& r.dropped_write_in == if drop_unqualified_write_in { last_write_in(manifest.list@, contest_id) } else { None }
        }),
{
    let ghost list = manifest.list@;
    let mut external: Vec<u32> = Vec::new();
    let mut candidates: Vec<Candidate> = Vec::new();
    let mut dropped: Option<u32> = None;
    let mut i: usize = 0;
    while i < manifest.list.len()
        invariant
            i <= list.len(),
            list == manifest.list@,
            external@ == kept_entries(list.take(i as int), contest_id, drop_unqualified_write_in).map_values(|m: ManifestCandidate| m.id),
            candidates@.len() == kept_entries(list.take(i as int), contest_id, drop_unqualified_write_in).len(),
            forall|j: int| 0 <= j < candidates@.len() ==> {
                let k = kept_entries(list.take(i as int), contest_id, drop_unqualified_write_in);
                &&& (#[trigger] candidates@[j]).name == k[j].description
                &&& candidates@[j].candidate_type == candidate_type_of(k[j].candidate_type)
            },
            dropped == if drop_unqualified_write_in { last_write_in(list.take(i as int), contest_id) } else { None },
        decreases list.len() - i,
    {
        let ghost pre = kept_entries(list.take(i as int), contest_id, drop_unqualified_write_in);
        assert(list.take(i + 1).drop_last() =~= list.take(i as int));
        assert(list.take(i + 1).last() == list[i as int]);
        let c = &manifest.list[i];
        if c.contest_id == contest_id {
            let t = match c.candidate_type {
                ManifestCandidateType::WriteIn => CandidateType::WriteIn,
                ManifestCandidateType::QualifiedWriteIn => CandidateType::QualifiedWriteIn,
                ManifestCandidateType::Regular => CandidateType::Regular,
            };
            if drop_unqualified_write_in && c.candidate_type == ManifestCandidateType::WriteIn {
                dropped = Some(c.id);
            } else {
                external.push(c.id);
                candidates.push(Candidate { name: c.description.clone(), candidate_type: t });
                proof {
                    let post = kept_entries(list.take(i + 1), contest_id, drop_unqualified_write_in);
                    assert(post == pre.push(list[i as int]));
                    assert(external@ =~= post.map_values(|m: ManifestCandidate| m.id));
                    assert forall|j: int| 0 <= j < candidates@.len() implies {
                        &&& (#[trigger] candidates@[j]).name == post[j].description
                        &&& candidates@[j].candidate_type == candidate_type_of(post[j].candidate_type)
                    } by {
                        if j < pre.len() {
                            assert(post[j] == pre[j]);
                        }
                    }
                }
            }
        }
        i = i + 1;
    }
    assert(list.take(i as int) =~= list);
    ContestCandidates { map: CandidateMap { external }, candidates, dropped_write_in: dropped }
}

/// Number of leading marks of `marks` at rank `rank`.
pub open spec fn run_length(marks: Seq<Mark>, rank: u32) -> int
    decreases marks.len(),
{
    if marks.len() == 0 || marks[0].rank != rank {
        0
    } else {
        1 + run_length(marks.drop_first(), rank)
    }
}

/// The marks of `g` that are not ambiguous.
pub open spec fn clear_marks(g: Seq<Mark>) -> Seq<Mark>
    decreases g.len(),
{
    if g.len() == 0 {
        Seq::empty()
    } else {
        let rest = clear_marks(g.drop_last());
        if g.last().is_ambiguous { rest } else { rest.push(g.last()) }
    }
}

/// The choice a group of marks at one rank stands for: none clear is an undervote, one clear
/// mark is a vote (an undervote when it is for the dropped write-in or for a candidate the
/// contest does not list), several an overvote.
pub open spec fn group_choice(g: Seq<Mark>, external: Seq<u32>, dropped: Option<u32>) -> Choice {
    let c = clear_marks(g);
    if c.len() == 0 {
        Choice::Undervote
    } else if c.len() == 1 {
        if dropped == Some(c[0].candidate_id) || crate::seqs::index_of(external, c[0].candidate_id) >= external.len() {
            Choice::Undervote
        } else {
            Choice::Vote(crate::seqs::index_of(external, c[0].candidate_id) as u32)
        }
    } else {
        Choice::Overvote
    }
}

/// The choices of a ballot's marks: one per run of consecutive marks at the same rank.
pub open spec fn marks_choices(marks: Seq<Mark>, external: Seq<u32>, dropped: Option<u32>) -> Seq<Choice>
    decreases marks.len(),
{
    if marks.len() == 0 {
        Seq::empty()
    } else {
        let k = run_length(marks, marks[0].rank);
        if k <= 0 || k > marks.len() {
            Seq::empty()
        } else {
            seq![group_choice(marks.take(k), external, dropped)] + marks_choices(marks.skip(k), external, dropped)
        }
    }
}

proof fn lemma_run_length_pos(marks: Seq<Mark>)
    requires
        marks.len() > 0,
    ensures
        1 <= run_length(marks, marks[0].rank) <= marks.len(),
{
    lemma_run_length_le(marks.drop_first(), marks[0].rank);
}

proof fn lemma_run_length_le(marks: Seq<Mark>, rank: u32)
    ensures
        0 <= run_length(marks, rank) <= marks.len(),
    decreases marks.len(),
{
    if marks.len() > 0 {
        lemma_run_length_le(marks.drop_first(), rank);
    }
}

/// Decodes the marks of one ballot in one contest into choices, rank by rank.
pub fn choices_from_marks(marks: &Vec<Mark>, map: &CandidateMap, dropped_write_in: Option<u32>) -> (r: Vec<Choice>)
    ensures
        r@ == marks_choices(marks@, map.external@, dropped_write_in),
{
    let n = marks.len();
    let mut out: Vec<Choice> = Vec::new();
    let mut i: usize = 0;
    assert(marks@.skip(0) =~= marks@);
    while i < n
        invariant
            i <= n,
            n == marks@.len(),
            marks_choices(marks@, map.external@, dropped_write_in)
                == out@ + marks_choices(marks@.skip(i as int), map.external@, dropped_write_in),
        decreases n - i,
    {
        let ghost rest = marks@.skip(i as int);
        let rank = marks[i].rank;
        let mut j: usize = i;
        let mut clear: usize = 0;
        let mut single: u32 = 0;
        assert(rest.subrange(0, 0) =~= Seq::<Mark>::empty());
        while j < n && marks[j].rank == rank
            invariant
                i <= j <= n,
                n == marks@.len(),
                rest == marks@.skip(i as int),
                rank == rest[0].rank,
                run_length(rest, rank) == (j - i) + run_length(marks@.skip(j as int), rank),
                clear as int == clear_marks(rest.take(j - i)).len(),
                clear >= 1 ==> single == clear_marks(rest.take(j - i))[0].candidate_id,
                clear <= j - i,
            decreases n - j,
        {
            assert(marks@.skip(j as int).drop_first() =~= marks@.skip(j + 1));
            assert(rest.take(j - i + 1).drop_last() =~= rest.take(j - i));
            assert(rest.take(j - i + 1).last() == marks@[j as int]);
            proof {
                lemma_clear_prefix(rest.take(j - i + 1));
            }
            if !marks[j].is_ambiguous {
                if clear == 0 {
                    single = marks[j].candidate_id;
                }
                clear = clear + 1;
            }
            j = j + 1;
        }
        proof {
            if j < n {
                assert(marks@.skip(j as int)[0] == marks@[j as int]);
            }
            assert(run_length(marks@.skip(j as int), rank) == 0);
            lemma_run_length_pos(rest);
            assert(rest.skip(j - i) =~= marks@.skip(j as int));
        }
        let choice = if clear == 0 {
            Choice::Undervote
        } else if clear == 1 {
            let p = crate::seqs::position_of(map.external.as_slice(), single);
            if dropped_write_in == Some(single) || p >= map.external.len() {
                Choice::Undervote
            } else {
                Choice::Vote(p as u32)
            }
        } else {
            Choice::Overvote
        };
        let ghost pre = out@;
        out.push(choice);
        assert(out@ =~= pre + seq![choice]);
        i = j;
    }
    assert(marks@.skip(n as int) =~= Seq::<Mark>::empty());
    assert(out@ + Seq::<Choice>::empty() =~= out@);
    out
}

proof fn lemma_clear_prefix(g: Seq<Mark>)
    requires
        g.len() > 0,
    ensures
        clear_marks(g.drop_last()).len() >= 1 ==> clear_marks(g)[0] == clear_marks(g.drop_last())[0],
        clear_marks(g).len() <= g.len(),
{
    lemma_clear_len(g);
}

proof fn lemma_clear_len(g: Seq<Mark>)
    ensures
        clear_marks(g).len() <= g.len(),
    decreases g.len(),
{
    if g.len() > 0 {
        lemma_clear_len(g.drop_last());
    }
}

} // verus!
