use report_pipeline::formats::params::parse_u32;
use report_pipeline::formats::{nist_sp_1500, preflib, us_me, us_ny_nyc};
use report_pipeline::model::{Ballot, Candidate, CandidateType, Choice, Election};
use report_pipeline::normalizer::{
    normalize_ballot, normalize_election, DuplicatePolicy, NormalizationPolicy, OvervotePolicy,
};
use std::collections::BTreeMap;

fn candidates() -> Vec<Candidate> {
    vec![
        Candidate::new("A".to_string(), CandidateType::Regular),
        Candidate::new("B".to_string(), CandidateType::Regular),
        Candidate::new("Write-in".to_string(), CandidateType::WriteIn),
    ]
}

fn raw(choices: Vec<Choice>) -> Ballot {
    Ballot::new("x".to_string(), choices)
}

#[test]
fn default_policy_skips_undervotes_and_duplicates_and_stops_at_overvote() {
    let b = raw(vec![Choice::Vote(0), Choice::Undervote, Choice::Vote(0), Choice::Overvote, Choice::Vote(1)]);
    let n = normalize_ballot(&b, &candidates(), &NormalizationPolicy::default());
    assert_eq!(n.choices, vec![0]);
    assert!(n.overvoted);
    assert_eq!(n.id, "x");
}

#[test]
fn skip_policies_keep_going() {
    let policy = NormalizationPolicy { overvote_policy: OvervotePolicy::Skip, ..Default::default() };
    let b = raw(vec![Choice::Vote(0), Choice::Overvote, Choice::Vote(0), Choice::Vote(1)]);
    let n = normalize_ballot(&b, &candidates(), &policy);
    assert_eq!(n.choices, vec![0, 1]);
    assert!(!n.overvoted);
}

#[test]
fn exhausting_policies_stop() {
    let policy = NormalizationPolicy {
        skip_undervote: false,
        duplicate_policy: DuplicatePolicy::Exhaust,
        ..Default::default()
    };
    let n = normalize_ballot(&raw(vec![Choice::Vote(1), Choice::Undervote, Choice::Vote(0)]), &candidates(), &policy);
    assert_eq!(n.choices, vec![1]);
    let n = normalize_ballot(&raw(vec![Choice::Vote(1), Choice::Vote(1), Choice::Vote(0)]), &candidates(), &policy);
    assert_eq!(n.choices, vec![1]);
    assert!(!n.overvoted);
}

#[test]
fn cap_and_write_ins() {
    let policy = NormalizationPolicy { max_rankings: Some(2), exclude_write_ins: true, ..Default::default() };
    let n = normalize_ballot(&raw(vec![Choice::Vote(2), Choice::Vote(1), Choice::Vote(0), Choice::Vote(2)]), &candidates(), &policy);
    assert_eq!(n.choices, vec![1, 0]);
    let keep = NormalizationPolicy::default();
    let n = normalize_ballot(&raw(vec![Choice::Vote(2), Choice::Vote(1)]), &candidates(), &keep);
    assert_eq!(n.choices, vec![2, 1]);
}

#[test]
fn normalizing_twice_changes_nothing() {
    let policy = NormalizationPolicy { max_rankings: Some(3), exclude_write_ins: true, ..Default::default() };
    let b = raw(vec![Choice::Vote(1), Choice::Vote(2), Choice::Undervote, Choice::Vote(1), Choice::Vote(0), Choice::Overvote]);
    let once = normalize_ballot(&b, &candidates(), &policy);
    let again = normalize_ballot(&raw(once.choices.iter().map(|c| Choice::Vote(*c)).collect()), &candidates(), &policy);
    assert_eq!(once.choices, vec![1, 0]);
    assert_eq!(again.choices, once.choices);
}

#[test]
fn whole_election_is_normalized() {
    let e = Election::new(candidates(), vec![raw(vec![Choice::Vote(1)]), raw(vec![Choice::Undervote])]);
    let n = normalize_election(&NormalizationPolicy::default(), e);
    assert_eq!(n.candidates.len(), 3);
    assert_eq!(n.ballots.len(), 2);
    assert_eq!(n.ballots[0].choices, vec![1]);
    assert!(n.ballots[1].choices.is_empty());
}

fn params(pairs: &[(&str, &str)]) -> BTreeMap<String, String> {
    pairs.iter().map(|(k, v)| (k.to_string(), v.to_string())).collect()
}

#[test]
fn maine_files_split_on_semicolons() {
    let o = us_me::ReaderOptions::from_params(params(&[("files", "a.xlsx;b.xlsx")]));
    assert_eq!(o.files, vec!["a.xlsx".to_string(), "b.xlsx".to_string()]);
    let o = us_me::ReaderOptions::from_params(params(&[("files", "only.xlsx")]));
    assert_eq!(o.files, vec!["only.xlsx".to_string()]);
}

#[test]
fn nist_options() {
    let o = nist_sp_1500::ReaderOptions::from_params(params(&[("cvr", "cvr.zip"), ("contest", "12")]));
    assert_eq!(o.cvr, "cvr.zip");
    assert_eq!(o.contest, 12);
    assert!(!o.drop_unqualified_write_in);
    let o = nist_sp_1500::ReaderOptions::from_params(params(&[
        ("cvr", "."),
        ("contest", "+7"),
        ("dropUnqualifiedWriteIn", "true"),
    ]));
    assert_eq!(o.contest, 7);
    assert!(o.drop_unqualified_write_in);
}

#[test]
fn preflib_and_nyc_options() {
    let o = preflib::ReaderOptions::from_params(params(&[("file", "ED-00018-00000001.toi")]));
    assert_eq!(o.file, "ED-00018-00000001.toi");
    let o = us_ny_nyc::ReaderOptions::from_params(params(&[
        ("officeName", "Mayor"),
        ("jurisdictionName", "Citywide"),
        ("candidatesFile", "cands.xlsx"),
        ("cvrPattern", "cvr_.*"),
    ]));
    assert_eq!(o.office_name, "Mayor");
    assert_eq!(o.jurisdiction_name, "Citywide");
    assert_eq!(o.candidates_file, "cands.xlsx");
    assert_eq!(o.cvr_pattern, "cvr_.*");
}

#[test]
fn decimal_parsing() {
    assert_eq!(parse_u32("4294967295"), Some(u32::MAX));
    assert_eq!(parse_u32("4294967296"), None);
    assert_eq!(parse_u32(""), None);
    assert_eq!(parse_u32("+"), None);
    assert_eq!(parse_u32("1a"), None);
    assert_eq!(parse_u32("007"), Some(7));
}

use report_pipeline::formats::preflib::{parse_preference_list, CandidateMap, PreferenceWarning};

fn preflib_map() -> CandidateMap {
    CandidateMap { external: vec![1, 2, 3, 4] }
}

#[test]
fn preference_list_in_order() {
    let r = parse_preference_list("3,1,2,4", &preflib_map(), "line 9");
    assert_eq!(r.choices, vec![Choice::Vote(2), Choice::Vote(0), Choice::Vote(1), Choice::Vote(3)]);
    assert!(r.warnings.is_empty());
}

#[test]
fn preference_list_ties_are_overvotes() {
    let r = parse_preference_list("3, {1,2} ,4", &preflib_map(), "line 9");
    assert_eq!(r.choices, vec![Choice::Vote(2), Choice::Overvote, Choice::Vote(3)]);
    let r = parse_preference_list("{1,2}", &preflib_map(), "line 9");
    assert_eq!(r.choices, vec![Choice::Overvote]);
}

#[test]
fn preference_list_warnings() {
    let r = parse_preference_list("{1,2", &preflib_map(), "line 9");
    assert!(r.choices.is_empty());
    assert_eq!(r.warnings, vec![PreferenceWarning::UnbalancedBraces, PreferenceWarning::UnparsedEntry(b"{1,2".to_vec())]);
    let r = parse_preference_list(" 5 ,x,,2", &preflib_map(), "line 9");
    assert_eq!(r.choices, vec![Choice::Vote(1)]);
    assert_eq!(r.warnings, vec![PreferenceWarning::UnknownCandidate(5), PreferenceWarning::UnparsedEntry(b"x".to_vec())]);
}

#[test]
fn preference_list_trims_unicode_space() {
    let r = parse_preference_list("3\u{a0},\u{3000}1 ,\u{2009}{2,4}\u{85}", &preflib_map(), "line 9");
    assert_eq!(r.choices, vec![Choice::Vote(2), Choice::Vote(0), Choice::Overvote]);
    assert!(r.warnings.is_empty());
}

use report_pipeline::formats::preflib::{parse_alternative_line, parse_data_line};

#[test]
fn preflib_header_and_data_lines() {
    assert_eq!(parse_alternative_line(&b"# ALTERNATIVE NAME 3: Jane Doe ".to_vec()), Some((3, b"Jane Doe".to_vec())));
    assert_eq!(parse_alternative_line(&b"# NUMBER VOTERS: 10".to_vec()), None);
    assert_eq!(parse_alternative_line(&b"# ALTERNATIVE NAME x: Jane".to_vec()), None);
    assert_eq!(parse_data_line(&b" 12: 3,{1,2} ".to_vec()), Some((12, b"3,{1,2}".to_vec())));
    assert_eq!(parse_data_line(&b"# FILE NAME: x.toi".to_vec()), None);
    assert_eq!(parse_data_line(&b"12 3,1".to_vec()), None);
    assert_eq!(parse_data_line(&b"".to_vec()), None);
}

use report_pipeline::formats::nist_sp_1500::{
    choices_from_marks, get_candidates, CandidateManifest, ManifestCandidate, ManifestCandidateType, Mark,
};

fn manifest() -> CandidateManifest {
    let e = |id: u32, d: &str, contest: u32, t: ManifestCandidateType| ManifestCandidate {
        id,
        description: d.to_string(),
        contest_id: contest,
        candidate_type: t,
    };
    CandidateManifest {
        list: vec![
            e(10, "Ann", 1, ManifestCandidateType::Regular),
            e(11, "Other contest", 2, ManifestCandidateType::Regular),
            e(12, "Write-in", 1, ManifestCandidateType::WriteIn),
            e(13, "Bo", 1, ManifestCandidateType::QualifiedWriteIn),
        ],
    }
}

#[test]
fn nist_candidates_of_a_contest() {
    let c = get_candidates(&manifest(), 1, false);
    assert_eq!(c.map.external, vec![10, 12, 13]);
    assert_eq!(c.candidates[1].candidate_type, CandidateType::WriteIn);
    assert_eq!(c.dropped_write_in, None);
    let d = get_candidates(&manifest(), 1, true);
    assert_eq!(d.map.external, vec![10, 13]);
    assert_eq!(d.candidates[1].name, "Bo");
    assert_eq!(d.dropped_write_in, Some(12));
}

#[test]
fn nist_marks_become_choices() {
    let d = get_candidates(&manifest(), 1, true);
    let m = |c: u32, rank: u32, amb: bool| Mark { candidate_id: c, rank, is_ambiguous: amb };
    let marks = vec![m(13, 1, false), m(10, 2, false), m(13, 2, false), m(12, 3, false), m(10, 4, true), m(10, 5, false)];
    assert_eq!(
        choices_from_marks(&marks, &d.map, d.dropped_write_in),
        vec![Choice::Vote(1), Choice::Overvote, Choice::Undervote, Choice::Undervote, Choice::Vote(0)]
    );
}

use report_pipeline::model::{Contest, ElectionMetadata, Jurisdiction, Office, WinningThreshold};
use report_pipeline::report::preprocess_election_from_data;

fn metadata() -> ElectionMetadata {
    ElectionMetadata {
        name: "General".to_string(),
        date: "2024-11-05".to_string(),
        data_format: "preflib".to_string(),
        normalization: NormalizationPolicy { max_rankings: Some(2), ..Default::default() },
        tabulation_options: None,
        website: None,
    }
}

fn jurisdiction() -> Jurisdiction {
    Jurisdiction {
        name: "Somewhere".to_string(),
        path: "us/xx".to_string(),
        offices: BTreeMap::from([("mayor".to_string(), Office { name: "Mayor".to_string() })]),
    }
}

#[test]
fn preprocessing_describes_and_normalizes() {
    let e = Election::new(candidates(), vec![raw(vec![Choice::Vote(1), Choice::Vote(1), Choice::Vote(0), Choice::Vote(2)])]);
    let contest = Contest { office: "mayor".to_string(), loader_params: Some(params(&[("file", "x.toi")])) };
    let p = preprocess_election_from_data(e, &metadata(), &jurisdiction(), &contest, "us/xx/2024");
    assert_eq!(p.info.name, "Mayor");
    assert_eq!(p.info.office_name, "Mayor");
    assert_eq!(p.info.office, "mayor");
    assert_eq!(p.info.jurisdiction_path, "us/xx");
    assert_eq!(p.info.election_path, "us/xx/2024");
    assert_eq!(p.info.tabulation_options.winning_threshold, WinningThreshold::Majority);
    assert_eq!(p.info.loader_params.as_ref().unwrap().get("file").unwrap(), "x.toi");
    assert_eq!(p.ballots.ballots[0].choices, vec![1, 0]);
    // normalizing the normalized ballots again changes nothing
    let again = Election::new(
        p.ballots.candidates.clone(),
        vec![raw(p.ballots.ballots[0].choices.iter().map(|c| Choice::Vote(*c)).collect())],
    );
    let q = preprocess_election_from_data(again, &metadata(), &jurisdiction(), &contest, "us/xx/2024");
    assert_eq!(q.ballots.ballots[0].choices, p.ballots.ballots[0].choices);
}
