use vstd::prelude::*;
use std::collections::BTreeMap;
use crate::model::{
    TieBreakMode, WinningThreshold,
    Contest, Election, ElectionMetadata, Jurisdiction, NormalizedElection,
    ElectionInfo,
    TabulationOptions,
    CandidateVotes, TabulatorAllocation, Transfer,
    Candidate, CandidateType, ContestReport, ElectionPreprocessed, TabulatorRound,
    RankingDistribution,
    rankings, Allocatee, CandidateId, CandidatePairEntry, CandidatePairTable, NormalizedBallot,
};
use crate::tabulator::{lemma_tally_monotone, alloc_id, insert_sorted, round_candidates, round_fits, tally, is_tabulation, ranked_candidates, round_set, strictly_increasing, tabulate};
use crate::seqs::{lemma_count_where_implies, lemma_index_of_bounds, count_where, lemma_count_where_le, lemma_count_true_pos, lemma_count_within, within, bump, copy_ids, count_true, index_of, position_of, select, zero_matrix};

verus! {

/// The ballot `s` prefers `x` to `y`: `x` is ranked, and `y` is ranked below it or not at all.
pub open spec fn prefers(s: Seq<CandidateId>, x: CandidateId, y: CandidateId) -> bool {
    index_of(s, x) < index_of(s, y)
}

/// Number of the rankings in `rs` that prefer `x` to `y`.
pub open spec fn pref_count(rs: Seq<Seq<CandidateId>>, x: CandidateId, y: CandidateId) -> nat
    decreases rs.len(),
{
    if rs.len() == 0 {
        0
    } else {
        pref_count(rs.drop_last(), x, y) + if prefers(rs.last(), x, y) { 1nat } else { 0nat }
    }
}

pub proof fn lemma_pref_pair_bound(rs: Seq<Seq<CandidateId>>, x: CandidateId, y: CandidateId)
    ensures
        pref_count(rs, x, y) + pref_count(rs, y, x) <= rs.len(),
    decreases rs.len(),
{
    if rs.len() > 0 {
        lemma_pref_pair_bound(rs.drop_last(), x, y);
    }
}

/// Pairwise preference counts over a list of candidates:
/// `counts[i][j]` ballots prefer `candidates[i]` to `candidates[j]`.
#[derive(Clone, Debug)]
pub struct PairwiseCounts {
    pub candidates: Vec<CandidateId>,
    pub counts: Vec<Vec<u32>>,
}

impl PairwiseCounts {
    pub open spec fn count(&self, i: int, j: int) -> u32 {
        self.counts@[i]@[j]
    }

    pub open spec fn wf(&self) -> bool {
        &&& self.counts@.len() == self.candidates@.len()
        &&& forall|i: int| 0 <= i < self.candidates@.len() ==> (#[trigger] self.counts@[i])@.len() == self.candidates@.len()
        &&& forall|i: int, j: int|
            0 <= i < self.candidates@.len() && 0 <= j < self.candidates@.len()
                ==> #[trigger] self.count(i, j) + self.count(j, i) <= u32::MAX
    }

    /// The counts are those of the given rankings.
    pub open spec fn counts_rankings(&self, rs: Seq<Seq<CandidateId>>) -> bool {
        forall|i: int, j: int|
            0 <= i < self.candidates@.len() && 0 <= j < self.candidates@.len()
                ==> #[trigger] self.count(i, j) == pref_count(rs, self.candidates@[i], self.candidates@[j])
    }
}

/// Counts, for each ordered pair of `candidates`, the ballots that prefer the first to the second.
/// A ranked candidate is preferred to every candidate the ballot leaves unranked.
pub fn generate_pairwise_counts(candidates: &[CandidateId], ballots: &[NormalizedBallot]) -> (r: PairwiseCounts)
    requires
        ballots@.len() <= u32::MAX,
    ensures
        r.wf(),
        r.candidates@ == candidates@,
        r.counts_rankings(rankings(ballots@)),
{
    let n = candidates.len();
    let ghost rs = rankings(ballots@);
    let mut counts = zero_matrix(n, n);
    let mut b: usize = 0;
    while b < ballots.len()
        invariant
            b <= ballots@.len(),
            ballots@.len() <= u32::MAX,
            rs == rankings(ballots@),
            n == candidates@.len(),
            counts@.len() == n,
            forall|i: int| 0 <= i < n ==> (#[trigger] counts@[i])@.len() == n,
            forall|i: int, j: int| 0 <= i < n && 0 <= j < n
                ==> #[trigger] counts@[i]@[j] == pref_count(rs.take(b as int), candidates@[i], candidates@[j]),
        decreases ballots@.len() - b,
    {
        let choices = &ballots[b].choices;
        let ghost s = choices@;
        assert(rs.take(b + 1).drop_last() =~= rs.take(b as int));
        assert(rs.take(b + 1).last() == s);
        let mut pos: Vec<usize> = Vec::new();
        let mut p: usize = 0;
        while p < n
            invariant
                p <= n,
                n == candidates@.len(),
                pos@.len() == p,
                s == choices@,
                forall|k: int| 0 <= k < p ==> #[trigger] pos@[k] as int == index_of(s, candidates@[k]),
            decreases n - p,
        {
            let x = position_of(choices.as_slice(), candidates[p]);
            pos.push(x);
            assert(pos@[p as int] as int == index_of(s, candidates@[p as int]));
            p = p + 1;
        }
        let mut i: usize = 0;
        while i < n
            invariant
                i <= n,
                b < ballots@.len(),
                ballots@.len() <= u32::MAX,
                rs.take(b + 1).drop_last() == rs.take(b as int),
                rs.take(b + 1).last() == s,
                rs.take(b + 1).len() == b + 1,
                rs.take(b as int).len() == b,
                n == candidates@.len(),
                pos@.len() == n,
                forall|k: int| 0 <= k < n ==> #[trigger] pos@[k] as int == index_of(s, candidates@[k]),
                counts@.len() == n,
                forall|k: int| 0 <= k < n ==> (#[trigger] counts@[k])@.len() == n,
                forall|k: int, j: int| 0 <= k < n && 0 <= j < n
                    ==> #[trigger] counts@[k]@[j] == pref_count(
                        if k < i { rs.take(b + 1) } else { rs.take(b as int) }, candidates@[k], candidates@[j]),
            decreases n - i,
        {
            let mut j: usize = 0;
            while j < n
                invariant
                    i < n,
                    j <= n,
                    b < ballots@.len(),
                    ballots@.len() <= u32::MAX,
                    rs.take(b + 1).drop_last() == rs.take(b as int),
                    rs.take(b + 1).last() == s,
                    rs.take(b + 1).len() == b + 1,
                    rs.take(b as int).len() == b,
                    n == candidates@.len(),
                    pos@.len() == n,
                    forall|k: int| 0 <= k < n ==> #[trigger] pos@[k] as int == index_of(s, candidates@[k]),
                    counts@.len() == n,
                    forall|k: int| 0 <= k < n ==> (#[trigger] counts@[k])@.len() == n,
                    forall|k: int, l: int| 0 <= k < n && 0 <= l < n
                        ==> #[trigger] counts@[k]@[l] == pref_count(
                            if k < i || (k == i && l < j) { rs.take(b + 1) } else { rs.take(b as int) },
                            candidates@[k], candidates@[l]),
                decreases n - j,
            {
                if pos[i] < pos[j] {
                    proof {
                        lemma_pref_pair_bound(rs.take(b as int), candidates@[i as int], candidates@[j as int]);
                        assert(counts@[i as int]@[j as int] == pref_count(rs.take(b as int), candidates@[i as int], candidates@[j as int]));
                    }
                    bump(&mut counts, i, j);
                }
                j = j + 1;
            }
            i = i + 1;
        }
        b = b + 1;
    }
    assert(rs.take(ballots@.len() as int) =~= rs);
    let r = PairwiseCounts { candidates: copy_ids(candidates), counts };
    assert forall|i: int, j: int| 0 <= i < n && 0 <= j < n implies #[trigger] r.count(i, j) + r.count(j, i) <= u32::MAX by {
        lemma_pref_pair_bound(rs, candidates@[i], candidates@[j]);
    }
    r
}

/// The entry for a pair that `a` ballots decide one way and `b` the other.
pub open spec fn pair_entry(a: u32, b: u32) -> Option<CandidatePairEntry> {
    if a + b == 0 {
        None
    } else {
        Some(CandidatePairEntry { votes: a, total: (a + b) as u32 })
    }
}

/// The axis of a table over `candidates`.
pub open spec fn candidate_axis(candidates: Seq<CandidateId>) -> Seq<Allocatee> {
    candidates.map_values(|c: CandidateId| Allocatee::Candidate(c))
}

/// `t` is the pairwise preference table of `counts`.
pub open spec fn is_pairwise_table(t: CandidatePairTable, counts: PairwiseCounts) -> bool {
    &&& t.rows@ == candidate_axis(counts.candidates@)
    &&& t.cols@ == candidate_axis(counts.candidates@)
    &&& t.is_matrix()
    &&& forall|i: int, j: int|
        0 <= i < counts.candidates@.len() && 0 <= j < counts.candidates@.len()
            ==> #[trigger] t.entry(i, j) == pair_entry(counts.count(i, j), counts.count(j, i))
}

fn candidate_axis_vec(candidates: &[CandidateId]) -> (r: Vec<Allocatee>)
    ensures
        r@ == candidate_axis(candidates@),
{
    let mut r: Vec<Allocatee> = Vec::new();
    let mut i: usize = 0;
    while i < candidates.len()
        invariant
            i <= candidates@.len(),
            r@ == candidate_axis(candidates@.subrange(0, i as int)),
        decreases candidates@.len() - i,
    {
        r.push(Allocatee::Candidate(candidates[i]));
        i = i + 1;
        assert(r@ =~= candidate_axis(candidates@.subrange(0, i as int)));
    }
    assert(candidates@.subrange(0, i as int) =~= candidates@);
    r
}

/// The table of pairwise preferences: the entry for `(i, j)` holds the ballots preferring
/// candidate `i` to `j` out of those preferring either to the other, and is absent when there
/// are none.
pub fn generate_pairwise_preferences(candidates: &[CandidateId], preference_map: &PairwiseCounts) -> (r: CandidatePairTable)
    requires
        preference_map.wf(),
        preference_map.candidates@ == candidates@,
    ensures
        is_pairwise_table(r, *preference_map),
{
    let n = candidates.len();
    let mut entries: Vec<Vec<Option<CandidatePairEntry>>> = Vec::new();
    let mut i: usize = 0;
    while i < n
        invariant
            i <= n,
            n == candidates@.len(),
            preference_map.wf(),
            preference_map.candidates@ == candidates@,
            entries@.len() == i,
            forall|k: int| 0 <= k < i ==> (#[trigger] entries@[k])@.len() == n,
            forall|k: int, j: int| 0 <= k < i && 0 <= j < n
                ==> #[trigger] entries@[k]@[j] == pair_entry(preference_map.count(k, j), preference_map.count(j, k)),
        decreases n - i,
    {
        let mut row: Vec<Option<CandidatePairEntry>> = Vec::new();
        let mut j: usize = 0;
        while j < n
            invariant
                i < n,
                j <= n,
                n == candidates@.len(),
                preference_map.wf(),
                preference_map.candidates@ == candidates@,
                row@.len() == j,
                forall|l: int| 0 <= l < j ==> #[trigger] row@[l] == pair_entry(preference_map.count(i as int, l), preference_map.count(l, i as int)),
            decreases n - j,
        {
            let m1 = preference_map.counts[i][j];
            let m2 = preference_map.counts[j][i];
            assert(preference_map.count(i as int, j as int) + preference_map.count(j as int, i as int) <= u32::MAX);
            let count = m1 + m2;
            if count == 0 {
                row.push(None);
            } else {
                row.push(Some(CandidatePairEntry::new(m1, count)));
            }
            j = j + 1;
        }
        entries.push(row);
        i = i + 1;
    }
    let rows = candidate_axis_vec(candidates);
    let cols = candidate_axis_vec(candidates);
    CandidatePairTable { rows, cols, entries }
}

/// For two distinct candidates, the two entries of a pairwise table split the same total.
pub proof fn lemma_pairwise_entries_add_up(counts: PairwiseCounts, t: CandidatePairTable, i: int, j: int)
    requires
        counts.wf(),
        is_pairwise_table(t, counts),
        0 <= i < counts.candidates@.len(),
        0 <= j < counts.candidates@.len(),
        i != j,
        t.entry(i, j) is Some,
    ensures
        t.entry(j, i) is Some,
        t.entry(i, j)->Some_0.votes + t.entry(j, i)->Some_0.votes == t.entry(i, j)->Some_0.total,
        t.entry(i, j)->Some_0.total == t.entry(j, i)->Some_0.total,
{
    assert(t.entry(i, j) == pair_entry(counts.count(i, j), counts.count(j, i)));
    assert(t.entry(j, i) == pair_entry(counts.count(j, i), counts.count(i, j)));
    assert(counts.count(i, j) + counts.count(j, i) <= u32::MAX);
}

/// `i` beats `j` head to head.
pub open spec fn beats(counts: PairwiseCounts, i: int, j: int) -> bool {
    counts.count(i, j) > counts.count(j, i)
}

/// The matrix view of a graph.
pub open spec fn graph_view(g: Seq<Vec<bool>>) -> Seq<Seq<bool>> {
    g.map_values(|row: Vec<bool>| row@)
}

/// The majority graph: `r[j][i]` holds when candidate `i` beats candidate `j`.
pub fn graph(candidates: &[CandidateId], preference_map: &PairwiseCounts) -> (r: Vec<Vec<bool>>)
    requires
        preference_map.wf(),
        preference_map.candidates@ == candidates@,
    ensures
        r@.len() == candidates@.len(),
        forall|j: int| 0 <= j < candidates@.len() ==> (#[trigger] r@[j])@.len() == candidates@.len(),
        forall|i: int, j: int| 0 <= i < candidates@.len() && 0 <= j < candidates@.len()
            ==> #[trigger] r@[j]@[i] == beats(*preference_map, i, j),
{
    let n = candidates.len();
    let mut g: Vec<Vec<bool>> = Vec::new();
    let mut j: usize = 0;
    while j < n
        invariant
            j <= n,
            n == candidates@.len(),
            preference_map.wf(),
            preference_map.candidates@ == candidates@,
            g@.len() == j,
            forall|k: int| 0 <= k < j ==> (#[trigger] g@[k])@.len() == n,
            forall|i: int, k: int| 0 <= i < n && 0 <= k < j ==> #[trigger] g@[k]@[i] == beats(*preference_map, i, k),
        decreases n - j,
    {
        let mut row: Vec<bool> = Vec::new();
        let mut i: usize = 0;
        while i < n
            invariant
                i <= n,
                j < n,
                n == candidates@.len(),
                preference_map.wf(),
                preference_map.candidates@ == candidates@,
                row@.len() == i,
                forall|l: int| 0 <= l < i ==> #[trigger] row@[l] == beats(*preference_map, l, j as int),
            decreases n - i,
        {
            assert(preference_map.counts@[i as int]@.len() == n);
            assert(preference_map.counts@[j as int]@.len() == n);
            row.push(preference_map.counts[i][j] > preference_map.counts[j][i]);
            i = i + 1;
        }
        g.push(row);
        j = j + 1;
    }
    g
}

/// `g` is an `n` by `n` matrix.
pub open spec fn square(g: Seq<Seq<bool>>, n: nat) -> bool {
    g.len() == n && forall|j: int| 0 <= j < n ==> (#[trigger] g[j]).len() == n
}

/// No two candidates beat each other.
pub open spec fn asymmetric(g: Seq<Seq<bool>>, n: nat) -> bool {
    forall|i: int, j: int| 0 <= i < n && 0 <= j < n && #[trigger] g[j][i] ==> !g[i][j]
}

/// Every member of `m` beats every non-member (`g[j][i]`: `i` beats `j`).
pub open spec fn dominating(g: Seq<Seq<bool>>, m: Seq<bool>) -> bool {
    forall|i: int, j: int| 0 <= i < m.len() && 0 <= j < m.len() && m[i] && !m[j] ==> #[trigger] g[j][i]
}

/// `m` is the Smith set of `g`: a dominating set, non-empty when there are candidates, with no
/// non-empty proper subset that is dominating.
pub open spec fn is_smith_mask(g: Seq<Seq<bool>>, n: nat, m: Seq<bool>) -> bool {
    &&& m.len() == n
    &&& n > 0 ==> count_true(m) > 0
    &&& dominating(g, m)
    &&& forall|s: Seq<bool>| #[trigger] within(s, m) && s != m && count_true(s) > 0 ==> !dominating(g, s)
}

/// The Smith set of a majority graph over `n` candidates, as a membership mask.
pub open spec fn smith_mask(g: Seq<Seq<bool>>, n: nat) -> Seq<bool> {
    choose|m: Seq<bool>| is_smith_mask(g, n, m)
}

/// Every member of `c` is beaten by every non-member.
pub open spec fn closed(g: Seq<Seq<bool>>, c: Seq<bool>) -> bool {
    forall|a: int, b: int| 0 <= a < c.len() && 0 <= b < c.len() && c[a] && !c[b] ==> #[trigger] g[a][b]
}

/// `r` holds the candidates that `x` reaches through "is not beaten by": the smallest
/// closed set holding `x`.
pub open spec fn reach_ok(g: Seq<Seq<bool>>, n: nat, r: Seq<bool>, x: int) -> bool {
    &&& r.len() == n
    &&& r[x]
    &&& closed(g, r)
    &&& forall|c: Seq<bool>| c.len() == n && #[trigger] closed(g, c) && c[x] ==> within(r, c)
}

/// The Smith set of a graph is unique.
pub proof fn lemma_smith_unique(g: Seq<Seq<bool>>, n: nat, m1: Seq<bool>, m2: Seq<bool>)
    requires
        asymmetric(g, n),
        is_smith_mask(g, n, m1),
        is_smith_mask(g, n, m2),
    ensures
        m1 == m2,
{
    if n == 0 {
        assert(m1 =~= m2);
    } else {
        if !within(m1, m2) {
            let a = choose|a: int| 0 <= a < n && m1[a] && !m2[a];
            assert forall|b: int| 0 <= b < n && #[trigger] m2[b] implies m1[b] by {
                if !m1[b] {
                    assert(g[b][a]);
                    assert(g[a][b]);
                }
            }
            assert(within(m2, m1));
            if m2 != m1 {
                assert(!dominating(g, m2));
            }
        } else if m1 != m2 {
            assert(!dominating(g, m1));
        }
    }
}

/// A pair `(a, b)` with `a` in `m`, `b` not, and `b` not beating `a`; none when `m` is closed.
fn find_extension(graph: &Vec<Vec<bool>>, m: &Vec<bool>, n: usize) -> (r: Option<(usize, usize)>)
    requires
        m@.len() == n,
        square(graph_view(graph@), n as nat),
    ensures
        r matches Some((a, b)) ==> a < n && b < n && m@[a as int] && !m@[b as int] && !graph_view(graph@)[a as int][b as int],
        r is None ==> closed(graph_view(graph@), m@),
{
    let ghost g = graph_view(graph@);
    let mut a: usize = 0;
    while a < n
        invariant
            a <= n,
            m@.len() == n,
            g == graph_view(graph@),
            square(g, n as nat),
            forall|x: int, y: int| 0 <= x < a && 0 <= y < n && m@[x] && !m@[y] ==> #[trigger] g[x][y],
        decreases n - a,
    {
        let mut b: usize = 0;
        assert(g[a as int] == graph@[a as int]@);
        while b < n
            invariant
                a < n,
                b <= n,
                m@.len() == n,
                g == graph_view(graph@),
                square(g, n as nat),
                g[a as int] == graph@[a as int]@,
                forall|x: int, y: int| 0 <= x < a && 0 <= y < n && m@[x] && !m@[y] ==> #[trigger] g[x][y],
                forall|y: int| 0 <= y < b && m@[a as int] && !m@[y] ==> #[trigger] g[a as int][y],
            decreases n - b,
        {
            if m[a] && !m[b] && !graph[a][b] {
                return Some((a, b));
            }
            b = b + 1;
        }
        a = a + 1;
    }
    None
}

/// The candidates that `x` reaches through "is not beaten by".
fn reach(graph: &Vec<Vec<bool>>, n: usize, x: usize) -> (r: Vec<bool>)
    requires
        x < n,
        square(graph_view(graph@), n as nat),
    ensures
        reach_ok(graph_view(graph@), n as nat, r@, x as int),
{
    let ghost g = graph_view(graph@);
    let mut m: Vec<bool> = Vec::new();
    let mut k: usize = 0;
    while k < n
        invariant
            k <= n,
            m@.len() == k,
            forall|i: int| 0 <= i < k ==> !m@[i],
        decreases n - k,
    {
        m.push(false);
        k = k + 1;
    }
    m.set(x, true);
    proof {
        assert forall|c: Seq<bool>| c.len() == n && #[trigger] closed(g, c) && c[x as int] implies within(m@, c) by {
            assert forall|i: int| 0 <= i < m@.len() && #[trigger] m@[i] implies c[i] by {
                assert(i == x);
            }
        }
        crate::seqs::lemma_count_true_le(m@);
    }
    loop
        invariant
            m@.len() == n,
            x < n,
            g == graph_view(graph@),
            square(g, n as nat),
            m@[x as int],
            forall|c: Seq<bool>| c.len() == n && #[trigger] closed(g, c) && c[x as int] ==> within(m@, c),
        ensures
            reach_ok(g, n as nat, m@, x as int),
        decreases n - count_true(m@),
    {
        match find_extension(graph, &m, n) {
            None => {
                break;
            },
            Some((a, b)) => {
                proof {
                    crate::seqs::lemma_count_true_set(m@, b as int);
                    crate::seqs::lemma_count_true_le(m@.update(b as int, true));
                    assert forall|c: Seq<bool>| c.len() == n && #[trigger] closed(g, c) && c[x as int]
                        implies within(m@.update(b as int, true), c) by {
                        assert(within(m@, c));
                        assert(c[a as int]);
                        if !c[b as int] {
                            assert(g[a as int][b as int]);
                        }
                        assert forall|i: int| 0 <= i < n && #[trigger] m@.update(b as int, true)[i] implies c[i] by {
                            if i != b {
                                assert(m@[i]);
                            }
                        }
                    }
                }
                m.set(b, true);
            },
        }
    }
    m
}

/// The Smith set: the smallest non-empty set of candidates each of whom beats every candidate
/// outside it. It holds the candidates that reach every candidate through "is not beaten by".
pub fn smith_set(candidates: &[CandidateId], graph: &Vec<Vec<bool>>) -> (r: Vec<CandidateId>)
    requires
        square(graph_view(graph@), candidates@.len()),
        asymmetric(graph_view(graph@), candidates@.len()),
    ensures
        is_smith_mask(graph_view(graph@), candidates@.len(), smith_mask(graph_view(graph@), candidates@.len())),
        r@ == select(candidates@, smith_mask(graph_view(graph@), candidates@.len())),
{
    let n = candidates.len();
    let ghost g = graph_view(graph@);
    let mut reaches: Vec<Vec<bool>> = Vec::new();
    let mut counts: Vec<usize> = Vec::new();
    let mut best: usize = 0;
    let mut x: usize = 0;
    while x < n
        invariant
            x <= n,
            n == candidates@.len(),
            g == graph_view(graph@),
            square(g, n as nat),
            reaches@.len() == x,
            counts@.len() == x,
            forall|y: int| 0 <= y < x ==> reach_ok(g, n as nat, #[trigger] reaches@[y]@, y),
            forall|y: int| 0 <= y < x ==> #[trigger] counts@[y] == count_true(reaches@[y]@),
            best <= x,
            x > 0 ==> best < x,
            forall|y: int| 0 <= y < x ==> counts@[y] <= counts@[best as int],
        decreases n - x,
    {
        let r = reach(graph, n, x);
        let c = crate::seqs::count_set(&r);
        reaches.push(r);
        counts.push(c);
        if x == 0 || c > counts[best] {
            best = x;
        }
        x = x + 1;
    }
    // membership: the candidates that reach everyone
    let mut m: Vec<bool> = Vec::new();
    let mut y: usize = 0;
    while y < n
        invariant
            y <= n,
            n == candidates@.len(),
            reaches@.len() == n,
            counts@.len() == n,
            forall|z: int| 0 <= z < n ==> reach_ok(g, n as nat, #[trigger] reaches@[z]@, z),
            forall|z: int| 0 <= z < n ==> #[trigger] counts@[z] == count_true(reaches@[z]@),
            m@.len() == y,
            forall|z: int| 0 <= z < y ==> #[trigger] m@[z] == (counts@[z] == n),
        decreases n - y,
    {
        m.push(counts[y] == n);
        y = y + 1;
    }
    proof {
        let all = Seq::new(n as nat, |i: int| true);
        crate::tabulator::lemma_all_true(n as nat);
        // a candidate reaches everyone exactly when its count is n
        assert forall|z: int| 0 <= z < n implies (#[trigger] m@[z] <==> forall|i: int| 0 <= i < n ==> reaches@[z]@[i]) by {
            let rz = reaches@[z]@;
            assert(within(rz, all));
            crate::seqs::lemma_count_within(rz, all);
            if forall|i: int| 0 <= i < n ==> rz[i] {
                assert(rz =~= all);
            }
        }
        // dominating
        assert forall|i: int, j: int| 0 <= i < n && 0 <= j < n && m@[i] && !m@[j] implies #[trigger] g[j][i] by {
            let ri = reaches@[i]@;
            let rj = reaches@[j]@;
            assert(reach_ok(g, n as nat, ri, i) && reach_ok(g, n as nat, rj, j));
            if !g[j][i] {
                assert(rj[j]);
                assert(rj[i]);
                assert(within(ri, rj));
                assert forall|k: int| 0 <= k < n implies rj[k] by {
                    assert(ri[k]);
                }
            }
        }
        // minimal
        assert forall|s: Seq<bool>| #[trigger] within(s, m@) && s != m@ && count_true(s) > 0 implies !dominating(g, s) by {
            if dominating(g, s) {
                assert(exists|p: int| 0 <= p < n && m@[p] && !s[p]) by {
                    if !exists|p: int| 0 <= p < n && m@[p] && !s[p] {
                        assert forall|i: int| 0 <= i < n implies s[i] == m@[i] by {
                            if s[i] {
                                assert(m@[i]);
                            }
                        }
                        assert(s =~= m@);
                    }
                }
                let p = choose|p: int| 0 <= p < n && m@[p] && !s[p];
                let d = crate::seqs::lemma_count_true_witness(s);
                let c = Seq::new(n as nat, |i: int| !s[i]);
                assert(closed(g, c)) by {
                    assert forall|a: int, b: int| 0 <= a < c.len() && 0 <= b < c.len() && c[a] && !c[b] implies #[trigger] g[a][b] by {
                        assert(s[b] && !s[a]);
                    }
                }
                let rp = reaches@[p]@;
                assert(reach_ok(g, n as nat, rp, p));
                assert(within(rp, c));
                assert(rp[d]);
                assert(c[d]);
            }
        }
        // non-empty
        if n > 0 {
            let rb = reaches@[best as int]@;
            assert(reach_ok(g, n as nat, rb, best as int));
            if !m@[best as int] {
                let w = choose|w: int| 0 <= w < n && !rb[w];
                let rw = reaches@[w]@;
                assert(reach_ok(g, n as nat, rw, w));
                assert(g[best as int][w]);
                assert(!g[w][best as int]);
                assert(rw[best as int]);
                assert(within(rb, rw));
                assert(rb != rw) by {
                    assert(rw[w]);
                }
                crate::seqs::lemma_count_within(rb, rw);
                assert(counts@[w] <= counts@[best as int]);
            }
            crate::seqs::lemma_count_true_pos(m@, best as int);
        }
        assert(is_smith_mask(g, n as nat, m@));
        lemma_smith_unique(g, n as nat, m@, smith_mask(g, n as nat));
    }
    let mut r: Vec<CandidateId> = Vec::new();
    let mut q: usize = 0;
    while q < n
        invariant
            q <= n,
            n == candidates@.len(),
            m@.len() == n,
            r@ == select(candidates@.subrange(0, q as int), m@.subrange(0, q as int)),
        decreases n - q,
    {
        if m[q] {
            r.push(candidates[q]);
        }
        q = q + 1;
        assert(candidates@.subrange(0, q as int).drop_last() =~= candidates@.subrange(0, q - 1));
        assert(m@.subrange(0, q as int).drop_last() =~= m@.subrange(0, q - 1));
    }
    assert(candidates@.subrange(0, n as int) =~= candidates@);
    assert(m@.subrange(0, n as int) =~= m@);
    r
}

/// The ranking's first choice is `c`.
pub open spec fn first_is(s: Seq<CandidateId>, c: CandidateId) -> bool {
    s.len() > 0 && s[0] == c
}

/// Where a ranking goes after its first choice: its second choice, or exhaustion.
pub open spec fn second_choice(s: Seq<CandidateId>) -> Allocatee {
    if s.len() > 1 {
        Allocatee::Candidate(s[1])
    } else {
        Allocatee::Exhausted
    }
}

/// Number of rankings whose first choice is `c`.
pub open spec fn first_count(rs: Seq<Seq<CandidateId>>, c: CandidateId) -> nat {
    count_where(rs, |s: Seq<CandidateId>| first_is(s, c))
}

/// Number of rankings whose first choice is `c` and that go on to `a`.
pub open spec fn alternate_count(rs: Seq<Seq<CandidateId>>, c: CandidateId, a: Allocatee) -> nat {
    count_where(rs, |s: Seq<CandidateId>| first_is(s, c) && second_choice(s) == a)
}

/// A table cell of `count` out of `total`, absent when `count` is zero.
pub open spec fn count_entry(count: nat, total: nat) -> Option<CandidatePairEntry> {
    if count == 0 {
        None
    } else {
        Some(CandidatePairEntry { votes: count as u32, total: total as u32 })
    }
}

/// `t` is the first-to-alternate table of the rankings `rs` over `candidates`.
pub open spec fn is_first_alternate_table(t: CandidatePairTable, candidates: Seq<CandidateId>, rs: Seq<Seq<CandidateId>>) -> bool {
    &&& t.rows@ == candidate_axis(candidates)
    &&& t.cols@ == candidate_axis(candidates).push(Allocatee::Exhausted)
    &&& t.is_matrix()
    &&& forall|i: int, j: int|
        0 <= i < t.rows@.len() && 0 <= j < t.cols@.len()
            ==> #[trigger] t.entry(i, j) == count_entry(
                alternate_count(rs, candidates[i], t.cols@[j]),
                first_count(rs, candidates[i]),
            )
}

/// A vector of `n` zeros.
fn zeros(n: usize) -> (r: Vec<u32>)
    ensures
        r@.len() == n,
        forall|i: int| 0 <= i < n ==> r@[i] == 0,
{
    let mut r: Vec<u32> = Vec::new();
    let mut i: usize = 0;
    while i < n
        invariant
            i <= n,
            r@.len() == i,
            forall|k: int| 0 <= k < i ==> r@[k] == 0,
        decreases n - i,
    {
        r.push(0);
        i = i + 1;
    }
    r
}

/// Builds the cells of a table from counts and row totals.
fn entries_from_counts(m: &Vec<Vec<u32>>, totals: &Vec<u32>, cols: usize) -> (r: Vec<Vec<Option<CandidatePairEntry>>>)
    requires
        totals@.len() == m@.len(),
        forall|i: int| 0 <= i < m@.len() ==> (#[trigger] m@[i])@.len() == cols,
    ensures
        r@.len() == m@.len(),
        forall|i: int| 0 <= i < m@.len() ==> (#[trigger] r@[i])@.len() == cols,
        forall|i: int, j: int| 0 <= i < m@.len() && 0 <= j < cols
            ==> #[trigger] r@[i]@[j] == count_entry(m@[i]@[j] as nat, totals@[i] as nat),
{
    let mut r: Vec<Vec<Option<CandidatePairEntry>>> = Vec::new();
    let mut i: usize = 0;
    while i < m.len()
        invariant
            i <= m@.len(),
            totals@.len() == m@.len(),
            forall|k: int| 0 <= k < m@.len() ==> (#[trigger] m@[k])@.len() == cols,
            r@.len() == i,
            forall|k: int| 0 <= k < i ==> (#[trigger] r@[k])@.len() == cols,
            forall|k: int, j: int| 0 <= k < i && 0 <= j < cols
                ==> #[trigger] r@[k]@[j] == count_entry(m@[k]@[j] as nat, totals@[k] as nat),
        decreases m@.len() - i,
    {
        let mut row: Vec<Option<CandidatePairEntry>> = Vec::new();
        let mut j: usize = 0;
        assert(m@[i as int]@.len() == cols);
        while j < cols
            invariant
                i < m@.len(),
                j <= cols,
                totals@.len() == m@.len(),
                m@[i as int]@.len() == cols,
                row@.len() == j,
                forall|l: int| 0 <= l < j ==> #[trigger] row@[l] == count_entry(m@[i as int]@[l] as nat, totals@[i as int] as nat),
            decreases cols - j,
        {
            let count = m[i][j];
            if count == 0 {
                row.push(None);
            } else {
                row.push(Some(CandidatePairEntry::new(count, totals[i])));
            }
            j = j + 1;
        }
        r.push(row);
        i = i + 1;
    }
    r
}

/// The table of where each candidate's first-choice ballots go next: one row per candidate,
/// one column per candidate and one for exhaustion; each cell out of the row's first-choice total.
pub fn generate_first_alternate(candidates: &[CandidateId], ballots: &[NormalizedBallot]) -> (r: CandidatePairTable)
    requires
        ballots@.len() <= u32::MAX,
    ensures
        is_first_alternate_table(r, candidates@, rankings(ballots@)),
{
    let n = candidates.len();
    let ghost rs = rankings(ballots@);
    let rows = candidate_axis_vec(candidates);
    let mut cols = candidate_axis_vec(candidates);
    cols.push(Allocatee::Exhausted);
    let nc = cols.len();
    let mut m = zero_matrix(n, nc);
    let mut totals = zeros(n);
    let mut b: usize = 0;
    while b < ballots.len()
        invariant
            b <= ballots@.len(),
            ballots@.len() <= u32::MAX,
            rs == rankings(ballots@),
            n == candidates@.len(),
            nc == n + 1,
            cols@ == candidate_axis(candidates@).push(Allocatee::Exhausted),
            m@.len() == n,
            totals@.len() == n,
            forall|i: int| 0 <= i < n ==> (#[trigger] m@[i])@.len() == nc,
            forall|i: int, j: int| 0 <= i < n && 0 <= j < nc
                ==> #[trigger] m@[i]@[j] == alternate_count(rs.take(b as int), candidates@[i], cols@[j]),
            forall|i: int| 0 <= i < n ==> #[trigger] totals@[i] == first_count(rs.take(b as int), candidates@[i]),
        decreases ballots@.len() - b,
    {
        let choices = &ballots[b].choices;
        let ghost s = choices@;
        assert(rs.take(b + 1).drop_last() =~= rs.take(b as int));
        assert(rs.take(b + 1).last() == s);
        if choices.len() > 0 {
            let first = choices[0];
            let second = if choices.len() > 1 { Allocatee::Candidate(choices[1]) } else { Allocatee::Exhausted };
            let mut i: usize = 0;
            while i < n
                invariant
                    i <= n,
                    b < ballots@.len(),
                    ballots@.len() <= u32::MAX,
                    rs.take(b + 1).drop_last() == rs.take(b as int),
                    rs.take(b + 1).last() == s,
                    rs.take(b + 1).len() == b + 1,
                    rs.take(b as int).len() == b,
                    s.len() > 0,
                    first == s[0],
                    second == second_choice(s),
                    n == candidates@.len(),
                    nc == n + 1,
                    cols@ == candidate_axis(candidates@).push(Allocatee::Exhausted),
                    m@.len() == n,
                    totals@.len() == n,
                    forall|k: int| 0 <= k < n ==> (#[trigger] m@[k])@.len() == nc,
                    forall|k: int, j: int| 0 <= k < n && 0 <= j < nc
                        ==> #[trigger] m@[k]@[j] == alternate_count(
                            if k < i { rs.take(b + 1) } else { rs.take(b as int) }, candidates@[k], cols@[j]),
                    forall|k: int| 0 <= k < n ==> #[trigger] totals@[k] == first_count(
                        if k < i { rs.take(b + 1) } else { rs.take(b as int) }, candidates@[k]),
                decreases n - i,
            {
                if candidates[i] == first {
                    proof {
                        lemma_count_where_le(rs.take(b as int), |s: Seq<CandidateId>| first_is(s, candidates@[i as int]));
                    }
                    let t = totals[i];
                    totals.set(i, t + 1);
                    let mut j: usize = 0;
                    while j < nc
                        invariant
                            i < n,
                            j <= nc,
                            b < ballots@.len(),
                            ballots@.len() <= u32::MAX,
                            rs.take(b + 1).drop_last() == rs.take(b as int),
                            rs.take(b + 1).last() == s,
                            rs.take(b + 1).len() == b + 1,
                            rs.take(b as int).len() == b,
                            s.len() > 0,
                            candidates@[i as int] == s[0],
                            second == second_choice(s),
                            n == candidates@.len(),
                            nc == n + 1,
                            cols@ == candidate_axis(candidates@).push(Allocatee::Exhausted),
                            m@.len() == n,
                            forall|k: int| 0 <= k < n ==> (#[trigger] m@[k])@.len() == nc,
                            forall|k: int, l: int| 0 <= k < n && 0 <= l < nc
                                ==> #[trigger] m@[k]@[l] == alternate_count(
                                    if k < i || (k == i && l < j) { rs.take(b + 1) } else { rs.take(b as int) },
                                    candidates@[k], cols@[l]),
                        decreases nc - j,
                    {
                        if cols[j] == second {
                            proof {
                                let ghost c = candidates@[i as int];
                                let ghost a = cols@[j as int];
                                lemma_count_where_le(rs.take(b as int), |s: Seq<CandidateId>| first_is(s, c) && second_choice(s) == a);
                                assert(m@[i as int]@[j as int] == alternate_count(rs.take(b as int), c, a));
                            }
                            bump(&mut m, i, j);
                        }
                        j = j + 1;
                    }
                }
                i = i + 1;
            }
        }
        b = b + 1;
    }
    assert(rs.take(ballots@.len() as int) =~= rs);
    let entries = entries_from_counts(&m, &totals, nc);
    CandidatePairTable { rows, cols, entries }
}

/// Where the ranking `s` stands among the candidates `f`: the first of them it ranks, or exhaustion.
pub open spec fn first_in(s: Seq<CandidateId>, f: Seq<CandidateId>) -> Allocatee
    decreases s.len(),
{
    if s.len() == 0 {
        Allocatee::Exhausted
    } else if f.contains(s[0]) {
        Allocatee::Candidate(s[0])
    } else {
        first_in(s.drop_first(), f)
    }
}

/// Number of rankings whose first choice is `c` and that end up with `a` among `f`.
pub open spec fn final_count(rs: Seq<Seq<CandidateId>>, f: Seq<CandidateId>, c: CandidateId, a: Allocatee) -> nat {
    count_where(rs, |s: Seq<CandidateId>| first_is(s, c) && first_in(s, f) == a)
}

/// Mask of the members of `candidates` that are in `f`, or with `inside` false, that are not.
pub open spec fn membership(candidates: Seq<CandidateId>, f: Seq<CandidateId>, inside: bool) -> Seq<bool> {
    Seq::new(candidates.len(), |i: int| f.contains(candidates[i]) == inside)
}

/// `t` is the first-to-final table of the rankings `rs` over `candidates`, where `f` holds
/// the candidates of the final round.
pub open spec fn is_first_final_table(
    t: CandidatePairTable,
    candidates: Seq<CandidateId>,
    rs: Seq<Seq<CandidateId>>,
    f: Seq<CandidateId>,
) -> bool {
    let row_ids = select(candidates, membership(candidates, f, false));
    let col_ids = select(candidates, membership(candidates, f, true));
    &&& t.rows@ == candidate_axis(row_ids)
    &&& t.cols@ == candidate_axis(col_ids).push(Allocatee::Exhausted)
    &&& t.is_matrix()
    &&& forall|i: int, j: int|
        0 <= i < t.rows@.len() && 0 <= j < t.cols@.len()
            ==> #[trigger] t.entry(i, j) == count_entry(
                final_count(rs, f, row_ids[i], t.cols@[j]),
                first_count(rs, row_ids[i]),
            )
}

/// The members of `candidates` that are in `f` (or, with `inside` false, that are not), in order.
fn select_members(candidates: &[CandidateId], f: &[CandidateId], inside: bool) -> (r: Vec<CandidateId>)
    ensures
        r@ == select(candidates@, membership(candidates@, f@, inside)),
{
    let ghost mask = membership(candidates@, f@, inside);
    let mut r: Vec<CandidateId> = Vec::new();
    let mut m: usize = 0;
    while m < candidates.len()
        invariant
            m <= candidates@.len(),
            mask == membership(candidates@, f@, inside),
            r@ == select(candidates@.subrange(0, m as int), mask.subrange(0, m as int)),
        decreases candidates@.len() - m,
    {
        let p = position_of(f, candidates[m]);
        proof {
            lemma_index_of_bounds(f@, candidates@[m as int]);
        }
        if (p < f.len()) == inside {
            r.push(candidates[m]);
        }
        m = m + 1;
        assert(candidates@.subrange(0, m as int).drop_last() =~= candidates@.subrange(0, m - 1));
        assert(mask.subrange(0, m as int).drop_last() =~= mask.subrange(0, m - 1));
    }
    assert(candidates@.subrange(0, m as int) =~= candidates@);
    assert(mask.subrange(0, m as int) =~= mask);
    r
}

/// Where the ranking `s` stands among the candidates `f`.
fn find_first_in(s: &Vec<CandidateId>, f: &[CandidateId]) -> (r: Allocatee)
    ensures
        r == first_in(s@, f@),
{
    let mut k: usize = 0;
    assert(s@.subrange(0, s@.len() as int) =~= s@);
    while k < s.len()
        invariant
            k <= s@.len(),
            first_in(s@, f@) == first_in(s@.subrange(k as int, s@.len() as int), f@),
        decreases s@.len() - k,
    {
        let ghost rest = s@.subrange(k as int, s@.len() as int);
        let p = position_of(f, s[k]);
        proof {
            lemma_index_of_bounds(f@, s@[k as int]);
        }
        if p < f.len() {
            return Allocatee::Candidate(s[k]);
        }
        assert(rest.drop_first() =~= s@.subrange(k + 1, s@.len() as int));
        k = k + 1;
    }
    Allocatee::Exhausted
}

/// The table of where the ballots of candidates outside the final round end up: one row per
/// such candidate, one column per final-round candidate and one for exhaustion; each cell out
/// of the row's first-choice total.
pub fn generate_first_final(
    candidates: &[CandidateId],
    ballots: &[NormalizedBallot],
    final_round_candidates: &[CandidateId],
) -> (r: CandidatePairTable)
    requires
        ballots@.len() <= u32::MAX,
    ensures
        is_first_final_table(r, candidates@, rankings(ballots@), final_round_candidates@),
{
    let ghost rs = rankings(ballots@);
    let ghost f = final_round_candidates@;
    let row_ids = select_members(candidates, final_round_candidates, false);
    let col_ids = select_members(candidates, final_round_candidates, true);
    let rows = candidate_axis_vec(row_ids.as_slice());
    let mut cols = candidate_axis_vec(col_ids.as_slice());
    cols.push(Allocatee::Exhausted);
    let n = row_ids.len();
    let nc = cols.len();
    let mut m = zero_matrix(n, nc);
    let mut totals = zeros(n);
    let mut b: usize = 0;
    while b < ballots.len()
        invariant
            b <= ballots@.len(),
            ballots@.len() <= u32::MAX,
            rs == rankings(ballots@),
            f == final_round_candidates@,
            n == row_ids@.len(),
            m@.len() == n,
            totals@.len() == n,
            forall|i: int| 0 <= i < n ==> (#[trigger] m@[i])@.len() == nc,
            forall|i: int, j: int| 0 <= i < n && 0 <= j < nc
                ==> #[trigger] m@[i]@[j] == final_count(rs.take(b as int), f, row_ids@[i], cols@[j]),
            forall|i: int| 0 <= i < n ==> #[trigger] totals@[i] == first_count(rs.take(b as int), row_ids@[i]),
            nc == cols@.len(),
        decreases ballots@.len() - b,
    {
        let choices = &ballots[b].choices;
        let ghost s = choices@;
        assert(rs.take(b + 1).drop_last() =~= rs.take(b as int));
        assert(rs.take(b + 1).last() == s);
        if choices.len() > 0 {
            let first = choices[0];
            let target = find_first_in(choices, final_round_candidates);
            let mut i: usize = 0;
            while i < n
                invariant
                    i <= n,
                    b < ballots@.len(),
                    ballots@.len() <= u32::MAX,
                    rs.take(b + 1).drop_last() == rs.take(b as int),
                    rs.take(b + 1).last() == s,
                    rs.take(b + 1).len() == b + 1,
                    rs.take(b as int).len() == b,
                    s.len() > 0,
                    first == s[0],
                    target == first_in(s, f),
                    n == row_ids@.len(),
                    nc == cols@.len(),
                    m@.len() == n,
                    totals@.len() == n,
                    forall|k: int| 0 <= k < n ==> (#[trigger] m@[k])@.len() == nc,
                    forall|k: int, j: int| 0 <= k < n && 0 <= j < nc
                        ==> #[trigger] m@[k]@[j] == final_count(
                            if k < i { rs.take(b + 1) } else { rs.take(b as int) }, f, row_ids@[k], cols@[j]),
                    forall|k: int| 0 <= k < n ==> #[trigger] totals@[k] == first_count(
                        if k < i { rs.take(b + 1) } else { rs.take(b as int) }, row_ids@[k]),
                decreases n - i,
            {
                if row_ids[i] == first {
                    proof {
                        lemma_count_where_le(rs.take(b as int), |s: Seq<CandidateId>| first_is(s, row_ids@[i as int]));
                    }
                    let t = totals[i];
                    totals.set(i, t + 1);
                    let mut j: usize = 0;
                    while j < nc
                        invariant
                            i < n,
                            j <= nc,
                            b < ballots@.len(),
                            ballots@.len() <= u32::MAX,
                            rs.take(b + 1).drop_last() == rs.take(b as int),
                            rs.take(b + 1).last() == s,
                            rs.take(b + 1).len() == b + 1,
                            rs.take(b as int).len() == b,
                            s.len() > 0,
                            row_ids@[i as int] == s[0],
                            target == first_in(s, f),
                            n == row_ids@.len(),
                            nc == cols@.len(),
                            m@.len() == n,
                            forall|k: int| 0 <= k < n ==> (#[trigger] m@[k])@.len() == nc,
                            forall|k: int, l: int| 0 <= k < n && 0 <= l < nc
                                ==> #[trigger] m@[k]@[l] == final_count(
                                    if k < i || (k == i && l < j) { rs.take(b + 1) } else { rs.take(b as int) },
                                    f, row_ids@[k], cols@[l]),
                        decreases nc - j,
                    {
                        if cols[j] == target {
                            proof {
                                let ghost c = row_ids@[i as int];
                                let ghost a = cols@[j as int];
                                lemma_count_where_le(rs.take(b as int), |s: Seq<CandidateId>| first_is(s, c) && first_in(s, f) == a);
                                assert(m@[i as int]@[j as int] == final_count(rs.take(b as int), f, c, a));
                            }
                            bump(&mut m, i, j);
                        }
                        j = j + 1;
                    }
                }
                i = i + 1;
            }
        }
        b = b + 1;
    }
    assert(rs.take(ballots@.len() as int) =~= rs);
    let entries = entries_from_counts(&m, &totals, nc);
    CandidatePairTable { rows, cols, entries }
}

/// Number of rankings of length `len`.
pub open spec fn length_count(rs: Seq<Seq<CandidateId>>, len: u32) -> nat {
    count_where(rs, |s: Seq<CandidateId>| s.len() > 0 && s.len() == len)
}

/// Number of rankings of length `len` whose first choice is `c`.
pub open spec fn first_length_count(rs: Seq<Seq<CandidateId>>, c: CandidateId, len: u32) -> nat {
    count_where(rs, |s: Seq<CandidateId>| first_is(s, c) && s.len() == len)
}

/// Number of non-empty rankings.
pub open spec fn nonempty_count(rs: Seq<Seq<CandidateId>>) -> nat {
    count_where(rs, |s: Seq<CandidateId>| s.len() > 0)
}

/// `d` describes the ranking lengths of the non-empty rankings in `rs`.
pub open spec fn is_ranking_distribution(d: RankingDistribution, rs: Seq<Seq<CandidateId>>) -> bool {
    distribution_parts(d.overall_distribution@, d.candidate_distributions@, d.total_ballots, d.candidate_totals@, rs)
}

pub open spec fn distribution_parts(
    overall: Map<u32, u32>,
    dists: Map<CandidateId, BTreeMap<u32, u32>>,
    total: u32,
    totals: Map<CandidateId, u32>,
    rs: Seq<Seq<CandidateId>>,
) -> bool {
    &&& total == nonempty_count(rs)
    &&& forall|len: u32| #[trigger] overall.contains_key(len) <==> len > 0 && length_count(rs, len) > 0
    &&& forall|len: u32| #[trigger] overall.contains_key(len) ==> overall[len] == length_count(rs, len)
    &&& forall|c: CandidateId| #[trigger] totals.contains_key(c) <==> first_count(rs, c) > 0
    &&& forall|c: CandidateId| #[trigger] totals.contains_key(c) ==> totals[c] == first_count(rs, c)
    &&& forall|c: CandidateId| #[trigger] dists.contains_key(c) <==> first_count(rs, c) > 0
    &&& forall|c: CandidateId, len: u32| #[trigger] dists.contains_key(c)
        ==> (#[trigger] dists[c]@.contains_key(len) <==> len > 0 && first_length_count(rs, c, len) > 0)
    &&& forall|c: CandidateId, len: u32|
        #[trigger] dists.contains_key(c) && #[trigger] dists[c]@.contains_key(len)
        ==> dists[c]@[len] == first_length_count(rs, c, len)
}

/// Adds one to the count kept under `k`, starting from zero.
fn increment(m: &mut BTreeMap<u32, u32>, k: u32, old_count: Ghost<nat>)
    requires
        old(m)@.contains_key(k) ==> old(m)@[k] == old_count@,
        !old(m)@.contains_key(k) ==> old_count@ == 0,
        old_count@ < u32::MAX,
    ensures
        final(m)@ == old(m)@.insert(k, (old_count@ + 1) as u32),
{
    let current: u32 = match m.get(&k) {
        Some(v) => *v,
        None => 0,
    };
    m.insert(k, current + 1);
}

/// Distribution of ranking lengths over the ballots that rank at least one candidate:
/// overall, by first choice, and the first-choice totals.
pub fn generate_ranking_distribution(_candidates: &[CandidateId], ballots: &[NormalizedBallot]) -> (r: RankingDistribution)
    requires
        ballots@.len() < u32::MAX,
        forall|b: int| 0 <= b < ballots@.len() ==> (#[trigger] ballots@[b]).choices@.len() <= u32::MAX,
    ensures
        is_ranking_distribution(r, rankings(ballots@)),
{
    let ghost rs = rankings(ballots@);
    let mut overall: BTreeMap<u32, u32> = BTreeMap::new();
    let mut dists: BTreeMap<CandidateId, BTreeMap<u32, u32>> = BTreeMap::new();
    let mut totals: BTreeMap<CandidateId, u32> = BTreeMap::new();
    let mut total: u32 = 0;
    let mut b: usize = 0;
    while b < ballots.len()
        invariant
            b <= ballots@.len(),
            ballots@.len() < u32::MAX,
            forall|b: int| 0 <= b < ballots@.len() ==> (#[trigger] ballots@[b]).choices@.len() <= u32::MAX,
            rs == rankings(ballots@),
            distribution_parts(overall@, dists@, total, totals@, rs.take(b as int)),
        decreases ballots@.len() - b,
    {
        let ghost pre = rs.take(b as int);
        let ghost post = rs.take(b + 1);
        let choices = &ballots[b].choices;
        let ghost s = choices@;
        assert(post.drop_last() =~= pre);
        assert(post.last() == s);
        if choices.len() > 0 {
            let len = choices.len() as u32;
            let first = choices[0];
            proof {
                lemma_count_where_le(pre, |s: Seq<CandidateId>| s.len() > 0);
                lemma_count_where_le(pre, |s: Seq<CandidateId>| s.len() > 0 && s.len() == len);
                lemma_count_where_le(pre, |s: Seq<CandidateId>| first_is(s, first));
                lemma_count_where_le(pre, |s: Seq<CandidateId>| first_is(s, first) && s.len() == len);
            }
            total = total + 1;
            increment(&mut overall, len, Ghost(length_count(pre, len)));
            increment(&mut totals, first, Ghost(first_count(pre, first)));
            let ghost old_dists = dists@;
            let mut inner: BTreeMap<u32, u32> = match dists.get(&first) {
                Some(m) => m.clone(),
                None => BTreeMap::new(),
            };
            proof {
                lemma_count_where_implies(pre, |s: Seq<CandidateId>| first_is(s, first) && s.len() == len,
                    |s: Seq<CandidateId>| first_is(s, first));
            }
            increment(&mut inner, len, Ghost(first_length_count(pre, first, len)));
            dists.insert(first, inner);
            proof {
                assert(total == nonempty_count(post));
                assert forall|l: u32| #[trigger] overall@.contains_key(l) <==> l > 0 && length_count(post, l) > 0 by {
                    if l != len {
                        assert(length_count(post, l) == length_count(pre, l));
                    }
                }
                assert forall|l: u32| #[trigger] overall@.contains_key(l) implies overall@[l] == length_count(post, l) by {
                    if l != len {
                        assert(length_count(post, l) == length_count(pre, l));
                    }
                }
                assert forall|c: CandidateId| #[trigger] totals@.contains_key(c) <==> first_count(post, c) > 0 by {
                    if c != first {
                        assert(first_count(post, c) == first_count(pre, c));
                    }
                }
                assert forall|c: CandidateId| #[trigger] totals@.contains_key(c) implies totals@[c] == first_count(post, c) by {
                    if c != first {
                        assert(first_count(post, c) == first_count(pre, c));
                    }
                }
                assert forall|c: CandidateId| #[trigger] dists@.contains_key(c) <==> first_count(post, c) > 0 by {
                    if c != first {
                        assert(first_count(post, c) == first_count(pre, c));
                    }
                }
                assert forall|c: CandidateId, l: u32| #[trigger] dists@.contains_key(c)
                    implies (#[trigger] dists@[c]@.contains_key(l) <==> l > 0 && first_length_count(post, c, l) > 0) by {
                    if c != first || l != len {
                        assert(first_length_count(post, c, l) == first_length_count(pre, c, l));
                    }
                    if c == first && l != len && !old_dists.contains_key(first) {
                        lemma_count_where_implies(pre, |s: Seq<CandidateId>| first_is(s, first) && s.len() == l,
                            |s: Seq<CandidateId>| first_is(s, first));
                    }
                }
                assert forall|c: CandidateId, l: u32| #[trigger] dists@.contains_key(c) && #[trigger] dists@[c]@.contains_key(l)
                    implies dists@[c]@[l] == first_length_count(post, c, l) by {
                    if c != first || l != len {
                        assert(first_length_count(post, c, l) == first_length_count(pre, c, l));
                    }
                }
            }
        } else {
            proof {
                assert forall|l: u32| #[trigger] overall@.contains_key(l) implies overall@[l] == length_count(post, l) by {
                    assert(length_count(post, l) == length_count(pre, l));
                }
                assert forall|l: u32| #[trigger] overall@.contains_key(l) <==> l > 0 && length_count(post, l) > 0 by {
                    assert(length_count(post, l) == length_count(pre, l));
                }
                assert forall|c: CandidateId| #[trigger] totals@.contains_key(c) implies totals@[c] == first_count(post, c) by {
                    assert(first_count(post, c) == first_count(pre, c));
                }
                assert forall|c: CandidateId| #[trigger] totals@.contains_key(c) <==> first_count(post, c) > 0 by {
                    assert(first_count(post, c) == first_count(pre, c));
                }
                assert forall|c: CandidateId| #[trigger] dists@.contains_key(c) <==> first_count(post, c) > 0 by {
                    assert(first_count(post, c) == first_count(pre, c));
                }
                assert forall|c: CandidateId, l: u32| #[trigger] dists@.contains_key(c)
                    implies (#[trigger] dists@[c]@.contains_key(l) <==> l > 0 && first_length_count(post, c, l) > 0) by {
                    assert(first_length_count(post, c, l) == first_length_count(pre, c, l));
                }
                assert forall|c: CandidateId, l: u32| #[trigger] dists@.contains_key(c) && #[trigger] dists@[c]@.contains_key(l)
                    implies dists@[c]@[l] == first_length_count(post, c, l) by {
                    assert(first_length_count(post, c, l) == first_length_count(pre, c, l));
                }
            }
        }
        b = b + 1;
    }
    assert(rs.take(ballots@.len() as int) =~= rs);
    RankingDistribution {
        overall_distribution: overall,
        candidate_distributions: dists,
        total_ballots: total,
        candidate_totals: totals,
    }
}

/// The winner named by a tabulation: the leading allocatee of its last round, if a candidate.
pub open spec fn spec_winner(rounds: Seq<TabulatorRound>) -> Option<CandidateId> {
    if rounds.len() == 0 || rounds.last().allocations@.len() == 0 {
        None
    } else {
        rounds.last().allocations@[0].allocatee.spec_candidate_id()
    }
}

/// The leading allocatee of the last round, if it is a candidate.
pub fn winner(rounds: &[TabulatorRound]) -> (r: Option<CandidateId>)
    ensures
        r == spec_winner(rounds@),
{
    if rounds.len() == 0 {
        return None;
    }
    let last = &rounds[rounds.len() - 1];
    if last.allocations.len() == 0 {
        return None;
    }
    last.allocations[0].allocatee.candidate_id()
}

/// Number of candidates that are not write-ins.
pub open spec fn regular_count(cs: Seq<Candidate>) -> nat
    decreases cs.len(),
{
    if cs.len() == 0 {
        0
    } else {
        regular_count(cs.drop_last()) + if cs.last().candidate_type != CandidateType::WriteIn { 1nat } else { 0nat }
    }
}

proof fn lemma_regular_count_le(cs: Seq<Candidate>)
    ensures
        regular_count(cs) <= cs.len(),
    decreases cs.len(),
{
    if cs.len() > 0 {
        lemma_regular_count_le(cs.drop_last());
    }
}

fn count_regular(cs: &Vec<Candidate>) -> (r: u32)
    requires
        cs@.len() <= u32::MAX,
    ensures
        r == regular_count(cs@),
{
    let mut r: u32 = 0;
    let mut i: usize = 0;
    while i < cs.len()
        invariant
            i <= cs@.len(),
            cs@.len() <= u32::MAX,
            r == regular_count(cs@.take(i as int)),
        decreases cs@.len() - i,
    {
        assert(cs@.take(i + 1).drop_last() =~= cs@.take(i as int));
        proof {
            lemma_regular_count_le(cs@.take(i as int));
        }
        if cs[i].candidate_type != CandidateType::WriteIn {
            r = r + 1;
        }
        i = i + 1;
    }
    assert(cs@.take(i as int) =~= cs@);
    r
}

/// The candidates of the last round, in increasing order.
fn final_round_candidates(rounds: &Vec<TabulatorRound>, cands: &Vec<CandidateId>) -> (r: Vec<CandidateId>)
    ensures
        rounds@.len() > 0 ==> r@.to_set() == round_set(rounds@.last()).intersect(cands@.to_set()),
        rounds@.len() == 0 ==> r@.len() == 0,
{
    let mut r: Vec<CandidateId> = Vec::new();
    if rounds.len() == 0 {
        return r;
    }
    let last = &rounds[rounds.len() - 1];
    let ghost rs = round_set(rounds@.last());
    let mut i: usize = 0;
    while i < cands.len()
        invariant
            i <= cands@.len(),
            rounds@.len() > 0,
            last == rounds@.last(),
            rs == round_set(rounds@.last()),
            forall|x: CandidateId| #[trigger] r@.contains(x) <==> cands@.take(i as int).contains(x) && rs.contains(x),
        decreases cands@.len() - i,
    {
        let c = cands[i];
        let ghost pre = r@;
        let ghost t0 = cands@.take(i as int);
        assert(forall|x: CandidateId| #[trigger] pre.contains(x) <==> t0.contains(x) && rs.contains(x));
        let mut found = false;
        let mut j: usize = 0;
        while j < last.allocations.len()
            invariant
                j <= last.allocations@.len(),
                last == rounds@.last(),
                forall|x: CandidateId| #[trigger] pre.contains(x) <==> t0.contains(x) && rs.contains(x),
                r@ == pre,
                found == exists|k: int| 0 <= k < j && #[trigger] last.allocations@[k].allocatee == Allocatee::Candidate(c),
            decreases last.allocations@.len() - j,
        {
            if last.allocations[j].allocatee == Allocatee::Candidate(c) {
                found = true;
            }
            j = j + 1;
        }
        assert(found == rs.contains(c));
        if found {
            r.push(c);
        }
        proof {
            let ghost t1 = cands@.take(i + 1);
            assert forall|x: CandidateId| r@.contains(x) <==> t1.contains(x) && rs.contains(x) by {
                assert(t1[i as int] == c);
                if r@.contains(x) {
                    let k = choose|k: int| 0 <= k < r@.len() && #[trigger] r@[k] == x;
                    if k < pre.len() {
                        assert(pre[k] == x);
                        assert(pre.contains(x));
                        let w = choose|w: int| 0 <= w < i && #[trigger] t0[w] == x;
                        assert(t1[w] == x);
                    } else {
                        assert(x == c);
                    }
                }
                if t1.contains(x) && rs.contains(x) {
                    let k = choose|k: int| 0 <= k < i + 1 && #[trigger] t1[k] == x;
                    if k < i {
                        assert(t0[k] == x);
                        assert(pre.contains(x));
                        let w = choose|w: int| 0 <= w < pre.len() && #[trigger] pre[w] == x;
                        assert(r@[w] == x);
                    } else {
                        assert(r@[pre.len() as int] == c);
                    }
                }
            }
        }
        i = i + 1;
    }
    assert(cands@.take(i as int) =~= cands@);
    assert(r@.to_set() =~= round_set(rounds@.last()).intersect(cands@.to_set()));
    r
}

/// `a` holds the same information as `b`.
pub open spec fn info_matches(a: ElectionInfo, b: ElectionInfo) -> bool {
    &&& a.name == b.name
    &&& a.office == b.office
    &&& a.date == b.date
    &&& a.data_format == b.data_format
    &&& a.jurisdiction_path == b.jurisdiction_path
    &&& a.election_path == b.election_path
    &&& a.jurisdiction_name == b.jurisdiction_name
    &&& a.office_name == b.office_name
    &&& a.election_name == b.election_name
    &&& a.website == b.website
    &&& a.tabulation_options.tie_break_mode == b.tabulation_options.tie_break_mode
    &&& a.tabulation_options.batch_elimination == b.tabulation_options.batch_elimination
    &&& a.tabulation_options.winning_threshold == b.tabulation_options.winning_threshold
    &&& a.tabulation_options.exhaust_on_overvote == b.tabulation_options.exhaust_on_overvote
    &&& a.tabulation_options.candidate_permutation.is_some() == b.tabulation_options.candidate_permutation.is_some()
    &&& (a.tabulation_options.candidate_permutation matches Some(p)
        ==> p@ == b.tabulation_options.candidate_permutation->Some_0@)
    &&& a.loader_params.is_some() == b.loader_params.is_some()
    &&& (a.loader_params matches Some(m) ==> m@ == b.loader_params->Some_0@)
}

fn copy_string_option(o: &Option<String>) -> (r: Option<String>)
    ensures
        r == *o,
{
    match o {
        Some(s) => Some(s.clone()),
        None => None,
    }
}

fn copy_info(info: &ElectionInfo) -> (r: ElectionInfo)
    ensures
        info_matches(r, *info),
{
    let candidate_permutation = match &info.tabulation_options.candidate_permutation {
        Some(p) => Some(copy_ids(p.as_slice())),
        None => None,
    };
    let loader_params = match &info.loader_params {
        Some(m) => Some(m.clone()),
        None => None,
    };
    ElectionInfo {
        name: info.name.clone(),
        office: info.office.clone(),
        date: info.date.clone(),
        data_format: info.data_format.clone(),
        tabulation_options: TabulationOptions {
            tie_break_mode: info.tabulation_options.tie_break_mode,
            candidate_permutation,
            batch_elimination: info.tabulation_options.batch_elimination,
            winning_threshold: info.tabulation_options.winning_threshold,
            exhaust_on_overvote: info.tabulation_options.exhaust_on_overvote,
        },
        loader_params,
        jurisdiction_path: info.jurisdiction_path.clone(),
        election_path: info.election_path.clone(),
        jurisdiction_name: info.jurisdiction_name.clone(),
        office_name: info.office_name.clone(),
        election_name: info.election_name.clone(),
        website: copy_string_option(&info.website),
    }
}

fn copy_candidates(cs: &Vec<Candidate>) -> (r: Vec<Candidate>)
    ensures
        r@ == cs@,
{
    let mut r: Vec<Candidate> = Vec::new();
    let mut i: usize = 0;
    while i < cs.len()
        invariant
            i <= cs@.len(),
            r@ == cs@.take(i as int),
        decreases cs@.len() - i,
    {
        r.push(Candidate { name: cs[i].name.clone(), candidate_type: cs[i].candidate_type });
        i = i + 1;
        assert(r@ =~= cs@.take(i as int));
    }
    assert(cs@.take(i as int) =~= cs@);
    r
}

/// A table with no rows, columns or entries.
pub open spec fn is_empty_table(t: CandidatePairTable) -> bool {
    t.rows@.len() == 0 && t.cols@.len() == 0 && t.entries@.len() == 0
}

/// The report of a contest: its tabulation, pairwise preferences, Smith set and Condorcet
/// winner, transfer tables and ranking distribution. With no ballots, an empty report.
pub fn generate_report(election: &ElectionPreprocessed) -> (r: ContestReport)
    requires
        election.ballots.ballots@.len() < u32::MAX,
        election.ballots.candidates@.len() <= u32::MAX,
        forall|b: int| 0 <= b < election.ballots.ballots@.len()
            ==> (#[trigger] election.ballots.ballots@[b]).choices@.len() <= u32::MAX,
    ensures
        r.ballot_count == election.ballots.ballots@.len(),
        info_matches(r.info, election.info),
        r.candidates@ == election.ballots.candidates@,
        r.condorcet == if r.smith_set@.len() == 1 { Some(r.smith_set@[0]) } else { None },
        election.ballots.ballots@.len() == 0 ==> {
            &&& r.rounds@.len() == 0
            &&& r.winner is None
            &&& r.num_candidates == 0
            &&& r.smith_set@.len() == 0
            &&& r.total_votes@.len() == 0
            &&& is_empty_table(r.pairwise_preferences)
            &&& is_empty_table(r.first_alternate)
            &&& is_empty_table(r.first_final)
            &&& r.ranking_distribution matches Some(d) && {
                &&& d.total_ballots == 0
                &&& d.overall_distribution@ == Map::<u32, u32>::empty()
                &&& d.candidate_distributions@ == Map::<CandidateId, BTreeMap<u32, u32>>::empty()
                &&& d.candidate_totals@ == Map::<CandidateId, u32>::empty()
            }
        },
        election.ballots.ballots@.len() > 0 ==> ({
            let rs = rankings(election.ballots.ballots@);
            let cands = r.pairwise_preferences.rows@;
            &&& is_tabulation(rs, election.info.tabulation_options, r.rounds@)
            &&& crate::tabulator::exhaustion_counted(election.ballots.ballots@, election.info.tabulation_options, r.rounds@)
            &&& r.winner == spec_winner(r.rounds@)
            &&& r.num_candidates == regular_count(election.ballots.candidates@)
            &&& forall|i: int| 0 <= i < r.total_votes@.len() ==> #[trigger] r.total_votes@[i] == votes_record(r.rounds@, r.total_votes@[i].candidate)
            &&& forall|a: int, b: int| 0 <= a < b < r.total_votes@.len()
                ==> (#[trigger] r.total_votes@[a]).candidate < (#[trigger] r.total_votes@[b]).candidate
            &&& r.rounds@.len() > 0 ==> forall|c: CandidateId| #[trigger] round_set(r.rounds@[0]).contains(c)
                ==> has_record(r.total_votes@, c)
            &&& r.rounds@.len() > 0 ==> forall|i: int| 0 <= i < r.total_votes@.len()
                ==> round_set(r.rounds@[0]).contains(#[trigger] r.total_votes@[i].candidate)
            &&& r.rounds@.len() == 0 ==> r.total_votes@.len() == 0
            &&& exists|ids: Seq<CandidateId>, counts: PairwiseCounts, f: Seq<CandidateId>| {
                &&& strictly_increasing(ids)
                &&& ids.to_set() == crate::tabulator::ranked_set(rs)
                &&& counts.wf()
                &&& counts.candidates@ == ids
                &&& counts.counts_rankings(rs)
                &&& is_pairwise_table(r.pairwise_preferences, counts)
                &&& is_first_alternate_table(r.first_alternate, ids, rs)
                &&& (r.rounds@.len() > 0 ==> f.to_set() == round_set(r.rounds@.last()).intersect(ids.to_set()))
                &&& (r.rounds@.len() == 0 ==> f.len() == 0)
                &&& is_first_final_table(r.first_final, ids, rs, f)
                &&& r.smith_set@ == select(ids, smith_mask(
                    Seq::new(ids.len(), |j: int| Seq::new(ids.len(), |i: int| beats(counts, i, j))), ids.len()))
            }
            &&& r.ranking_distribution matches Some(d) && is_ranking_distribution(d, rs)
        }),
{
    let ballots = &election.ballots.ballots;
    if ballots.len() == 0 {
        let empty_table = CandidatePairTable { rows: Vec::new(), cols: Vec::new(), entries: Vec::new() };
        return ContestReport {
            info: copy_info(&election.info),
            ballot_count: 0,
            candidates: copy_candidates(&election.ballots.candidates),
            winner: None,
            num_candidates: 0,
            rounds: Vec::new(),
            total_votes: Vec::new(),
            pairwise_preferences: CandidatePairTable { rows: Vec::new(), cols: Vec::new(), entries: Vec::new() },
            first_alternate: CandidatePairTable { rows: Vec::new(), cols: Vec::new(), entries: Vec::new() },
            first_final: empty_table,
            ranking_distribution: Some(RankingDistribution {
                overall_distribution: BTreeMap::new(),
                candidate_distributions: BTreeMap::new(),
                total_ballots: 0,
                candidate_totals: BTreeMap::new(),
            }),
            smith_set: Vec::new(),
            condorcet: None,
        };
    }
    let rounds = tabulate(ballots.as_slice(), &election.info.tabulation_options);
    let winner = winner(rounds.as_slice());
    let num_candidates = count_regular(&election.ballots.candidates);
    let candidates = ranked_candidates(ballots.as_slice());
    let pairwise_counts = generate_pairwise_counts(candidates.as_slice(), ballots.as_slice());
    let pairwise_preferences = generate_pairwise_preferences(candidates.as_slice(), &pairwise_counts);
    let graph = graph(candidates.as_slice(), &pairwise_counts);
    let smith_set = smith_set(candidates.as_slice(), &graph);
    let condorcet = if smith_set.len() == 1 { Some(smith_set[0]) } else { None };
    let first_alternate = generate_first_alternate(candidates.as_slice(), ballots.as_slice());
    let final_candidates = final_round_candidates(&rounds, &candidates);
    let first_final = generate_first_final(candidates.as_slice(), ballots.as_slice(), final_candidates.as_slice());
    let ranking_distribution = generate_ranking_distribution(candidates.as_slice(), ballots.as_slice());
    let total_votes = totals_by_candidate(&rounds, &candidates, Ghost(rankings(ballots@)), Ghost(election.info.tabulation_options));
    proof {
        let ids = candidates@;
        let g = graph_view(graph@);
        let want = Seq::new(ids.len(), |j: int| Seq::new(ids.len(), |i: int| beats(pairwise_counts, i, j)));
        assert forall|j: int| 0 <= j < ids.len() implies #[trigger] g[j] == want[j] by {
            assert(g[j] =~= want[j]);
        }
        assert(g =~= want);
    }
    let ghost ids = candidates@;
    let ghost f = final_candidates@;
    let r = ContestReport {
        info: copy_info(&election.info),
        ballot_count: ballots.len() as u32,
        candidates: copy_candidates(&election.ballots.candidates),
        winner,
        num_candidates,
        rounds,
        total_votes,
        pairwise_preferences,
        first_alternate,
        first_final,
        ranking_distribution: Some(ranking_distribution),
        smith_set,
        condorcet,
    };
    proof {
        let rs = rankings(election.ballots.ballots@);
        assert(is_first_final_table(r.first_final, ids, rs, f));
        assert(r.rounds@.len() > 0 ==> f.to_set() == round_set(r.rounds@.last()).intersect(ids.to_set()));
        assert(r.rounds@.len() == 0 ==> f.len() == 0);
        assert(is_pairwise_table(r.pairwise_preferences, pairwise_counts));
        assert(r.smith_set@ == select(ids, smith_mask(
            Seq::new(ids.len(), |j: int| Seq::new(ids.len(), |i: int| beats(pairwise_counts, i, j))), ids.len())));
    }
    r
}

/// The votes of the first allocation of `a` that names `c`.
pub open spec fn alloc_votes(a: Seq<TabulatorAllocation>, c: CandidateId) -> Option<u32>
    decreases a.len(),
{
    if a.len() == 0 {
        None
    } else if a[0].allocatee == Allocatee::Candidate(c) {
        Some(a[0].votes)
    } else {
        alloc_votes(a.drop_first(), c)
    }
}

/// The votes of `c` in the latest of the first `upto` rounds that allocates to it.
pub open spec fn latest_votes(rounds: Seq<TabulatorRound>, c: CandidateId, upto: int) -> u32
    decreases upto,
{
    if upto <= 0 {
        0
    } else {
        match alloc_votes(rounds[upto - 1].allocations@, c) {
            Some(v) => v,
            None => latest_votes(rounds, c, upto - 1),
        }
    }
}

/// The 1-based number of the latest of the first `upto` rounds whose transfers come from
/// `c` (the first round has none).
pub open spec fn elimination_round(rounds: Seq<TabulatorRound>, c: CandidateId, upto: int) -> Option<u32>
    decreases upto,
{
    if upto <= 1 {
        None
    } else if exists|i: int| 0 <= i < rounds[upto - 1].transfers@.len() && #[trigger] rounds[upto - 1].transfers@[i].from == c {
        Some(upto as u32)
    } else {
        elimination_round(rounds, c, upto - 1)
    }
}

/// The totals of candidate `c` over `rounds`.
pub open spec fn votes_record(rounds: Seq<TabulatorRound>, c: CandidateId) -> CandidateVotes {
    let first = alloc_votes(rounds[0].allocations@, c)->Some_0;
    CandidateVotes {
        candidate: c,
        first_round_votes: first,
        transfer_votes: (latest_votes(rounds, c, rounds.len() as int) - first) as u32,
        round_eliminated: elimination_round(rounds, c, rounds.len() as int),
    }
}

/// `a` comes before `b`: more votes in the end, or as many and a lower id.
pub open spec fn record_before(a: CandidateVotes, b: CandidateVotes) -> bool {
    a.first_round_votes + a.transfer_votes > b.first_round_votes + b.transfer_votes
        || (a.first_round_votes + a.transfer_votes == b.first_round_votes + b.transfer_votes && a.candidate < b.candidate)
}

proof fn lemma_alloc_votes(a: Seq<TabulatorAllocation>, c: CandidateId, k: int)
    requires
        0 <= k <= a.len(),
        forall|i: int| k <= i < a.len() ==> (#[trigger] a[i]).allocatee == Allocatee::Exhausted,
    ensures
        alloc_votes(a, c) == alloc_votes(a.take(k), c),
        alloc_votes(a, c) matches Some(v) ==> exists|i: int| 0 <= i < k && #[trigger] a[i].allocatee == Allocatee::Candidate(c) && a[i].votes == v,
        alloc_votes(a, c) is None ==> forall|i: int| 0 <= i < a.len() ==> #[trigger] a[i].allocatee != Allocatee::Candidate(c),
    decreases a.len(),
{
    if a.len() > 0 {
        if k > 0 {
            assert forall|i: int| k - 1 <= i < a.drop_first().len() implies (#[trigger] a.drop_first()[i]).allocatee == Allocatee::Exhausted by {
                assert(a.drop_first()[i] == a[i + 1]);
            }
            lemma_alloc_votes(a.drop_first(), c, k - 1);
            assert(a.take(k).drop_first() =~= a.drop_first().take(k - 1));
            if alloc_votes(a, c) is Some && a[0].allocatee != Allocatee::Candidate(c) {
                let i = choose|i: int| 0 <= i < k - 1 && #[trigger] a.drop_first()[i].allocatee == Allocatee::Candidate(c)
                    && a.drop_first()[i].votes == alloc_votes(a, c)->Some_0;
                assert(a[i + 1] == a.drop_first()[i]);
            }
            if alloc_votes(a, c) is None {
                assert forall|i: int| 0 <= i < a.len() implies #[trigger] a[i].allocatee != Allocatee::Candidate(c) by {
                    if i > 0 {
                        assert(a[i] == a.drop_first()[i - 1]);
                    }
                }
            }
        } else {
            assert(a[0].allocatee == Allocatee::Exhausted);
            assert forall|i: int| 0 <= i < a.drop_first().len() implies (#[trigger] a.drop_first()[i]).allocatee == Allocatee::Exhausted by {
                assert(a.drop_first()[i] == a[i + 1]);
            }
            lemma_alloc_votes(a.drop_first(), c, 0);
            assert(a.take(0) =~= Seq::<TabulatorAllocation>::empty());
            assert forall|i: int| 0 <= i < a.len() implies #[trigger] a[i].allocatee != Allocatee::Candidate(c) by {
                if i > 0 {
                    assert(a[i] == a.drop_first()[i - 1]);
                }
            }
        }
    }
}

/// In a tabulation, the votes that a round allocates to one of its candidates are its tally.
proof fn lemma_round_votes(rs: Seq<Seq<CandidateId>>, opts: TabulationOptions, rounds: Seq<TabulatorRound>, r: int, c: CandidateId)
    requires
        is_tabulation(rs, opts, rounds),
        0 <= r < rounds.len(),
    ensures
        round_set(rounds[r]).contains(c) ==> alloc_votes(rounds[r].allocations@, c) == Some(tally(rs, round_set(rounds[r]), c) as u32),
        !round_set(rounds[r]).contains(c) ==> alloc_votes(rounds[r].allocations@, c) is None,
{
    let a = rounds[r].allocations@;
    let cont = round_set(rounds[r]);
    assert(round_fits(rounds[r], rs, opts, cont));
    let cp = round_candidates(rounds, r);
    let k = cp.len() as int;
    assert(cp == a.take(k)) by {
        if a.len() > 0 && a.last().allocatee == Allocatee::Exhausted {
            assert(a.drop_last() =~= a.take(k));
        } else {
            assert(a.take(k) =~= a);
        }
    }
    assert forall|i: int| k <= i < a.len() implies (#[trigger] a[i]).allocatee == Allocatee::Exhausted by {
        assert(i == a.len() - 1);
    }
    lemma_alloc_votes(a, c, k);
    if let Some(v) = alloc_votes(a, c) {
        let i = choose|i: int| 0 <= i < k && #[trigger] a[i].allocatee == Allocatee::Candidate(c) && a[i].votes == v;
        assert(cp[i] == a[i]);
        assert(alloc_id(cp[i]) == c);
    }
    if cont.contains(c) {
        let i = choose|i: int| 0 <= i < cp.len() && (#[trigger] cp[i]).allocatee == Allocatee::Candidate(c);
        assert(a[i] == cp[i]);
    }
}

proof fn lemma_tally_since_first(rs: Seq<Seq<CandidateId>>, opts: TabulationOptions, rounds: Seq<TabulatorRound>, r: int, c: CandidateId)
    requires
        is_tabulation(rs, opts, rounds),
        0 <= r < rounds.len(),
        round_set(rounds[r]).contains(c),
    ensures
        round_set(rounds[0]).contains(c),
        tally(rs, round_set(rounds[r]), c) >= tally(rs, round_set(rounds[0]), c),
    decreases r,
{
    if r > 0 {
        assert(rounds[r - 1] == rounds[r - 1]);
        assert(round_set(rounds[r]).subset_of(round_set(rounds[r - 1])));
        lemma_tally_monotone(rs, round_set(rounds[r - 1]), round_set(rounds[r]), c);
        lemma_tally_since_first(rs, opts, rounds, r - 1, c);
    }
}

proof fn lemma_latest_at_least_first(rs: Seq<Seq<CandidateId>>, opts: TabulationOptions, rounds: Seq<TabulatorRound>, c: CandidateId, upto: int)
    requires
        is_tabulation(rs, opts, rounds),
        1 <= upto <= rounds.len(),
        round_set(rounds[0]).contains(c),
    ensures
        latest_votes(rounds, c, upto) >= alloc_votes(rounds[0].allocations@, c)->Some_0,
    decreases upto,
{
    lemma_round_votes(rs, opts, rounds, 0, c);
    lemma_round_votes(rs, opts, rounds, upto - 1, c);
    if upto > 1 {
        if round_set(rounds[upto - 1]).contains(c) {
            lemma_tally_since_first(rs, opts, rounds, upto - 1, c);
            lemma_tally_bound(rs, round_set(rounds[upto - 1]), c);
        } else {
            lemma_latest_at_least_first(rs, opts, rounds, c, upto - 1);
        }
    }
}

proof fn lemma_tally_bound(rs: Seq<Seq<CandidateId>>, cont: Set<CandidateId>, c: CandidateId)
    ensures
        tally(rs, cont, c) <= rs.len(),
{
    lemma_count_where_le(rs, |s: Seq<CandidateId>| crate::tabulator::top_choice(s, cont) == Allocatee::Candidate(c));
}

/// The votes of the first allocation of `a` that names `c`.
fn find_votes(a: &Vec<TabulatorAllocation>, c: CandidateId) -> (r: Option<u32>)
    ensures
        r == alloc_votes(a@, c),
{
    let mut i: usize = 0;
    assert(a@.subrange(0, a@.len() as int) =~= a@);
    while i < a.len()
        invariant
            i <= a@.len(),
            alloc_votes(a@, c) == alloc_votes(a@.subrange(i as int, a@.len() as int), c),
        decreases a@.len() - i,
    {
        let ghost rest = a@.subrange(i as int, a@.len() as int);
        if a[i].allocatee == Allocatee::Candidate(c) {
            return Some(a[i].votes);
        }
        assert(rest.drop_first() =~= a@.subrange(i + 1, a@.len() as int));
        i = i + 1;
    }
    None
}

fn has_transfer_from(ts: &Vec<Transfer>, c: CandidateId) -> (r: bool)
    ensures
        r == exists|i: int| 0 <= i < ts@.len() && #[trigger] ts@[i].from == c,
{
    let mut i: usize = 0;
    while i < ts.len()
        invariant
            i <= ts@.len(),
            forall|j: int| 0 <= j < i ==> #[trigger] ts@[j].from != c,
        decreases ts@.len() - i,
    {
        if ts[i].from == c {
            return true;
        }
        i = i + 1;
    }
    false
}

/// Inserts `e` into `list`, ordered by `record_before`.
fn insert_record(list: &mut Vec<CandidateVotes>, e: CandidateVotes)
    requires
        forall|a: int, b: int| 0 <= a < b < old(list)@.len() ==> record_before(#[trigger] old(list)@[a], #[trigger] old(list)@[b]),
        forall|j: int| 0 <= j < old(list)@.len() ==> (#[trigger] old(list)@[j]).candidate != e.candidate,
    ensures
        forall|a: int, b: int| 0 <= a < b < final(list)@.len() ==> record_before(#[trigger] final(list)@[a], #[trigger] final(list)@[b]),
        exists|i: int| 0 <= i <= old(list)@.len() && final(list)@ == old(list)@.insert(i, e),
{
    let te = e.first_round_votes as u64 + e.transfer_votes as u64;
    let mut i: usize = 0;
    while i < list.len() && !(te > list[i].first_round_votes as u64 + list[i].transfer_votes as u64
        || (te == list[i].first_round_votes as u64 + list[i].transfer_votes as u64 && e.candidate < list[i].candidate))
        invariant
            i <= list@.len(),
            te == e.first_round_votes + e.transfer_votes,
            forall|j: int| 0 <= j < i ==> !record_before(e, #[trigger] list@[j]),
        decreases list@.len() - i,
    {
        i = i + 1;
    }
    let ghost pre = list@;
    list.insert(i, e);
    assert forall|a: int, b: int| 0 <= a < b < list@.len() implies record_before(#[trigger] list@[a], #[trigger] list@[b]) by {
        if a < i && b == i {
            assert(!record_before(e, pre[a]));
            assert(pre[a].candidate != e.candidate);
        } else if a == i && b > i {
            if b - 1 > i {
                assert(record_before(pre[i as int], pre[b - 1]));
            }
        } else if a < i && b > i {
            assert(record_before(pre[a], pre[b - 1]));
        } else if a > i {
            assert(record_before(pre[a - 1], pre[b - 1]));
        }
    }
}

proof fn lemma_new_record_distinct(list: Seq<CandidateVotes>, ids: Seq<CandidateId>, m: int, rec: CandidateVotes)
    requires
        0 <= m < ids.len(),
        crate::tabulator::strictly_increasing(ids),
        rec.candidate == ids[m],
        forall|i: int| 0 <= i < list.len() ==> exists|j: int| 0 <= j < m && #[trigger] ids[j] == (#[trigger] list[i]).candidate,
    ensures
        forall|j: int| 0 <= j < list.len() ==> (#[trigger] list[j]).candidate != rec.candidate,
{
    assert forall|j: int| 0 <= j < list.len() implies (#[trigger] list[j]).candidate != rec.candidate by {
        let w = choose|w: int| 0 <= w < m && #[trigger] ids[w] == list[j].candidate;
        assert(ids[w] < ids[m]);
    }
}

proof fn lemma_record_inserted(
    pre: Seq<CandidateVotes>,
    list: Seq<CandidateVotes>,
    i: int,
    rec: CandidateVotes,
    ids: Seq<CandidateId>,
    m: int,
    rounds: Seq<TabulatorRound>,
)
    requires
        0 <= i <= pre.len(),
        list == pre.insert(i, rec),
        0 <= m < ids.len(),
        rec.candidate == ids[m],
        rec == votes_record(rounds, rec.candidate),
        forall|x: int| 0 <= x < pre.len() ==> #[trigger] pre[x] == votes_record(rounds, pre[x].candidate),
        forall|x: int| 0 <= x < pre.len() ==> exists|j: int| 0 <= j < m && #[trigger] ids[j] == (#[trigger] pre[x]).candidate,
    ensures
        forall|x: int| 0 <= x < list.len() ==> #[trigger] list[x] == votes_record(rounds, list[x].candidate),
        forall|x: int| 0 <= x < list.len() ==> exists|j: int| 0 <= j < m + 1 && #[trigger] ids[j] == (#[trigger] list[x]).candidate,
{
    assert forall|x: int| 0 <= x < list.len() implies #[trigger] list[x] == votes_record(rounds, list[x].candidate)
        && exists|j: int| 0 <= j < m + 1 && #[trigger] ids[j] == list[x].candidate by {
        if x < i {
            assert(list[x] == pre[x]);
            let w = choose|w: int| 0 <= w < m && #[trigger] ids[w] == pre[x].candidate;
        } else if x > i {
            assert(list[x] == pre[x - 1]);
            let w = choose|w: int| 0 <= w < m && #[trigger] ids[w] == pre[x - 1].candidate;
        } else {
            assert(ids[m] == rec.candidate);
        }
    }
}

/// Some record of `list` is for candidate `c`.
pub open spec fn has_record(list: Seq<CandidateVotes>, c: CandidateId) -> bool {
    exists|x: int| 0 <= x < list.len() && list[x].candidate == c
}

proof fn lemma_has_record_insert(pre: Seq<CandidateVotes>, i: int, e: CandidateVotes, c: CandidateId)
    requires
        0 <= i <= pre.len(),
        has_record(pre, c) || c == e.candidate,
    ensures
        has_record(pre.insert(i, e), c),
{
    let l = pre.insert(i, e);
    if c == e.candidate {
        assert(l[i].candidate == c);
    } else {
        let x = choose|x: int| 0 <= x < pre.len() && pre[x].candidate == c;
        if x < i {
            assert(l[x] == pre[x]);
        } else {
            assert(l[x + 1] == pre[x]);
        }
    }
}

/// No first-round candidate ends with fewer votes than it started with: its votes in the last
/// round that allocates to it are at least its first-round votes.
pub open spec fn votes_kept(rounds: Seq<TabulatorRound>) -> bool {
    forall|c: CandidateId| #[trigger] round_set(rounds[0]).contains(c)
        ==> alloc_votes(rounds[0].allocations@, c)->Some_0 <= latest_votes(rounds, c, rounds.len() as int)
}

/// The totals of one first-round candidate.
fn record_of(rounds: &[TabulatorRound], c: CandidateId) -> (rec: CandidateVotes)
    requires
        votes_kept(rounds@),
        rounds@.len() > 0,
        round_set(rounds@[0]).contains(c),
    ensures
        rec == votes_record(rounds@, c),
{
    proof {
        let a = rounds@[0].allocations@;
        lemma_alloc_votes(a, c, a.len() as int);
        if alloc_votes(a, c) is None {
            let i = choose|i: int| 0 <= i < a.len() && #[trigger] a[i].allocatee == Allocatee::Candidate(c);
            assert(a[i].allocatee != Allocatee::Candidate(c));
        }
    }
    let first = match find_votes(&rounds[0].allocations, c) {
        Some(v) => v,
        None => 0,
    };
    let mut latest: u32 = 0;
    let mut eliminated: Option<u32> = None;
    let mut r: usize = 0;
    while r < rounds.len()
        invariant
            r <= rounds@.len(),
            latest == latest_votes(rounds@, c, r as int),
            eliminated == elimination_round(rounds@, c, r as int),
        decreases rounds@.len() - r,
    {
        if let Some(v) = find_votes(&rounds[r].allocations, c) {
            latest = v;
        }
        if r >= 1 && has_transfer_from(&rounds[r].transfers, c) {
            eliminated = Some((r + 1) as u32);
        }
        r = r + 1;
    }
    CandidateVotes { candidate: c, first_round_votes: first, transfer_votes: latest - first, round_eliminated: eliminated }
}

/// Each first-round candidate's first-round votes, the votes it gained by transfers up to the
/// last round it took part in, and the round after which it was eliminated; most votes first,
/// then by id.
pub fn total_votes(rounds: &[TabulatorRound]) -> (r: Vec<CandidateVotes>)
    requires
        rounds@.len() > 0,
        votes_kept(rounds@),
    ensures
        forall|i: int| 0 <= i < r@.len() ==> #[trigger] r@[i] == votes_record(rounds@, r@[i].candidate),
        forall|i: int| 0 <= i < r@.len() ==> round_set(rounds@[0]).contains(#[trigger] r@[i].candidate),
        forall|c: CandidateId| #[trigger] round_set(rounds@[0]).contains(c) ==> has_record(r@, c),
        forall|a: int, b: int| 0 <= a < b < r@.len() ==> record_before(#[trigger] r@[a], #[trigger] r@[b]),
{
    let first_round = &rounds[0].allocations;
    let mut ids: Vec<CandidateId> = Vec::new();
    let mut k: usize = 0;
    while k < first_round.len()
        invariant
            k <= first_round@.len(),
            first_round == rounds@[0].allocations,
            crate::tabulator::strictly_increasing(ids@),
            forall|c: CandidateId| #[trigger] ids@.to_set().contains(c)
                <==> exists|i: int| 0 <= i < k && #[trigger] first_round@[i].allocatee == Allocatee::Candidate(c),
        decreases first_round@.len() - k,
    {
        if let Allocatee::Candidate(c) = first_round[k].allocatee {
            insert_sorted(&mut ids, c);
        }
        k = k + 1;
    }
    let mut list: Vec<CandidateVotes> = Vec::new();
    let mut m: usize = 0;
    while m < ids.len()
        invariant
            m <= ids@.len(),
            votes_kept(rounds@),
            rounds@.len() > 0,
            first_round == rounds@[0].allocations,
            crate::tabulator::strictly_increasing(ids@),
            forall|c: CandidateId| #[trigger] ids@.to_set().contains(c) <==> round_set(rounds@[0]).contains(c),
            forall|i: int| 0 <= i < list@.len() ==> #[trigger] list@[i] == votes_record(rounds@, list@[i].candidate),
            forall|i: int| 0 <= i < list@.len() ==> exists|j: int| 0 <= j < m && #[trigger] ids@[j] == (#[trigger] list@[i]).candidate,
            forall|a: int, b: int| 0 <= a < b < list@.len() ==> record_before(#[trigger] list@[a], #[trigger] list@[b]),
            forall|j: int| 0 <= j < m ==> has_record(list@, #[trigger] ids@[j]),
        decreases ids@.len() - m,
    {
        let c = ids[m];
        proof {
            assert(ids@.to_set().contains(c));
        }
        let rec = record_of(rounds, c);
        proof {
            lemma_new_record_distinct(list@, ids@, m as int, rec);
        }
        let ghost pre = list@;
        insert_record(&mut list, rec);
        proof {
            let i = choose|i: int| 0 <= i <= pre.len() && list@ == pre.insert(i, rec);
            lemma_record_inserted(pre, list@, i, rec, ids@, m as int, rounds@);
            assert forall|j: int| 0 <= j < m + 1 implies has_record(list@, #[trigger] ids@[j]) by {
                lemma_has_record_insert(pre, i, rec, ids@[j]);
            }
        }
        m = m + 1;
    }
    proof {
        assert forall|i: int| 0 <= i < list@.len() implies round_set(rounds@[0]).contains(#[trigger] list@[i].candidate) by {
            let j = choose|j: int| 0 <= j < m && #[trigger] ids@[j] == (#[trigger] list@[i]).candidate;
            assert(ids@.to_set().contains(ids@[j]));
        }
        assert forall|c: CandidateId| #[trigger] round_set(rounds@[0]).contains(c) implies has_record(list@, c) by {
            assert(ids@.to_set().contains(c));
            let j = choose|j: int| 0 <= j < ids@.len() && ids@[j] == c;
            assert(has_record(list@, ids@[j]));
        }
    }
    list
}

/// The index of the first record of `c` in `tv`, or `tv.len()`.
fn find_record(tv: &Vec<CandidateVotes>, c: CandidateId) -> (j: usize)
    ensures
        j <= tv@.len(),
        j < tv@.len() ==> tv@[j as int].candidate == c,
        j == tv@.len() ==> !has_record(tv@, c),
{
    let mut j: usize = 0;
    while j < tv.len() && tv[j].candidate != c
        invariant
            j <= tv@.len(),
            forall|x: int| 0 <= x < j ==> tv@[x].candidate != c,
        decreases tv@.len() - j,
    {
        j = j + 1;
    }
    j
}

/// The records of `tv` for the candidates `ids`, in the order of `ids`.
fn by_candidate(tv: &Vec<CandidateVotes>, ids: &Vec<CandidateId>, rounds: Ghost<Seq<TabulatorRound>>) -> (r: Vec<CandidateVotes>)
    requires
        strictly_increasing(ids@),
        forall|j: int| 0 <= j < tv@.len() ==> #[trigger] tv@[j] == votes_record(rounds@, tv@[j].candidate),
    ensures
        forall|i: int| 0 <= i < r@.len() ==> #[trigger] r@[i] == votes_record(rounds@, r@[i].candidate),
        forall|a: int, b: int| 0 <= a < b < r@.len() ==> (#[trigger] r@[a]).candidate < (#[trigger] r@[b]).candidate,
        forall|k: int| 0 <= k < ids@.len() && has_record(tv@, #[trigger] ids@[k]) ==> has_record(r@, ids@[k]),
        forall|i: int| 0 <= i < r@.len() ==> ids@.contains(#[trigger] r@[i].candidate),
{
    let mut r: Vec<CandidateVotes> = Vec::new();
    let mut k: usize = 0;
    while k < ids.len()
        invariant
            k <= ids@.len(),
            strictly_increasing(ids@),
            forall|j: int| 0 <= j < tv@.len() ==> #[trigger] tv@[j] == votes_record(rounds@, tv@[j].candidate),
            forall|i: int| 0 <= i < r@.len() ==> #[trigger] r@[i] == votes_record(rounds@, r@[i].candidate),
            forall|a: int, b: int| 0 <= a < b < r@.len() ==> (#[trigger] r@[a]).candidate < (#[trigger] r@[b]).candidate,
            forall|i: int| 0 <= i < r@.len() ==> exists|j: int| 0 <= j < k && #[trigger] ids@[j] == (#[trigger] r@[i]).candidate,
            forall|q: int| 0 <= q < k && has_record(tv@, #[trigger] ids@[q]) ==> has_record(r@, ids@[q]),
        decreases ids@.len() - k,
    {
        let c = ids[k];
        let j = find_record(tv, c);
        if j < tv.len() {
            let ghost pre = r@;
            proof {
                assert forall|i: int| 0 <= i < pre.len() implies (#[trigger] pre[i]).candidate < c by {
                    let w = choose|w: int| 0 <= w < k && #[trigger] ids@[w] == (#[trigger] pre[i]).candidate;
                    assert(ids@[w] < ids@[k as int]);
                }
            }
            r.push(tv[j]);
            proof {
                assert forall|i: int| 0 <= i < r@.len() implies #[trigger] r@[i] == votes_record(rounds@, r@[i].candidate) by {
                    if i < pre.len() {
                        assert(r@[i] == pre[i]);
                    } else {
                        assert(tv@[j as int] == r@[i]);
                    }
                }
                assert forall|i: int| 0 <= i < r@.len() implies exists|w: int| 0 <= w < k + 1 && #[trigger] ids@[w] == (#[trigger] r@[i]).candidate by {
                    if i < pre.len() {
                        assert(r@[i] == pre[i]);
                        let w = choose|w: int| 0 <= w < k && #[trigger] ids@[w] == (#[trigger] pre[i]).candidate;
                    } else {
                        assert(ids@[k as int] == r@[i].candidate);
                    }
                }
                assert forall|a: int, b: int| 0 <= a < b < r@.len() implies (#[trigger] r@[a]).candidate < (#[trigger] r@[b]).candidate by {
                    if b == pre.len() {
                        assert(r@[a] == pre[a]);
                    } else {
                        assert(r@[a] == pre[a] && r@[b] == pre[b]);
                    }
                }
                assert forall|q: int| 0 <= q < k + 1 && has_record(tv@, #[trigger] ids@[q]) implies has_record(r@, ids@[q]) by {
                    if q == k {
                        assert(r@[pre.len() as int].candidate == ids@[q]);
                    } else {
                        let x = choose|x: int| 0 <= x < pre.len() && pre[x].candidate == ids@[q];
                        assert(r@[x] == pre[x]);
                    }
                }
            }
        }
        k = k + 1;
    }
    assert forall|i: int| 0 <= i < r@.len() implies ids@.contains(#[trigger] r@[i].candidate) by {
        let j = choose|j: int| 0 <= j < k && #[trigger] ids@[j] == (#[trigger] r@[i]).candidate;
        assert(ids@[j] == r@[i].candidate);
    }
    r
}

/// The totals of `rounds`, by candidate.
fn totals_by_candidate(rounds: &Vec<TabulatorRound>, ids: &Vec<CandidateId>, rs: Ghost<Seq<Seq<CandidateId>>>, opts: Ghost<TabulationOptions>) -> (r: Vec<CandidateVotes>)
    requires
        is_tabulation(rs@, opts@, rounds@),
        strictly_increasing(ids@),
    ensures
        forall|i: int| 0 <= i < r@.len() ==> #[trigger] r@[i] == votes_record(rounds@, r@[i].candidate),
        forall|a: int, b: int| 0 <= a < b < r@.len() ==> (#[trigger] r@[a]).candidate < (#[trigger] r@[b]).candidate,
        rounds@.len() > 0 && ids@.to_set() == round_set(rounds@[0])
            ==> forall|c: CandidateId| #[trigger] round_set(rounds@[0]).contains(c) ==> has_record(r@, c),
        rounds@.len() > 0 && ids@.to_set() == round_set(rounds@[0])
            ==> forall|i: int| 0 <= i < r@.len() ==> round_set(rounds@[0]).contains(#[trigger] r@[i].candidate),
        rounds@.len() == 0 ==> r@.len() == 0,
{
    if rounds.len() == 0 {
        return Vec::new();
    }
    proof {
        assert forall|c: CandidateId| #[trigger] round_set(rounds@[0]).contains(c)
            implies alloc_votes(rounds@[0].allocations@, c)->Some_0 <= latest_votes(rounds@, c, rounds@.len() as int) by {
            lemma_latest_at_least_first(rs@, opts@, rounds@, c, rounds@.len() as int);
        }
    }
    let tv = total_votes(rounds.as_slice());
    let r = by_candidate(&tv, ids, Ghost(rounds@));
    proof {
        if ids@.to_set() == round_set(rounds@[0]) {
            assert forall|c: CandidateId| #[trigger] round_set(rounds@[0]).contains(c) implies has_record(r@, c) by {
                assert(ids@.to_set().contains(c));
                let k = choose|k: int| 0 <= k < ids@.len() && ids@[k] == c;
                assert(has_record(tv@, ids@[k]));
            }
            assert forall|i: int| 0 <= i < r@.len() implies round_set(rounds@[0]).contains(#[trigger] r@[i].candidate) by {
                assert(ids@.contains(r@[i].candidate));
                assert(ids@.to_set().contains(r@[i].candidate));
            }
        }
    }
    r
}

fn copy_options(o: &TabulationOptions) -> (r: TabulationOptions)
    ensures
        r.tie_break_mode == o.tie_break_mode,
        r.batch_elimination == o.batch_elimination,
        r.winning_threshold == o.winning_threshold,
        r.exhaust_on_overvote == o.exhaust_on_overvote,
        r.candidate_permutation.is_some() == o.candidate_permutation.is_some(),
        r.candidate_permutation matches Some(p) ==> p@ == o.candidate_permutation->Some_0@,
{
    TabulationOptions {
        tie_break_mode: o.tie_break_mode,
        candidate_permutation: match &o.candidate_permutation {
            Some(p) => Some(copy_ids(p.as_slice())),
            None => None,
        },
        batch_elimination: o.batch_elimination,
        winning_threshold: o.winning_threshold,
        exhaust_on_overvote: o.exhaust_on_overvote,
    }
}

/// The tabulation options of `a` are those of `b`.
pub open spec fn options_match(a: TabulationOptions, b: TabulationOptions) -> bool {
    &&& a.tie_break_mode == b.tie_break_mode
    &&& a.batch_elimination == b.batch_elimination
    &&& a.winning_threshold == b.winning_threshold
    &&& a.exhaust_on_overvote == b.exhaust_on_overvote
    &&& a.candidate_permutation.is_some() == b.candidate_permutation.is_some()
    &&& (a.candidate_permutation matches Some(p) ==> p@ == b.candidate_permutation->Some_0@)
}

/// Prepares a contest for its report: normalizes the election under the metadata's policy and
/// describes the contest from the metadata, the jurisdiction (whose offices must list the
/// contest's office) and the contest. Without tabulation options in the metadata, the
/// defaults apply.
pub fn preprocess_election_from_data(
    election: Election,
    metadata: &ElectionMetadata,
    jurisdiction: &Jurisdiction,
    contest: &Contest,
    election_path: &str,
) -> (r: ElectionPreprocessed)
    requires
        election.wf(),
        crate::formats::params::has_param(jurisdiction.offices@, contest.office@),
    ensures
        ({
            let office = crate::formats::params::param_entry(jurisdiction.offices@, contest.office@);
            &&& r.info.name == office.name
            &&& r.info.office_name == office.name
            &&& r.info.office == contest.office
            &&& r.info.date == metadata.date
            &&& r.info.data_format == metadata.data_format
            &&& r.info.jurisdiction_path == jurisdiction.path
            &&& r.info.jurisdiction_name == jurisdiction.name
            &&& r.info.election_path@ == election_path@
            &&& r.info.election_name == metadata.name
            &&& r.info.website == metadata.website
            &&& r.info.loader_params.is_some() == contest.loader_params.is_some()
            &&& (r.info.loader_params matches Some(m) ==> m@ == contest.loader_params->Some_0@)
            &&& match metadata.tabulation_options {
                Some(o) => options_match(r.info.tabulation_options, o),
                None => r.info.tabulation_options.tie_break_mode == TieBreakMode::LexicographicById
                    && r.info.tabulation_options.candidate_permutation is None
                    && !r.info.tabulation_options.batch_elimination
                    && r.info.tabulation_options.winning_threshold == WinningThreshold::Majority
                    && !r.info.tabulation_options.exhaust_on_overvote,
            }
        }),
        r.ballots.candidates@ == election.candidates@,
        r.ballots.ballots@.len() == election.ballots@.len(),
        forall|b: int| 0 <= b < r.ballots.ballots@.len() ==> (#[trigger] r.ballots.ballots@[b]).id == election.ballots@[b].id
            && (r.ballots.ballots@[b].choices@, r.ballots.ballots@[b].overvoted)
                == crate::normalizer::normalized(
                    election.ballots@[b].choices@,
                    crate::normalizer::candidate_types(election.candidates@),
                    metadata.normalization,
                ),
{
    let office = match crate::formats::params::lookup(&jurisdiction.offices, contest.office.as_str()) {
        Some(o) => o.name.clone(),
        None => String::new(),
    };
    let tabulation_options = match &metadata.tabulation_options {
        Some(o) => copy_options(o),
        None => TabulationOptions::default(),
    };
    let loader_params = match &contest.loader_params {
        Some(m) => Some(m.clone()),
        None => None,
    };
    let ballots: NormalizedElection = crate::normalizer::normalize_election(&metadata.normalization, election);
    ElectionPreprocessed {
        info: ElectionInfo {
            name: office.clone(),
            office: contest.office.clone(),
            date: metadata.date.clone(),
            data_format: metadata.data_format.clone(),
            tabulation_options,
            loader_params,
            jurisdiction_path: jurisdiction.path.clone(),
            election_path: election_path.to_owned(),
            jurisdiction_name: jurisdiction.name.clone(),
            office_name: office,
            election_name: metadata.name.clone(),
            website: copy_string_option(&metadata.website),
        },
        ballots,
    }
}

} // verus!
