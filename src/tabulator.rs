use vstd::prelude::*;
use crate::model::{
    rankings, Allocatee, CandidateId, NormalizedBallot, TabulationOptions, TabulatorAllocation,
    TabulatorRound, TieBreakMode, Transfer, WinningThreshold,
};
use crate::seqs::{lemma_count_true_pos, count_where, index_of, lemma_count_where_le, lemma_index_of_bounds, position_of};

verus! {

/// Where the ranking `s` stands when only the candidates in `cont` remain: with the first of
/// them it ranks, or exhausted.
pub open spec fn top_choice(s: Seq<CandidateId>, cont: Set<CandidateId>) -> Allocatee
    decreases s.len(),
{
    if s.len() == 0 {
        Allocatee::Exhausted
    } else if cont.contains(s[0]) {
        Allocatee::Candidate(s[0])
    } else {
        top_choice(s.drop_first(), cont)
    }
}

/// Votes of `c` when the candidates in `cont` remain.
pub open spec fn tally(rs: Seq<Seq<CandidateId>>, cont: Set<CandidateId>, c: CandidateId) -> nat {
    count_where(rs, |s: Seq<CandidateId>| top_choice(s, cont) == Allocatee::Candidate(c))
}

/// Ballots exhausted when the candidates in `cont` remain.
pub open spec fn exhausted(rs: Seq<Seq<CandidateId>>, cont: Set<CandidateId>) -> nat {
    count_where(rs, |s: Seq<CandidateId>| top_choice(s, cont) == Allocatee::Exhausted)
}

/// The candidates ranked on at least one ballot.
pub open spec fn ranked_set(rs: Seq<Seq<CandidateId>>) -> Set<CandidateId> {
    Set::new(|c: CandidateId| exists|b: int| 0 <= b < rs.len() && #[trigger] rs[b].contains(c))
}

/// The candidates that the positions set in `active` stand for.
pub open spec fn active_set(cands: Seq<CandidateId>, active: Seq<bool>) -> Set<CandidateId> {
    Set::new(|c: CandidateId| index_of(cands, c) < cands.len() && active[index_of(cands, c)])
}

pub open spec fn strictly_increasing(s: Seq<CandidateId>) -> bool {
    forall|i: int, j: int| 0 <= i < j < s.len() ==> s[i] < s[j]
}

/// `cursor` points at the first entry of `s` in `cont`, or past the end.
pub open spec fn cursor_ok(s: Seq<CandidateId>, cont: Set<CandidateId>, cursor: int) -> bool {
    &&& 0 <= cursor <= s.len()
    &&& forall|k: int| 0 <= k < cursor ==> !cont.contains(#[trigger] s[k])
    &&& cursor < s.len() ==> cont.contains(s[cursor])
}

pub proof fn lemma_cursor_top(s: Seq<CandidateId>, cont: Set<CandidateId>, cursor: int)
    requires
        cursor_ok(s, cont, cursor),
    ensures
        top_choice(s, cont) == if cursor < s.len() {
            Allocatee::Candidate(s[cursor])
        } else {
            Allocatee::Exhausted
        },
    decreases s.len(),
{
    if s.len() > 0 && cursor > 0 {
        assert(!cont.contains(s[0]));
        assert forall|k: int| 0 <= k < cursor - 1 implies !cont.contains(#[trigger] s.drop_first()[k]) by {
            assert(s.drop_first()[k] == s[k + 1]);
        }
        lemma_cursor_top(s.drop_first(), cont, cursor - 1);
    }
}

/// A candidate keeps every ballot it held when others leave.
pub proof fn lemma_top_kept(s: Seq<CandidateId>, big: Set<CandidateId>, small: Set<CandidateId>, c: CandidateId)
    requires
        small.subset_of(big),
        small.contains(c),
        top_choice(s, big) == Allocatee::Candidate(c),
    ensures
        top_choice(s, small) == Allocatee::Candidate(c),
    decreases s.len(),
{
    if s.len() > 0 && !big.contains(s[0]) {
        lemma_top_kept(s.drop_first(), big, small, c);
    }
}

pub proof fn lemma_top_in(s: Seq<CandidateId>, cont: Set<CandidateId>)
    ensures
        top_choice(s, cont) matches Allocatee::Candidate(c) ==> cont.contains(c) && s.contains(c),
    decreases s.len(),
{
    if s.len() > 0 && !cont.contains(s[0]) {
        lemma_top_in(s.drop_first(), cont);
        if let Allocatee::Candidate(c) = top_choice(s, cont) {
            let k = choose|k: int| 0 <= k < s.drop_first().len() && s.drop_first()[k] == c;
            assert(s[k + 1] == c);
        }
    } else if s.len() > 0 {
        assert(s[0] == s[0]);
    }
}

/// A vector of `n` zeros.
fn zeros(n: usize) -> (r: Vec<u32>)
    ensures
        r@.len() == n,
        forall|i: int| 0 <= i < n ==> r@[i] == 0,
{
    let mut r: Vec<u32> = Vec::new();
    let mut i: usize = 0;
    while i < n
        invariant
            i <= n,
            r@.len() == i,
            forall|k: int| 0 <= k < i ==> r@[k] == 0,
        decreases n - i,
    {
        r.push(0);
        i = i + 1;
    }
    r
}

/// Inserts `c` into the strictly increasing `v` unless it is there already.
pub(crate) fn insert_sorted(v: &mut Vec<CandidateId>, c: CandidateId)
    requires
        strictly_increasing(old(v)@),
    ensures
        strictly_increasing(final(v)@),
        final(v)@.to_set() == old(v)@.to_set().insert(c),
{
    let mut i: usize = 0;
    while i < v.len() && v[i] < c
        invariant
            i <= v@.len(),
            forall|k: int| 0 <= k < i ==> v@[k] < c,
        decreases v@.len() - i,
    {
        i = i + 1;
    }
    if i < v.len() && v[i] == c {
        assert(old(v)@.to_set().insert(c) =~= old(v)@.to_set());
        return;
    }
    let ghost pre = v@;
    v.insert(i, c);
    assert forall|x: CandidateId| #[trigger] v@.to_set().contains(x) <==> pre.to_set().insert(c).contains(x) by {
        if pre.contains(x) {
            let k = choose|k: int| 0 <= k < pre.len() && pre[k] == x;
            if k < i {
                assert(v@[k] == x);
            } else {
                assert(v@[k + 1] == x);
            }
        }
        if v@.contains(x) {
            let k = choose|k: int| 0 <= k < v@.len() && v@[k] == x;
            if k < i {
                assert(pre[k] == x);
            } else if k > i {
                assert(pre[k - 1] == x);
            }
        }
        assert(v@[i as int] == c);
    }
    assert(v@.to_set() =~= pre.to_set().insert(c));
}

/// The candidates ranked on some ballot, in increasing order.
pub(crate) fn ranked_candidates(ballots: &[NormalizedBallot]) -> (r: Vec<CandidateId>)
    ensures
        strictly_increasing(r@),
        r@.to_set() == ranked_set(rankings(ballots@)),
{
    let ghost rs = rankings(ballots@);
    let mut r: Vec<CandidateId> = Vec::new();
    let mut b: usize = 0;
    while b < ballots.len()
        invariant
            b <= ballots@.len(),
            rs == rankings(ballots@),
            strictly_increasing(r@),
            r@.to_set() == ranked_set(rs.take(b as int)),
        decreases ballots@.len() - b,
    {
        let choices = &ballots[b].choices;
        let ghost before = r@.to_set();
        let mut k: usize = 0;
        while k < choices.len()
            invariant
                k <= choices@.len(),
                strictly_increasing(r@),
                r@.to_set() == before.union(choices@.subrange(0, k as int).to_set()),
            decreases choices@.len() - k,
        {
            insert_sorted(&mut r, choices[k]);
            proof {
                let ghost a = choices@.subrange(0, k + 1);
                let ghost a0 = choices@.subrange(0, k as int);
                assert forall|x: CandidateId| a.to_set().contains(x) <==> #[trigger] a0.to_set().insert(choices@[k as int]).contains(x) by {
                    if a.contains(x) {
                        let j = choose|j: int| 0 <= j < k + 1 && #[trigger] a[j] == x;
                        if j < k {
                            assert(a0[j] == x);
                        }
                    }
                    if a0.contains(x) {
                        let j = choose|j: int| 0 <= j < k && #[trigger] a0[j] == x;
                        assert(a[j] == x);
                    }
                    assert(a[k as int] == choices@[k as int]);
                }
                assert(a.to_set() =~= a0.to_set().insert(choices@[k as int]));
                assert(r@.to_set() =~= before.union(choices@.subrange(0, k + 1).to_set()));
            }
            k = k + 1;
        }
        proof {
            assert(choices@.subrange(0, k as int) =~= choices@);
            assert(rs.take(b + 1).last() == choices@);
            assert forall|x: CandidateId| #[trigger] ranked_set(rs.take(b + 1)).contains(x)
                <==> ranked_set(rs.take(b as int)).union(choices@.to_set()).contains(x) by {
                if ranked_set(rs.take(b + 1)).contains(x) {
                    let j = choose|j: int| 0 <= j < b + 1 && #[trigger] rs.take(b + 1)[j].contains(x);
                    if j < b {
                        assert(rs.take(b as int)[j] == rs.take(b + 1)[j]);
                        assert(ranked_set(rs.take(b as int)).contains(x));
                    }
                }
                if ranked_set(rs.take(b as int)).contains(x) {
                    let j = choose|j: int| 0 <= j < b && #[trigger] rs.take(b as int)[j].contains(x);
                    assert(rs.take(b + 1)[j] == rs.take(b as int)[j]);
                }
                if choices@.to_set().contains(x) {
                    assert(rs.take(b + 1)[b as int].contains(x));
                }
            }
            assert(ranked_set(rs.take(b + 1)) =~= ranked_set(rs.take(b as int)).union(choices@.to_set()));
        }
        b = b + 1;
    }
    assert(rs.take(ballots@.len() as int) =~= rs);
    r
}

/// Sum of a sequence of counts.
pub open spec fn count_sum(s: Seq<u32>) -> int
    decreases s.len(),
{
    if s.len() == 0 {
        0
    } else {
        count_sum(s.drop_last()) + s.last()
    }
}

proof fn lemma_count_sum_bump(s: Seq<u32>, p: int)
    requires
        0 <= p < s.len(),
        s[p] < u32::MAX,
    ensures
        count_sum(s.update(p, (s[p] + 1) as u32)) == count_sum(s) + 1,
    decreases s.len(),
{
    let t = s.update(p, (s[p] + 1) as u32);
    if p < s.len() - 1 {
        assert(t.drop_last() =~= s.drop_last().update(p, (s[p] + 1) as u32));
        lemma_count_sum_bump(s.drop_last(), p);
    } else {
        assert(t.drop_last() =~= s.drop_last());
    }
}

proof fn lemma_increasing_index(s: Seq<CandidateId>, p: int)
    requires
        strictly_increasing(s),
        0 <= p < s.len(),
    ensures
        index_of(s, s[p]) == p,
{
    lemma_index_of_bounds(s, s[p]);
    let q = index_of(s, s[p]);
    if q < p {
        assert(s[q] < s[p]);
    }
}

/// Whether `c` is among the candidates that the positions set in `active` stand for.
fn is_active(cands: &Vec<CandidateId>, active: &Vec<bool>, c: CandidateId) -> (r: bool)
    requires
        cands@.len() == active@.len(),
    ensures
        r == active_set(cands@, active@).contains(c),
{
    let p = position_of(cands.as_slice(), c);
    p < cands.len() && active[p]
}

/// Moves `cursor` forward past the candidates that no longer remain.
fn advance(s: &Vec<CandidateId>, cursor: usize, cands: &Vec<CandidateId>, active: &Vec<bool>) -> (r: usize)
    requires
        cands@.len() == active@.len(),
        cursor <= s@.len(),
        forall|k: int| 0 <= k < cursor ==> !active_set(cands@, active@).contains(#[trigger] s@[k]),
    ensures
        cursor <= r,
        cursor_ok(s@, active_set(cands@, active@), r as int),
{
    let mut i = cursor;
    while i < s.len() && !is_active(cands, active, s[i])
        invariant
            cursor <= i <= s@.len(),
            cands@.len() == active@.len(),
            forall|k: int| 0 <= k < i ==> !active_set(cands@, active@).contains(#[trigger] s@[k]),
        decreases s@.len() - i,
    {
        i = i + 1;
    }
    i
}

/// The votes of each candidate of `cands` and the exhausted ballots, with the ballots
/// standing where `cursors` point.
fn count_round(
    ballots: &[NormalizedBallot],
    cursors: &Vec<usize>,
    cands: &Vec<CandidateId>,
    active: &Vec<bool>,
) -> (r: (Vec<u32>, u32))
    requires
        ballots@.len() <= u32::MAX,
        cursors@.len() == ballots@.len(),
        cands@.len() == active@.len(),
        strictly_increasing(cands@),
        forall|b: int| 0 <= b < ballots@.len()
            ==> cursor_ok(#[trigger] ballots@[b].choices@, active_set(cands@, active@), cursors@[b] as int),
    ensures
        r.0@.len() == cands@.len(),
        forall|p: int| 0 <= p < cands@.len()
            ==> #[trigger] r.0@[p] == tally(rankings(ballots@), active_set(cands@, active@), cands@[p]),
        r.1 == exhausted(rankings(ballots@), active_set(cands@, active@)),
        count_sum(r.0@) + r.1 == ballots@.len(),
{
    let ghost rs = rankings(ballots@);
    let ghost cont = active_set(cands@, active@);
    let n = cands.len();
    let mut votes = zeros(n);
    let mut exh: u32 = 0;
    proof {
        lemma_zero_sum(votes@);
    }
    let mut b: usize = 0;
    while b < ballots.len()
        invariant
            b <= ballots@.len(),
            ballots@.len() <= u32::MAX,
            rs == rankings(ballots@),
            cont == active_set(cands@, active@),
            cursors@.len() == ballots@.len(),
            cands@.len() == active@.len(),
            n == cands@.len(),
            strictly_increasing(cands@),
            forall|b: int| 0 <= b < ballots@.len()
                ==> cursor_ok(#[trigger] ballots@[b].choices@, cont, cursors@[b] as int),
            votes@.len() == n,
            forall|p: int| 0 <= p < n ==> #[trigger] votes@[p] == tally(rs.take(b as int), cont, cands@[p]),
            exh == exhausted(rs.take(b as int), cont),
            count_sum(votes@) + exh == b,
        decreases ballots@.len() - b,
    {
        let ghost pre = rs.take(b as int);
        let ghost post = rs.take(b + 1);
        let choices = &ballots[b].choices;
        let ghost s = choices@;
        assert(post.drop_last() =~= pre);
        assert(post.last() == s);
        let cur = cursors[b];
        proof {
            lemma_cursor_top(s, cont, cur as int);
        }
        if cur < choices.len() {
            let c = choices[cur];
            let p = position_of(cands.as_slice(), c);
            proof {
                lemma_index_of_bounds(cands@, c);
                lemma_count_where_le(pre, |s: Seq<CandidateId>| top_choice(s, cont) == Allocatee::Candidate(c));
                assert forall|q: int| 0 <= q < n && q != p implies cands@[q] != c by {
                    lemma_increasing_index(cands@, q);
                }
                lemma_count_sum_bump(votes@, p as int);
            }
            let v = votes[p];
            votes.set(p, v + 1);
        } else {
            proof {
                lemma_count_where_le(pre, |s: Seq<CandidateId>| top_choice(s, cont) == Allocatee::Exhausted);
            }
            exh = exh + 1;
        }
        b = b + 1;
    }
    assert(rs.take(ballots@.len() as int) =~= rs);
    (votes, exh)
}

proof fn lemma_zero_sum(s: Seq<u32>)
    requires
        forall|i: int| 0 <= i < s.len() ==> s[i] == 0,
    ensures
        count_sum(s) == 0,
    decreases s.len(),
{
    if s.len() > 0 {
        lemma_zero_sum(s.drop_last());
    }
}

/// The candidate an allocation names (zero for the exhausted one).
pub open spec fn alloc_id(a: TabulatorAllocation) -> CandidateId {
    match a.allocatee {
        Allocatee::Candidate(c) => c,
        Allocatee::Exhausted => 0,
    }
}

/// A fixed pseudo-random rank for a candidate: a multiplicative hash of its id.
pub open spec fn stable_hash(c: CandidateId) -> int {
    ((c as int) * 2654435761) % 4294967296
}

/// The tie-break rank of `c`, lower first: its place in the configured permutation if one is
/// given (those absent from it after all that are present), else its hash under the hash mode,
/// else none; candidates of equal rank go by increasing id.
pub open spec fn tie_key(opts: TabulationOptions, c: CandidateId) -> int {
    match opts.candidate_permutation {
        Some(p) => index_of(p@, c),
        None => if opts.tie_break_mode == TieBreakMode::RandomStableHash {
            stable_hash(c)
        } else {
            0
        },
    }
}

/// `a` comes before `b` in a round: more votes, or as many and a better tie-break rank.
pub open spec fn outranks(opts: TabulationOptions, a: TabulatorAllocation, b: TabulatorAllocation) -> bool {
    let (ka, kb) = (tie_key(opts, alloc_id(a)), tie_key(opts, alloc_id(b)));
    a.votes > b.votes || (a.votes == b.votes && (ka < kb || (ka == kb && alloc_id(a) < alloc_id(b))))
}

/// Sum of the votes of a sequence of allocations.
pub open spec fn vote_sum(s: Seq<TabulatorAllocation>) -> int
    decreases s.len(),
{
    if s.len() == 0 {
        0
    } else {
        vote_sum(s.drop_last()) + s.last().votes
    }
}

proof fn lemma_vote_sum_insert(s: Seq<TabulatorAllocation>, i: int, e: TabulatorAllocation)
    requires
        0 <= i <= s.len(),
    ensures
        vote_sum(s.insert(i, e)) == vote_sum(s) + e.votes,
    decreases s.len(),
{
    if i < s.len() {
        assert(s.insert(i, e).drop_last() =~= s.drop_last().insert(i, e));
        lemma_vote_sum_insert(s.drop_last(), i, e);
    } else {
        assert(s.insert(i, e) =~= s.push(e));
        assert(s.push(e).drop_last() =~= s);
    }
}

/// The tie-break rank of `c`, computed.
fn tie_key_of(options: &TabulationOptions, c: CandidateId) -> (r: u64)
    ensures
        r as int == tie_key(*options, c),
{
    match &options.candidate_permutation {
        Some(p) => {
            let k = position_of(p.as_slice(), c);
            k as u64
        },
        None => {
            if options.tie_break_mode == TieBreakMode::RandomStableHash {
                ((c as u64) * 2654435761u64) % 4294967296u64
            } else {
                0
            }
        },
    }
}

/// `e` is the allocation of an active candidate of `cands` with its votes.
pub open spec fn entry_of(e: TabulatorAllocation, cands: Seq<CandidateId>, active: Seq<bool>, votes: Seq<u32>) -> bool {
    exists|p: int| 0 <= p < cands.len() && active[p] && e.allocatee == Allocatee::Candidate(cands[p]) && e.votes == votes[p]
}

#[verifier::rlimit(100)]
/// The allocations of a round: the active candidates with their votes, best first, then the
/// exhausted ballots when there are any.
fn build_allocations(
    cands: &Vec<CandidateId>,
    active: &Vec<bool>,
    votes: &Vec<u32>,
    exh: u32,
    options: &TabulationOptions,
) -> (r: Vec<TabulatorAllocation>)
    requires
        cands@.len() == active@.len(),
        votes@.len() == cands@.len(),
        strictly_increasing(cands@),
        forall|p: int| 0 <= p < cands@.len() && !active@[p] ==> votes@[p] == 0,
    ensures
        ({
            let k = r@.len() - if exh > 0 { 1int } else { 0int };
            &&& k >= 0
            &&& exh > 0 ==> r@[k] == TabulatorAllocation { allocatee: Allocatee::Exhausted, votes: exh }
            &&& forall|i: int| 0 <= i < k ==> entry_of(#[trigger] r@[i], cands@, active@, votes@)
            &&& forall|p: int| 0 <= p < cands@.len() && active@[p]
                ==> exists|i: int| 0 <= i < k && (#[trigger] r@[i]).allocatee == Allocatee::Candidate(cands@[p])
            &&& forall|i: int, j: int| 0 <= i < j < k ==> outranks(*options, #[trigger] r@[i], #[trigger] r@[j])
            &&& vote_sum(r@.take(k)) == count_sum(votes@)
        }),
{
    let n = cands.len();
    let mut list: Vec<TabulatorAllocation> = Vec::new();
    let mut keys: Vec<u64> = Vec::new();
    let mut p: usize = 0;
    while p < n
        invariant
            p <= n,
            n == cands@.len(),
            cands@.len() == active@.len(),
            votes@.len() == n,
            strictly_increasing(cands@),
            forall|q: int| 0 <= q < n && !active@[q] ==> votes@[q] == 0,
            keys@.len() == list@.len(),
            forall|i: int| 0 <= i < list@.len() ==> #[trigger] keys@[i] as int == tie_key(*options, alloc_id(list@[i])),
            forall|i: int| 0 <= i < list@.len() ==> entry_of(#[trigger] list@[i], cands@, active@, votes@),
            forall|i: int| 0 <= i < list@.len()
                ==> exists|q: int| 0 <= q < p && (#[trigger] list@[i]).allocatee == Allocatee::Candidate(cands@[q]),
            forall|q: int| 0 <= q < p && active@[q]
                ==> exists|i: int| 0 <= i < list@.len() && (#[trigger] list@[i]).allocatee == Allocatee::Candidate(cands@[q]),
            forall|i: int, j: int| 0 <= i < j < list@.len() ==> outranks(*options, #[trigger] list@[i], #[trigger] list@[j]),
            vote_sum(list@) == count_sum(votes@.take(p as int)),
        decreases n - p,
    {
        assert(votes@.take(p + 1).drop_last() =~= votes@.take(p as int));
        if active[p] {
            let cp = cands[p];
            let e = TabulatorAllocation { allocatee: Allocatee::Candidate(cp), votes: votes[p] };
            let ke = tie_key_of(options, cp);
            let ghost pre = list@;
            proof {
                assert forall|j: int| 0 <= j < pre.len() implies alloc_id(#[trigger] pre[j]) != alloc_id(e) by {
                    let q = choose|q: int| 0 <= q < p && pre[j].allocatee == Allocatee::Candidate(cands@[q]);
                    assert(cands@[q] < cands@[p as int]);
                }
            }
            let i = insert_entry(&mut list, &mut keys, e, ke, options);
            proof {
                lemma_vote_sum_insert(pre, i as int, e);
                lemma_insert_keeps(pre, list@, i as int, e, cands@, active@, votes@, p as int);
            }
        }
        p = p + 1;
    }
    assert(votes@.take(n as int) =~= votes@);
    let ghost cand_part = list@;
    if exh > 0 {
        list.push(TabulatorAllocation { allocatee: Allocatee::Exhausted, votes: exh });
        assert(list@.take(cand_part.len() as int) =~= cand_part);
    } else {
        assert(list@.take(cand_part.len() as int) =~= cand_part);
    }
    list
}

proof fn lemma_insert_keeps(
    pre: Seq<TabulatorAllocation>,
    list: Seq<TabulatorAllocation>,
    i: int,
    e: TabulatorAllocation,
    cands: Seq<CandidateId>,
    active: Seq<bool>,
    votes: Seq<u32>,
    p: int,
)
    requires
        0 <= i <= pre.len(),
        list == pre.insert(i, e),
        0 <= p < cands.len(),
        active.len() == cands.len(),
        votes.len() == cands.len(),
        active[p],
        e == (TabulatorAllocation { allocatee: Allocatee::Candidate(cands[p]), votes: votes[p] }),
        forall|j: int| 0 <= j < pre.len() ==> entry_of(#[trigger] pre[j], cands, active, votes),
        forall|j: int| 0 <= j < pre.len()
            ==> exists|q: int| 0 <= q < p && (#[trigger] pre[j]).allocatee == Allocatee::Candidate(cands[q]),
        forall|q: int| 0 <= q < p && active[q]
            ==> exists|j: int| 0 <= j < pre.len() && (#[trigger] pre[j]).allocatee == Allocatee::Candidate(cands[q]),
    ensures
        forall|j: int| 0 <= j < list.len() ==> entry_of(#[trigger] list[j], cands, active, votes),
        forall|j: int| 0 <= j < list.len()
            ==> exists|q: int| 0 <= q < p + 1 && (#[trigger] list[j]).allocatee == Allocatee::Candidate(cands[q]),
        forall|q: int| 0 <= q < p + 1 && active[q]
            ==> exists|j: int| 0 <= j < list.len() && (#[trigger] list[j]).allocatee == Allocatee::Candidate(cands[q]),
{
    assert forall|j: int| 0 <= j < list.len() implies entry_of(#[trigger] list[j], cands, active, votes) by {
        if j < i {
            assert(list[j] == pre[j]);
        } else if j > i {
            assert(list[j] == pre[j - 1]);
        } else {
            assert(list[j] == e);
        }
    }
    assert forall|j: int| 0 <= j < list.len()
        implies exists|q: int| 0 <= q < p + 1 && (#[trigger] list[j]).allocatee == Allocatee::Candidate(cands[q]) by {
        if j < i {
            assert(list[j] == pre[j]);
            let q = choose|q: int| 0 <= q < p && pre[j].allocatee == Allocatee::Candidate(cands[q]);
        } else if j > i {
            assert(list[j] == pre[j - 1]);
            let q = choose|q: int| 0 <= q < p && pre[j - 1].allocatee == Allocatee::Candidate(cands[q]);
        } else {
            assert(list[j] == e);
        }
    }
    assert forall|q: int| 0 <= q < p + 1 && active[q]
        implies exists|j: int| 0 <= j < list.len() && (#[trigger] list[j]).allocatee == Allocatee::Candidate(cands[q]) by {
        if q == p {
            assert(list[i] == e);
        } else {
            let j = choose|j: int| 0 <= j < pre.len() && (#[trigger] pre[j]).allocatee == Allocatee::Candidate(cands[q]);
            if j < i {
                assert(list[j] == pre[j]);
            } else {
                assert(list[j + 1] == pre[j]);
            }
        }
    }
}

/// Inserts `e` into the ranked `list` where it belongs; returns its index.
fn insert_entry(
    list: &mut Vec<TabulatorAllocation>,
    keys: &mut Vec<u64>,
    e: TabulatorAllocation,
    ke: u64,
    options: &TabulationOptions,
) -> (i: usize)
    requires
        old(keys)@.len() == old(list)@.len(),
        forall|j: int| 0 <= j < old(list)@.len() ==> #[trigger] old(keys)@[j] as int == tie_key(*options, alloc_id(old(list)@[j])),
        ke as int == tie_key(*options, alloc_id(e)),
        forall|j: int| 0 <= j < old(list)@.len() ==> alloc_id(#[trigger] old(list)@[j]) != alloc_id(e),
        forall|a: int, b: int| 0 <= a < b < old(list)@.len() ==> outranks(*options, #[trigger] old(list)@[a], #[trigger] old(list)@[b]),
    ensures
        i <= old(list)@.len(),
        final(list)@ == old(list)@.insert(i as int, e),
        final(keys)@ == old(keys)@.insert(i as int, ke),
        forall|j: int| 0 <= j < final(list)@.len() ==> #[trigger] final(keys)@[j] as int == tie_key(*options, alloc_id(final(list)@[j])),
        forall|a: int, b: int| 0 <= a < b < final(list)@.len() ==> outranks(*options, #[trigger] final(list)@[a], #[trigger] final(list)@[b]),
{
    let ce = alloc_id_exec(&e);
    let mut i: usize = 0;
    while i < list.len() && !(e.votes > list[i].votes || (e.votes == list[i].votes && (ke < keys[i]
        || (ke == keys[i] && ce < alloc_id_exec(&list[i])))))
        invariant
            i <= list@.len(),
            keys@.len() == list@.len(),
            forall|j: int| 0 <= j < list@.len() ==> #[trigger] keys@[j] as int == tie_key(*options, alloc_id(list@[j])),
            ke as int == tie_key(*options, alloc_id(e)),
            ce == alloc_id(e),
            forall|j: int| 0 <= j < i ==> !outranks(*options, e, #[trigger] list@[j]),
        decreases list@.len() - i,
    {
        i = i + 1;
    }
    let ghost pre = list@;
    list.insert(i, e);
    keys.insert(i, ke);
    proof {
        assert forall|a: int, b: int| 0 <= a < b < list@.len() implies outranks(*options, #[trigger] list@[a], #[trigger] list@[b]) by {
            if a < i && b == i {
                assert(!outranks(*options, e, pre[a]));
                assert(alloc_id(pre[a]) != alloc_id(e));
            } else if a == i && b > i {
                if b - 1 > i {
                    assert(outranks(*options, pre[i as int], pre[b - 1]));
                }
            } else if a < i && b > i {
                assert(outranks(*options, pre[a], pre[b - 1]));
            } else if a > i {
                assert(outranks(*options, pre[a - 1], pre[b - 1]));
            }
        }
        assert forall|j: int| 0 <= j < list@.len() implies #[trigger] keys@[j] as int == tie_key(*options, alloc_id(list@[j])) by {
            if j < i {
                assert(list@[j] == pre[j]);
            } else if j > i {
                assert(list@[j] == pre[j - 1]);
            }
        }
    }
    i
}

fn alloc_id_exec(a: &TabulatorAllocation) -> (r: CandidateId)
    ensures
        r == alloc_id(*a),
{
    match a.allocatee {
        Allocatee::Candidate(c) => c,
        Allocatee::Exhausted => 0,
    }
}

/// The candidate allocations of a round: all but a trailing exhausted one.
pub open spec fn candidate_part(a: Seq<TabulatorAllocation>) -> Seq<TabulatorAllocation> {
    if a.len() > 0 && a.last().allocatee == Allocatee::Exhausted {
        a.drop_last()
    } else {
        a
    }
}

/// The tabulation stops after a round with these candidate allocations: one candidate is
/// left, or under a majority threshold the leader holds more than half of the continuing
/// ballots, or under a final-two threshold at most two candidates are left.
pub open spec fn is_terminal(opts: TabulationOptions, cp: Seq<TabulatorAllocation>, continuing: int) -> bool {
    ||| cp.len() <= 1
    ||| (opts.winning_threshold == WinningThreshold::Majority && 2 * cp[0].votes > continuing)
    ||| (opts.winning_threshold == WinningThreshold::PluralityFinalTwo && cp.len() <= 2)
}

/// Votes of the last `k` allocations of `v`.
pub open spec fn trailing_sum(v: Seq<TabulatorAllocation>, k: int) -> int {
    vote_sum(v.subrange(v.len() - k, v.len() as int))
}

/// The last `k` allocations of `v` together hold fewer votes than the one before them.
pub open spec fn batch_fits(v: Seq<TabulatorAllocation>, k: int) -> bool {
    1 <= k < v.len() && trailing_sum(v, k) < v[v.len() - k - 1].votes
}

/// The largest `k` up to `upto` for which `batch_fits`, or one when there is none.
pub open spec fn largest_batch(v: Seq<TabulatorAllocation>, upto: int) -> int
    decreases upto,
{
    if upto < 1 {
        1
    } else if batch_fits(v, upto) {
        upto
    } else {
        largest_batch(v, upto - 1)
    }
}

/// How many of the trailing candidates of a round are eliminated.
pub open spec fn elimination_count(cp: Seq<TabulatorAllocation>, batch: bool) -> int {
    if batch {
        largest_batch(cp, cp.len() - 1)
    } else {
        1
    }
}

/// The candidates eliminated after a round with these candidate allocations.
pub open spec fn losers(opts: TabulationOptions, cp: Seq<TabulatorAllocation>) -> Set<CandidateId> {
    Set::new(|c: CandidateId| exists|i: int|
        cp.len() - elimination_count(cp, opts.batch_elimination) <= i < cp.len()
            && #[trigger] cp[i].allocatee == Allocatee::Candidate(c))
}

proof fn lemma_largest_batch_range(v: Seq<TabulatorAllocation>, upto: int)
    requires
        upto < v.len(),
    ensures
        1 <= largest_batch(v, upto) <= if upto < 1 { 1 } else { upto },
    decreases upto,
{
    if upto >= 1 && !batch_fits(v, upto) {
        lemma_largest_batch_range(v, upto - 1);
    }
}

proof fn lemma_vote_sum_split(s: Seq<TabulatorAllocation>, j: int)
    requires
        0 <= j <= s.len(),
    ensures
        vote_sum(s) == vote_sum(s.subrange(0, j)) + vote_sum(s.subrange(j, s.len() as int)),
        vote_sum(s.subrange(0, j)) >= 0,
        vote_sum(s.subrange(j, s.len() as int)) >= 0,
    decreases s.len(),
{
    if s.len() > 0 {
        if j < s.len() {
            assert(s.subrange(j, s.len() as int).drop_last() =~= s.drop_last().subrange(j, s.len() - 1));
            assert(s.subrange(0, j) =~= s.drop_last().subrange(0, j));
            lemma_vote_sum_split(s.drop_last(), j);
        } else {
            assert(s.subrange(0, j) =~= s);
            assert(s.subrange(j, s.len() as int) =~= Seq::<TabulatorAllocation>::empty());
            lemma_vote_sum_nonneg(s);
        }
    } else {
        assert(s.subrange(0, j) =~= s);
        assert(s.subrange(j, s.len() as int) =~= s);
    }
}

proof fn lemma_vote_sum_nonneg(s: Seq<TabulatorAllocation>)
    ensures
        vote_sum(s) >= 0,
    decreases s.len(),
{
    if s.len() > 0 {
        lemma_vote_sum_nonneg(s.drop_last());
    }
}

/// How many of the trailing `k` candidate allocations to eliminate.
fn eliminate_count(alloc: &Vec<TabulatorAllocation>, k: usize, batch: bool) -> (r: usize)
    requires
        2 <= k <= alloc@.len(),
        vote_sum(alloc@.take(k as int)) <= u32::MAX,
    ensures
        r as int == elimination_count(alloc@.take(k as int), batch),
        1 <= r < k,
{
    let ghost cp = alloc@.take(k as int);
    proof {
        lemma_largest_batch_range(cp, k - 1);
    }
    if !batch {
        return 1;
    }
    let mut best: usize = 1;
    let mut running: u64 = 0;
    let mut j: usize = 1;
    proof {
        assert(cp.subrange(k as int, k as int) =~= Seq::<TabulatorAllocation>::empty());
        assert(largest_batch(cp, 0) == 1);
    }
    // `running` holds the votes of the last `j - 1` candidate allocations.
    while j < k
        invariant
            1 <= j <= k,
            k <= alloc@.len(),
            cp == alloc@.take(k as int),
            vote_sum(cp) <= u32::MAX,
            running as int == trailing_sum(cp, j - 1),
            best as int == largest_batch(cp, j - 1),
        decreases k - j,
    {
        let v = alloc[k - j].votes;
        proof {
            lemma_vote_sum_split(cp, k - j);
            let t = cp.subrange(k - j, k as int);
            assert(t.drop_first() =~= cp.subrange(k - j + 1, k as int));
            lemma_vote_sum_first(t);
        }
        running = running + v as u64;
        if running < alloc[k - j - 1].votes as u64 {
            best = j;
        }
        j = j + 1;
    }
    best
}

proof fn lemma_vote_sum_first(t: Seq<TabulatorAllocation>)
    requires
        t.len() > 0,
    ensures
        vote_sum(t) == t[0].votes + vote_sum(t.drop_first()),
    decreases t.len(),
{
    if t.len() > 1 {
        assert(t.drop_last().drop_first() =~= t.drop_first().drop_last());
        lemma_vote_sum_first(t.drop_last());
    } else {
        assert(t.drop_first() =~= Seq::<TabulatorAllocation>::empty());
        assert(t.drop_last() =~= Seq::<TabulatorAllocation>::empty());
    }
}

/// Number of ballots that sat with `from` while the candidates in `before` remained, that
/// `from` lost when only those in `after` remained, and that went to `to`.
pub open spec fn transfer_count(
    rs: Seq<Seq<CandidateId>>,
    before: Set<CandidateId>,
    after: Set<CandidateId>,
    from: CandidateId,
    to: Allocatee,
) -> nat {
    count_where(
        rs,
        |s: Seq<CandidateId>|
            top_choice(s, before) == Allocatee::Candidate(from) && !after.contains(from) && top_choice(s, after) == to,
    )
}

/// Sort key of a transfer's destination: candidates by id, exhaustion last.
pub open spec fn to_key(a: Allocatee) -> int {
    match a {
        Allocatee::Candidate(c) => c as int,
        Allocatee::Exhausted => u32::MAX + 1,
    }
}

pub open spec fn transfer_before(a: Transfer, b: Transfer) -> bool {
    a.from < b.from || (a.from == b.from && to_key(a.to) < to_key(b.to))
}

/// `ts` lists, once each and ordered by source then destination, every pair with a positive
/// count of ballots moving between the two sets of remaining candidates.
pub open spec fn transfers_fit(ts: Seq<Transfer>, rs: Seq<Seq<CandidateId>>, before: Set<CandidateId>, after: Set<CandidateId>) -> bool {
    &&& forall|i: int| 0 <= i < ts.len()
        ==> (#[trigger] ts[i]).count == transfer_count(rs, before, after, ts[i].from, ts[i].to) && ts[i].count > 0
    &&& forall|i: int, j: int| 0 <= i < j < ts.len() ==> transfer_before(#[trigger] ts[i], #[trigger] ts[j])
    &&& forall|f: CandidateId, t: Allocatee| #[trigger] transfer_count(rs, before, after, f, t) > 0
        ==> exists|i: int| 0 <= i < ts.len() && (#[trigger] ts[i]).from == f && ts[i].to == t
}

/// The destination at position `q` of a transfer matrix over `cands`.
pub open spec fn axis_at(cands: Seq<CandidateId>, q: int) -> Allocatee {
    if q < cands.len() {
        Allocatee::Candidate(cands[q])
    } else {
        Allocatee::Exhausted
    }
}

/// Moves the ballots of eliminated candidates on, and lists the transfers.
fn transfer_step(
    ballots: &[NormalizedBallot],
    cursors: &mut Vec<usize>,
    cands: &Vec<CandidateId>,
    before: Ghost<Seq<bool>>,
    active: &Vec<bool>,
) -> (ts: Vec<Transfer>)
    requires
        ballots@.len() <= u32::MAX,
        old(cursors)@.len() == ballots@.len(),
        cands@.len() == active@.len(),
        before@.len() == active@.len(),
        strictly_increasing(cands@),
        forall|q: int| 0 <= q < active@.len() && #[trigger] active@[q] ==> before@[q],
        forall|b: int| 0 <= b < ballots@.len()
            ==> cursor_ok(#[trigger] ballots@[b].choices@, active_set(cands@, before@), old(cursors)@[b] as int),
    ensures
        final(cursors)@.len() == ballots@.len(),
        forall|b: int| 0 <= b < ballots@.len()
            ==> cursor_ok(#[trigger] ballots@[b].choices@, active_set(cands@, active@), final(cursors)@[b] as int),
        transfers_fit(ts@, rankings(ballots@), active_set(cands@, before@), active_set(cands@, active@)),
{
    let ghost rs = rankings(ballots@);
    let ghost bf = before@;
    let ghost old_set = active_set(cands@, before@);
    let ghost new_set = active_set(cands@, active@);
    proof {
        assert forall|c: CandidateId| new_set.contains(c) implies old_set.contains(c) by {
            let x = index_of(cands@, c);
            lemma_index_of_bounds(cands@, c);
            assert(x < cands@.len() && active@[x]);
            assert(bf[x]);
        }
    }
    let n = cands.len();
    let mut axis: Vec<Allocatee> = Vec::new();
    let mut k: usize = 0;
    while k < n
        invariant
            k <= n,
            n == cands@.len(),
            axis@.len() == k,
            forall|j: int| 0 <= j < k ==> #[trigger] axis@[j] == axis_at(cands@, j),
        decreases n - k,
    {
        axis.push(Allocatee::Candidate(cands[k]));
        k = k + 1;
    }
    axis.push(Allocatee::Exhausted);
    let nc = axis.len();
    let mut m = crate::seqs::zero_matrix(n, nc);
    let mut b: usize = 0;
    while b < ballots.len()
        invariant
            b <= ballots@.len(),
            ballots@.len() <= u32::MAX,
            rs == rankings(ballots@),
            old_set == active_set(cands@, before@),
            new_set == active_set(cands@, active@),
            new_set.subset_of(old_set),
            cursors@.len() == ballots@.len(),
            n == cands@.len(),
            nc == n + 1,
            cands@.len() == active@.len(),
            strictly_increasing(cands@),
            forall|k: int| 0 <= k < b ==> cursor_ok(#[trigger] ballots@[k].choices@, new_set, cursors@[k] as int),
            forall|k: int| b <= k < ballots@.len() ==> cursor_ok(#[trigger] ballots@[k].choices@, old_set, cursors@[k] as int),
            m@.len() == n,
            forall|i: int| 0 <= i < n ==> (#[trigger] m@[i])@.len() == nc,
            forall|i: int, j: int| 0 <= i < n && 0 <= j < nc
                ==> #[trigger] m@[i]@[j] == transfer_count(rs.take(b as int), old_set, new_set, cands@[i], axis_at(cands@, j)),
        decreases ballots@.len() - b,
    {
        let ghost pre = rs.take(b as int);
        let ghost post = rs.take(b + 1);
        let choices = &ballots[b].choices;
        let ghost s = choices@;
        assert(post.drop_last() =~= pre);
        assert(post.last() == s);
        let cur = cursors[b];
        proof {
            lemma_cursor_top(s, old_set, cur as int);
        }
        if cur < choices.len() && !is_active(cands, active, choices[cur]) {
            let c = choices[cur];
            let p = position_of(cands.as_slice(), c);
            let next = advance(choices, cur, cands, active);
            proof {
                lemma_cursor_top(s, new_set, next as int);
                lemma_index_of_bounds(cands@, c);
            }
            let q = if next < choices.len() { position_of(cands.as_slice(), choices[next]) } else { n };
            proof {
                if next < choices.len() {
                    lemma_index_of_bounds(cands@, choices@[next as int]);
                }
                assert(axis_at(cands@, q as int) == top_choice(s, new_set));
                assert forall|i: int, j: int| 0 <= i < n && 0 <= j < nc && (i != p || j != q)
                    implies transfer_count(post, old_set, new_set, cands@[i], axis_at(cands@, j))
                        == transfer_count(pre, old_set, new_set, cands@[i], axis_at(cands@, j)) by {
                    if i != p {
                        lemma_increasing_index(cands@, i);
                    }
                    if j != q && j < n {
                        lemma_increasing_index(cands@, j);
                        if q < n {
                            lemma_increasing_index(cands@, q as int);
                        }
                    }
                }
                let ghost f = cands@[p as int];
                let ghost t = axis_at(cands@, q as int);
                lemma_count_where_le(pre, |s: Seq<CandidateId>|
                    top_choice(s, old_set) == Allocatee::Candidate(f) && !new_set.contains(f) && top_choice(s, new_set) == t);
                assert(m@[p as int]@[q as int] == transfer_count(pre, old_set, new_set, f, t));
            }
            crate::seqs::bump(&mut m, p, q);
            cursors.set(b, next);
        } else {
            proof {
                if cur < choices.len() {
                    assert(new_set.contains(s[cur as int]));
                }
                assert forall|k: int| 0 <= k < cur implies !new_set.contains(#[trigger] s[k]) by {
                    assert(!old_set.contains(s[k]));
                }
                assert(cursor_ok(s, new_set, cur as int));
                lemma_cursor_top(s, new_set, cur as int);
            }
        }
        b = b + 1;
    }
    assert(rs.take(ballots@.len() as int) =~= rs);
    let mut ts: Vec<Transfer> = Vec::new();
    let mut i: usize = 0;
    while i < n
        invariant
            i <= n,
            n == cands@.len(),
            nc == n + 1,
            axis@.len() == nc,
            forall|j: int| 0 <= j < nc ==> #[trigger] axis@[j] == axis_at(cands@, j),
            strictly_increasing(cands@),
            m@.len() == n,
            forall|i: int| 0 <= i < n ==> (#[trigger] m@[i])@.len() == nc,
            forall|i: int, j: int| 0 <= i < n && 0 <= j < nc
                ==> #[trigger] m@[i]@[j] == transfer_count(rs, old_set, new_set, cands@[i], axis_at(cands@, j)),
            forall|k: int| 0 <= k < ts@.len()
                ==> (#[trigger] ts@[k]).count == transfer_count(rs, old_set, new_set, ts@[k].from, ts@[k].to) && ts@[k].count > 0,
            forall|k: int, l: int| 0 <= k < l < ts@.len() ==> transfer_before(#[trigger] ts@[k], #[trigger] ts@[l]),
            forall|k: int| 0 <= k < ts@.len() ==> (i < n ==> (#[trigger] ts@[k]).from < cands@[i as int]),
            forall|x: int, y: int| 0 <= x < i && 0 <= y < nc && #[trigger] m@[x]@[y] > 0
                ==> exists|k: int| 0 <= k < ts@.len() && (#[trigger] ts@[k]).from == cands@[x] && ts@[k].to == axis_at(cands@, y),
        decreases n - i,
    {
        let mut j: usize = 0;
        let ghost start = ts@.len();
        while j < nc
            invariant
                i < n,
                j <= nc,
                n == cands@.len(),
                nc == n + 1,
                axis@.len() == nc,
                forall|j: int| 0 <= j < nc ==> #[trigger] axis@[j] == axis_at(cands@, j),
                strictly_increasing(cands@),
                m@.len() == n,
                forall|i: int| 0 <= i < n ==> (#[trigger] m@[i])@.len() == nc,
                forall|i: int, j: int| 0 <= i < n && 0 <= j < nc
                    ==> #[trigger] m@[i]@[j] == transfer_count(rs, old_set, new_set, cands@[i], axis_at(cands@, j)),
                forall|k: int| 0 <= k < ts@.len()
                    ==> (#[trigger] ts@[k]).count == transfer_count(rs, old_set, new_set, ts@[k].from, ts@[k].to) && ts@[k].count > 0,
                forall|k: int, l: int| 0 <= k < l < ts@.len() ==> transfer_before(#[trigger] ts@[k], #[trigger] ts@[l]),
                start <= ts@.len(),
                forall|k: int| 0 <= k < start ==> (#[trigger] ts@[k]).from < cands@[i as int],
                forall|k: int| start <= k < ts@.len() ==> (#[trigger] ts@[k]).from == cands@[i as int]
                    && to_key(ts@[k].to) < (if j < n { cands@[j as int] as int } else if j == n { u32::MAX + 1 } else { u32::MAX + 2 }),
                forall|x: int, y: int| 0 <= x < i && 0 <= y < nc && #[trigger] m@[x]@[y] > 0
                    ==> exists|k: int| 0 <= k < ts@.len() && (#[trigger] ts@[k]).from == cands@[x] && ts@[k].to == axis_at(cands@, y),
                forall|y: int| 0 <= y < j && #[trigger] m@[i as int]@[y] > 0
                    ==> exists|k: int| 0 <= k < ts@.len() && (#[trigger] ts@[k]).from == cands@[i as int] && ts@[k].to == axis_at(cands@, y),
            decreases nc - j,
        {
            let count = m[i][j];
            if count > 0 {
                let to = axis[j];
                let ghost pre = ts@;
                ts.push(Transfer { from: cands[i], to, count });
                proof {
                    assert(ts@[pre.len() as int].to == axis_at(cands@, j as int));
                    assert forall|x: int, y: int| 0 <= x < i && 0 <= y < nc && #[trigger] m@[x]@[y] > 0
                        implies exists|k: int| 0 <= k < ts@.len() && (#[trigger] ts@[k]).from == cands@[x] && ts@[k].to == axis_at(cands@, y) by {
                        let k = choose|k: int| 0 <= k < pre.len() && (#[trigger] pre[k]).from == cands@[x] && pre[k].to == axis_at(cands@, y);
                        assert(ts@[k] == pre[k]);
                    }
                    assert forall|y: int| 0 <= y < j + 1 && #[trigger] m@[i as int]@[y] > 0
                        implies exists|k: int| 0 <= k < ts@.len() && (#[trigger] ts@[k]).from == cands@[i as int] && ts@[k].to == axis_at(cands@, y) by {
                        if y < j {
                            let k = choose|k: int| 0 <= k < pre.len() && (#[trigger] pre[k]).from == cands@[i as int] && pre[k].to == axis_at(cands@, y);
                            assert(ts@[k] == pre[k]);
                        } else {
                            assert(ts@[pre.len() as int].from == cands@[i as int]);
                        }
                    }
                    assert forall|k: int, l: int| 0 <= k < l < ts@.len() implies transfer_before(#[trigger] ts@[k], #[trigger] ts@[l]) by {
                        if l == pre.len() {
                            assert(ts@[k] == pre[k]);
                        }
                    }
                }
            }
            proof {
                if j + 1 < n {
                    assert(cands@[j as int] < cands@[j + 1]);
                }
            }
            j = j + 1;
        }
        proof {
            if i + 1 < n {
                assert(cands@[i as int] < cands@[i + 1]);
            }
        }
        i = i + 1;
    }
    proof {
        assert forall|f: CandidateId, t: Allocatee| #[trigger] transfer_count(rs, old_set, new_set, f, t) > 0
            implies exists|k: int| 0 <= k < ts@.len() && (#[trigger] ts@[k]).from == f && ts@[k].to == t by {
            lemma_transfer_positive(rs, old_set, new_set, f, t);
            lemma_index_of_bounds(cands@, f);
            let x = index_of(cands@, f);
            let y = match t {
                Allocatee::Candidate(c) => index_of(cands@, c),
                Allocatee::Exhausted => n as int,
            };
            if let Allocatee::Candidate(c) = t {
                lemma_index_of_bounds(cands@, c);
            }
            assert(axis_at(cands@, y) == t);
            assert(m@[x]@[y] > 0);
        }
    }
    ts
}

proof fn lemma_transfer_positive(
    rs: Seq<Seq<CandidateId>>,
    before: Set<CandidateId>,
    after: Set<CandidateId>,
    f: CandidateId,
    t: Allocatee,
)
    requires
        transfer_count(rs, before, after, f, t) > 0,
    ensures
        before.contains(f),
        t matches Allocatee::Candidate(c) ==> after.contains(c),
    decreases rs.len(),
{
    if rs.len() > 0 {
        let s = rs.last();
        if top_choice(s, before) == Allocatee::Candidate(f) && !after.contains(f) && top_choice(s, after) == t {
            lemma_top_in(s, before);
            lemma_top_in(s, after);
        } else {
            lemma_transfer_positive(rs.drop_last(), before, after, f, t);
        }
    }
}

/// The candidates that hold an allocation in a round.
pub open spec fn round_set(round: TabulatorRound) -> Set<CandidateId> {
    Set::new(|c: CandidateId| exists|i: int|
        0 <= i < round.allocations@.len() && #[trigger] round.allocations@[i].allocatee == Allocatee::Candidate(c))
}

/// `round` holds the allocations of the rankings `rs` when the candidates in `cont` remain:
/// each of them with its votes, ranked, then the exhausted ballots if there are any.
pub open spec fn round_fits(round: TabulatorRound, rs: Seq<Seq<CandidateId>>, opts: TabulationOptions, cont: Set<CandidateId>) -> bool {
    let exh = exhausted(rs, cont);
    let a = round.allocations@;
    let cp = candidate_part(a);
    &&& exh > 0 ==> a.len() > 0 && a.last() == (TabulatorAllocation { allocatee: Allocatee::Exhausted, votes: exh as u32 })
    &&& exh == 0 ==> cp == a
    &&& forall|i: int| 0 <= i < cp.len() ==> (#[trigger] cp[i]).allocatee is Candidate
        && cont.contains(alloc_id(cp[i])) && cp[i].votes == tally(rs, cont, alloc_id(cp[i]))
    &&& forall|c: CandidateId| #[trigger] cont.contains(c)
        ==> exists|i: int| 0 <= i < cp.len() && (#[trigger] cp[i]).allocatee == Allocatee::Candidate(c)
    &&& forall|i: int, j: int| 0 <= i < j < cp.len() ==> outranks(opts, #[trigger] cp[i], #[trigger] cp[j])
    &&& vote_sum(cp) + exh == rs.len()
    &&& round.continuing_ballots == rs.len() - exh
}

/// The candidate allocations of round `r`.
pub open spec fn round_candidates(rounds: Seq<TabulatorRound>, r: int) -> Seq<TabulatorAllocation> {
    candidate_part(rounds[r].allocations@)
}

/// `rounds` is the instant-runoff tabulation of the rankings `rs` under `opts`: it starts
/// with every ranked candidate, each round eliminates the losers of the one before and
/// records the transfers of their ballots, and only the last round is terminal.
pub open spec fn is_tabulation(rs: Seq<Seq<CandidateId>>, opts: TabulationOptions, rounds: Seq<TabulatorRound>) -> bool {
    &&& rounds.len() == 0 <==> forall|b: int| 0 <= b < rs.len() ==> (#[trigger] rs[b]).len() == 0
    &&& tabulation_prefix(rs, opts, rounds)
    &&& rounds.len() > 0 ==> is_terminal(opts, round_candidates(rounds, rounds.len() - 1), rounds.last().continuing_ballots as int)
}

/// Every round of `rounds` follows from the one before, as in a tabulation that may go on.
pub open spec fn tabulation_prefix(rs: Seq<Seq<CandidateId>>, opts: TabulationOptions, rounds: Seq<TabulatorRound>) -> bool {
    &&& forall|r: int| 0 <= r < rounds.len() ==> (#[trigger] rounds[r]).round_number == r + 1
        && round_fits(rounds[r], rs, opts, round_set(rounds[r]))
    &&& rounds.len() > 0 ==> round_set(rounds[0]) == ranked_set(rs) && rounds[0].transfers@.len() == 0
    &&& forall|r: int| 0 <= r < rounds.len() - 1 ==> {
        &&& !is_terminal(opts, round_candidates(rounds, r), (#[trigger] rounds[r]).continuing_ballots as int)
        &&& round_set(rounds[r + 1]) == round_set(rounds[r]).difference(losers(opts, round_candidates(rounds, r)))
        &&& transfers_fit(rounds[r + 1].transfers@, rs, round_set(rounds[r]), round_set(rounds[r + 1]))
    }
}

proof fn lemma_tally_outside(rs: Seq<Seq<CandidateId>>, cont: Set<CandidateId>, c: CandidateId)
    requires
        !cont.contains(c),
    ensures
        tally(rs, cont, c) == 0,
    decreases rs.len(),
{
    if rs.len() > 0 {
        lemma_top_in(rs.last(), cont);
        lemma_tally_outside(rs.drop_last(), cont, c);
    }
}

proof fn lemma_count_true_clear(s: Seq<bool>, p: int)
    requires
        0 <= p < s.len(),
    ensures
        crate::seqs::count_true(s.update(p, false)) == crate::seqs::count_true(s) - if s[p] { 1int } else { 0int },
    decreases s.len(),
{
    let t = s.update(p, false);
    if p < s.len() - 1 {
        assert(t.drop_last() =~= s.drop_last().update(p, false));
        lemma_count_true_clear(s.drop_last(), p);
    } else {
        assert(t.drop_last() =~= s.drop_last());
    }
}

/// The set that an allocation list built from `cands` and `active` covers.
proof fn lemma_round_set(
    round: TabulatorRound,
    k: int,
    cands: Seq<CandidateId>,
    active: Seq<bool>,
    votes: Seq<u32>,
)
    requires
        strictly_increasing(cands),
        active.len() == cands.len(),
        0 <= k <= round.allocations@.len(),
        forall|i: int| k <= i < round.allocations@.len() ==> (#[trigger] round.allocations@[i]).allocatee == Allocatee::Exhausted,
        forall|i: int| 0 <= i < k ==> entry_of(#[trigger] round.allocations@[i], cands, active, votes),
        forall|p: int| 0 <= p < cands.len() && active[p]
            ==> exists|i: int| 0 <= i < k && (#[trigger] round.allocations@[i]).allocatee == Allocatee::Candidate(cands[p]),
    ensures
        round_set(round) == active_set(cands, active),
{
    let a = round.allocations@;
    assert forall|c: CandidateId| round_set(round).contains(c) <==> #[trigger] active_set(cands, active).contains(c) by {
        lemma_index_of_bounds(cands, c);
        if round_set(round).contains(c) {
            let i = choose|i: int| 0 <= i < a.len() && #[trigger] a[i].allocatee == Allocatee::Candidate(c);
            if i >= k {
                assert(a[i].allocatee == Allocatee::Exhausted);
            }
            assert(entry_of(a[i], cands, active, votes));
            let p = choose|p: int| 0 <= p < cands.len() && active[p] && a[i].allocatee == Allocatee::Candidate(cands[p]) && a[i].votes == votes[p];
            lemma_increasing_index(cands, p);
        }
        if active_set(cands, active).contains(c) {
            let p = index_of(cands, c);
            let i = choose|i: int| 0 <= i < k && (#[trigger] a[i]).allocatee == Allocatee::Candidate(cands[p]);
            assert(a[i].allocatee == Allocatee::Candidate(c));
        }
    }
    assert(round_set(round) =~= active_set(cands, active));
}

proof fn lemma_round_fits(
    round: TabulatorRound,
    rs: Seq<Seq<CandidateId>>,
    opts: TabulationOptions,
    cands: Seq<CandidateId>,
    active: Seq<bool>,
    votes: Seq<u32>,
    exh: u32,
    k: int,
)
    requires
        strictly_increasing(cands),
        active.len() == cands.len(),
        votes.len() == cands.len(),
        forall|p: int| 0 <= p < cands.len() ==> #[trigger] votes[p] == tally(rs, active_set(cands, active), cands[p]),
        exh == exhausted(rs, active_set(cands, active)),
        count_sum(votes) + exh == rs.len(),
        k == round.allocations@.len() - if exh > 0 { 1int } else { 0int },
        k >= 0,
        exh > 0 ==> round.allocations@[k] == (TabulatorAllocation { allocatee: Allocatee::Exhausted, votes: exh }),
        forall|i: int| 0 <= i < k ==> entry_of(#[trigger] round.allocations@[i], cands, active, votes),
        forall|p: int| 0 <= p < cands.len() && active[p]
            ==> exists|i: int| 0 <= i < k && (#[trigger] round.allocations@[i]).allocatee == Allocatee::Candidate(cands[p]),
        forall|i: int, j: int| 0 <= i < j < k ==> outranks(opts, #[trigger] round.allocations@[i], #[trigger] round.allocations@[j]),
        vote_sum(round.allocations@.take(k)) == count_sum(votes),
        round.continuing_ballots == rs.len() - exh,
    ensures
        round_set(round) == active_set(cands, active),
        round_fits(round, rs, opts, active_set(cands, active)),
        candidate_part(round.allocations@) == round.allocations@.take(k),
{
    let a = round.allocations@;
    let cont = active_set(cands, active);
    lemma_round_set(round, k, cands, active, votes);
    if exh > 0 {
        assert(a.drop_last() =~= a.take(k));
    } else {
        assert(a.take(k) =~= a);
        if a.len() > 0 {
            assert(entry_of(a[a.len() - 1], cands, active, votes));
        }
    }
    let cp = candidate_part(a);
    assert forall|i: int| 0 <= i < cp.len() implies (#[trigger] cp[i]).allocatee is Candidate
        && cont.contains(alloc_id(cp[i])) && cp[i].votes == tally(rs, cont, alloc_id(cp[i])) by {
        assert(cp[i] == a[i]);
        assert(entry_of(a[i], cands, active, votes));
        let p = choose|p: int| 0 <= p < cands.len() && active[p] && a[i].allocatee == Allocatee::Candidate(cands[p]) && a[i].votes == votes[p];
        lemma_increasing_index(cands, p);
    }
    assert forall|c: CandidateId| #[trigger] cont.contains(c)
        implies exists|i: int| 0 <= i < cp.len() && (#[trigger] cp[i]).allocatee == Allocatee::Candidate(c) by {
        lemma_index_of_bounds(cands, c);
        let p = index_of(cands, c);
        let i = choose|i: int| 0 <= i < k && (#[trigger] a[i]).allocatee == Allocatee::Candidate(cands[p]);
        assert(cp[i] == a[i]);
    }
    assert forall|i: int, j: int| 0 <= i < j < cp.len() implies outranks(opts, #[trigger] cp[i], #[trigger] cp[j]) by {
        assert(cp[i] == a[i] && cp[j] == a[j]);
    }
}

pub(crate) proof fn lemma_all_true(n: nat)
    ensures
        crate::seqs::count_true(Seq::new(n, |i: int| true)) == n,
    decreases n,
{
    if n > 0 {
        assert(Seq::new(n, |i: int| true).drop_last() =~= Seq::new((n - 1) as nat, |i: int| true));
        lemma_all_true((n - 1) as nat);
    }
}

proof fn lemma_push_round(rs: Seq<Seq<CandidateId>>, opts: TabulationOptions, pre: Seq<TabulatorRound>, round: TabulatorRound)
    requires
        tabulation_prefix(rs, opts, pre),
        round.round_number == pre.len() + 1,
        round_fits(round, rs, opts, round_set(round)),
        pre.len() == 0 ==> round_set(round) == ranked_set(rs) && round.transfers@.len() == 0,
        pre.len() > 0 ==> {
            let last = pre.last();
            let cp = candidate_part(last.allocations@);
            &&& !is_terminal(opts, cp, last.continuing_ballots as int)
            &&& round_set(round) == round_set(last).difference(losers(opts, cp))
            &&& transfers_fit(round.transfers@, rs, round_set(last), round_set(round))
        },
    ensures
        tabulation_prefix(rs, opts, pre.push(round)),
{
    let rr = pre.push(round);
    assert forall|r: int| 0 <= r < rr.len() implies (#[trigger] rr[r]).round_number == r + 1
        && round_fits(rr[r], rs, opts, round_set(rr[r])) by {
        if r < pre.len() {
            assert(rr[r] == pre[r]);
        }
    }
    assert forall|r: int| 0 <= r < rr.len() - 1 implies {
        &&& !is_terminal(opts, round_candidates(rr, r), (#[trigger] rr[r]).continuing_ballots as int)
        &&& round_set(rr[r + 1]) == round_set(rr[r]).difference(losers(opts, round_candidates(rr, r)))
        &&& transfers_fit(rr[r + 1].transfers@, rs, round_set(rr[r]), round_set(rr[r + 1]))
    } by {
        assert(rr[r] == pre[r]);
        if r < pre.len() - 1 {
            assert(rr[r + 1] == pre[r + 1]);
        }
    }
    if pre.len() > 0 {
        assert(rr[0] == pre[0]);
    }
}

/// Clears the positions of the candidates `ids`.
fn deactivate(active: &mut Vec<bool>, cands: &Vec<CandidateId>, ids: &Vec<CandidateId>, keep: Ghost<int>)
    requires
        cands@.len() == old(active)@.len(),
        strictly_increasing(cands@),
        ids@.len() >= 1,
        forall|t: int| 0 <= t < ids@.len() ==> active_set(cands@, old(active)@).contains(#[trigger] ids@[t])
            && ids@[t] != cands@[keep@],
        0 <= keep@ < cands@.len(),
        old(active)@[keep@],
    ensures
        final(active)@.len() == old(active)@.len(),
        active_set(cands@, final(active)@) == active_set(cands@, old(active)@).difference(ids@.to_set()),
        final(active)@[keep@],
        crate::seqs::count_true(final(active)@) <= crate::seqs::count_true(old(active)@) - 1,
        forall|q: int| 0 <= q < final(active)@.len() && #[trigger] final(active)@[q] ==> old(active)@[q],
{
    let ghost before = active@;
    let n = cands.len();
    let mut j: usize = 0;
    while j < ids.len()
        invariant
            j <= ids@.len(),
            n == cands@.len(),
            active@.len() == n,
            before.len() == n,
            strictly_increasing(cands@),
            forall|t: int| 0 <= t < ids@.len() ==> active_set(cands@, before).contains(#[trigger] ids@[t])
                && ids@[t] != cands@[keep@],
            0 <= keep@ < n,
            active@[keep@],
            forall|r: int| 0 <= r < n ==> #[trigger] active@[r] == (before[r]
                && !exists|t: int| 0 <= t < j && #[trigger] ids@[t] == cands@[r]),
            crate::seqs::count_true(active@) <= crate::seqs::count_true(before) - if j > 0 { 1int } else { 0int },
        decreases ids@.len() - j,
    {
        let c = ids[j];
        let p = position_of(cands.as_slice(), c);
        proof {
            lemma_index_of_bounds(cands@, c);
            assert(active_set(cands@, before).contains(c));
            lemma_count_true_clear(active@, p as int);
            if j == 0 {
                assert(active@[p as int]);
            }
            if p == keep@ {
                assert(ids@[j as int] == cands@[keep@]);
            }
        }
        active.set(p, false);
        proof {
            assert forall|r: int| 0 <= r < n implies #[trigger] active@[r] == (before[r]
                && !exists|t: int| 0 <= t < j + 1 && #[trigger] ids@[t] == cands@[r]) by {
                if r == p {
                    assert(ids@[j as int] == cands@[r]);
                } else {
                    lemma_increasing_index(cands@, r);
                    if exists|t: int| 0 <= t < j + 1 && #[trigger] ids@[t] == cands@[r] {
                        let t = choose|t: int| 0 <= t < j + 1 && #[trigger] ids@[t] == cands@[r];
                        assert(t < j);
                    }
                }
            }
        }
        j = j + 1;
    }
    proof {
        assert forall|c: CandidateId| #[trigger] active_set(cands@, active@).contains(c)
            <==> active_set(cands@, before).difference(ids@.to_set()).contains(c) by {
            lemma_index_of_bounds(cands@, c);
            let r = index_of(cands@, c);
            if ids@.contains(c) && r < n {
                let t = choose|t: int| 0 <= t < ids@.len() && ids@[t] == c;
                assert(ids@[t] == cands@[r]);
            }
            if r < n && exists|t: int| 0 <= t < ids@.len() && #[trigger] ids@[t] == cands@[r] {
                let t = choose|t: int| 0 <= t < ids@.len() && #[trigger] ids@[t] == cands@[r];
                assert(ids@.contains(c));
            }
        }
        assert(active_set(cands@, active@) =~= active_set(cands@, before).difference(ids@.to_set()));
    }
}

/// Counts the ballots where `cursors` point and ranks the remaining candidates into a round;
#[verifier::rlimit(100)]
/// says whether the round is terminal and, if not, which candidates it eliminates.
fn make_round(
    ballots: &[NormalizedBallot],
    cursors: &Vec<usize>,
    cands: &Vec<CandidateId>,
    active: &Vec<bool>,
    options: &TabulationOptions,
    number: usize,
    transfers: Vec<Transfer>,
    undervote: u32,
    overvote: u32,
) -> (r: (TabulatorRound, bool, Vec<CandidateId>, Ghost<int>))
    requires
        ballots@.len() <= u32::MAX,
        cursors@.len() == ballots@.len(),
        cands@.len() == active@.len(),
        strictly_increasing(cands@),
        forall|b: int| 0 <= b < ballots@.len()
            ==> cursor_ok(#[trigger] ballots@[b].choices@, active_set(cands@, active@), cursors@[b] as int),
    ensures
        ({
            let (round, terminal, loser_ids, leader) = r;
            let rs = rankings(ballots@);
            let cont = active_set(cands@, active@);
            let cp = candidate_part(round.allocations@);
            &&& round.round_number == number
            &&& round.transfers@ == transfers@
            &&& round.undervote == undervote
            &&& round.overvote == overvote
            &&& round_set(round) == cont
            &&& round_fits(round, rs, *options, cont)
            &&& terminal == is_terminal(*options, cp, round.continuing_ballots as int)
            &&& !terminal ==> {
                &&& loser_ids@.to_set() == losers(*options, cp)
                &&& loser_ids@.len() >= 1
                &&& 0 <= leader@ < cands@.len()
                &&& active@[leader@]
                &&& forall|t: int| 0 <= t < loser_ids@.len() ==> cont.contains(#[trigger] loser_ids@[t])
                    && loser_ids@[t] != cands@[leader@]
            }
        }),
{
    let ghost rs = rankings(ballots@);
    let n = cands.len();
    let ghost cont = active_set(cands@, active@);
    let (votes, exh) = count_round(ballots, &cursors, &cands, &active);
    proof {
        assert forall|p: int| 0 <= p < n && !active@[p] implies votes@[p] == 0 by {
            lemma_increasing_index(cands@, p);
            lemma_tally_outside(rs, cont, cands@[p]);
        }
        lemma_count_where_le(rs, |s: Seq<CandidateId>| top_choice(s, cont) == Allocatee::Exhausted);
    }
    let alloc = build_allocations(&cands, &active, &votes, exh, options);
    let k: usize = if exh > 0 { alloc.len() - 1 } else { alloc.len() };
    let continuing: u32 = (ballots.len() as u32) - exh;
    let terminal = k <= 1 || (options.winning_threshold == WinningThreshold::Majority
        && 2 * (alloc[0].votes as u64) > continuing as u64)
        || (options.winning_threshold == WinningThreshold::PluralityFinalTwo && k <= 2);
    let mut loser_ids: Vec<CandidateId> = Vec::new();
    let mut e: usize = 0;
    if !terminal {
        proof {
            lemma_vote_sum_split(alloc@, k as int);
            assert(alloc@.subrange(0, k as int) =~= alloc@.take(k as int));
        }
        e = eliminate_count(&alloc, k, options.batch_elimination);
        let mut i: usize = k - e;
        while i < k
            invariant
                k - e <= i <= k,
                k <= alloc@.len(),
                loser_ids@.len() == i - (k - e),
                forall|j: int| 0 <= j < loser_ids@.len() ==> #[trigger] loser_ids@[j] == alloc_id(alloc@[k - e + j]),
            decreases k - i,
        {
            loser_ids.push(alloc_id_exec(&alloc[i]));
            i = i + 1;
        }
    }
    let ghost a = alloc@;
    let round = TabulatorRound {
        round_number: number,
        allocations: alloc,
        continuing_ballots: continuing,
        undervote,
        overvote,
        transfers,
    };
    proof {
        lemma_round_fits(round, rs, *options, cands@, active@, votes@, exh, k as int);
        let cp = candidate_part(a);
        assert(cp == a.take(k as int));
        if k >= 1 {
            assert(cp[0] == a[0]);
        }
        assert(terminal == is_terminal(*options, cp, continuing as int));
    }
    if terminal {
        return (round, terminal, loser_ids, Ghost(0));
    }
    let ghost cp = a.take(k as int);
    let ghost leader = index_of(cands@, alloc_id(a[0]));
    proof {
        assert(entry_of(a[0], cands@, active@, votes@));
        let w = choose|p: int| 0 <= p < cands@.len() && active@[p] && a[0].allocatee == Allocatee::Candidate(cands@[p]) && a[0].votes == votes@[p];
        lemma_increasing_index(cands@, w);
        assert forall|t: int| 0 <= t < loser_ids@.len() implies active_set(cands@, active@).contains(#[trigger] loser_ids@[t])
            && loser_ids@[t] != cands@[w] by {
            let i = k - e + t;
            assert(entry_of(a[i], cands@, active@, votes@));
            let v = choose|p: int| 0 <= p < cands@.len() && active@[p] && a[i].allocatee == Allocatee::Candidate(cands@[p]) && a[i].votes == votes@[p];
            lemma_increasing_index(cands@, v);
            assert(outranks(*options, a[0], a[i]));
        }
        assert forall|c: CandidateId| #[trigger] losers(*options, cp).contains(c) <==> loser_ids@.to_set().contains(c) by {
            if losers(*options, cp).contains(c) {
                let i = choose|i: int| cp.len() - elimination_count(cp, options.batch_elimination) <= i < cp.len()
                    && #[trigger] cp[i].allocatee == Allocatee::Candidate(c);
                assert(loser_ids@[i - (k - e)] == c);
            }
            if loser_ids@.contains(c) {
                let t = choose|t: int| 0 <= t < loser_ids@.len() && loser_ids@[t] == c;
                assert(entry_of(a[k - e + t], cands@, active@, votes@));
                assert(cp[k - e + t].allocatee == Allocatee::Candidate(c));
            }
        }
        assert(losers(*options, cp) =~= loser_ids@.to_set());
        assert(candidate_part(round.allocations@) == cp);
    }
    (round, terminal, loser_ids, Ghost(leader))
}

/// The ballot is exhausted when the candidates in `cur` remain but was not under `prev` (the
/// continuing set of the round before, if any), and its ranking ended at an overvote or not as
/// `over` says.
pub open spec fn newly_exhausted(b: NormalizedBallot, cur: Set<CandidateId>, prev: Option<Set<CandidateId>>, over: bool) -> bool {
    &&& b.overvoted == over
    &&& top_choice(b.choices@, cur) == Allocatee::Exhausted
    &&& !(prev matches Some(p) && top_choice(b.choices@, p) == Allocatee::Exhausted)
}

/// Number of the ballots of `bs` that are `newly_exhausted`.
pub open spec fn count_newly_exhausted(bs: Seq<NormalizedBallot>, cur: Set<CandidateId>, prev: Option<Set<CandidateId>>, over: bool) -> nat
    decreases bs.len(),
{
    if bs.len() == 0 {
        0
    } else {
        count_newly_exhausted(bs.drop_last(), cur, prev, over) + if newly_exhausted(bs.last(), cur, prev, over) { 1nat } else { 0nat }
    }
}

proof fn lemma_count_newly_exhausted_le(bs: Seq<NormalizedBallot>, cur: Set<CandidateId>, prev: Option<Set<CandidateId>>, over: bool)
    ensures
        count_newly_exhausted(bs, cur, prev, over) <= bs.len(),
    decreases bs.len(),
{
    if bs.len() > 0 {
        lemma_count_newly_exhausted_le(bs.drop_last(), cur, prev, over);
    }
}

/// The continuing set of the round before round `r`, if any.
pub open spec fn prev_set(rounds: Seq<TabulatorRound>, r: int) -> Option<Set<CandidateId>> {
    if r <= 0 {
        None
    } else {
        Some(round_set(rounds[r - 1]))
    }
}

/// Each round records the ballots it exhausted, by cause, when the options ask for it, and
/// zeros otherwise.
pub open spec fn exhaustion_counted(ballots: Seq<NormalizedBallot>, opts: TabulationOptions, rounds: Seq<TabulatorRound>) -> bool {
    forall|r: int| 0 <= r < rounds.len() ==> {
        &&& (#[trigger] rounds[r]).undervote == if opts.exhaust_on_overvote {
            count_newly_exhausted(ballots, round_set(rounds[r]), prev_set(rounds, r), false)
        } else {
            0
        }
        &&& rounds[r].overvote == if opts.exhaust_on_overvote {
            count_newly_exhausted(ballots, round_set(rounds[r]), prev_set(rounds, r), true)
        } else {
            0
        }
    }
}

/// The ballots, pointed at by `cursors`, that are newly exhausted.
fn count_exhaustion(
    ballots: &[NormalizedBallot],
    cursors: &Vec<usize>,
    was: &Vec<bool>,
    over: bool,
    cur: Ghost<Set<CandidateId>>,
    prev: Ghost<Option<Set<CandidateId>>>,
) -> (r: u32)
    requires
        ballots@.len() <= u32::MAX,
        cursors@.len() == ballots@.len(),
        was@.len() == ballots@.len(),
        forall|b: int| 0 <= b < ballots@.len() ==> cursor_ok(#[trigger] ballots@[b].choices@, cur@, cursors@[b] as int),
        forall|b: int| 0 <= b < ballots@.len() ==> #[trigger] was@[b]
            == (prev@ matches Some(p) && top_choice(ballots@[b].choices@, p) == Allocatee::Exhausted),
    ensures
        r == count_newly_exhausted(ballots@, cur@, prev@, over),
{
    let mut r: u32 = 0;
    let mut b: usize = 0;
    while b < ballots.len()
        invariant
            b <= ballots@.len(),
            ballots@.len() <= u32::MAX,
            cursors@.len() == ballots@.len(),
            was@.len() == ballots@.len(),
            forall|b: int| 0 <= b < ballots@.len() ==> cursor_ok(#[trigger] ballots@[b].choices@, cur@, cursors@[b] as int),
            forall|b: int| 0 <= b < ballots@.len() ==> #[trigger] was@[b]
                == (prev@ matches Some(p) && top_choice(ballots@[b].choices@, p) == Allocatee::Exhausted),
            r == count_newly_exhausted(ballots@.take(b as int), cur@, prev@, over),
        decreases ballots@.len() - b,
    {
        assert(ballots@.take(b + 1).drop_last() =~= ballots@.take(b as int));
        proof {
            lemma_cursor_top(ballots@[b as int].choices@, cur@, cursors@[b as int] as int);
            lemma_count_newly_exhausted_le(ballots@.take(b as int), cur@, prev@, over);
            assert(was@[b as int] == was@[b as int]);
        }
        if ballots[b].overvoted == over && cursors[b] >= ballots[b].choices.len() && !was[b] {
            r = r + 1;
        }
        b = b + 1;
    }
    assert(ballots@.take(b as int) =~= ballots@);
    r
}

/// Which ballots, pointed at by `cursors`, are exhausted.
fn exhausted_flags(ballots: &[NormalizedBallot], cursors: &Vec<usize>, cur: Ghost<Set<CandidateId>>) -> (r: Vec<bool>)
    requires
        cursors@.len() == ballots@.len(),
        forall|b: int| 0 <= b < ballots@.len() ==> cursor_ok(#[trigger] ballots@[b].choices@, cur@, cursors@[b] as int),
    ensures
        r@.len() == ballots@.len(),
        forall|b: int| 0 <= b < ballots@.len() ==> #[trigger] r@[b]
            == (top_choice(ballots@[b].choices@, cur@) == Allocatee::Exhausted),
{
    let mut r: Vec<bool> = Vec::new();
    let mut b: usize = 0;
    while b < ballots.len()
        invariant
            b <= ballots@.len(),
            cursors@.len() == ballots@.len(),
            forall|b: int| 0 <= b < ballots@.len() ==> cursor_ok(#[trigger] ballots@[b].choices@, cur@, cursors@[b] as int),
            r@.len() == b,
            forall|k: int| 0 <= k < b ==> #[trigger] r@[k] == (top_choice(ballots@[k].choices@, cur@) == Allocatee::Exhausted),
        decreases ballots@.len() - b,
    {
        proof {
            lemma_cursor_top(ballots@[b as int].choices@, cur@, cursors@[b as int] as int);
        }
        r.push(cursors[b] >= ballots[b].choices.len());
        b = b + 1;
    }
    r
}

proof fn lemma_push_counts(ballots: Seq<NormalizedBallot>, opts: TabulationOptions, pre: Seq<TabulatorRound>, round: TabulatorRound)
    requires
        exhaustion_counted(ballots, opts, pre),
        round.undervote == if opts.exhaust_on_overvote {
            count_newly_exhausted(ballots, round_set(round), prev_set(pre, pre.len() as int), false)
        } else {
            0
        },
        round.overvote == if opts.exhaust_on_overvote {
            count_newly_exhausted(ballots, round_set(round), prev_set(pre, pre.len() as int), true)
        } else {
            0
        },
    ensures
        exhaustion_counted(ballots, opts, pre.push(round)),
{
    let rr = pre.push(round);
    assert forall|r: int| 0 <= r < rr.len() implies {
        &&& (#[trigger] rr[r]).undervote == if opts.exhaust_on_overvote {
            count_newly_exhausted(ballots, round_set(rr[r]), prev_set(rr, r), false)
        } else {
            0
        }
        &&& rr[r].overvote == if opts.exhaust_on_overvote {
            count_newly_exhausted(ballots, round_set(rr[r]), prev_set(rr, r), true)
        } else {
            0
        }
    } by {
        if r > 0 {
            assert(rr[r - 1] == pre[r - 1]);
        }
        if r < pre.len() {
            assert(rr[r] == pre[r]);
        }
        assert(prev_set(rr, r) == prev_set(pre, r));
    }
}

proof fn lemma_finish(rs: Seq<Seq<CandidateId>>, opts: TabulationOptions, rounds: Seq<TabulatorRound>)
    requires
        tabulation_prefix(rs, opts, rounds),
        rounds.len() > 0,
        is_terminal(opts, round_candidates(rounds, rounds.len() - 1), rounds.last().continuing_ballots as int),
        exists|k: int| 0 <= k < rs.len() && (#[trigger] rs[k]).len() > 0,
    ensures
        is_tabulation(rs, opts, rounds),
{
}

#[verifier::rlimit(100)]
/// Runs an instant-runoff tabulation: every ranked candidate starts, each round counts every
/// ballot for the first remaining candidate it ranks, and after a round that is not terminal
/// the trailing candidates (one, or under batch elimination the longest run that cannot
/// catch the candidate above it) are eliminated and their ballots transferred.
/// Under a majority threshold the count goes on until the leader holds more than half of the
/// continuing ballots or a single candidate is left; two tied candidates do not end it, the
/// tie-break order eliminates one of them. Under a final-two threshold it ends as soon as at
/// most two candidates are left.
pub fn tabulate(ballots: &[NormalizedBallot], options: &TabulationOptions) -> (rounds: Vec<TabulatorRound>)
    requires
        ballots@.len() <= u32::MAX,
    ensures
        is_tabulation(rankings(ballots@), *options, rounds@),
        exhaustion_counted(ballots@, *options, rounds@),
{
    let ghost rs = rankings(ballots@);
    let cands = ranked_candidates(ballots);
    let n = cands.len();
    let mut active: Vec<bool> = Vec::new();
    let mut q: usize = 0;
    while q < n
        invariant
            q <= n,
            active@ == Seq::new(q as nat, |i: int| true),
        decreases n - q,
    {
        active.push(true);
        q = q + 1;
        assert(active@ =~= Seq::new(q as nat, |i: int| true));
    }
    proof {
        lemma_all_true(n as nat);
        assert forall|c: CandidateId| #[trigger] active_set(cands@, active@).contains(c) <==> ranked_set(rs).contains(c) by {
            lemma_index_of_bounds(cands@, c);
            assert(cands@.to_set().contains(c) <==> cands@.contains(c));
        }
        assert(active_set(cands@, active@) =~= ranked_set(rs));
    }
    let mut cursors: Vec<usize> = Vec::new();
    let mut any = false;
    let mut b: usize = 0;
    while b < ballots.len()
        invariant
            b <= ballots@.len(),
            rs == rankings(ballots@),
            active_set(cands@, active@) == ranked_set(rs),
            cursors@.len() == b,
            forall|k: int| 0 <= k < b ==> #[trigger] cursors@[k] == 0,
            forall|k: int| 0 <= k < b ==> cursor_ok(#[trigger] ballots@[k].choices@, ranked_set(rs), 0),
            any == exists|k: int| 0 <= k < b && (#[trigger] rs[k]).len() > 0,
        decreases ballots@.len() - b,
    {
        proof {
            let s = ballots@[b as int].choices@;
            assert(rs[b as int] == s);
            if s.len() > 0 {
                assert(rs[b as int].contains(s[0]));
                assert(ranked_set(rs).contains(s[0]));
            }
        }
        if ballots[b].choices.len() > 0 {
            any = true;
        }
        cursors.push(0);
        b = b + 1;
    }
    let mut rounds: Vec<TabulatorRound> = Vec::new();
    if !any {
        return rounds;
    }
    let mut transfers: Vec<Transfer> = Vec::new();
    let mut was: Vec<bool> = Vec::new();
    let mut w: usize = 0;
    while w < ballots.len()
        invariant
            w <= ballots@.len(),
            was@.len() == w,
            forall|k: int| 0 <= k < w ==> !#[trigger] was@[k],
        decreases ballots@.len() - w,
    {
        was.push(false);
        w = w + 1;
    }
    loop
        invariant_except_break
            rounds@.len() + crate::seqs::count_true(active@) <= n,
            crate::seqs::count_true(active@) >= 1,
            rounds@.len() > 0 ==> {
                let last = rounds@.last();
                let cp = candidate_part(last.allocations@);
                &&& !is_terminal(*options, cp, last.continuing_ballots as int)
                &&& active_set(cands@, active@) == round_set(last).difference(losers(*options, cp))
                &&& transfers_fit(transfers@, rs, round_set(last), active_set(cands@, active@))
            },
        invariant
            rs == rankings(ballots@),
            ballots@.len() <= u32::MAX,
            n == cands@.len(),
            active@.len() == n,
            strictly_increasing(cands@),
            cursors@.len() == ballots@.len(),
            forall|k: int| 0 <= k < ballots@.len()
                ==> cursor_ok(#[trigger] ballots@[k].choices@, active_set(cands@, active@), cursors@[k] as int),
            exists|k: int| 0 <= k < rs.len() && (#[trigger] rs[k]).len() > 0,
            rounds@.len() == 0 ==> active_set(cands@, active@) == ranked_set(rs) && transfers@.len() == 0,
            tabulation_prefix(rs, *options, rounds@),
            exhaustion_counted(ballots@, *options, rounds@),
            was@.len() == ballots@.len(),
            forall|b: int| 0 <= b < ballots@.len() ==> #[trigger] was@[b]
                == (prev_set(rounds@, rounds@.len() as int) matches Some(p)
                    && top_choice(ballots@[b].choices@, p) == Allocatee::Exhausted),
        ensures
            is_tabulation(rs, *options, rounds@),
            exhaustion_counted(ballots@, *options, rounds@),
        decreases crate::seqs::count_true(active@),
    {
        let ghost cur = active_set(cands@, active@);
        let ghost prev = prev_set(rounds@, rounds@.len() as int);
        let (undervote, overvote) = if options.exhaust_on_overvote {
            (
                count_exhaustion(ballots, &cursors, &was, false, Ghost(cur), Ghost(prev)),
                count_exhaustion(ballots, &cursors, &was, true, Ghost(cur), Ghost(prev)),
            )
        } else {
            (0, 0)
        };
        let flags = exhausted_flags(ballots, &cursors, Ghost(cur));
        let (round, terminal, loser_ids, leader) = make_round(
            ballots, &cursors, &cands, &active, options, rounds.len() + 1, transfers, undervote, overvote);
        proof {
            lemma_push_round(rs, *options, rounds@, round);
            lemma_push_counts(ballots@, *options, rounds@, round);
        }
        rounds.push(round);
        was = flags;
        proof {
            assert(prev_set(rounds@, rounds@.len() as int) == Some(cur));
        }
        if terminal {
            proof {
                lemma_finish(rs, *options, rounds@);
            }
            break;
        }
        let ghost before = active@;
        deactivate(&mut active, &cands, &loser_ids, leader);
        proof {
            lemma_count_true_pos(active@, leader@);
        }
        transfers = transfer_step(ballots, &mut cursors, &cands, Ghost(before), &active);
    }
    rounds
}

/// In every round the candidates' votes and the exhausted ballots add up to the number of
/// ballots, and so do all the allocations of the round.
pub proof fn lemma_round_votes_add_up(rs: Seq<Seq<CandidateId>>, opts: TabulationOptions, rounds: Seq<TabulatorRound>, r: int)
    requires
        is_tabulation(rs, opts, rounds),
        0 <= r < rounds.len(),
    ensures
        vote_sum(round_candidates(rounds, r)) + exhausted(rs, round_set(rounds[r])) == rs.len(),
{
    let a = rounds[r].allocations@;
    assert(round_fits(rounds[r], rs, opts, round_set(rounds[r])));
}

pub(crate) proof fn lemma_tally_monotone(rs: Seq<Seq<CandidateId>>, big: Set<CandidateId>, small: Set<CandidateId>, c: CandidateId)
    requires
        small.subset_of(big),
        small.contains(c),
    ensures
        tally(rs, small, c) >= tally(rs, big, c),
{
    let f = |s: Seq<CandidateId>| top_choice(s, big) == Allocatee::Candidate(c);
    let g = |s: Seq<CandidateId>| top_choice(s, small) == Allocatee::Candidate(c);
    assert forall|s: Seq<CandidateId>| #[trigger] f(s) implies g(s) by {
        lemma_top_kept(s, big, small, c);
    }
    crate::seqs::lemma_count_where_implies(rs, f, g);
}

/// From one round to the next, a candidate that stays in the count never loses votes.
pub proof fn lemma_votes_never_drop(
    rs: Seq<Seq<CandidateId>>,
    opts: TabulationOptions,
    rounds: Seq<TabulatorRound>,
    r: int,
    i: int,
    j: int,
)
    requires
        is_tabulation(rs, opts, rounds),
        0 <= r < rounds.len() - 1,
        0 <= i < round_candidates(rounds, r).len(),
        0 <= j < round_candidates(rounds, r + 1).len(),
        round_candidates(rounds, r)[i].allocatee == round_candidates(rounds, r + 1)[j].allocatee,
    ensures
        round_candidates(rounds, r + 1)[j].votes >= round_candidates(rounds, r)[i].votes,
{
    let big = round_set(rounds[r]);
    let small = round_set(rounds[r + 1]);
    assert(round_fits(rounds[r], rs, opts, big));
    assert(round_fits(rounds[r + 1], rs, opts, small));
    assert(rounds[r] == rounds[r]);
    let cp = round_candidates(rounds, r + 1);
    let c = alloc_id(cp[j]);
    assert(cp[j] == cp[j]);
    assert(small.subset_of(big));
    lemma_tally_monotone(rs, big, small, c);
}

proof fn lemma_count_where_pos(rs: Seq<Seq<CandidateId>>, f: spec_fn(Seq<CandidateId>) -> bool, b: int)
    requires
        0 <= b < rs.len(),
        f(rs[b]),
    ensures
        count_where(rs, f) >= 1,
    decreases rs.len(),
{
    if b < rs.len() - 1 {
        lemma_count_where_pos(rs.drop_last(), f, b);
    }
}

/// The leader of every round holds at least one ballot.
proof fn lemma_leader_positive(rs: Seq<Seq<CandidateId>>, opts: TabulationOptions, rounds: Seq<TabulatorRound>, r: int)
    requires
        is_tabulation(rs, opts, rounds),
        0 <= r < rounds.len(),
    ensures
        round_candidates(rounds, r).len() >= 1,
        round_candidates(rounds, r)[0].votes >= 1,
    decreases r,
{
    let cont = round_set(rounds[r]);
    let cp = round_candidates(rounds, r);
    assert(round_fits(rounds[r], rs, opts, cont));
    // some candidate of the round holds a ballot
    let c: CandidateId = if r == 0 {
        let b = choose|b: int| 0 <= b < rs.len() && (#[trigger] rs[b]).len() > 0;
        let s = rs[b];
        assert(rs[b].contains(s[0]));
        assert(ranked_set(rs).contains(s[0]));
        assert(top_choice(s, cont) == Allocatee::Candidate(s[0]));
        lemma_count_where_pos(rs, |x: Seq<CandidateId>| top_choice(x, cont) == Allocatee::Candidate(s[0]), b);
        s[0]
    } else {
        lemma_leader_positive(rs, opts, rounds, r - 1);
        let prev = round_candidates(rounds, r - 1);
        let pcont = round_set(rounds[r - 1]);
        assert(round_fits(rounds[r - 1], rs, opts, pcont));
        assert(rounds[r - 1] == rounds[r - 1]);
        let l = alloc_id(prev[0]);
        assert(prev[0].allocatee is Candidate);
        lemma_largest_batch_range(prev, prev.len() - 1);
        assert(!losers(opts, prev).contains(l)) by {
            if losers(opts, prev).contains(l) {
                let i = choose|i: int| prev.len() - elimination_count(prev, opts.batch_elimination) <= i < prev.len()
                    && #[trigger] prev[i].allocatee == Allocatee::Candidate(l);
                assert(outranks(opts, prev[0], prev[i]));
            }
        }
        assert(cont.contains(l));
        lemma_tally_monotone(rs, pcont, cont, l);
        l
    };
    assert(cont.contains(c));
    let i = choose|i: int| 0 <= i < cp.len() && (#[trigger] cp[i]).allocatee == Allocatee::Candidate(c);
    assert(cp[i].votes >= 1);
    if i > 0 {
        assert(outranks(opts, cp[0], cp[i]));
    }
}

/// The last round has at most two candidates under a final-two threshold; under a majority
/// threshold its leader holds more than half of the continuing ballots.
pub proof fn lemma_final_round(rs: Seq<Seq<CandidateId>>, opts: TabulationOptions, rounds: Seq<TabulatorRound>)
    requires
        is_tabulation(rs, opts, rounds),
        rounds.len() > 0,
    ensures
        opts.winning_threshold == WinningThreshold::PluralityFinalTwo
            ==> round_candidates(rounds, rounds.len() - 1).len() <= 2,
        opts.winning_threshold == WinningThreshold::Majority
            ==> 2 * round_candidates(rounds, rounds.len() - 1)[0].votes > rounds.last().continuing_ballots,
{
    let r = rounds.len() - 1;
    let cp = round_candidates(rounds, r);
    lemma_leader_positive(rs, opts, rounds, r);
    lemma_round_votes_add_up(rs, opts, rounds, r);
    assert(round_fits(rounds[r], rs, opts, round_set(rounds[r])));
    if cp.len() == 1 {
        assert(cp.drop_last() =~= Seq::<TabulatorAllocation>::empty());
        assert(vote_sum(cp.drop_last()) == 0);
        assert(cp.last() == cp[0]);
        assert(vote_sum(cp) == cp[0].votes);
    }
}

} // verus!
