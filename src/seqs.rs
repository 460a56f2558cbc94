use vstd::prelude::*;
use crate::model::CandidateId;

verus! {

/// Index of the first occurrence of `c` in `s`, or `s.len()` when `c` does not occur.
pub open spec fn index_of(s: Seq<CandidateId>, c: CandidateId) -> int
    decreases s.len(),
{
    if s.len() == 0 {
        0
    } else if s[0] == c {
        0
    } else {
        1 + index_of(s.drop_first(), c)
    }
}

pub proof fn lemma_index_of(s: Seq<CandidateId>, c: CandidateId, k: int)
    requires
        0 <= k <= s.len(),
        k == s.len() || s[k] == c,
        forall|j: int| 0 <= j < k ==> s[j] != c,
    ensures
        index_of(s, c) == k,
    decreases s.len(),
{
    if s.len() > 0 && k > 0 {
        assert forall|j: int| 0 <= j < k - 1 implies s.drop_first()[j] != c by {
            assert(s[j + 1] != c);
        }
        lemma_index_of(s.drop_first(), c, k - 1);
    }
}

pub proof fn lemma_index_of_bounds(s: Seq<CandidateId>, c: CandidateId)
    ensures
        0 <= index_of(s, c) <= s.len(),
        index_of(s, c) < s.len() ==> s[index_of(s, c)] == c,
        index_of(s, c) < s.len() <==> s.contains(c),
        forall|j: int| 0 <= j < index_of(s, c) ==> s[j] != c,
    decreases s.len(),
{
    if s.len() > 0 && s[0] != c {
        lemma_index_of_bounds(s.drop_first(), c);
        assert forall|j: int| 0 <= j < index_of(s, c) implies s[j] != c by {
            if j > 0 {
                assert(s[j] == s.drop_first()[j - 1]);
            }
        }
        if s.contains(c) {
            let w = choose|w: int| 0 <= w < s.len() && s[w] == c;
            assert(s.drop_first()[w - 1] == c);
        }
    }
}

/// Position of `c` in `s`, or `s.len()` when absent.
pub fn position_of(s: &[CandidateId], c: CandidateId) -> (r: usize)
    ensures
        r as int == index_of(s@, c),
{
    let mut i: usize = 0;
    while i < s.len() && s[i] != c
        invariant
            i <= s@.len(),
            forall|j: int| 0 <= j < i ==> s@[j] != c,
        decreases s@.len() - i,
    {
        i = i + 1;
    }
    proof {
        lemma_index_of(s@, c, i as int);
    }
    i
}

/// Number of `true` entries.
pub open spec fn count_true(s: Seq<bool>) -> nat
    decreases s.len(),
{
    if s.len() == 0 {
        0
    } else {
        count_true(s.drop_last()) + if s.last() { 1nat } else { 0nat }
    }
}

/// The entries of `items` at the positions where `mask` holds, in order.
pub open spec fn select<T>(items: Seq<T>, mask: Seq<bool>) -> Seq<T>
    recommends
        items.len() == mask.len(),
    decreases items.len(),
{
    if items.len() == 0 || mask.len() == 0 {
        Seq::empty()
    } else {
        let rest = select(items.drop_last(), mask.drop_last());
        if mask.last() {
            rest.push(items.last())
        } else {
            rest
        }
    }
}

/// Adds one to the cell `(i, j)` of a matrix.
pub fn bump(m: &mut Vec<Vec<u32>>, i: usize, j: usize)
    requires
        i < old(m)@.len(),
        j < old(m)@[i as int]@.len(),
        old(m)@[i as int]@[j as int] < u32::MAX,
    ensures
        final(m)@.len() == old(m)@.len(),
        forall|k: int| 0 <= k < old(m)@.len() && k != i ==> final(m)@[k] == old(m)@[k],
        final(m)@[i as int]@ == old(m)@[i as int]@.update(j as int, (old(m)@[i as int]@[j as int] + 1) as u32),
{
    let mut row: Vec<u32> = Vec::new();
    m.set_and_swap(i, &mut row);
    let v = row[j];
    row.set(j, v + 1);
    m.set_and_swap(i, &mut row);
}

/// A `rows` by `cols` matrix of zeros.
pub fn zero_matrix(rows: usize, cols: usize) -> (m: Vec<Vec<u32>>)
    ensures
        m@.len() == rows,
        forall|i: int| 0 <= i < rows ==> (#[trigger] m@[i])@.len() == cols,
        forall|i: int, j: int| 0 <= i < rows && 0 <= j < cols ==> #[trigger] m@[i]@[j] == 0,
{
    let mut m: Vec<Vec<u32>> = Vec::new();
    let mut i: usize = 0;
    while i < rows
        invariant
            i <= rows,
            m@.len() == i,
            forall|k: int| 0 <= k < i ==> (#[trigger] m@[k])@.len() == cols,
            forall|k: int, j: int| 0 <= k < i && 0 <= j < cols ==> #[trigger] m@[k]@[j] == 0,
        decreases rows - i,
    {
        let mut row: Vec<u32> = Vec::new();
        let mut j: usize = 0;
        while j < cols
            invariant
                j <= cols,
                row@.len() == j,
                forall|k: int| 0 <= k < j ==> row@[k] == 0,
            decreases cols - j,
        {
            row.push(0);
            j = j + 1;
        }
        m.push(row);
        i = i + 1;
    }
    m
}

} // verus!

verus! {

/// A vector holding the entries of `s`.
pub fn copy_ids(s: &[CandidateId]) -> (r: Vec<CandidateId>)
    ensures
        r@ == s@,
{
    let mut r: Vec<CandidateId> = Vec::new();
    let mut i: usize = 0;
    while i < s.len()
        invariant
            i <= s@.len(),
            r@ == s@.subrange(0, i as int),
        decreases s@.len() - i,
    {
        r.push(s[i]);
        i = i + 1;
        assert(r@ =~= s@.subrange(0, i as int));
    }
    assert(r@ =~= s@);
    r
}

} // verus!

verus! {

/// Every position set in `t` is set in `s`.
pub open spec fn within(t: Seq<bool>, s: Seq<bool>) -> bool {
    t.len() == s.len() && forall|i: int| 0 <= i < t.len() && #[trigger] t[i] ==> s[i]
}

pub proof fn lemma_count_within(t: Seq<bool>, s: Seq<bool>)
    requires
        within(t, s),
    ensures
        count_true(t) <= count_true(s),
        t != s ==> count_true(t) < count_true(s),
    decreases t.len(),
{
    if t.len() > 0 {
        let (t0, s0) = (t.drop_last(), s.drop_last());
        assert forall|i: int| 0 <= i < t0.len() && #[trigger] t0[i] implies s0[i] by {
            assert(t[i]);
        }
        lemma_count_within(t0, s0);
        if t != s && t0 == s0 {
            assert(t.last() != s.last()) by {
                if t.last() == s.last() {
                    assert forall|i: int| 0 <= i < t.len() implies t[i] == s[i] by {
                        if i < t.len() - 1 {
                            assert(t[i] == t0[i] && s[i] == s0[i]);
                        }
                    }
                    assert(t =~= s);
                }
            }
            assert(s.last());
        }
    } else {
        assert(t =~= s);
    }
}

pub proof fn lemma_count_true_pos(s: Seq<bool>, i: int)
    requires
        0 <= i < s.len(),
        s[i],
    ensures
        count_true(s) > 0,
    decreases s.len(),
{
    if i < s.len() - 1 {
        lemma_count_true_pos(s.drop_last(), i);
    }
}

} // verus!

verus! {

pub proof fn lemma_count_zero(s: Seq<bool>)
    requires
        forall|i: int| 0 <= i < s.len() ==> !s[i],
    ensures
        count_true(s) == 0,
    decreases s.len(),
{
    if s.len() > 0 {
        lemma_count_zero(s.drop_last());
    }
}

} // verus!

verus! {

/// Number of the rankings in `rs` that satisfy `f`.
pub open spec fn count_where(rs: Seq<Seq<CandidateId>>, f: spec_fn(Seq<CandidateId>) -> bool) -> nat
    decreases rs.len(),
{
    if rs.len() == 0 {
        0
    } else {
        count_where(rs.drop_last(), f) + if f(rs.last()) { 1nat } else { 0nat }
    }
}

pub proof fn lemma_count_where_le(rs: Seq<Seq<CandidateId>>, f: spec_fn(Seq<CandidateId>) -> bool)
    ensures
        count_where(rs, f) <= rs.len(),
    decreases rs.len(),
{
    if rs.len() > 0 {
        lemma_count_where_le(rs.drop_last(), f);
    }
}

} // verus!

verus! {

pub proof fn lemma_count_where_implies(
    rs: Seq<Seq<CandidateId>>,
    f: spec_fn(Seq<CandidateId>) -> bool,
    g: spec_fn(Seq<CandidateId>) -> bool,
)
    requires
        forall|s: Seq<CandidateId>| #[trigger] f(s) ==> g(s),
    ensures
        count_where(rs, f) <= count_where(rs, g),
    decreases rs.len(),
{
    if rs.len() > 0 {
        lemma_count_where_implies(rs.drop_last(), f, g);
    }
}

} // verus!

verus! {

pub proof fn lemma_count_true_set(s: Seq<bool>, p: int)
    requires
        0 <= p < s.len(),
        !s[p],
    ensures
        count_true(s.update(p, true)) == count_true(s) + 1,
    decreases s.len(),
{
    let t = s.update(p, true);
    if p < s.len() - 1 {
        assert(t.drop_last() =~= s.drop_last().update(p, true));
        lemma_count_true_set(s.drop_last(), p);
    } else {
        assert(t.drop_last() =~= s.drop_last());
    }
}

pub proof fn lemma_count_true_le(s: Seq<bool>)
    ensures
        count_true(s) <= s.len(),
    decreases s.len(),
{
    if s.len() > 0 {
        lemma_count_true_le(s.drop_last());
    }
}

pub proof fn lemma_count_true_witness(s: Seq<bool>) -> (i: int)
    requires
        count_true(s) > 0,
    ensures
        0 <= i < s.len(),
        s[i],
{
    if forall|k: int| 0 <= k < s.len() ==> !s[k] {
        lemma_count_zero(s);
        0
    } else {
        choose|k: int| 0 <= k < s.len() && s[k]
    }
}

/// Number of `true` entries, computed.
pub fn count_set(v: &Vec<bool>) -> (r: usize)
    ensures
        r == count_true(v@),
{
    let mut r: usize = 0;
    let mut i: usize = 0;
    while i < v.len()
        invariant
            i <= v@.len(),
            r == count_true(v@.take(i as int)),
        decreases v@.len() - i,
    {
        assert(v@.take(i + 1).drop_last() =~= v@.take(i as int));
        proof {
            lemma_count_true_le(v@.take(i as int));
        }
        if v[i] {
            r = r + 1;
        }
        i = i + 1;
    }
    assert(v@.take(i as int) =~= v@);
    r
}

} // verus!
