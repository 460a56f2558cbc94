use std::collections::BTreeMap;
use vstd::prelude::*;
use crate::formats::params::{has_param, param_text, required_param};
use crate::model::Choice;
pub use crate::formats::common::CandidateMap;

verus! {

/// Options of the PrefLib reader.
pub struct ReaderOptions {
    /// Path of the `.toi` / `.soi` file, relative to the election directory.
    pub file: String,
}

impl ReaderOptions {
    /// Reads the `file` parameter.
    pub fn from_params(params: BTreeMap<String, String>) -> (r: ReaderOptions)
        requires
            has_param(params@, "file"@),
        ensures
            r.file@ == param_text(params@, "file"@),
    {
        ReaderOptions { file: required_param(&params, "file") }
    }
}

} // verus!

verus! {


/// Why a part of a preference list was not read.
#[derive(Clone, Debug, PartialEq, Eq)]
pub enum PreferenceWarning {
    UnbalancedBraces,
    UnparsedEntry(Vec<u8>),
    UnknownCandidate(u32),
}

/// A warning as plain values: its kind (0 unbalanced braces, 1 unparsed entry, 2 unknown
/// candidate), the entry's bytes, and the candidate number.
pub open spec fn warning_view(w: PreferenceWarning) -> (int, Seq<u8>, u32) {
    match w {
        PreferenceWarning::UnbalancedBraces => (0, Seq::empty(), 0),
        PreferenceWarning::UnparsedEntry(v) => (1, v@, 0),
        PreferenceWarning::UnknownCandidate(id) => (2, Seq::empty(), id),
    }
}

/// The choices read from a preference list, and what could not be read.
pub struct ParseResult {
    pub choices: Vec<Choice>,
    pub warnings: Vec<PreferenceWarning>,
}

/// One of the ASCII white-space characters: tab, line feed, vertical tab, form feed, carriage
/// return, space.
pub open spec fn is_ascii_space(c: u8) -> bool {
    c == 32 || c == 9 || c == 10 || c == 11 || c == 12 || c == 13
}

/// The UTF-8 encoding of U+0085 or U+00A0.
pub open spec fn space2(a: u8, b: u8) -> bool {
    a == 0xC2 && (b == 0x85 || b == 0xA0)
}

/// The UTF-8 encoding of U+1680, U+2000 to U+200A, U+2028, U+2029, U+202F, U+205F or U+3000.
pub open spec fn space3(a: u8, b: u8, c: u8) -> bool {
    ||| (a == 0xE1 && b == 0x9A && c == 0x80)
    ||| (a == 0xE2 && b == 0x80 && ((0x80 <= c && c <= 0x8A) || c == 0xA8 || c == 0xA9 || c == 0xAF))
    ||| (a == 0xE2 && b == 0x81 && c == 0x9F)
    ||| (a == 0xE3 && b == 0x80 && c == 0x80)
}

/// Length in bytes of the white-space character that `s` starts with, or zero.
pub open spec fn lead_space(s: Seq<u8>) -> int {
    if s.len() >= 1 && is_ascii_space(s[0]) {
        1
    } else if s.len() >= 2 && space2(s[0], s[1]) {
        2
    } else if s.len() >= 3 && space3(s[0], s[1], s[2]) {
        3
    } else {
        0
    }
}

/// Length in bytes of the white-space character that `s` ends with, or zero.
pub open spec fn tail_space(s: Seq<u8>) -> int {
    let n = s.len() as int;
    if n >= 1 && is_ascii_space(s[n - 1]) {
        1
    } else if n >= 2 && space2(s[n - 2], s[n - 1]) {
        2
    } else if n >= 3 && space3(s[n - 3], s[n - 2], s[n - 1]) {
        3
    } else {
        0
    }
}

pub open spec fn trim_start(s: Seq<u8>) -> Seq<u8>
    decreases s.len(),
{
    if lead_space(s) > 0 {
        trim_start(s.subrange(lead_space(s), s.len() as int))
    } else {
        s
    }
}

pub open spec fn trim_end(s: Seq<u8>) -> Seq<u8>
    decreases s.len(),
{
    if tail_space(s) > 0 {
        trim_end(s.subrange(0, s.len() - tail_space(s)))
    } else {
        s
    }
}

/// `s` without leading and trailing white space, read as UTF-8: the characters with the
/// Unicode White_Space property.
pub open spec fn trimmed(s: Seq<u8>) -> Seq<u8> {
    trim_end(trim_start(s))
}

/// Splitting state: the parts so far, the current part, and the brace depth.
pub open spec fn split_state(b: Seq<u8>) -> (Seq<Seq<u8>>, Seq<u8>, int)
    decreases b.len(),
{
    if b.len() == 0 {
        (Seq::empty(), Seq::empty(), 0)
    } else {
        let (parts, cur, depth) = split_state(b.drop_last());
        let c = b.last();
        if c == 123 {
            (parts, cur.push(c), depth + 1)
        } else if c == 125 {
            (parts, cur.push(c), depth - 1)
        } else if c == 44 && depth == 0 {
            (parts.push(trimmed(cur)), Seq::empty(), depth)
        } else {
            (parts, cur.push(c), depth)
        }
    }
}

/// The parts of a preference list: split at commas outside braces, each trimmed.
pub open spec fn list_parts(b: Seq<u8>) -> Seq<Seq<u8>> {
    let (parts, cur, depth) = split_state(b);
    if cur.len() > 0 {
        parts.push(trimmed(cur))
    } else {
        parts
    }
}

/// What one part contributes: a choice, a warning, or nothing when it is empty.
pub open spec fn read_part(p: Seq<u8>, external: Seq<u32>) -> (Option<Choice>, Option<(int, Seq<u8>, u32)>) {
    let t = trimmed(p);
    if t.len() == 0 {
        (None, None)
    } else if t[0] == 123 && t.last() == 125 {
        (Some(Choice::Overvote), None)
    } else {
        match crate::formats::params::decimal_u32(t) {
            Some(id) => {
                let k = crate::seqs::index_of(external, id);
                if k < external.len() {
                    (Some(Choice::Vote(k as u32)), None)
                } else {
                    (None, Some((2, Seq::empty(), id)))
                }
            },
            None => (None, Some((1, t, 0u32))),
        }
    }
}

pub open spec fn read_parts(parts: Seq<Seq<u8>>, external: Seq<u32>) -> (Seq<Choice>, Seq<(int, Seq<u8>, u32)>)
    decreases parts.len(),
{
    if parts.len() == 0 {
        (Seq::empty(), Seq::empty())
    } else {
        let (cs, ws) = read_parts(parts.drop_last(), external);
        let (c, w) = read_part(parts.last(), external);
        (
            match c { Some(x) => cs.push(x), None => cs },
            match w { Some(x) => ws.push(x), None => ws },
        )
    }
}

fn lead_space_at(s: &Vec<u8>, i: usize, j: usize) -> (k: usize)
    requires
        i <= j <= s@.len(),
    ensures
        k == lead_space(s@.subrange(i as int, j as int)),
{
    let b0 = if i < j { s[i] } else { 0 };
    if i < j && (b0 == 32 || b0 == 9 || b0 == 10 || b0 == 11 || b0 == 12 || b0 == 13) {
        return 1;
    }
    if j - i >= 2 && b0 == 0xC2 && (s[i + 1] == 0x85 || s[i + 1] == 0xA0) {
        return 2;
    }
    if j - i >= 3 {
        let (b1, b2) = (s[i + 1], s[i + 2]);
        if (b0 == 0xE1 && b1 == 0x9A && b2 == 0x80)
            || (b0 == 0xE2 && b1 == 0x80 && ((0x80 <= b2 && b2 <= 0x8A) || b2 == 0xA8 || b2 == 0xA9 || b2 == 0xAF))
            || (b0 == 0xE2 && b1 == 0x81 && b2 == 0x9F) || (b0 == 0xE3 && b1 == 0x80 && b2 == 0x80) {
            return 3;
        }
    }
    0
}

fn tail_space_at(s: &Vec<u8>, i: usize, j: usize) -> (k: usize)
    requires
        i <= j <= s@.len(),
    ensures
        k == tail_space(s@.subrange(i as int, j as int)),
{
    let c = if i < j { s[j - 1] } else { 0 };
    if i < j && (c == 32 || c == 9 || c == 10 || c == 11 || c == 12 || c == 13) {
        return 1;
    }
    if j - i >= 2 && s[j - 2] == 0xC2 && (c == 0x85 || c == 0xA0) {
        return 2;
    }
    if j - i >= 3 {
        let (b0, b1) = (s[j - 3], s[j - 2]);
        if (b0 == 0xE1 && b1 == 0x9A && c == 0x80)
            || (b0 == 0xE2 && b1 == 0x80 && ((0x80 <= c && c <= 0x8A) || c == 0xA8 || c == 0xA9 || c == 0xAF))
            || (b0 == 0xE2 && b1 == 0x81 && c == 0x9F) || (b0 == 0xE3 && b1 == 0x80 && c == 0x80) {
            return 3;
        }
    }
    0
}

fn trim_bytes(s: &Vec<u8>) -> (r: Vec<u8>)
    ensures
        r@ == trimmed(s@),
{
    let n = s.len();
    let mut i: usize = 0;
    assert(s@.subrange(0, n as int) =~= s@);
    loop
        invariant
            i <= n,
            n == s@.len(),
            trim_start(s@) == trim_start(s@.subrange(i as int, n as int)),
        ensures
            i <= n,
            trim_start(s@) == s@.subrange(i as int, n as int),
        decreases n - i,
    {
        let k = lead_space_at(s, i, n);
        if k == 0 {
            break;
        }
        assert(s@.subrange(i as int, n as int).subrange(k as int, n - i) =~= s@.subrange(i + k, n as int));
        i = i + k;
    }
    let ghost t = s@.subrange(i as int, n as int);
    let mut j: usize = n;
    assert(t =~= s@.subrange(i as int, j as int));
    loop
        invariant
            i <= j <= n,
            n == s@.len(),
            t == s@.subrange(i as int, n as int),
            trim_end(t) == trim_end(s@.subrange(i as int, j as int)),
        ensures
            i <= j <= n,
            trim_end(t) == s@.subrange(i as int, j as int),
        decreases j - i,
    {
        let k = tail_space_at(s, i, j);
        if k == 0 {
            break;
        }
        assert(s@.subrange(i as int, j as int).subrange(0, j - i - k) =~= s@.subrange(i as int, j - k));
        j = j - k;
    }
    let mut r: Vec<u8> = Vec::new();
    let mut k: usize = i;
    while k < j
        invariant
            i <= k <= j,
            j <= n,
            n == s@.len(),
            r@ == s@.subrange(i as int, k as int),
        decreases j - k,
    {
        r.push(s[k]);
        k = k + 1;
        assert(r@ =~= s@.subrange(i as int, k as int));
    }
    r
}

/// The number a part spells.
fn part_value(t: &Vec<u8>) -> (r: Option<u32>)
    ensures
        r == crate::formats::params::decimal_u32(t@),
{
    crate::formats::params::parse_u32_bytes(t)
}

/// Reads a PrefLib preference list such as `3,{1,2},4`: comma-separated candidate numbers,
/// a group in braces (a tie) standing for an overvote. Empty parts are skipped; parts that are
/// not numbers, and numbers of unknown candidates, give warnings; unbalanced braces give one.
/// Parts are trimmed of Unicode white space (see `trimmed`).
pub fn parse_preference_list(pref_str: &str, candidate_map: &CandidateMap, _line_context: &str) -> (r: ParseResult)
    ensures
        (r.choices@, r.warnings@.map_values(|w: PreferenceWarning| warning_view(w)))
            == preference_result(vstd::utf8::encode_utf8(pref_str@), candidate_map.external@),
{
    parse_preference_bytes(pref_str.as_bytes(), candidate_map)
}

/// What a preference list, given as UTF-8 bytes, reads as: its choices, and its warnings as
/// plain values.
pub open spec fn preference_result(b: Seq<u8>, external: Seq<u32>) -> (Seq<Choice>, Seq<(int, Seq<u8>, u32)>) {
    let (cs, ws) = read_parts(list_parts(b), external);
    (cs, if split_state(b).2 != 0 { seq![(0int, Seq::<u8>::empty(), 0u32)] + ws } else { ws })
}

/// `parse_preference_list` on the UTF-8 bytes of the list.
pub fn parse_preference_bytes(b: &[u8], candidate_map: &CandidateMap) -> (r: ParseResult)
    ensures
        (r.choices@, r.warnings@.map_values(|w: PreferenceWarning| warning_view(w)))
            == preference_result(b@, candidate_map.external@),
{
    let ghost bs = b@;
    let mut parts: Vec<Vec<u8>> = Vec::new();
    let mut cur: Vec<u8> = Vec::new();
    let mut depth: i128 = 0;
    let mut i: usize = 0;
    while i < b.len()
        invariant
            i <= bs.len(),
            bs == b@,
            (parts@.map_values(|p: Vec<u8>| p@), cur@, depth as int) == split_state(bs.take(i as int)),
            -(i as int) <= depth <= i,
        decreases bs.len() - i,
    {
        let c = b[i];
        assert(bs.take(i + 1).drop_last() =~= bs.take(i as int));
        assert(bs.take(i + 1).last() == c);
        if c == 123 {
            cur.push(c);
            depth = depth + 1;
        } else if c == 125 {
            cur.push(c);
            depth = depth - 1;
        } else if c == 44 && depth == 0 {
            let t = trim_bytes(&cur);
            parts.push(t);
            cur = Vec::new();
            assert(parts@.map_values(|p: Vec<u8>| p@) =~= split_state(bs.take(i + 1)).0);
        } else {
            cur.push(c);
        }
        i = i + 1;
    }
    assert(bs.take(i as int) =~= bs);
    if cur.len() > 0 {
        let t = trim_bytes(&cur);
        parts.push(t);
    }
    let ghost ps = parts@.map_values(|p: Vec<u8>| p@);
    assert(ps == list_parts(bs));
    let mut choices: Vec<Choice> = Vec::new();
    let mut warnings: Vec<PreferenceWarning> = Vec::new();
    let mut k: usize = 0;
    while k < parts.len()
        invariant
            k <= parts@.len(),
            ps == parts@.map_values(|p: Vec<u8>| p@),
            (choices@, warnings@.map_values(|w: PreferenceWarning| warning_view(w))) == read_parts(ps.take(k as int), candidate_map.external@),
        decreases parts@.len() - k,
    {
        assert(ps.take(k + 1).drop_last() =~= ps.take(k as int));
        assert(ps.take(k + 1).last() == parts@[k as int]@);
        let t = trim_bytes(&parts[k]);
        if t.len() == 0 {
        } else if t[0] == 123 && t[t.len() - 1] == 125 {
            choices.push(Choice::Overvote);
        } else {
            match part_value(&t) {
                Some(id) => {
                    let p = crate::seqs::position_of(candidate_map.external.as_slice(), id);
                    if p < candidate_map.external.len() {
                        choices.push(Choice::Vote(p as u32));
                    } else {
                        warnings.push(PreferenceWarning::UnknownCandidate(id));
                    }
                },
                None => {
                    warnings.push(PreferenceWarning::UnparsedEntry(t));
                },
            }
        }
        k = k + 1;
    }
    assert(ps.take(k as int) =~= ps);
    if depth != 0 {
        let mut all: Vec<PreferenceWarning> = Vec::new();
        all.push(PreferenceWarning::UnbalancedBraces);
        all.append(&mut warnings);
        assert(all@.map_values(|w: PreferenceWarning| warning_view(w)) =~= seq![(0int, Seq::<u8>::empty(), 0u32)] + read_parts(ps, candidate_map.external@).1);
        return ParseResult { choices, warnings: all };
    }
    ParseResult { choices, warnings }
}

/// Index of the first `c` in `s`, or `s.len()`.
pub open spec fn byte_index(s: Seq<u8>, c: u8) -> int
    decreases s.len(),
{
    if s.len() == 0 {
        0
    } else if s[0] == c {
        0
    } else {
        1 + byte_index(s.drop_first(), c)
    }
}

/// The bytes of `# ALTERNATIVE NAME `.
pub open spec fn alternative_prefix() -> Seq<u8> {
    seq![35u8, 32, 65, 76, 84, 69, 82, 78, 65, 84, 73, 86, 69, 32, 78, 65, 77, 69, 32]
}

/// `t` split at its first colon: the trimmed number before it and the trimmed text after it.
pub open spec fn number_and_text(t: Seq<u8>) -> Option<(u32, Seq<u8>)> {
    let k = byte_index(t, 58);
    if k < t.len() {
        match crate::formats::params::decimal_u32(trimmed(t.subrange(0, k))) {
            Some(n) => Some((n, trimmed(t.subrange(k + 1, t.len() as int)))),
            None => None,
        }
    } else {
        None
    }
}

/// A header line `# ALTERNATIVE NAME <id>: <name>`, read as its id and name.
pub open spec fn alternative_entry(line: Seq<u8>) -> Option<(u32, Seq<u8>)> {
    let t = trimmed(line);
    let p = alternative_prefix();
    if t.len() >= p.len() && t.subrange(0, p.len() as int) == p {
        number_and_text(t.subrange(p.len() as int, t.len() as int))
    } else {
        None
    }
}

/// A data line `<count>: <preferences>`: not empty and not a comment.
pub open spec fn data_entry(line: Seq<u8>) -> Option<(u32, Seq<u8>)> {
    let t = trimmed(line);
    if t.len() == 0 || t[0] == 35 {
        None
    } else {
        number_and_text(t)
    }
}

fn sub_bytes(s: &Vec<u8>, i: usize, j: usize) -> (r: Vec<u8>)
    requires
        i <= j <= s@.len(),
    ensures
        r@ == s@.subrange(i as int, j as int),
{
    let mut r: Vec<u8> = Vec::new();
    let mut k: usize = i;
    while k < j
        invariant
            i <= k <= j,
            j <= s@.len(),
            r@ == s@.subrange(i as int, k as int),
        decreases j - k,
    {
        r.push(s[k]);
        k = k + 1;
        assert(r@ =~= s@.subrange(i as int, k as int));
    }
    r
}

fn find_byte(s: &Vec<u8>, c: u8) -> (k: usize)
    ensures
        k as int == byte_index(s@, c),
{
    let mut k: usize = 0;
    assert(s@.subrange(0, s@.len() as int) =~= s@);
    while k < s.len() && s[k] != c
        invariant
            k <= s@.len(),
            byte_index(s@, c) == k + byte_index(s@.subrange(k as int, s@.len() as int), c),
        decreases s@.len() - k,
    {
        assert(s@.subrange(k as int, s@.len() as int).drop_first() =~= s@.subrange(k + 1, s@.len() as int));
        k = k + 1;
    }
    k
}

fn split_number(t: &Vec<u8>) -> (r: Option<(u32, Vec<u8>)>)
    ensures
        match r {
            Some((n, v)) => number_and_text(t@) == Some((n, v@)),
            None => number_and_text(t@) is None,
        },
{
    let k = find_byte(t, 58);
    if k >= t.len() {
        return None;
    }
    let before = trim_bytes(&sub_bytes(t, 0, k));
    match crate::formats::params::parse_u32_bytes(before.as_slice()) {
        Some(n) => Some((n, trim_bytes(&sub_bytes(t, k + 1, t.len())))),
        None => None,
    }
}

/// Reads a header line `# ALTERNATIVE NAME <id>: <name>`.
pub fn parse_alternative_line(line: &Vec<u8>) -> (r: Option<(u32, Vec<u8>)>)
    ensures
        match r {
            Some((n, v)) => alternative_entry(line@) == Some((n, v@)),
            None => alternative_entry(line@) is None,
        },
{
    let t = trim_bytes(line);
    let p: Vec<u8> = vec![35u8, 32, 65, 76, 84, 69, 82, 78, 65, 84, 73, 86, 69, 32, 78, 65, 77, 69, 32];
    assert(p@ =~= alternative_prefix());
    if t.len() < p.len() {
        return None;
    }
    let mut i: usize = 0;
    while i < p.len()
        invariant
            i <= p@.len(),
            p@.len() <= t@.len(),
            p@ == alternative_prefix(),
            t@ == trimmed(line@),
            forall|j: int| 0 <= j < i ==> t@[j] == p@[j],
        decreases p@.len() - i,
    {
        if t[i] != p[i] {
            assert(t@.subrange(0, p@.len() as int)[i as int] != p@[i as int]);
            assert(t@.subrange(0, p@.len() as int) != p@);
            return None;
        }
        i = i + 1;
    }
    assert(t@.subrange(0, p@.len() as int) =~= p@);
    let rest = sub_bytes(&t, p.len(), t.len());
    split_number(&rest)
}

/// Reads a data line `<count>: <preferences>`.
pub fn parse_data_line(line: &Vec<u8>) -> (r: Option<(u32, Vec<u8>)>)
    ensures
        match r {
            Some((n, v)) => data_entry(line@) == Some((n, v@)),
            None => data_entry(line@) is None,
        },
{
    let t = trim_bytes(line);
    if t.len() == 0 || t[0] == 35 {
        return None;
    }
    split_number(&t)
}

} // verus!
