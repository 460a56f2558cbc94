use std::collections::BTreeMap;
use vstd::prelude::*;
use vstd::utf8::encode_utf8;

verus! {

/// `m` holds a key whose text is `key`.
pub open spec fn has_param<V>(m: Map<String, V>, key: Seq<char>) -> bool {
    exists|k: String| #[trigger] m.contains_key(k) && k@ == key
}

/// The value stored under the key whose text is `key`.
pub open spec fn param_entry<V>(m: Map<String, V>, key: Seq<char>) -> V {
    m[choose|k: String| #[trigger] m.contains_key(k) && k@ == key]
}

/// The text stored under the key whose text is `key`.
pub open spec fn param_text(m: Map<String, String>, key: Seq<char>) -> Seq<char> {
    param_entry(m, key)@
}

/// Relies on `BTreeMap::get`: the value stored under the key equal to `key`, if there is one.
#[verifier::external_body]
pub(crate) fn lookup<'a, V>(m: &'a BTreeMap<String, V>, key: &str) -> (r: Option<&'a V>)
    ensures
        r is Some <==> has_param(m@, key@),
        r matches Some(v) ==> *v == param_entry(m@, key@),
{
    m.get(key)
}

/// The parameter `key`, if present.
pub(crate) fn param(params: &BTreeMap<String, String>, key: &str) -> (r: Option<String>)
    ensures
        r is Some <==> has_param(params@, key@),
        r matches Some(v) ==> v@ == param_text(params@, key@),
{
    match lookup(params, key) {
        Some(v) => Some(v.clone()),
        None => None,
    }
}

/// The parameter `key`, which must be present.
pub(crate) fn required_param(params: &BTreeMap<String, String>, key: &str) -> (r: String)
    requires
        has_param(params@, key@),
    ensures
        r@ == param_text(params@, key@),
{
    match param(params, key) {
        Some(v) => v,
        None => String::new(),
    }
}

/// The pieces of `s` between the occurrences of `sep`, in order.
pub open spec fn split_on(s: Seq<char>, sep: char) -> Seq<Seq<char>>
    decreases s.len(),
{
    if s.len() == 0 {
        seq![Seq::empty()]
    } else {
        let rest = split_on(s.drop_first(), sep);
        if s[0] == sep {
            seq![Seq::empty()] + rest
        } else {
            rest.update(0, seq![s[0]] + rest[0])
        }
    }
}

/// Relies on `str::split` with a `char` pattern: the pieces between the separators, in order.
#[verifier::external_body]
pub(crate) fn split_at_char(s: &str, sep: char) -> (r: Vec<String>)
    ensures
        r@.map_values(|p: String| p@) == split_on(s@, sep),
{
    s.split(sep).map(|p| p.to_string()).collect()
}

/// Value of a sequence of ASCII digits.
pub open spec fn digits_value(b: Seq<u8>) -> int
    decreases b.len(),
{
    if b.len() == 0 {
        0
    } else {
        digits_value(b.drop_last()) * 10 + (b.last() - 48)
    }
}

pub open spec fn all_digits(b: Seq<u8>) -> bool {
    forall|i: int| 0 <= i < b.len() ==> 48 <= #[trigger] b[i] <= 57
}

/// The digits of a decimal text, after an optional `+`.
pub open spec fn unsigned_digits(b: Seq<u8>) -> Seq<u8> {
    if b.len() > 0 && b[0] == 43 {
        b.drop_first()
    } else {
        b
    }
}

/// The `u32` that the decimal text `b` denotes: an optional `+` and at least one digit.
pub open spec fn decimal_u32(b: Seq<u8>) -> Option<u32> {
    let d = unsigned_digits(b);
    if d.len() > 0 && all_digits(d) && digits_value(d) <= u32::MAX {
        Some(digits_value(d) as u32)
    } else {
        None
    }
}

proof fn lemma_digits_grow(b: Seq<u8>, i: int)
    requires
        all_digits(b),
        0 <= i <= b.len(),
    ensures
        digits_value(b.take(i)) <= digits_value(b),
        digits_value(b.take(i)) >= 0,
    decreases b.len() - i,
{
    if i < b.len() {
        lemma_digits_grow(b, i + 1);
        assert(b.take(i + 1).drop_last() =~= b.take(i));
        assert(b.take(i + 1).last() == b[i]);
    } else {
        assert(b.take(i) =~= b);
        lemma_digits_nonneg(b);
    }
}

proof fn lemma_digits_nonneg(b: Seq<u8>)
    requires
        all_digits(b),
    ensures
        digits_value(b) >= 0,
    decreases b.len(),
{
    if b.len() > 0 {
        lemma_digits_nonneg(b.drop_last());
    }
}

/// Reads a decimal `u32`.
pub fn parse_u32(s: &str) -> (r: Option<u32>)
    ensures
        r == decimal_u32(encode_utf8(s@)),
{
    parse_u32_bytes(s.as_bytes())
}

/// Reads a decimal `u32` from its bytes.
pub fn parse_u32_bytes(b: &[u8]) -> (r: Option<u32>)
    ensures
        r == decimal_u32(b@),
{
    let ghost d = unsigned_digits(b@);
    let start: usize = if b.len() > 0 && b[0] == 43 { 1 } else { 0 };
    assert(d =~= b@.subrange(start as int, b@.len() as int));
    if start >= b.len() {
        return None;
    }
    let mut value: u64 = 0;
    let mut i: usize = start;
    while i < b.len()
        invariant
            start <= i <= b@.len(),
            d == unsigned_digits(b@),
            d == b@.subrange(start as int, b@.len() as int),
            value as int == digits_value(d.take(i - start)),
            value <= u32::MAX,
            all_digits(d.take(i - start)),
        decreases b@.len() - i,
    {
        let c = b[i];
        assert(d.take(i - start + 1).drop_last() =~= d.take(i - start));
        assert(d.take(i - start + 1).last() == c);
        if c < 48 || c > 57 {
            assert(!all_digits(d)) by {
                assert(d[i - start] == c);
            }
            return None;
        }
        value = value * 10 + (c - 48) as u64;
        if value > u32::MAX as u64 {
            proof {
                if all_digits(d) {
                    lemma_digits_grow(d, i - start + 1);
                }
            }
            return None;
        }
        i = i + 1;
    }
    assert(d.take(i - start) =~= d);
    Some(value as u32)
}

/// The `bool` that `s` spells: `true` or `false`.
pub open spec fn bool_text(s: Seq<char>) -> Option<bool> {
    if s == "true"@ {
        Some(true)
    } else if s == "false"@ {
        Some(false)
    } else {
        None
    }
}

/// Reads `true` or `false`.
pub fn parse_bool(s: &String) -> (r: Option<bool>)
    ensures
        r == bool_text(s@),
{
    let t = "true".to_owned();
    let f = "false".to_owned();
    if *s == t {
        Some(true)
    } else if *s == f {
        Some(false)
    } else {
        None
    }
}

} // verus!
