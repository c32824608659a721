//! Character-level utilities: trimming whitespace, splitting on a delimiter,
//! and reading a decimal integer. These carry the string-shaped parts of the
//! sidecar grammar and of tag-path normalization.

use vstd::prelude::*;

verus! {

/// The characters discarded when a raw tag path is trimmed: ASCII whitespace.
pub open spec fn is_space(c: char) -> bool {
    c == ' ' || c == '\t' || c == '\n' || c == '\r'
}

/// Executable mirror of `is_space`.
pub fn is_space_char(c: char) -> (r: bool)
    ensures
        r == is_space(c),
{
    c == ' ' || c == '\t' || c == '\n' || c == '\r'
}

/// How many whitespace characters the string starts with.
pub open spec fn leading_spaces(s: Seq<char>) -> nat
    decreases s.len(),
{
    if s.len() > 0 && is_space(s[0]) {
        (1 + leading_spaces(s.drop_first())) as nat
    } else {
        0
    }
}

/// How many whitespace characters the string ends with.
pub open spec fn trailing_spaces(s: Seq<char>) -> nat
    decreases s.len(),
{
    if s.len() > 0 && is_space(s.last()) {
        (1 + trailing_spaces(s.drop_last())) as nat
    } else {
        0
    }
}

pub proof fn lemma_leading_spaces_le_len(s: Seq<char>)
    ensures
        leading_spaces(s) <= s.len(),
    decreases s.len(),
{
    if s.len() > 0 && is_space(s[0]) {
        lemma_leading_spaces_le_len(s.drop_first());
    }
}

pub proof fn lemma_trailing_spaces_le_len(s: Seq<char>)
    ensures
        trailing_spaces(s) <= s.len(),
    decreases s.len(),
{
    if s.len() > 0 && is_space(s.last()) {
        lemma_trailing_spaces_le_len(s.drop_last());
    }
}

/// A scan that saw spaces up to `k` and a non-space (or the end) at `k`
/// has found exactly the leading whitespace.
pub proof fn lemma_leading_spaces_from_scan(s: Seq<char>, k: nat)
    requires
        k <= s.len(),
        forall|j: int| 0 <= j < k ==> is_space(s[j]),
        k < s.len() ==> !is_space(s[k as int]),
    ensures
        leading_spaces(s) == k,
    decreases k,
{
    if k == 0 {
    } else {
        assert(is_space(s[0]));
        let t = s.drop_first();
        assert forall|j: int| 0 <= j < k - 1 implies is_space(t[j]) by {
            assert(t[j] == s[j + 1]);
        }
        if k - 1 < t.len() {
            assert(t[k - 1] == s[k as int]);
        }
        lemma_leading_spaces_from_scan(t, (k - 1) as nat);
    }
}

/// The mirror fact for the trailing whitespace.
pub proof fn lemma_trailing_spaces_from_scan(s: Seq<char>, t: nat)
    requires
        t <= s.len(),
        forall|j: int| s.len() - t <= j < s.len() ==> is_space(s[j]),
        t < s.len() ==> !is_space(s[s.len() - 1 - t]),
    ensures
        trailing_spaces(s) == t,
    decreases t,
{
    if t == 0 {
    } else {
        assert(is_space(s.last()));
        let u = s.drop_last();
        assert forall|j: int| u.len() - (t - 1) <= j < u.len() implies is_space(u[j]) by {
            assert(u[j] == s[j]);
        }
        if t - 1 < u.len() {
            assert(u[u.len() - 1 - (t - 1)] == s[s.len() - 1 - t]);
        }
        lemma_trailing_spaces_from_scan(u, (t - 1) as nat);
    }
}

/// What trimming means: the characters strictly between the leading and the
/// trailing whitespace; the empty sequence when everything is whitespace.
pub open spec fn spec_trim(s: Seq<char>) -> Seq<char> {
    if leading_spaces(s) == s.len() {
        Seq::empty()
    } else {
        s.subrange(leading_spaces(s) as int, s.len() - trailing_spaces(s))
    }
}

/// When the string is not all whitespace, the leading and trailing runs do
/// not overlap.
pub proof fn lemma_trim_bounds(s: Seq<char>)
    requires
        leading_spaces(s) < s.len(),
    ensures
        leading_spaces(s) < s.len() - trailing_spaces(s),
        trailing_spaces(s) < s.len(),
{
    let l = leading_spaces(s);
    let t = trailing_spaces(s);
    lemma_leading_spaces_from_scan_inv(s);
    lemma_trailing_spaces_from_scan_inv(s);
    assert(!is_space(s[l as int]));
    if l >= s.len() - t {
        assert(is_space(s[l as int]));
    }
}

/// The defining scan facts, read off the recursive definitions.
pub proof fn lemma_leading_spaces_from_scan_inv(s: Seq<char>)
    ensures
        leading_spaces(s) <= s.len(),
        forall|j: int| 0 <= j < leading_spaces(s) ==> is_space(s[j]),
        leading_spaces(s) < s.len() ==> !is_space(s[leading_spaces(s) as int]),
    decreases s.len(),
{
    lemma_leading_spaces_le_len(s);
    if s.len() > 0 && is_space(s[0]) {
        let t = s.drop_first();
        lemma_leading_spaces_from_scan_inv(t);
        assert forall|j: int| 0 <= j < leading_spaces(s) implies is_space(s[j]) by {
            if j > 0 {
                assert(s[j] == t[j - 1]);
            }
        }
        if leading_spaces(s) < s.len() {
            assert(t[leading_spaces(t) as int] == s[leading_spaces(s) as int]);
        }
    }
}

pub proof fn lemma_trailing_spaces_from_scan_inv(s: Seq<char>)
    ensures
        trailing_spaces(s) <= s.len(),
        forall|j: int| s.len() - trailing_spaces(s) <= j < s.len() ==> is_space(s[j]),
        trailing_spaces(s) < s.len() ==> !is_space(s[s.len() - 1 - trailing_spaces(s)]),
    decreases s.len(),
{
    lemma_trailing_spaces_le_len(s);
    if s.len() > 0 && is_space(s.last()) {
        let u = s.drop_last();
        lemma_trailing_spaces_from_scan_inv(u);
        assert forall|j: int| s.len() - trailing_spaces(s) <= j < s.len() implies is_space(
            s[j],
        ) by {
            if j < s.len() - 1 {
                assert(s[j] == u[j]);
            }
        }
        if trailing_spaces(s) < s.len() {
            assert(u[u.len() - 1 - trailing_spaces(u)] == s[s.len() - 1 - trailing_spaces(s)]);
        }
    }
}

/// Trim ASCII whitespace from both ends of a string.
pub fn trim_str(s: &str) -> (r: String)
    ensures
        r@ == spec_trim(s@),
{
    let n = s.unicode_len();
    let mut start: usize = 0;
    while start < n && is_space_char(s.get_char(start))
        invariant
            start <= n,
            n == s@.len(),
            forall|j: int| 0 <= j < start ==> is_space(s@[j]),
        decreases n - start,
    {
        start = start + 1;
    }
    proof {
        lemma_leading_spaces_from_scan(s@, start as nat);
    }
    if start == n {
        let r = String::new();
        return r;
    }
    let mut end: usize = n;
    while is_space_char(s.get_char(end - 1))
        invariant
            start < end <= n,
            n == s@.len(),
            !is_space(s@[start as int]),
            forall|j: int| end <= j < n ==> is_space(s@[j]),
        decreases end,
    {
        end = end - 1;
        proof {
            if end == start {
                assert(is_space(s@[start as int]));
            }
        }
    }
    proof {
        lemma_trailing_spaces_from_scan(s@, (n - end) as nat);
    }
    let piece = s.substring_char(start, end);
    piece.to_owned()
}

/// Splitting on a delimiter, built up one character at a time from the left:
/// a delimiter closes the current segment, any other character extends it.
/// The empty string splits into one empty segment, as `str::split` does.
pub open spec fn spec_split(s: Seq<char>, d: char) -> Seq<Seq<char>>
    decreases s.len(),
{
    if s.len() == 0 {
        seq![Seq::empty()]
    } else if s.last() == d {
        spec_split(s.drop_last(), d).push(Seq::empty())
    } else {
        let r = spec_split(s.drop_last(), d);
        r.update(r.len() - 1, r.last().push(s.last()))
    }
}

pub proof fn lemma_split_len(s: Seq<char>, d: char)
    ensures
        spec_split(s, d).len() >= 1,
    decreases s.len(),
{
    if s.len() > 0 {
        lemma_split_len(s.drop_last(), d);
    }
}

/// Split a string into the segments between occurrences of `d`.
pub fn split_str(s: &str, d: char) -> (r: Vec<String>)
    ensures
        r.deep_view() == spec_split(s@, d),
{
    let n = s.unicode_len();
    let mut parts: Vec<String> = Vec::new();
    let mut cur: String = String::new();
    let mut i: usize = 0;
    while i < n
        invariant
            i <= n,
            n == s@.len(),
            parts.deep_view().push(cur@) == spec_split(s@.take(i as int), d),
        decreases n - i,
    {
        let c = s.get_char(i);
        proof {
            assert(s@.take(i + 1).drop_last() =~= s@.take(i as int));
            assert(s@.take(i + 1).last() == s@[i as int]);
            lemma_split_len(s@.take(i as int), d);
        }
        if c == d {
            parts.push(cur);
            cur = String::new();
            proof {
                assert(parts.deep_view().push(cur@) =~= spec_split(s@.take(i + 1), d));
            }
        } else {
            let ghost prev = cur@;
            cur.append(s.substring_char(i, i + 1));
            proof {
                assert(s@.subrange(i as int, i + 1) =~= seq![s@[i as int]]);
                assert(cur@ =~= prev.push(s@[i as int]));
                let sp = spec_split(s@.take(i as int), d);
                assert(sp.last() == prev);
                assert(parts.deep_view().push(cur@) =~= sp.update(
                    sp.len() - 1,
                    sp.last().push(s@[i as int]),
                ));
            }
        }
        i = i + 1;
    }
    proof {
        assert(s@.take(n as int) =~= s@);
    }
    parts.push(cur);
    proof {
        assert(parts.deep_view() =~= spec_split(s@, d));
    }
    parts
}

/// Character-for-character string equality.
pub fn str_eq(a: &str, b: &str) -> (r: bool)
    ensures
        r == (a@ == b@),
{
    let na = a.unicode_len();
    let nb = b.unicode_len();
    if na != nb {
        return false;
    }
    let mut i: usize = 0;
    while i < na
        invariant
            i <= na,
            na == a@.len(),
            na == b@.len(),
            forall|j: int| 0 <= j < i ==> a@[j] == b@[j],
        decreases na - i,
    {
        if a.get_char(i) != b.get_char(i) {
            return false;
        }
        i = i + 1;
    }
    proof {
        assert(a@ =~= b@);
    }
    true
}

/// The numeric value of a digit sequence read in base ten.
pub open spec fn digits_val(s: Seq<char>) -> nat
    decreases s.len(),
{
    if s.len() == 0 {
        0
    } else {
        (digits_val(s.drop_last()) * 10 + (s.last() as u32 - '0' as u32)) as nat
    }
}

pub open spec fn is_digit(c: char) -> bool {
    '0' as u32 <= c as u32 <= '9' as u32
}

pub open spec fn all_digits(s: Seq<char>) -> bool {
    forall|j: int| 0 <= j < s.len() ==> is_digit(s[j])
}

/// The integer a string denotes: an optional sign, then one or more decimal
/// digits, the whole value within `i32`. Anything else denotes nothing.
pub open spec fn spec_parse_i32(s: Seq<char>) -> Option<i32> {
    if s.len() == 0 {
        None
    } else {
        let body = if s[0] == '+' || s[0] == '-' {
            s.drop_first()
        } else {
            s
        };
        if body.len() == 0 || !all_digits(body) {
            None
        } else {
            let v = digits_val(body) as int;
            let sv = if s[0] == '-' {
                -v
            } else {
                v
            };
            if i32::MIN <= sv <= i32::MAX {
                Some(sv as i32)
            } else {
                None
            }
        }
    }
}

/// Appending digits never lowers the value.
proof fn lemma_digits_val_monotonic(s: Seq<char>, k: int)
    requires
        0 <= k <= s.len(),
        all_digits(s),
    ensures
        digits_val(s.take(k)) <= digits_val(s),
    decreases s.len() - k,
{
    if k < s.len() {
        lemma_digits_val_monotonic(s, k + 1);
        let t = s.take(k + 1);
        assert(t.drop_last() =~= s.take(k));
        assert(is_digit(t.last()));
        assert(digits_val(s.take(k)) <= digits_val(t));
    } else {
        assert(s.take(k) =~= s);
    }
}

/// Read a decimal integer, exactly as `spec_parse_i32` describes it.
pub fn parse_i32_str(s: &str) -> (r: Option<i32>)
    ensures
        r == spec_parse_i32(s@),
{
    let n = s.unicode_len();
    if n == 0 {
        return None;
    }
    let first = s.get_char(0);
    let neg = first == '-';
    let start: usize = if first == '-' || first == '+' {
        1
    } else {
        0
    };
    let ghost body = if first == '-' || first == '+' {
        s@.drop_first()
    } else {
        s@
    };
    proof {
        assert(body =~= s@.subrange(start as int, n as int));
    }
    if start == n {
        return None;
    }
    let mut acc: i64 = 0;
    let mut i: usize = start;
    while i < n
        invariant
            start <= i <= n,
            0 < n == s@.len(),
            start <= 1,
            (start == 1) == (s@[0] == '+' || s@[0] == '-'),
            start + body.len() == n,
            body =~= s@.subrange(start as int, n as int),
            body == (if s@[0] == '+' || s@[0] == '-' {
                s@.drop_first()
            } else {
                s@
            }),
            all_digits(body.take(i - start)),
            acc == digits_val(body.take(i - start)),
            acc <= 0x8000_0000,
        decreases n - i,
    {
        let c = s.get_char(i);
        let cu = c as u32;
        proof {
            assert(body.take(i + 1 - start).drop_last() =~= body.take(i - start));
            assert(body.take(i + 1 - start).last() == s@[i as int]);
        }
        if cu < '0' as u32 || cu > '9' as u32 {
            proof {
                assert(body[i - start] == s@[i as int]);
                assert(!is_digit(body[i - start]));
                assert(!all_digits(body));
            }
            return None;
        }
        let d = (cu - '0' as u32) as i64;
        acc = acc * 10 + d;
        i = i + 1;
        if acc > 0x8000_0000 {
            proof {
                if all_digits(body) {
                    lemma_digits_val_monotonic(body, i - start);
                    assert(body.take(body.len() as int) =~= body);
                    assert(digits_val(body) >= digits_val(body.take(i - start)));
                }
            }
            return None;
        }
    }
    proof {
        assert(body.take(body.len() as int) =~= body);
        assert(all_digits(body));
        assert(acc == digits_val(body));
    }
    if neg {
        Some((-acc) as i32)
    } else {
        if acc > 0x7fff_ffff {
            None
        } else {
            Some(acc as i32)
        }
    }
}

} // verus!
