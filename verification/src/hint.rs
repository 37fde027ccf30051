//! The checks behind the validated type hints (`@bigint`, `@email`, `@ipv4`,
//! `@ipv6`, `@color`, `@duration`).
use crate::number::{
    all_digits, digits_end, digits_value, is_digit, is_hex_digit, lemma_digits_end,
    lemma_digits_value_prefix,
};
use crate::text::{contains_char, ends_with, find, find_char, slice_of, starts_with, trim, trim_chars};
use vstd::prelude::*;

verus! {

/// `@bigint`: an arbitrary-precision integer, that is one optional `-` and
/// then one or more ASCII digits.
pub open spec fn valid_bigint(raw: Seq<char>) -> bool {
    let b = if raw.len() > 0 && raw[0] == '-' {
        raw.drop_first()
    } else {
        raw
    };
    b.len() > 0 && all_digits(b)
}

/// `@email`: an `@` that is not first, followed by a domain that holds a `.`
/// and neither starts nor ends with one.
pub open spec fn valid_email(raw: Seq<char>) -> bool {
    match find(raw, '@') {
        Some(at) => at > 0 && {
            let d = raw.subrange(at + 1, raw.len() as int);
            d.contains('.') && !starts_with(d, '.') && !ends_with(d, '.')
        },
        None => false,
    }
}

/// The pieces of `s[st..]` between occurrences of `c` (`str::split`), the
/// current piece having begun at `st` and the scan having reached `i`.
pub open spec fn pieces_from(s: Seq<char>, c: char, st: int, i: int) -> Seq<Seq<char>>
    decreases s.len() - i,
{
    if i >= s.len() {
        seq![s.subrange(st, s.len() as int)]
    } else if s[i] == c {
        seq![s.subrange(st, i)] + pieces_from(s, c, i + 1, i + 1)
    } else {
        pieces_from(s, c, st, i + 1)
    }
}

/// `s.split(c)`.
pub open spec fn split_on(s: Seq<char>, c: char) -> Seq<Seq<char>> {
    pieces_from(s, c, 0, 0)
}

/// A part of an IPv4 address: digits whose value is at most 255.
pub open spec fn valid_octet(p: Seq<char>) -> bool {
    p.len() > 0 && all_digits(p) && digits_value(p) <= 255
}

/// `@ipv4`: four `.`-separated parts, each a number from 0 to 255.
pub open spec fn valid_ipv4(raw: Seq<char>) -> bool {
    let ps = split_on(raw, '.');
    ps.len() == 4 && forall|k: int| 0 <= k < 4 ==> valid_octet(#[trigger] ps[k])
}

/// `@ipv6`: hex digits and `:`, with at least one `:`.
pub open spec fn valid_ipv6(raw: Seq<char>) -> bool {
    &&& raw.contains(':')
    &&& raw.len() > 0
    &&& forall|i: int| 0 <= i < raw.len() ==> is_hex_digit(#[trigger] raw[i]) || raw[i] == ':'
}

/// The text of a `@color`: trimmed, and without one pair of matching
/// surrounding quotes.
pub open spec fn color_value(raw: Seq<char>) -> Seq<char> {
    let cv = trim(raw);
    if cv.len() >= 2 && (cv[0] == '"' || cv[0] == '\'') && cv[0] == cv[cv.len() - 1] {
        cv.subrange(1, cv.len() - 1)
    } else {
        cv
    }
}

/// `#` followed by 3, 6 or 8 hex digits.
pub open spec fn valid_color(cv: Seq<char>) -> bool {
    &&& starts_with(cv, '#')
    &&& (cv.len() == 4 || cv.len() == 7 || cv.len() == 9)
    &&& forall|i: int| 1 <= i < cv.len() ==> is_hex_digit(#[trigger] cv[i])
}

/// A run of duration parts: each is digits, optionally `.` and more digits,
/// then a unit `ms`, `d`, `h`, `m` or `s`.
pub open spec fn duration_parts(s: Seq<char>) -> bool
    decreases s.len(),
{
    if s.len() == 0 {
        true
    } else {
        let d = digits_end(s, 0);
        let frac = d < s.len() && s[d] == '.';
        let f = if frac {
            digits_end(s, d + 1)
        } else {
            d
        };
        proof {
            lemma_digits_end(s, 0);
            if frac {
                lemma_digits_end(s, d + 1);
            }
        }
        if d == 0 || (frac && f == d + 1) {
            false
        } else if f + 1 < s.len() && s[f] == 'm' && s[f + 1] == 's' {
            duration_parts(s.subrange(f + 2, s.len() as int))
        } else if f < s.len() && (s[f] == 'd' || s[f] == 'h' || s[f] == 'm' || s[f] == 's') {
            duration_parts(s.subrange(f + 1, s.len() as int))
        } else {
            false
        }
    }
}

/// `@duration`: an optional `-`, then one or more duration parts.
pub open spec fn valid_duration(raw: Seq<char>) -> bool {
    let s = if starts_with(raw, '-') {
        raw.drop_first()
    } else {
        raw
    };
    s.len() > 0 && duration_parts(s)
}

/// Whether `raw` is a valid `@bigint`.
pub fn valid_bigint_chars(raw: &[char]) -> (r: bool)
    ensures
        r == valid_bigint(raw@),
{
    let i: usize = if raw.len() > 0 && raw[0] == '-' {
        1
    } else {
        0
    };
    let ghost b = raw@.subrange(i as int, raw@.len() as int);
    assert(b =~= (if raw@.len() > 0 && raw@[0] == '-' {
        raw@.drop_first()
    } else {
        raw@
    }));
    if i == raw.len() {
        return false;
    }
    let mut j = i;
    while j < raw.len()
        invariant
            i <= j <= raw@.len(),
            b == raw@.subrange(i as int, raw@.len() as int),
            valid_bigint(raw@) == (b.len() > 0 && all_digits(b)),
            forall|k: int| i <= k < j ==> is_digit(#[trigger] raw@[k]),
        decreases raw@.len() - j,
    {
        if !('0' <= raw[j] && raw[j] <= '9') {
            assert(!is_digit(b[j - i]));
            return false;
        }
        j += 1;
    }
    assert forall|k: int| 0 <= k < b.len() implies is_digit(#[trigger] b[k]) by {
        assert(is_digit(raw@[k + i]));
    }
    true
}

/// Whether `raw` is a valid `@email`.
pub fn valid_email_chars(raw: &[char]) -> (r: bool)
    ensures
        r == valid_email(raw@),
{
    match find_char(raw, '@') {
        Some(at) => {
            if at == 0 {
                return false;
            }
            let n = raw.len();
            let d = slice_of(raw, at + 1, n);
            contains_char(&d, '.') && !(d.len() > 0 && d[0] == '.') && !(d.len() > 0 && d[d.len()
                - 1] == '.')
        },
        None => false,
    }
}

/// Whether `p` is a number from 0 to 255 written in ASCII digits.
fn valid_octet_chars(p: &[char]) -> (r: bool)
    ensures
        r == valid_octet(p@),
{
    if p.len() == 0 {
        return false;
    }
    let mut j: usize = 0;
    while j < p.len()
        invariant
            j <= p@.len(),
            forall|k: int| 0 <= k < j ==> is_digit(#[trigger] p@[k]),
        decreases p@.len() - j,
    {
        if !('0' <= p[j] && p[j] <= '9') {
            return false;
        }
        j += 1;
    }
    let mut acc: u32 = 0;
    let mut k: usize = 0;
    while k < p.len()
        invariant
            k <= p@.len(),
            all_digits(p@),
            acc == digits_value(p@.take(k as int)),
            acc <= 255,
        decreases p@.len() - k,
    {
        assert(p@.take(k + 1).drop_last() =~= p@.take(k as int));
        acc = acc * 10 + (p[k] as u32 - '0' as u32);
        k += 1;
        if acc > 255 {
            proof {
                lemma_digits_value_prefix(p@, k as int);
            }
            return false;
        }
    }
    assert(p@.take(p@.len() as int) =~= p@);
    true
}

/// Whether `raw` is a valid `@ipv4`.
pub fn valid_ipv4_chars(raw: &[char]) -> (r: bool)
    ensures
        r == valid_ipv4(raw@),
{
    let mut parts: Vec<Vec<char>> = Vec::new();
    let mut st: usize = 0;
    let mut i: usize = 0;
    while i < raw.len()
        invariant
            st <= i <= raw@.len(),
            split_on(raw@, '.') == crate::scan::views(parts@) + pieces_from(raw@, '.', st as int, i as int),
        decreases raw@.len() - i,
    {
        if raw[i] == '.' {
            let piece = slice_of(raw, st, i);
            parts.push(piece);
            st = i + 1;
        }
        i += 1;
    }
    let last = slice_of(raw, st, raw.len());
    parts.push(last);
    if parts.len() != 4 {
        return false;
    }
    let mut k: usize = 0;
    while k < 4
        invariant
            k <= 4,
            parts@.len() == 4,
            crate::scan::views(parts@) == split_on(raw@, '.'),
            forall|j: int| 0 <= j < k ==> valid_octet(#[trigger] split_on(raw@, '.')[j]),
        decreases 4 - k,
    {
        assert(parts@[k as int]@ == split_on(raw@, '.')[k as int]);
        if !valid_octet_chars(&parts[k]) {
            return false;
        }
        k += 1;
    }
    true
}

/// Whether `raw` is a valid `@ipv6`.
pub fn valid_ipv6_chars(raw: &[char]) -> (r: bool)
    ensures
        r == valid_ipv6(raw@),
{
    if !contains_char(raw, ':') || raw.len() == 0 {
        return false;
    }
    let mut i: usize = 0;
    while i < raw.len()
        invariant
            i <= raw@.len(),
            forall|k: int| 0 <= k < i ==> is_hex_digit(#[trigger] raw@[k]) || raw@[k] == ':',
        decreases raw@.len() - i,
    {
        let c = raw[i];
        if !(('0' <= c && c <= '9') || ('a' <= c && c <= 'f') || ('A' <= c && c <= 'F') || c
            == ':') {
            return false;
        }
        i += 1;
    }
    true
}

/// The text a `@color` value stands for.
pub fn color_value_chars(raw: &[char]) -> (r: Vec<char>)
    ensures
        r@ == color_value(raw@),
{
    let cv = trim_chars(raw);
    let n = cv.len();
    if n >= 2 && (cv[0] == '"' || cv[0] == '\'') && cv[0] == cv[n - 1] {
        slice_of(&cv, 1, n - 1)
    } else {
        cv
    }
}

/// Whether `cv` is a valid `@color` text.
pub fn valid_color_chars(cv: &[char]) -> (r: bool)
    ensures
        r == valid_color(cv@),
{
    let n = cv.len();
    if !(n > 0 && cv[0] == '#') || !(n == 4 || n == 7 || n == 9) {
        return false;
    }
    let mut i: usize = 1;
    while i < n
        invariant
            1 <= i <= n == cv@.len(),
            forall|k: int| 1 <= k < i ==> is_hex_digit(#[trigger] cv@[k]),
        decreases n - i,
    {
        let c = cv[i];
        if !(('0' <= c && c <= '9') || ('a' <= c && c <= 'f') || ('A' <= c && c <= 'F')) {
            return false;
        }
        i += 1;
    }
    true
}

fn digits_end_at(v: &[char], i: usize) -> (j: usize)
    requires
        i <= v@.len(),
    ensures
        j == digits_end(v@, i as int),
{
    let mut j = i;
    while j < v.len() && '0' <= v[j] && v[j] <= '9'
        invariant
            i <= j <= v@.len(),
            digits_end(v@, j as int) == digits_end(v@, i as int),
        decreases v@.len() - j,
    {
        j += 1;
    }
    j
}

proof fn lemma_digits_end_shift(s: Seq<char>, p: int, i: int)
    requires
        0 <= p <= s.len(),
        0 <= i <= s.len() - p,
    ensures
        digits_end(s.subrange(p, s.len() as int), i) == digits_end(s, p + i) - p,
    decreases s.len() - p - i,
{
    if i < s.len() - p {
        lemma_digits_end_shift(s, p, i + 1);
    }
}

/// Whether `raw` is a valid `@duration`.
pub fn valid_duration_chars(raw: &[char]) -> (r: bool)
    ensures
        r == valid_duration(raw@),
{
    let n = raw.len();
    let mut p: usize = if n > 0 && raw[0] == '-' {
        1
    } else {
        0
    };
    assert(raw@.subrange(p as int, n as int) =~= if starts_with(raw@, '-') {
        raw@.drop_first()
    } else {
        raw@
    });
    if p == n {
        return false;
    }
    while p < n
        invariant
            p <= n == raw@.len(),
            valid_duration(raw@) == duration_parts(raw@.subrange(p as int, n as int)),
        decreases n - p,
    {
        let ghost s = raw@.subrange(p as int, n as int);
        let d = digits_end_at(raw, p);
        proof {
            lemma_digits_end_shift(raw@, p as int, 0);
            lemma_digits_end(raw@, p as int);
        }
        if d == p {
            return false;
        }
        let mut f = d;
        if d < n && raw[d] == '.' {
            f = digits_end_at(raw, d + 1);
            proof {
                lemma_digits_end_shift(raw@, p as int, d - p + 1);
                lemma_digits_end(raw@, d + 1);
            }
            if f == d + 1 {
                return false;
            }
        }
        if f < n && f + 1 < n && raw[f] == 'm' && raw[f + 1] == 's' {
            assert(s.subrange(f - p + 2, s.len() as int) =~= raw@.subrange(f + 2, n as int));
            p = f + 2;
        } else if f < n && (raw[f] == 'd' || raw[f] == 'h' || raw[f] == 'm' || raw[f] == 's') {
            assert(s.subrange(f - p + 1, s.len() as int) =~= raw@.subrange(f + 1, n as int));
            p = f + 1;
        } else {
            return false;
        }
    }
    true
}

} // verus!
