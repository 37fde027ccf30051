//! Number literals: the format's number grammar, the `i64` value of an
//! integer literal, and ASCII case-insensitive words.
use vstd::prelude::*;

verus! {

/// An ASCII decimal digit.
pub open spec fn is_digit(c: char) -> bool {
    '0' <= c && c <= '9'
}

/// An ASCII hexadecimal digit.
pub open spec fn is_hex_digit(c: char) -> bool {
    is_digit(c) || ('a' <= c && c <= 'f') || ('A' <= c && c <= 'F')
}

/// Every character of `s` is an ASCII digit.
pub open spec fn all_digits(s: Seq<char>) -> bool {
    forall|i: int| 0 <= i < s.len() ==> is_digit(#[trigger] s[i])
}

/// The value of the digit `c`.
pub open spec fn digit_value(c: char) -> int {
    c as int - '0' as int
}

/// The value of a string of decimal digits.
pub open spec fn digits_value(s: Seq<char>) -> int
    decreases s.len(),
{
    if s.len() == 0 {
        0
    } else {
        digits_value(s.drop_last()) * 10 + digit_value(s.last())
    }
}

/// `s` without a leading `+` or `-`.
pub open spec fn unsigned_part(s: Seq<char>) -> Seq<char> {
    if s.len() > 0 && (s[0] == '+' || s[0] == '-') {
        s.drop_first()
    } else {
        s
    }
}

/// `i64::from_str`: an optional sign, then one or more ASCII digits, whose value
/// fits in an `i64`.
pub open spec fn parse_i64(s: Seq<char>) -> Option<i64> {
    let body = unsigned_part(s);
    let neg = s.len() > 0 && s[0] == '-';
    let v = if neg {
        -digits_value(body)
    } else {
        digits_value(body)
    };
    if body.len() == 0 || !all_digits(body) {
        None
    } else if i64::MIN <= v <= i64::MAX {
        Some(v as i64)
    } else {
        None
    }
}

/// A string of digits has a value of at least zero.
pub proof fn lemma_digits_value_nonneg(s: Seq<char>)
    requires
        all_digits(s),
    ensures
        digits_value(s) >= 0,
    decreases s.len(),
{
    if s.len() > 0 {
        lemma_digits_value_nonneg(s.drop_last());
    }
}

/// A longer string of digits never has a smaller value than its prefix.
pub proof fn lemma_digits_value_prefix(s: Seq<char>, k: int)
    requires
        all_digits(s),
        0 <= k <= s.len(),
    ensures
        digits_value(s.take(k)) <= digits_value(s),
    decreases s.len(),
{
    if k < s.len() {
        lemma_digits_value_prefix(s.drop_last(), k);
        assert(s.drop_last().take(k) =~= s.take(k));
        lemma_digits_value_nonneg(s.drop_last());
    } else {
        assert(s.take(k) =~= s);
    }
}

/// `i64::from_str` on the characters `v`.
pub fn parse_i64_chars(v: &[char]) -> (r: Option<i64>)
    ensures
        r == parse_i64(v@),
{
    let n = v.len();
    let mut start: usize = 0;
    let mut neg = false;
    if n > 0 && (v[0] == '+' || v[0] == '-') {
        start = 1;
        neg = v[0] == '-';
    }
    let ghost body = unsigned_part(v@);
    if start == n {
        return None;
    }
    let mut i = start;
    while i < n
        invariant
            start <= i <= n == v@.len(),
            body =~= v@.subrange(start as int, n as int),
            body == unsigned_part(v@),
            forall|k: int| start <= k < i ==> is_digit(#[trigger] v@[k]),
        decreases n - i,
    {
        if !('0' <= v[i] && v[i] <= '9') {
            assert(!is_digit(body[i - start]));
            return None;
        }
        i += 1;
    }
    assert(all_digits(body));
    // 2^63, the magnitude of i64::MIN
    let limit: u128 = 9223372036854775808;
    let mut acc: u128 = 0;
    let mut j = start;
    while j < n
        invariant
            start <= j <= n == v@.len(),
            body =~= v@.subrange(start as int, n as int),
            body == unsigned_part(v@),
            neg == (v@.len() > 0 && v@[0] == '-'),
            all_digits(body),
            acc == digits_value(body.take(j - start)),
            acc <= limit,
            limit == 9223372036854775808u128,
        decreases n - j,
    {
        assert(body[j - start] == v@[j as int]);
        let d = (v[j] as u32 - '0' as u32) as u128;
        assert(body.take(j - start + 1).drop_last() =~= body.take(j - start));
        assert(acc * 10 <= 92233720368547758080) by (nonlinear_arith)
            requires
                acc <= 9223372036854775808u128,
        ;
        acc = acc * 10 + d;
        j += 1;
        if acc > limit {
            proof {
                lemma_digits_value_prefix(body, j - start);
            }
            return None;
        }
    }
    assert(body.take(n - start) =~= body);
    if neg {
        if acc == limit {
            Some(-9223372036854775807i64 - 1)
        } else {
            Some(-(acc as i64))
        }
    } else {
        if acc == limit {
            None
        } else {
            Some(acc as i64)
        }
    }
}

/// An integer literal of the format's number grammar:
/// `'-'? ( '0' | [1-9] Digit* )`.
pub open spec fn is_int_literal(s: Seq<char>) -> bool {
    let b = minus_stripped(s);
    &&& b.len() > 0
    &&& all_digits(b)
    &&& (b[0] == '0' ==> b.len() == 1)
}

/// The value of an integer literal that fits in an `i64`.
pub open spec fn int_value(s: Seq<char>) -> Option<i64> {
    if is_int_literal(s) {
        parse_i64(s)
    } else {
        None
    }
}

/// The value of the integer literal `v`, when it is one and fits in an `i64`.
pub fn int_value_chars(v: &[char]) -> (r: Option<i64>)
    ensures
        r == int_value(v@),
{
    let start: usize = if v.len() > 0 && v[0] == '-' {
        1
    } else {
        0
    };
    let ghost b = minus_stripped(v@);
    assert(b =~= v@.subrange(start as int, v@.len() as int));
    if start == v.len() {
        return None;
    }
    if v[start] == '0' && v.len() - start != 1 {
        assert(b[0] == '0' && b.len() != 1);
        return None;
    }
    let mut i = start;
    while i < v.len()
        invariant
            start <= i <= v@.len(),
            b == minus_stripped(v@),
            b =~= v@.subrange(start as int, v@.len() as int),
            forall|k: int| start <= k < i ==> is_digit(#[trigger] v@[k]),
        decreases v@.len() - i,
    {
        if !('0' <= v[i] && v[i] <= '9') {
            assert(!is_digit(b[i - start]));
            return None;
        }
        i += 1;
    }
    assert(all_digits(b)) by {
        assert forall|k: int| 0 <= k < b.len() implies is_digit(#[trigger] b[k]) by {
            assert(is_digit(v@[k + start]));
        }
    }
    parse_i64_chars(v)
}

/// `c` equals the lowercase ASCII character `w` up to ASCII case.
pub open spec fn eq_ci_char(c: char, w: char) -> bool {
    c == w || ('A' <= c && c <= 'Z' && c as u32 + 32 == w as u32)
}

/// `s.to_lowercase() == w` for a word `w` of lowercase ASCII letters and
/// punctuation: the same length and equal up to ASCII case (no character
/// outside ASCII lowercases to one of these).
pub open spec fn eq_ci(s: Seq<char>, w: Seq<char>) -> bool {
    s.len() == w.len() && forall|i: int| 0 <= i < s.len() ==> eq_ci_char(#[trigger] s[i], w[i])
}

/// Whether `s` equals the lowercase word `w` up to ASCII case.
pub fn eq_ci_exec(s: &[char], w: &[char]) -> (r: bool)
    ensures
        r == eq_ci(s@, w@),
{
    if s.len() != w.len() {
        return false;
    }
    let mut i: usize = 0;
    while i < s.len()
        invariant
            s@.len() == w@.len(),
            i <= s@.len(),
            forall|k: int| 0 <= k < i ==> eq_ci_char(#[trigger] s@[k], w@[k]),
        decreases s@.len() - i,
    {
        let c = s[i];
        let x = w[i];
        if !(c == x || ('A' <= c && c <= 'Z' && c as u32 + 32 == x as u32)) {
            return false;
        }
        i += 1;
    }
    true
}

/// First index at or after `i` that does not hold an ASCII digit.
pub open spec fn digits_end(s: Seq<char>, i: int) -> int
    decreases s.len() - i,
{
    if 0 <= i < s.len() && is_digit(s[i]) {
        digits_end(s, i + 1)
    } else {
        i
    }
}

/// `digits_end` stops at the first non-digit.
pub proof fn lemma_digits_end(s: Seq<char>, i: int)
    requires
        0 <= i <= s.len(),
    ensures
        i <= digits_end(s, i) <= s.len(),
        forall|k: int| i <= k < digits_end(s, i) ==> is_digit(#[trigger] s[k]),
        digits_end(s, i) < s.len() ==> !is_digit(s[digits_end(s, i)]),
    decreases s.len() - i,
{
    if i < s.len() && is_digit(s[i]) {
        lemma_digits_end(s, i + 1);
    }
}

/// The exponent `('e' | 'E') Sign? Digit+` filling `s[i..]`, or nothing.
pub open spec fn exp_tail(s: Seq<char>, i: int) -> bool {
    i == s.len() || (eq_ci_char(s[i], 'e') && {
        let j = if i + 1 < s.len() && (s[i + 1] == '+' || s[i + 1] == '-') {
            i + 2
        } else {
            i + 1
        };
        j < s.len() && digits_end(s, j) == s.len()
    })
}

/// `s` without one leading `-`.
pub open spec fn minus_stripped(s: Seq<char>) -> Seq<char> {
    if s.len() > 0 && s[0] == '-' {
        s.drop_first()
    } else {
        s
    }
}

/// The number grammar of the format:
/// `'-'? ( '0' | [1-9] Digit* ) ( '.' Digit+ )? ( ('e' | 'E') ('+' | '-')? Digit+ )?`.
pub open spec fn is_float(s: Seq<char>) -> bool {
    let b = minus_stripped(s);
    let d1 = digits_end(b, 0);
    &&& d1 > 0
    &&& (b[0] == '0' ==> d1 == 1)
    &&& if d1 < b.len() && b[d1] == '.' {
        let d2 = digits_end(b, d1 + 1);
        d2 > d1 + 1 && exp_tail(b, d2)
    } else {
        exp_tail(b, d1)
    }
}

fn digits_end_exec(v: &[char], i: usize) -> (j: usize)
    requires
        i <= v@.len(),
    ensures
        j == digits_end(v@, i as int),
{
    let mut j = i;
    while j < v.len() && '0' <= v[j] && v[j] <= '9'
        invariant
            i <= j <= v@.len(),
            digits_end(v@, j as int) == digits_end(v@, i as int),
        decreases v@.len() - j,
    {
        j += 1;
    }
    j
}

fn exp_tail_exec(v: &[char], i: usize) -> (r: bool)
    requires
        i <= v@.len(),
    ensures
        r == exp_tail(v@, i as int),
{
    if i == v.len() {
        return true;
    }
    if !(v[i] == 'e' || v[i] == 'E') {
        return false;
    }
    let j = if i + 1 < v.len() && (v[i + 1] == '+' || v[i + 1] == '-') {
        i + 2
    } else {
        i + 1
    };
    j < v.len() && digits_end_exec(v, j) == v.len()
}

/// Whether the characters `v` form a number of the format's grammar.
pub fn is_float_chars(v: &[char]) -> (r: bool)
    ensures
        r == is_float(v@),
{
    let start: usize = if v.len() > 0 && v[0] == '-' {
        1
    } else {
        0
    };
    let b = crate::text::slice_of(v, start, v.len());
    assert(b@ =~= minus_stripped(v@));
    let d1 = digits_end_exec(&b, 0);
    proof {
        lemma_digits_end(b@, 0);
    }
    if d1 == 0 || (b[0] == '0' && d1 != 1) {
        return false;
    }
    if d1 < b.len() && b[d1] == '.' {
        let d2 = digits_end_exec(&b, d1 + 1);
        proof {
            lemma_digits_end(b@, d1 + 1);
        }
        d2 > d1 + 1 && exp_tail_exec(&b, d2)
    } else {
        exp_tail_exec(&b, d1)
    }
}

/// The decimal digits of `n`.
pub open spec fn decimal(n: nat) -> Seq<char>
    decreases n,
{
    if n < 10 {
        seq![(n + '0' as nat) as char]
    } else {
        decimal(n / 10).push(((n % 10) + '0' as nat) as char)
    }
}

/// `n.to_string()`.
pub fn decimal_chars(n: usize) -> (r: Vec<char>)
    ensures
        r@ == decimal(n as nat),
    decreases n,
{
    let d = ((n % 10) as u8 + 48u8) as char;
    if n < 10 {
        let mut r = Vec::new();
        r.push(d);
        r
    } else {
        let mut r = decimal_chars(n / 10);
        r.push(d);
        r
    }
}

} // verus!
