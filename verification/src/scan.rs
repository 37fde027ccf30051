//! Quote- and brace-aware scanning of inline text: where a `"..."` string is
//! open, how deep `{` nesting is, top-level separators and the key colon.
use crate::text::{contains_char, trim, trim_chars};
use vstd::prelude::*;

verus! {

/// The scanner state after reading `t[..p]`: whether a `"` string is open,
/// and the depth of `{` minus `}` read outside strings.
pub open spec fn scan_state(t: Seq<char>, p: int) -> (bool, int)
    decreases p,
{
    if p <= 0 {
        (false, 0)
    } else {
        let (q, d) = scan_state(t, p - 1);
        let c = t[p - 1];
        if c == '"' {
            (!q, d)
        } else if c == '{' && !q {
            (q, d + 1)
        } else if c == '}' && !q {
            (q, d - 1)
        } else {
            (q, d)
        }
    }
}

/// A `"` string is open before `t[p]`.
pub open spec fn in_quotes(t: Seq<char>, p: int) -> bool {
    scan_state(t, p).0
}

/// `t[p]` stands outside any string and any `{ }`.
pub open spec fn top_level(t: Seq<char>, p: int) -> bool {
    !scan_state(t, p).0 && scan_state(t, p).1 == 0
}

/// `t` holds the character `c` at top level.
pub open spec fn has_top_level(t: Seq<char>, c: char) -> bool {
    exists|p: int| 0 <= p < t.len() && t[p] == c && top_level(t, p)
}

/// An array: a `;` at top level.
pub open spec fn spec_is_array(t: Seq<char>) -> bool {
    has_top_level(t, ';')
}

/// A `:` at top level.
pub open spec fn spec_has_top_level_colon(t: Seq<char>) -> bool {
    has_top_level(t, ':')
}

/// `t[p]` is a `:` outside any string.
pub open spec fn is_key_colon(t: Seq<char>, p: int) -> bool {
    0 <= p < t.len() && t[p] == ':' && !in_quotes(t, p)
}

/// The first `:` at or after `i` outside any string.
pub open spec fn key_colon_from(t: Seq<char>, i: int) -> Option<int>
    decreases t.len() - i,
{
    if i < 0 || i >= t.len() {
        None
    } else if is_key_colon(t, i) {
        Some(i)
    } else {
        key_colon_from(t, i + 1)
    }
}

/// The first `:` outside any string.
pub open spec fn key_colon(t: Seq<char>) -> Option<int> {
    key_colon_from(t, 0)
}

/// What `key_colon_from` finds is a key colon.
pub proof fn lemma_key_colon_from(t: Seq<char>, i: int)
    requires
        0 <= i,
    ensures
        key_colon_from(t, i) matches Some(k) ==> i <= k < t.len() && is_key_colon(t, k),
    decreases t.len() - i,
{
    if i < t.len() && !is_key_colon(t, i) {
        lemma_key_colon_from(t, i + 1);
    }
}

/// `t[p]` separates two parts: one of `delims`, at top level, and not a
/// character the scanner itself reacts to.
pub open spec fn is_split_point(t: Seq<char>, delims: Seq<char>, p: int) -> bool {
    &&& delims.contains(t[p])
    &&& t[p] != '"' && t[p] != '{' && t[p] != '}'
    &&& top_level(t, p)
}

/// The parts of `t[s..]`, the current part having begun at `s` and the scan
/// having reached `i`.
pub open spec fn split_from(t: Seq<char>, delims: Seq<char>, s: int, i: int) -> Seq<Seq<char>>
    decreases t.len() - i,
{
    if i >= t.len() {
        let last = t.subrange(s, t.len() as int);
        if trim(last).len() > 0 {
            seq![last]
        } else {
            seq![]
        }
    } else if is_split_point(t, delims, i) {
        seq![t.subrange(s, i)] + split_from(t, delims, i + 1, i + 1)
    } else {
        split_from(t, delims, s, i + 1)
    }
}

/// The parts of `t` between top-level delimiters; a last part that is only
/// whitespace is dropped.
pub open spec fn spec_smart_split(t: Seq<char>, delims: Seq<char>) -> Seq<Seq<char>> {
    split_from(t, delims, 0, 0)
}

/// The items of an inline `{ }` body: split at top-level `;` and `,`.
pub open spec fn inline_items(t: Seq<char>) -> Seq<Seq<char>> {
    spec_smart_split(t, seq![';', ','])
}

/// A `{ }` body is an array when none of its items has a top-level colon.
pub open spec fn spec_is_inline_array(t: Seq<char>) -> bool {
    forall|k: int|
        0 <= k < inline_items(t).len() ==> !spec_has_top_level_colon(
            trim(#[trigger] inline_items(t)[k]),
        )
}

/// What a list of character vectors stands for.
pub open spec fn views(s: Seq<Vec<char>>) -> Seq<Seq<char>> {
    s.map_values(|x: Vec<char>| x@)
}

/// Every part of `t[s..]` is at most as long as `t[s..]`, and shorter when a
/// split point lies ahead.
pub proof fn lemma_split_from_bounds(t: Seq<char>, delims: Seq<char>, s: int, i: int)
    requires
        0 <= s <= i <= t.len(),
    ensures
        forall|k: int|
            0 <= k < split_from(t, delims, s, i).len() ==> #[trigger] split_from(
                t,
                delims,
                s,
                i,
            )[k].len() <= t.len() - s,
        (exists|p: int| i <= p < t.len() && is_split_point(t, delims, p)) ==> forall|k: int|
            0 <= k < split_from(t, delims, s, i).len() ==> #[trigger] split_from(
                t,
                delims,
                s,
                i,
            )[k].len() < t.len() - s,
    decreases t.len() - i,
{
    if i < t.len() {
        if is_split_point(t, delims, i) {
            lemma_split_from_bounds(t, delims, i + 1, i + 1);
            let rest = split_from(t, delims, i + 1, i + 1);
            let all = split_from(t, delims, s, i);
        } else {
            lemma_split_from_bounds(t, delims, s, i + 1);
            assert(split_from(t, delims, s, i) == split_from(t, delims, s, i + 1));
            if exists|p: int| i <= p < t.len() && is_split_point(t, delims, p) {
                let p = choose|p: int| i <= p < t.len() && is_split_point(t, delims, p);
            }
        }
    } else {
        let all = split_from(t, delims, s, i);
        let last = t.subrange(s, t.len() as int);
    }
}

/// Every part of `t` is at most as long as `t`, and shorter when `t` holds a
/// split point.
pub proof fn lemma_split_bounds(t: Seq<char>, delims: Seq<char>)
    ensures
        forall|k: int|
            0 <= k < spec_smart_split(t, delims).len() ==> #[trigger] spec_smart_split(t, delims)[k].len()
                <= t.len(),
        (exists|p: int| 0 <= p < t.len() && is_split_point(t, delims, p)) ==> forall|k: int|
            0 <= k < spec_smart_split(t, delims).len() ==> #[trigger] spec_smart_split(
                t,
                delims,
            )[k].len() < t.len(),
{
    lemma_split_from_bounds(t, delims, 0, 0);
}

/// The scanner state moves by at most one per character.
pub proof fn lemma_scan_state_bound(t: Seq<char>, p: int)
    requires
        0 <= p,
    ensures
        -p <= scan_state(t, p).1 <= p,
    decreases p,
{
    if p > 0 {
        lemma_scan_state_bound(t, p - 1);
    }
}

/// The scanner state after `t[..i+1]`, given the one after `t[..i]`.
fn scan_step(t: &[char], i: usize, q: bool, d: i128) -> (r: (bool, i128))
    requires
        i < t@.len(),
        (q, d as int) == scan_state(t@, i as int),
    ensures
        (r.0, r.1 as int) == scan_state(t@, i + 1),
{
    proof {
        lemma_scan_state_bound(t@, i + 1);
    }
    let c = t[i];
    if c == '"' {
        (!q, d)
    } else if c == '{' && !q {
        (q, d + 1)
    } else if c == '}' && !q {
        (q, d - 1)
    } else {
        (q, d)
    }
}

fn has_top_level_char(t: &[char], c: char) -> (r: bool)
    ensures
        r == has_top_level(t@, c),
{
    let mut q = false;
    let mut d: i128 = 0;
    let mut i: usize = 0;
    while i < t.len()
        invariant
            i <= t@.len(),
            (q, d as int) == scan_state(t@, i as int),
            forall|p: int| 0 <= p < i ==> !(t@[p] == c && #[trigger] top_level(t@, p)),
        decreases t@.len() - i,
    {
        if t[i] == c && !q && d == 0 {
            return true;
        }
        let r = scan_step(t, i, q, d);
        q = r.0;
        d = r.1;
        i += 1;
    }
    false
}

/// `text` is an array: it holds a `;` outside strings and braces.
pub fn is_array_chars(t: &[char]) -> (r: bool)
    ensures
        r == spec_is_array(t@),
{
    has_top_level_char(t, ';')
}

/// `text` holds a `:` outside strings and braces.
pub fn has_top_level_colon_chars(t: &[char]) -> (r: bool)
    ensures
        r == spec_has_top_level_colon(t@),
{
    has_top_level_char(t, ':')
}

/// Index of the first `:` outside double-quoted strings.
pub fn find_key_colon_chars(t: &[char]) -> (r: Option<usize>)
    ensures
        match r {
            Some(k) => key_colon(t@) == Some(k as int),
            None => key_colon(t@) is None,
        },
{
    let mut q = false;
    let mut d: i128 = 0;
    let mut i: usize = 0;
    while i < t.len()
        invariant
            i <= t@.len(),
            (q, d as int) == scan_state(t@, i as int),
            key_colon(t@) == key_colon_from(t@, i as int),
        decreases t@.len() - i,
    {
        if t[i] == ':' && !q {
            return Some(i);
        }
        let r = scan_step(t, i, q, d);
        q = r.0;
        d = r.1;
        i += 1;
    }
    None
}

/// Splits `t` at the delimiters that stand outside strings and braces.
pub fn smart_split_chars(t: &[char], delims: &[char]) -> (parts: Vec<Vec<char>>)
    ensures
        views(parts@) == spec_smart_split(t@, delims@),
{
    let mut parts: Vec<Vec<char>> = Vec::new();
    let mut cur: Vec<char> = Vec::new();
    let mut q = false;
    let mut d: i128 = 0;
    let mut s: usize = 0;
    let mut i: usize = 0;
    while i < t.len()
        invariant
            s <= i <= t@.len(),
            (q, d as int) == scan_state(t@, i as int),
            cur@ == t@.subrange(s as int, i as int),
            spec_smart_split(t@, delims@) == views(parts@) + split_from(
                t@,
                delims@,
                s as int,
                i as int,
            ),
        decreases t@.len() - i,
    {
        let c = t[i];
        let is_delim = contains_char(delims, c);
        if is_delim && c != '"' && c != '{' && c != '}' && !q && d == 0 {
            let ghost old_parts = parts@;
            parts.push(cur);
            assert(views(parts@) + split_from(t@, delims@, i + 1, i + 1) =~= views(old_parts)
                + split_from(t@, delims@, s as int, i as int));
            cur = Vec::new();
            s = i + 1;
        } else {
            cur.push(c);
        }
        let r = scan_step(t, i, q, d);
        q = r.0;
        d = r.1;
        i += 1;
    }
    let trimmed = trim_chars(&cur);
    if trimmed.len() > 0 {
        parts.push(cur);
    }
    parts
}

/// A `{ }` body is an array when none of its items has a top-level colon.
pub fn is_inline_array_chars(t: &[char]) -> (r: bool)
    ensures
        r == spec_is_inline_array(t@),
{
    let delims = [';', ','];
    let items = smart_split_chars(t, &delims);
    let mut k: usize = 0;
    while k < items.len()
        invariant
            k <= items@.len(),
            views(items@) == inline_items(t@),
            forall|j: int| 0 <= j < k ==> !spec_has_top_level_colon(trim(#[trigger] inline_items(t@)[j])),
        decreases items@.len() - k,
    {
        let item = trim_chars(&items[k]);
        assert(items@[k as int]@ == inline_items(t@)[k as int]);
        if has_top_level_colon_chars(&item) {
            return false;
        }
        k += 1;
    }
    true
}

} // verus!
