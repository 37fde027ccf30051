//! Properties of the parser as a whole.
use crate::block::{
    block_from, brace_delta, close_at, ends_block, entry_at, inline_from, inline_value, left, net_braces, taken,
};
use crate::lexer::{
    keep, lines_from, make_line, normalize_from, normalize_newlines, spec_preprocess,
    spec_split_lines, spec_strip_comments, strip_from, Mode, SpecLine,
};
use crate::parser::spec_parse;
use crate::value::{insert_entry, keys_unique, lookup, SpecError, SpecValue};
use crate::scan::{
    has_top_level, inline_items, is_split_point, key_colon, lemma_key_colon_from, lemma_split_bounds,
    scan_state, spec_has_top_level_colon, spec_is_array, spec_is_inline_array, spec_smart_split,
    split_from, top_level,
};
use crate::text::{
    back_ws, find, is_scalar, is_ws, lemma_trim_len, lemma_find_from, lemma_back_ws_bounds, lemma_skip_ws_bounds, skip_ws, trim, trim_start,
};
use crate::values::{
    blank_from, lemma_hint_bounds, hint_name, hint_of, hint_text, is_blank, is_false_word, is_null_word, is_true_word,
    hex_value, list_of, pairs_of, past_blanks, simple_escape, string_value, unescape,
    unicode_escape_at, value_of, wrap_array,
};
use crate::hint::valid_bigint;
use crate::number::{
    all_digits, decimal, digit_value, digits_end, digits_value, eq_ci, eq_ci_char, exp_tail,
    int_value, is_digit, is_float, is_hex_digit, is_int_literal, lemma_digits_end, minus_stripped, unsigned_part,
};
use vstd::prelude::*;

verus! {

proof fn lemma_normalize_no_cr(s: Seq<char>, i: int)
    requires
        0 <= i,
    ensures
        forall|k: int| 0 <= k < normalize_from(s, i).len() ==> #[trigger] normalize_from(s, i)[k] != '\r',
    decreases s.len() - i,
{
    if i < s.len() {
        let next = if s[i] == '\r' && i + 1 < s.len() && s[i + 1] == '\n' {
            i + 2
        } else {
            i + 1
        };
        lemma_normalize_no_cr(s, next);
        let rest = normalize_from(s, next);
        let all = normalize_from(s, i);
        assert forall|k: int| 0 <= k < all.len() implies #[trigger] all[k] != '\r' by {
            if k > 0 {
                assert(all[k] == rest[k - 1]);
            }
        }
    }
}

proof fn lemma_normalize_identity(t: Seq<char>, i: int)
    requires
        0 <= i <= t.len(),
        forall|k: int| 0 <= k < t.len() ==> #[trigger] t[k] != '\r',
    ensures
        normalize_from(t, i) == t.subrange(i, t.len() as int),
    decreases t.len() - i,
{
    if i < t.len() {
        lemma_normalize_identity(t, i + 1);
    }
}

/// What the comment scanner keeps from `t[i..]` depends on `t[j..]` alone.
proof fn lemma_strip_suffix(t: Seq<char>, j: int, i: int, m: Mode)
    requires
        0 <= j <= i,
        j <= t.len(),
    ensures
        strip_from(t, i, m) == strip_from(t.subrange(j, t.len() as int), i - j, m),
    decreases t.len() - i,
{
    if i < t.len() {
        lemma_strip_suffix(t, j, i + 1, Mode::Normal);
        lemma_strip_suffix(t, j, i + 1, Mode::LineComment);
        lemma_strip_suffix(t, j, i + 1, Mode::BlockComment);
        lemma_strip_suffix(t, j, i + 1, Mode::Quote(t[i]));
        if let Mode::Quote(q) = m {
            lemma_strip_suffix(t, j, i + 1, Mode::Quote(q));
        }
        if i + 1 < t.len() {
            lemma_strip_suffix(t, j, i + 2, Mode::Normal);
            lemma_strip_suffix(t, j, i + 2, Mode::BlockComment);
            if let Mode::Quote(q) = m {
                lemma_strip_suffix(t, j, i + 2, Mode::Quote(q));
            }
        }
    }
}

/// A `#` comment is skipped up to, not including, the end of its line.
proof fn lemma_line_comment_skip(t: Seq<char>, i: int, j: int)
    requires
        0 <= i <= j <= t.len(),
        forall|k: int| i <= k < j ==> #[trigger] t[k] != '\n',
    ensures
        strip_from(t, i, Mode::LineComment) == strip_from(t, j, Mode::LineComment),
    decreases j - i,
{
    if i < j {
        lemma_line_comment_skip(t, i + 1, j);
    }
}

/// The line breaks of `s`.
pub open spec fn line_breaks(s: Seq<char>) -> Seq<char>
    decreases s.len(),
{
    if s.len() == 0 {
        seq![]
    } else if s[0] == '\n' {
        seq!['\n'] + line_breaks(s.drop_first())
    } else {
        line_breaks(s.drop_first())
    }
}

/// A `/* */` comment is skipped up to its closing `*/`, keeping only its
/// line breaks.
proof fn lemma_block_comment_skip(t: Seq<char>, i: int, j: int)
    requires
        0 <= i <= j <= t.len(),
        forall|k: int| i <= k < j ==> !(#[trigger] t[k] == '*' && k + 1 < t.len() && t[k + 1] == '/'),
    ensures
        strip_from(t, i, Mode::BlockComment) == line_breaks(t.subrange(i, j)) + strip_from(
            t,
            j,
            Mode::BlockComment,
        ),
    decreases j - i,
{
    if i < j {
        lemma_block_comment_skip(t, i + 1, j);
        assert(t.subrange(i, j).drop_first() =~= t.subrange(i + 1, j));
        assert(t.subrange(i, j)[0] == t[i]);
        if t[i] == '\n' {
            assert(seq!['\n'] + (line_breaks(t.subrange(i + 1, j)) + strip_from(t, j, Mode::BlockComment))
                =~= line_breaks(t.subrange(i, j)) + strip_from(t, j, Mode::BlockComment));
        }
    } else {
        assert(line_breaks(t.subrange(i, j)) =~= Seq::<char>::empty());
        assert(Seq::<char>::empty() + strip_from(t, j, Mode::BlockComment) =~= strip_from(t, j, Mode::BlockComment));
    }
}

/// A quoted string without escapes or its own quote is kept as it is.
proof fn lemma_quote_copy(t: Seq<char>, q: char, i: int, j: int)
    requires
        0 <= i <= j <= t.len(),
        forall|k: int| i <= k < j ==> #[trigger] t[k] != q && t[k] != '\\',
    ensures
        strip_from(t, i, Mode::Quote(q)) == t.subrange(i, j) + strip_from(t, j, Mode::Quote(q)),
    decreases j - i,
{
    if i < j {
        lemma_quote_copy(t, q, i + 1, j);
    }
}

/// A `#` comment runs to the end of its line and is dropped; the line break
/// stays.
pub proof fn law_line_comment_dropped(c: Seq<char>, rest: Seq<char>)
    requires
        forall|k: int| 0 <= k < c.len() ==> #[trigger] c[k] != '\n',
    ensures
        spec_strip_comments(seq!['#'] + c + seq!['\n'] + rest) == seq!['\n'] + spec_strip_comments(rest),
{
    let t = seq!['#'] + c + seq!['\n'] + rest;
    let n = c.len() as int;
    lemma_line_comment_skip(t, 1, 1 + n);
    lemma_strip_suffix(t, 2 + n, 2 + n, Mode::Normal);
    assert(t.subrange(2 + n, t.len() as int) =~= rest);
}

/// A `/* */` comment is dropped but for its line breaks, so that the lines
/// after it keep their numbers.
pub proof fn law_block_comment_dropped(c: Seq<char>, rest: Seq<char>)
    requires
        forall|k: int| 0 <= k < c.len() - 1 ==> !(#[trigger] c[k] == '*' && c[k + 1] == '/'),
    ensures
        spec_strip_comments(seq!['/', '*'] + c + seq!['*', '/'] + rest) == line_breaks(c)
            + spec_strip_comments(rest),
{
    let t = seq!['/', '*'] + c + seq!['*', '/'] + rest;
    let n = c.len() as int;
    assert forall|k: int| 2 <= k < 2 + n implies !(#[trigger] t[k] == '*' && k + 1 < t.len() && t[k
        + 1] == '/') by {
        assert(t[k] == c[k - 2]);
        if k + 1 < 2 + n {
            assert(t[k + 1] == c[k - 1]);
        } else {
            assert(t[k + 1] == '*');
        }
    }
    lemma_block_comment_skip(t, 2, 2 + n);
    assert(t.subrange(2, 2 + n) =~= c);
    assert(t[2 + n] == '*' && t[3 + n] == '/');
    lemma_strip_suffix(t, 4 + n, 4 + n, Mode::Normal);
    assert(t.subrange(4 + n, t.len() as int) =~= rest);
}

/// A `#` or `/*` inside a quoted string is no comment: a quoted string
/// without escapes is kept as it is.
#[verifier::spinoff_prover]
pub proof fn law_quoted_text_kept(q: char, body: Seq<char>, rest: Seq<char>)
    requires
        q == '"' || q == '\'',
        forall|k: int| 0 <= k < body.len() ==> #[trigger] body[k] != q && body[k] != '\\',
    ensures
        spec_strip_comments(seq![q] + body + seq![q] + rest) == seq![q] + body + seq![q]
            + spec_strip_comments(rest),
{
    let t = seq![q] + body + seq![q] + rest;
    let n = body.len() as int;
    lemma_quote_copy(t, q, 1, 1 + n);
    lemma_strip_suffix(t, 2 + n, 2 + n, Mode::Normal);
    assert(t.subrange(2 + n, t.len() as int) =~= rest);
    assert(seq![q] + (body + (seq![q] + spec_strip_comments(rest))) =~= seq![q] + body + seq![q]
        + spec_strip_comments(rest));
}

/// Line endings are normalised before anything else: no `\r` is left, and
/// normalising twice changes nothing more.
pub proof fn law_newlines_normalized(s: Seq<char>)
    ensures
        forall|k: int| 0 <= k < normalize_newlines(s).len() ==> #[trigger] normalize_newlines(s)[k] != '\r',
        normalize_newlines(normalize_newlines(s)) == normalize_newlines(s),
{
    lemma_normalize_no_cr(s, 0);
    let t = normalize_newlines(s);
    lemma_normalize_identity(t, 0);
}

/// A document parses as its `\r\n`/`\r`-to-`\n` normalised form does.
pub proof fn law_parse_ignores_line_endings(s: Seq<char>)
    ensures
        spec_parse(normalize_newlines(s)) == spec_parse(s),
{
    law_newlines_normalized(s);
}

proof fn lemma_insert_keys(es: Seq<(Seq<char>, SpecValue)>, k: Seq<char>, v: SpecValue)
    ensures
        forall|j: int|
            0 <= j < insert_entry(es, k, v).len() ==> #[trigger] insert_entry(es, k, v)[j].0 == k
                || exists|i: int| 0 <= i < es.len() && es[i].0 == insert_entry(es, k, v)[j].0,
        insert_entry(es, k, v).len() <= es.len() + 1,
    decreases es.len(),
{
    let ins = insert_entry(es, k, v);
    if es.len() > 0 && es[0].0 != k {
        let rest = es.drop_first();
        lemma_insert_keys(rest, k, v);
        let ir = insert_entry(rest, k, v);
        assert forall|j: int| 0 <= j < ins.len() implies #[trigger] ins[j].0 == k || exists|i: int|
            0 <= i < es.len() && es[i].0 == ins[j].0 by {
            if j > 0 && ir[j - 1].0 != k {
                let i = choose|i: int| 0 <= i < rest.len() && rest[i].0 == ir[j - 1].0;
                assert(es[i + 1] == rest[i]);
            }
        }
    }
}

/// Setting a key keeps every key once.
pub proof fn law_insert_keeps_keys_unique(es: Seq<(Seq<char>, SpecValue)>, k: Seq<char>, v: SpecValue)
    requires
        keys_unique(es),
    ensures
        keys_unique(insert_entry(es, k, v)),
    decreases es.len(),
{
    let ins = insert_entry(es, k, v);
    if es.len() > 0 && es[0].0 != k {
        let rest = es.drop_first();
        assert(keys_unique(rest));
        law_insert_keeps_keys_unique(rest, k, v);
        lemma_insert_keys(rest, k, v);
        let ir = insert_entry(rest, k, v);
        assert forall|a: int, b: int|
            0 <= a < ins.len() && 0 <= b < ins.len() && a != b implies #[trigger] ins[a].0
            != #[trigger] ins[b].0 by {
            if a == 0 || b == 0 {
                // the first key of `es` occurs nowhere in the rest
                let j = if a == 0 {
                    b
                } else {
                    a
                };
                if ir[j - 1].0 == es[0].0 {
                    let i = choose|i: int| 0 <= i < rest.len() && rest[i].0 == ir[j - 1].0;
                    assert(es[i + 1] == rest[i]);
                }
            }
        }
    }
}

/// A key set to a value reads back as that value; every other key reads back
/// as before.
pub proof fn law_lookup_after_insert(
    es: Seq<(Seq<char>, SpecValue)>,
    k: Seq<char>,
    v: SpecValue,
    other: Seq<char>,
)
    ensures
        lookup(insert_entry(es, k, v), k) == Some(v),
        other != k ==> lookup(insert_entry(es, k, v), other) == lookup(es, other),
    decreases es.len(),
{
    if es.len() > 0 {
        let ins = insert_entry(es, k, v);
        if es[0].0 == k {
            assert(ins.drop_first() == es.drop_first());
        } else {
            law_lookup_after_insert(es.drop_first(), k, v, other);
            assert(ins.drop_first() == insert_entry(es.drop_first(), k, v));
        }
    } else {
        let ins = insert_entry(es, k, v);
        if other != k {
            assert(lookup(ins, other) == lookup(ins.drop_first(), other));
        }
    }
}

/// The pairs of a block never hold a key twice, given pairs that do not.
pub proof fn law_block_keys_unique(
    lines: Seq<crate::lexer::SpecLine>,
    i: int,
    base: Option<nat>,
    acc: Seq<(Seq<char>, SpecValue)>,
)
    requires
        keys_unique(acc),
    ensures
        block_from(lines, i, base, acc) matches Ok((es, _)) ==> keys_unique(es),
    decreases left(lines.len() as int, i),
{
    if !(i < 0 || i >= lines.len() || crate::block::ends_block(lines[i], base)) {
        match entry_at(lines, i) {
            Err(_) => {},
            Ok((key, v, extra)) => {
                law_insert_keeps_keys_unique(acc, key, v);
                law_block_keys_unique(lines, i + 1 + extra, base, insert_entry(acc, key, v));
            },
        }
    }
}

/// A parsed document never holds a top-level key twice; a key written again
/// takes the later value.
pub proof fn law_parse_keys_unique(s: Seq<char>)
    ensures
        spec_parse(s) matches Ok(es) ==> keys_unique(es),
{
    law_block_keys_unique(crate::lexer::spec_split_lines(spec_preprocess(s)), 0, None, seq![]);
}

/// An inline object never holds a key twice, given pairs that do not.
pub proof fn law_inline_keys_unique(
    items: Seq<Seq<char>>,
    acc: Seq<(Seq<char>, SpecValue)>,
    line: nat,
    bound: nat,
)
    requires
        keys_unique(acc),
        forall|k: int| 0 <= k < items.len() ==> #[trigger] items[k].len() < bound,
    ensures
        pairs_of(items, acc, line, bound) matches Ok(es) ==> keys_unique(es),
    decreases items.len(),
{
    if items.len() > 0 {
        let t = crate::text::trim(items[0]);
        if t.len() == 0 {
            law_inline_keys_unique(items.drop_first(), acc, line, bound);
        } else {
            match crate::scan::key_colon(t) {
                None => {},
                Some(c) => {
                    let key = crate::text::trim(t.subrange(0, c));
                    let val = crate::text::trim(t.subrange(c + 1, t.len() as int));
                    match value_of(val, line) {
                        Err(_) => {},
                        Ok(x) => {
                            law_insert_keeps_keys_unique(acc, key, x);
                            law_inline_keys_unique(items.drop_first(), insert_entry(acc, key, x), line, bound);
                        },
                    }
                },
            }
        }
    }
}

/// An array keeps its items in order: the `k`-th value is the value of the
/// `k`-th item, and the array fails exactly when one of its items does.
pub proof fn law_array_in_order(items: Seq<Seq<char>>, line: nat, bound: nat)
    requires
        forall|k: int| 0 <= k < items.len() ==> #[trigger] items[k].len() < bound,
    ensures
        list_of(items, line, bound) matches Ok(xs) ==> xs.len() == items.len() && forall|k: int|
            0 <= k < items.len() ==> value_of(#[trigger] items[k], line) == Ok::<SpecValue, SpecError>(xs[k]),
        list_of(items, line, bound) is Err <==> exists|k: int|
            0 <= k < items.len() && value_of(#[trigger] items[k], line) is Err,
    decreases items.len(),
{
    if items.len() > 0 {
        let rest = items.drop_first();
        law_array_in_order(rest, line, bound);
        match list_of(items, line, bound) {
            Ok(xs) => {
                assert forall|k: int| 0 <= k < items.len() implies value_of(#[trigger] items[k], line)
                    == Ok::<SpecValue, SpecError>(xs[k]) by {
                    if k > 0 {
                        assert(items[k] == rest[k - 1]);
                    }
                }
            },
            Err(_) => {
                if !(value_of(items[0], line) is Err) {
                    let k = choose|k: int| 0 <= k < rest.len() && value_of(#[trigger] rest[k], line) is Err;
                    assert(items[k + 1] == rest[k]);
                }
            },
        }
    }
}

/// The scanner state of a prefix does not depend on what follows it.
proof fn lemma_scan_state_prefix(t: Seq<char>, x: Seq<char>, p: int)
    requires
        0 <= p <= t.len(),
    ensures
        scan_state(t + x, p) == scan_state(t, p),
    decreases p,
{
    if p > 0 {
        lemma_scan_state_prefix(t, x, p - 1);
    }
}

/// The parts of `t[s..]` with the last one kept even when it is blank.
spec fn split_all_from(t: Seq<char>, delims: Seq<char>, s: int, i: int) -> Seq<Seq<char>>
    decreases t.len() - i,
{
    if i >= t.len() {
        seq![t.subrange(s, t.len() as int)]
    } else if is_split_point(t, delims, i) {
        seq![t.subrange(s, i)] + split_all_from(t, delims, i + 1, i + 1)
    } else {
        split_all_from(t, delims, s, i + 1)
    }
}

proof fn lemma_split_all(t: Seq<char>, delims: Seq<char>, s: int, i: int)
    requires
        0 <= s <= i <= t.len(),
    ensures
        split_all_from(t, delims, s, i) == split_from(t, delims, s, i) || exists|w: Seq<char>|
            crate::text::trim(w).len() == 0 && split_all_from(t, delims, s, i) == split_from(
                t,
                delims,
                s,
                i,
            ).push(w),
    decreases t.len() - i,
{
    if i < t.len() {
        if is_split_point(t, delims, i) {
            lemma_split_all(t, delims, i + 1, i + 1);
            let head = seq![t.subrange(s, i)];
            let a = split_all_from(t, delims, i + 1, i + 1);
            let b = split_from(t, delims, i + 1, i + 1);
            if a != b {
                let w = choose|w: Seq<char>| crate::text::trim(w).len() == 0 && a == b.push(w);
                assert(head + a =~= (head + b).push(w));
            }
        } else {
            lemma_split_all(t, delims, s, i + 1);
        }
    }
}

/// A separator closing the text ends its last part and adds only a blank one.
proof fn lemma_split_trailing(t: Seq<char>, sep: char, delims: Seq<char>, s: int, i: int)
    requires
        0 <= s <= i <= t.len(),
        delims.contains(sep),
        sep != '"' && sep != '{' && sep != '}',
        scan_state(t, t.len() as int) == (false, 0int),
    ensures
        split_from(t.push(sep), delims, s, i) == split_all_from(t, delims, s, i),
    decreases t.len() - i,
{
    let u = t.push(sep);
    assert(u == t + seq![sep]);
    lemma_scan_state_prefix(t, seq![sep], i);
    if i < t.len() {
        if is_split_point(t, delims, i) {
            lemma_split_trailing(t, sep, delims, i + 1, i + 1);
            assert(u.subrange(s, i) =~= t.subrange(s, i));
        } else {
            lemma_split_trailing(t, sep, delims, s, i + 1);
        }
    } else {
        assert(u.subrange(s, i) =~= t.subrange(s, t.len() as int));
        assert(split_from(u, delims, i + 1, i + 1) =~= Seq::<Seq<char>>::empty());
    }
}

/// A blank item at the end of an inline object changes nothing.
proof fn lemma_pairs_blank_tail(
    items: Seq<Seq<char>>,
    w: Seq<char>,
    acc: Seq<(Seq<char>, SpecValue)>,
    line: nat,
    bound: nat,
)
    requires
        crate::text::trim(w).len() == 0,
        forall|k: int| 0 <= k < items.push(w).len() ==> #[trigger] items.push(w)[k].len() < bound,
    ensures
        pairs_of(items.push(w), acc, line, bound) == pairs_of(items, acc, line, bound),
    decreases items.len(),
{
    let all = items.push(w);
    assert forall|k: int| 0 <= k < items.len() implies #[trigger] items[k].len() < bound by {
        assert(all[k] == items[k]);
    }
    if items.len() == 0 {
        assert(pairs_of(all, acc, line, bound) == pairs_of(all.drop_first(), acc, line, bound));
    } else {
        let rest = items.drop_first();
        assert(all.drop_first() =~= rest.push(w));
        let t = crate::text::trim(items[0]);
        assert(forall|k: int| 0 <= k < rest.len() ==> #[trigger] rest[k].len() < bound);
        if t.len() == 0 {
            lemma_pairs_blank_tail(rest, w, acc, line, bound);
        } else {
            match crate::scan::key_colon(t) {
                None => {},
                Some(c) => {
                    let key = crate::text::trim(t.subrange(0, c));
                    let val = crate::text::trim(t.subrange(c + 1, t.len() as int));
                    match value_of(val, line) {
                        Err(_) => {},
                        Ok(x) => {
                            lemma_pairs_blank_tail(rest, w, insert_entry(acc, key, x), line, bound);
                        },
                    }
                },
            }
        }
    }
}

/// A trailing `;` or `,` in an inline object is ignored: the body with it
/// gives the same pairs, or the same error, as the body without it.
pub proof fn law_trailing_separator_ignored(
    body: Seq<char>,
    sep: char,
    acc: Seq<(Seq<char>, SpecValue)>,
    line: nat,
    bound: nat,
)
    requires
        sep == ';' || sep == ',',
        scan_state(body, body.len() as int) == (false, 0int),
        forall|k: int|
            0 <= k < inline_items(body.push(sep)).len() ==> #[trigger] inline_items(
                body.push(sep),
            )[k].len() < bound,
    ensures
        pairs_of(inline_items(body.push(sep)), acc, line, bound) == pairs_of(inline_items(body), acc, line, bound),
{
    let delims = seq![';', ','];
    lemma_split_trailing(body, sep, delims, 0, 0);
    lemma_split_all(body, delims, 0, 0);
    let with = inline_items(body.push(sep));
    let without = inline_items(body);
    if with != without {
        let w = choose|w: Seq<char>| crate::text::trim(w).len() == 0 && with == without.push(w);
        lemma_pairs_blank_tail(without, w, acc, line, bound);
    }
}

/// The comment scanner keeps at most what it reads.
proof fn lemma_strip_from_len(t: Seq<char>, i: int, m: Mode)
    requires
        0 <= i,
    ensures
        strip_from(t, i, m).len() <= if i < t.len() {
            t.len() - i
        } else {
            0
        },
    decreases t.len() - i,
{
    if i < t.len() {
        lemma_strip_from_len(t, i + 1, Mode::Normal);
        lemma_strip_from_len(t, i + 1, Mode::LineComment);
        lemma_strip_from_len(t, i + 1, Mode::BlockComment);
        lemma_strip_from_len(t, i + 1, Mode::Quote(t[i]));
        if let Mode::Quote(q) = m {
            lemma_strip_from_len(t, i + 1, Mode::Quote(q));
        }
        if i + 1 < t.len() {
            lemma_strip_from_len(t, i + 2, Mode::Normal);
            lemma_strip_from_len(t, i + 2, Mode::BlockComment);
            if let Mode::Quote(q) = m {
                lemma_strip_from_len(t, i + 2, Mode::Quote(q));
            }
        }
    }
}

/// Stripping comments never lengthens a text.
pub proof fn law_strip_comments_shortens(t: Seq<char>)
    ensures
        spec_strip_comments(t).len() <= t.len(),
{
    lemma_strip_from_len(t, 0, Mode::Normal);
}

proof fn lemma_lines_from(t: Seq<char>, s: int, i: int, num: nat)
    requires
        0 <= s <= i <= t.len(),
    ensures
        forall|k: int|
            0 <= k < lines_from(t, s, i, num).len() ==> (#[trigger] lines_from(t, s, i, num)[k]).content.len()
                > 0 && lines_from(t, s, i, num)[k].line_num >= num,
        forall|a: int, b: int|
            0 <= a < b < lines_from(t, s, i, num).len() ==> #[trigger] lines_from(t, s, i, num)[a].line_num
                < #[trigger] lines_from(t, s, i, num)[b].line_num,
    decreases t.len() - i,
{
    if i < t.len() {
        if t[i] == '\n' {
            lemma_lines_from(t, i + 1, i + 1, num + 1);
            let l = make_line(t.subrange(s, i), num);
            let head = keep(l);
            assert(head.len() <= 1 && (head.len() == 1 ==> head[0] == l && l.content.len() > 0));
            let rest = lines_from(t, i + 1, i + 1, num + 1);
            let all = lines_from(t, s, i, num);
            assert(all == head + rest);
            assert forall|k: int| 0 <= k < all.len() implies (#[trigger] all[k]).content.len() > 0
                && all[k].line_num >= num by {
                if k >= head.len() {
                    assert(all[k] == rest[k - head.len()]);
                } else {
                    assert(all[k] == head[k]);
                }
            }
            assert forall|a: int, b: int| 0 <= a < b < all.len() implies #[trigger] all[a].line_num
                < #[trigger] all[b].line_num by {
                assert(all[b] == rest[b - head.len()]);
                if a >= head.len() {
                    assert(all[a] == rest[a - head.len()]);
                } else {
                    assert(all[a] == head[a]);
                }
            }
        } else {
            lemma_lines_from(t, s, i + 1, num);
            assert(lines_from(t, s, i, num) == lines_from(t, s, i + 1, num));
        }
    } else {
        let all = lines_from(t, s, i, num);
        let l = make_line(t.subrange(s, t.len() as int), num);
        assert(all == keep(l));
        assert(all.len() <= 1 && (all.len() == 1 ==> all[0] == l && l.content.len() > 0));
    }
}

/// The lines of a text are never blank, and they are numbered from 1 in
/// increasing order.
pub proof fn law_lines_numbered(t: Seq<char>)
    ensures
        forall|k: int|
            0 <= k < spec_split_lines(t).len() ==> (#[trigger] spec_split_lines(t)[k]).content.len() > 0
                && spec_split_lines(t)[k].line_num >= 1,
        forall|a: int, b: int|
            0 <= a < b < spec_split_lines(t).len() ==> #[trigger] spec_split_lines(t)[a].line_num
                < #[trigger] spec_split_lines(t)[b].line_num,
{
    lemma_lines_from(t, 0, 0, 1);
}

/// Trimming twice trims nothing more.
proof fn lemma_trim_idempotent(s: Seq<char>)
    ensures
        crate::text::trim(crate::text::trim(s)) == crate::text::trim(s),
{
    let a = crate::text::skip_ws(s, 0);
    crate::text::lemma_skip_ws_bounds(s, 0);
    let u = crate::text::trim_start(s);
    crate::text::lemma_back_ws_bounds(u, u.len() as int);
    let t = crate::text::trim(s);
    if t.len() > 0 {
        assert(t[0] == u[0]);
        assert(u[0] == s[a]);
        assert(t[t.len() - 1] == u[t.len() - 1]);
        assert(crate::text::skip_ws(t, 0) == 0);
        assert(crate::text::trim_start(t) =~= t);
        assert(crate::text::back_ws(t, t.len() as int) == t.len());
        assert(crate::text::trim_end(t) =~= t);
    } else {
        assert(crate::text::trim_start(t) =~= t);
        assert(crate::text::trim_end(t) =~= t);
    }
}

/// Whitespace around a value does not matter.
pub proof fn law_value_ignores_surrounding_whitespace(raw: Seq<char>, line: nat)
    ensures
        value_of(crate::text::trim(raw), line) == value_of(raw, line),
{
    lemma_trim_idempotent(raw);
}


/// `parts` joined with `d` between each two of them (`[..].join(d)`).
pub open spec fn join_with(parts: Seq<Seq<char>>, d: char) -> Seq<char>
    decreases parts.len(),
{
    if parts.len() == 0 {
        seq![]
    } else if parts.len() == 1 {
        parts[0]
    } else {
        parts[0] + seq![d] + join_with(parts.drop_first(), d)
    }
}

/// How many times `d` stands at top level in `t[i..]`.
pub open spec fn top_level_count_from(t: Seq<char>, d: char, i: int) -> nat
    decreases t.len() - i,
{
    if i < 0 || i >= t.len() {
        0
    } else {
        (if t[i] == d && top_level(t, i) {
            1nat
        } else {
            0nat
        }) + top_level_count_from(t, d, i + 1)
    }
}

/// How many times `d` stands at top level in `t`.
pub open spec fn top_level_count(t: Seq<char>, d: char) -> nat {
    top_level_count_from(t, d, 0)
}

/// Where the last part of `t[s..]` begins, the current part having begun at
/// `s` and the scan having reached `i`.
pub open spec fn final_start(t: Seq<char>, delims: Seq<char>, s: int, i: int) -> int
    decreases t.len() - i,
{
    if i >= t.len() {
        s
    } else if is_split_point(t, delims, i) {
        final_start(t, delims, i + 1, i + 1)
    } else {
        final_start(t, delims, s, i + 1)
    }
}

/// The text after the last top-level `d` of `t`, or all of `t`.
pub open spec fn final_part(t: Seq<char>, d: char) -> Seq<char> {
    t.subrange(final_start(t, seq![d], 0, 0), t.len() as int)
}

proof fn lemma_split_rejoins(t: Seq<char>, d: char, s: int, i: int)
    requires
        0 <= s <= i <= t.len(),
        d != '"' && d != '{' && d != '}',
        trim(t.subrange(final_start(t, seq![d], s, i), t.len() as int)).len() > 0,
    ensures
        join_with(split_from(t, seq![d], s, i), d) == t.subrange(s, t.len() as int),
        split_from(t, seq![d], s, i).len() == 1 + top_level_count_from(t, d, i),
    decreases t.len() - i,
{
    let ds = seq![d];
    if i >= t.len() {
    } else if is_split_point(t, ds, i) {
        lemma_split_rejoins(t, d, i + 1, i + 1);
        let rest = split_from(t, ds, i + 1, i + 1);
        let all = split_from(t, ds, s, i);
        assert(all == seq![t.subrange(s, i)] + rest);
        assert(all.drop_first() =~= rest);
        assert(t[i] == d);
        assert(t.subrange(s, t.len() as int) =~= t.subrange(s, i) + seq![d] + t.subrange(
            i + 1,
            t.len() as int,
        ));
    } else {
        lemma_split_rejoins(t, d, s, i + 1);
        assert(!(t[i] == d && top_level(t, i))) by {
            if t[i] == d && top_level(t, i) {
                assert(ds.contains(t[i])) by {
                    assert(ds[0] == t[i]);
                }
            }
        }
    }
}

/// Splitting at one delimiter `d` removes exactly its top-level occurrences:
/// when the text after the last of them is not blank, the parts joined with
/// `d` give `t` back, and there is one part more than there are top-level
/// `d`s. (`"`, `{` and `}` are never split at, so they are left out.)
pub proof fn law_smart_split_rejoins(t: Seq<char>, d: char)
    requires
        d != '"' && d != '{' && d != '}',
        trim(final_part(t, d)).len() > 0,
    ensures
        join_with(spec_smart_split(t, seq![d]), d) == t,
        spec_smart_split(t, seq![d]).len() == 1 + top_level_count(t, d),
{
    lemma_split_rejoins(t, d, 0, 0);
    assert(t.subrange(0, t.len() as int) =~= t);
}


proof fn lemma_scan_shift(t: Seq<char>, s: int, p: int, e: int)
    requires
        0 <= s <= p <= e <= t.len(),
        scan_state(t, s) == (false, 0int),
    ensures
        scan_state(t.subrange(s, e), p - s) == scan_state(t, p),
    decreases p - s,
{
    if p > s {
        lemma_scan_shift(t, s, p - 1, e);
        assert(t.subrange(s, e)[p - s - 1] == t[p - 1]);
    }
}

proof fn lemma_top_level_in_part(t: Seq<char>, s: int, e: int, c: char)
    requires
        0 <= s <= e <= t.len(),
        scan_state(t, s) == (false, 0int),
    ensures
        has_top_level(t.subrange(s, e), c) <==> exists|p: int|
            s <= p < e && t[p] == c && #[trigger] top_level(t, p),
{
    let u = t.subrange(s, e);
    if has_top_level(u, c) {
        let q = choose|q: int| 0 <= q < u.len() && u[q] == c && top_level(u, q);
        lemma_scan_shift(t, s, q + s, e);
        assert(top_level(t, q + s));
    }
    if exists|p: int| s <= p < e && t[p] == c && #[trigger] top_level(t, p) {
        let p = choose|p: int| s <= p < e && t[p] == c && #[trigger] top_level(t, p);
        lemma_scan_shift(t, s, p, e);
        assert(u[p - s] == c && top_level(u, p - s));
    }
}

proof fn lemma_ws_state(t: Seq<char>, a: int)
    requires
        0 <= a <= t.len(),
        forall|k: int| 0 <= k < a ==> is_ws(#[trigger] t[k]),
    ensures
        scan_state(t, a) == (false, 0int),
    decreases a,
{
    if a > 0 {
        lemma_ws_state(t, a - 1);
    }
}

proof fn lemma_trim_top_level(x: Seq<char>, c: char)
    requires
        !is_ws(c),
    ensures
        has_top_level(trim(x), c) == has_top_level(x, c),
{
    lemma_skip_ws_bounds(x, 0);
    let a = skip_ws(x, 0);
    let y = trim_start(x);
    lemma_ws_state(x, a);
    lemma_top_level_in_part(x, a, x.len() as int, c);
    assert(x.subrange(0, x.len() as int) =~= x);
    lemma_top_level_in_part(x, 0, x.len() as int, c);
    lemma_back_ws_bounds(y, y.len() as int);
    let b = back_ws(y, y.len() as int);
    lemma_top_level_in_part(y, 0, b, c);
    assert(y.subrange(0, y.len() as int) =~= y);
    lemma_top_level_in_part(y, 0, y.len() as int, c);
    if has_top_level(x, c) {
        let p = choose|p: int| 0 <= p < x.len() && x[p] == c && #[trigger] top_level(x, p);
        assert(p >= a);
        assert(y[p - a] == c && top_level(y, p - a)) by {
            lemma_scan_shift(x, a, p, x.len() as int);
        }
        assert(p - a < b);
    }
}

proof fn lemma_items_colon(t: Seq<char>, ds: Seq<char>, s: int, i: int)
    requires
        0 <= s <= i <= t.len(),
        scan_state(t, s) == (false, 0int),
        !ds.contains(':'),
    ensures
        (exists|k: int|
            0 <= k < split_from(t, ds, s, i).len() && has_top_level(
                trim(#[trigger] split_from(t, ds, s, i)[k]),
                ':',
            )) <==> exists|p: int| s <= p < t.len() && t[p] == ':' && #[trigger] top_level(t, p),
    decreases t.len() - i,
{
    let all = split_from(t, ds, s, i);
    if i >= t.len() {
        let last = t.subrange(s, t.len() as int);
        lemma_trim_top_level(last, ':');
        lemma_top_level_in_part(t, s, t.len() as int, ':');
        if trim(last).len() == 0 {
            lemma_skip_ws_bounds(last, 0);
            let y = trim_start(last);
            lemma_back_ws_bounds(y, y.len() as int);
            if exists|p: int| s <= p < t.len() && t[p] == ':' && #[trigger] top_level(t, p) {
                let p = choose|p: int| s <= p < t.len() && t[p] == ':' && #[trigger] top_level(t, p);
                let a = skip_ws(last, 0);
                if p - s < a {
                    assert(is_ws(last[p - s]));
                } else {
                    assert(is_ws(y[p - s - a]));
                }
            }
            assert(all.len() == 0);
        } else {
            assert(all == seq![last]);
            assert(all[0] == last);
            if has_top_level(trim(last), ':') {
                assert(has_top_level(trim(all[0]), ':'));
            }
        }
    } else if is_split_point(t, ds, i) {
        assert(scan_state(t, i + 1) == (false, 0int));
        lemma_items_colon(t, ds, i + 1, i + 1);
        let part = t.subrange(s, i);
        let rest = split_from(t, ds, i + 1, i + 1);
        assert(all == seq![part] + rest);
        lemma_trim_top_level(part, ':');
        lemma_top_level_in_part(t, s, i, ':');
        assert(t[i] != ':');
        if exists|p: int| s <= p < t.len() && t[p] == ':' && #[trigger] top_level(t, p) {
            let p = choose|p: int| s <= p < t.len() && t[p] == ':' && #[trigger] top_level(t, p);
            if p < i {
                assert(has_top_level(trim(all[0]), ':'));
            } else {
                assert(p > i);
                let k = choose|k: int|
                    0 <= k < rest.len() && has_top_level(trim(#[trigger] rest[k]), ':');
                assert(all[k + 1] == rest[k]);
            }
        }
        if exists|k: int| 0 <= k < all.len() && has_top_level(trim(#[trigger] all[k]), ':') {
            let k = choose|k: int| 0 <= k < all.len() && has_top_level(trim(#[trigger] all[k]), ':');
            if k > 0 {
                assert(rest[k - 1] == all[k]);
                assert(has_top_level(trim(rest[k - 1]), ':'));
            } else {
                assert(all[0] == part);
                let p = choose|p: int| s <= p < i && t[p] == ':' && #[trigger] top_level(t, p);
                assert(s <= p < t.len() && t[p] == ':' && top_level(t, p));
            }
        }
    } else {
        lemma_items_colon(t, ds, s, i + 1);
        assert(all == split_from(t, ds, s, i + 1));
    }
}

/// A `{ }` body is an array exactly when it holds no `:` outside strings and
/// braces: splitting it at top-level `;` and `,` never changes whether such a
/// colon is there.
pub proof fn law_inline_array_iff_no_top_level_colon(t: Seq<char>)
    ensures
        spec_is_inline_array(t) == !spec_has_top_level_colon(t),
{
    let ds = seq![';', ','];
    assert(!ds.contains(':')) by {
        if ds.contains(':') {
            let j = choose|j: int| 0 <= j < ds.len() && ds[j] == ':';
        }
    }
    lemma_items_colon(t, ds, 0, 0);
    assert(spec_is_inline_array(t) == !exists|k: int|
        0 <= k < inline_items(t).len() && has_top_level(trim(#[trigger] inline_items(t)[k]), ':'));
}


proof fn lemma_line_breaks_concat(a: Seq<char>, b: Seq<char>)
    ensures
        line_breaks(a + b) == line_breaks(a) + line_breaks(b),
    decreases a.len(),
{
    if a.len() == 0 {
        assert(a + b =~= b);
        assert(line_breaks(a) =~= seq![]);
        assert(seq![] + line_breaks(b) =~= line_breaks(b));
    } else {
        lemma_line_breaks_concat(a.drop_first(), b);
        assert((a + b).drop_first() =~= a.drop_first() + b);
        assert((a + b)[0] == a[0]);
        if a[0] == '\n' {
            assert(seq!['\n'] + (line_breaks(a.drop_first()) + line_breaks(b)) =~= (seq!['\n']
                + line_breaks(a.drop_first())) + line_breaks(b));
        }
    }
}

proof fn lemma_line_breaks_one(c: char)
    ensures
        line_breaks(seq![c]) == (if c == '\n' {
            seq!['\n']
        } else {
            Seq::<char>::empty()
        }),
{
    let e = Seq::<char>::empty();
    assert(seq![c].drop_first() =~= e);
    assert(line_breaks(e) =~= e);
    assert(seq!['\n'] + e =~= seq!['\n']);
}

proof fn lemma_line_breaks_step(t: Seq<char>, i: int)
    requires
        0 <= i < t.len(),
    ensures
        line_breaks(t.subrange(i, t.len() as int)) == line_breaks(seq![t[i]]) + line_breaks(
            t.subrange(i + 1, t.len() as int),
        ),
{
    let u = t.subrange(i, t.len() as int);
    assert(u.drop_first() =~= t.subrange(i + 1, t.len() as int));
    lemma_line_breaks_one(t[i]);
    assert(Seq::<char>::empty() + line_breaks(u.drop_first()) =~= line_breaks(u.drop_first()));
}

proof fn lemma_strip_keeps_breaks(t: Seq<char>, i: int, m: Mode)
    requires
        0 <= i <= t.len(),
    ensures
        line_breaks(strip_from(t, i, m)) == line_breaks(t.subrange(i, t.len() as int)),
    decreases t.len() - i,
{
    if i == t.len() {
        assert(t.subrange(i, t.len() as int) =~= Seq::<char>::empty());
    } else {
        let c = t[i];
        lemma_line_breaks_step(t, i);
        if i + 1 < t.len() {
            lemma_line_breaks_step(t, i + 1);
        }
        let one = line_breaks(seq![c]);
        let rest1 = t.subrange(i + 1, t.len() as int);
        lemma_line_breaks_one(c);
        if i + 1 < t.len() {
            lemma_line_breaks_one(t[i + 1]);
        }
        match m {
            Mode::Quote(q) => if c == '\\' && i + 1 < t.len() {
                lemma_strip_keeps_breaks(t, i + 2, m);
                lemma_line_breaks_concat(seq![c, t[i + 1]], strip_from(t, i + 2, m));
                lemma_line_breaks_concat(seq![c], seq![t[i + 1]]);
                assert(seq![c] + seq![t[i + 1]] =~= seq![c, t[i + 1]]);
            } else if c == q {
                lemma_strip_keeps_breaks(t, i + 1, Mode::Normal);
                lemma_line_breaks_concat(seq![c], strip_from(t, i + 1, Mode::Normal));
            } else {
                lemma_strip_keeps_breaks(t, i + 1, m);
                lemma_line_breaks_concat(seq![c], strip_from(t, i + 1, m));
            },
            Mode::LineComment => if c == '\n' {
                lemma_strip_keeps_breaks(t, i + 1, Mode::Normal);
                lemma_line_breaks_concat(seq![c], strip_from(t, i + 1, Mode::Normal));
            } else {
                lemma_strip_keeps_breaks(t, i + 1, m);
                assert(one + line_breaks(rest1) =~= line_breaks(rest1));
            },
            Mode::BlockComment => if c == '*' && i + 1 < t.len() && t[i + 1] == '/' {
                lemma_strip_keeps_breaks(t, i + 2, Mode::Normal);
                assert(Seq::<char>::empty() + line_breaks(t.subrange(i + 2, t.len() as int))
                    =~= line_breaks(t.subrange(i + 2, t.len() as int)));
            } else if c == '\n' {
                lemma_strip_keeps_breaks(t, i + 1, m);
                lemma_line_breaks_concat(seq![c], strip_from(t, i + 1, m));
            } else {
                lemma_strip_keeps_breaks(t, i + 1, m);
                assert(one + line_breaks(rest1) =~= line_breaks(rest1));
            },
            Mode::Normal => if c == '"' || c == '\'' {
                lemma_strip_keeps_breaks(t, i + 1, Mode::Quote(c));
                lemma_line_breaks_concat(seq![c], strip_from(t, i + 1, Mode::Quote(c)));
            } else if c == '#' {
                lemma_strip_keeps_breaks(t, i + 1, Mode::LineComment);
                assert(one + line_breaks(rest1) =~= line_breaks(rest1));
            } else if c == '/' && i + 1 < t.len() && t[i + 1] == '*' {
                lemma_strip_keeps_breaks(t, i + 2, Mode::BlockComment);
                assert(Seq::<char>::empty() + line_breaks(t.subrange(i + 2, t.len() as int))
                    =~= line_breaks(t.subrange(i + 2, t.len() as int)));
            } else {
                lemma_strip_keeps_breaks(t, i + 1, Mode::Normal);
                lemma_line_breaks_concat(seq![c], strip_from(t, i + 1, Mode::Normal));
            },
        }
    }
}

/// Comments count as whitespace for line numbering: stripping them keeps every
/// line break of the text, so each remaining line keeps its number.
pub proof fn law_strip_comments_keeps_line_breaks(t: Seq<char>)
    ensures
        line_breaks(spec_strip_comments(t)) == line_breaks(t),
{
    lemma_strip_keeps_breaks(t, 0, Mode::Normal);
    assert(t.subrange(0, t.len() as int) =~= t);
}


/// The text of line `j` as an inline object opened on line `s` by `raw` reads
/// it: `raw` on line `s`, the line's content after it.
pub open spec fn inline_text(lines: Seq<SpecLine>, s: int, raw: Seq<char>, j: int) -> Seq<char> {
    if j == s {
        raw
    } else {
        lines[j].content
    }
}

/// How many braces are open when that inline object reaches line `j`: `{`
/// minus `}` over the texts of lines `s..j`.
pub open spec fn braces_before(lines: Seq<SpecLine>, s: int, raw: Seq<char>, j: int) -> int
    decreases j - s,
{
    if j <= s {
        0
    } else {
        braces_before(lines, s, raw, j - 1) + net_braces(inline_text(lines, s, raw, j - 1))
    }
}

proof fn lemma_inline_from_closes(
    lines: Seq<SpecLine>,
    s: int,
    i: int,
    raw: Seq<char>,
    content: Seq<char>,
    count: int,
)
    requires
        0 <= s <= i,
        count == braces_before(lines, s, raw, i),
        forall|j: int|
            s <= j < i ==> (#[trigger] close_at(inline_text(lines, s, raw, j), braces_before(lines, s, raw, j), 0)) is None,
    ensures
        inline_from(lines, s, i, raw, content, count) matches Ok((v, extra)) ==> {
            &&& i <= s + extra < lines.len()
            &&& close_at(
                inline_text(lines, s, raw, s + extra),
                braces_before(lines, s, raw, s + extra),
                0,
            ) is Some
            &&& forall|j: int|
                s <= j < s + extra ==> (#[trigger] close_at(
                    inline_text(lines, s, raw, j),
                    braces_before(lines, s, raw, j),
                    0,
                )) is None
        },
    decreases lines.len() - i,
{
    if i < lines.len() {
        let text = inline_text(lines, s, raw, i);
        if close_at(text, count, 0) is None {
            assert(braces_before(lines, s, raw, i + 1) == count + net_braces(text));
            lemma_inline_from_closes(lines, s, i + 1, raw, content + text + seq![' '], count + net_braces(text));
        }
    }
}

/// An inline object opened by `raw` on line `s` takes the lines from `s` up
/// to the one whose text brings its braces back to zero, and no further: the
/// count of lines it takes after `s` ends exactly at the first line where the
/// closing `}` stands, so parsing resumes on the line after it.
pub proof fn law_inline_object_ends_at_closing_line(lines: Seq<SpecLine>, s: int, raw: Seq<char>)
    requires
        0 <= s < lines.len(),
    ensures
        inline_value(lines, s, raw) matches Ok((v, extra)) ==> {
            &&& s + extra < lines.len()
            &&& close_at(
                inline_text(lines, s, raw, s + extra),
                braces_before(lines, s, raw, s + extra),
                0,
            ) is Some
            &&& forall|j: int|
                s <= j < s + extra ==> (#[trigger] close_at(
                    inline_text(lines, s, raw, j),
                    braces_before(lines, s, raw, j),
                    0,
                )) is None
        },
{
    lemma_inline_from_closes(lines, s, s, raw, seq![], 0);
}


/// Line `i` is `key:` with nothing after the colon, and the next line is
/// indented more: it opens an indented block.
pub open spec fn opens_block(lines: Seq<SpecLine>, i: int) -> bool {
    &&& 0 <= i
    &&& i + 1 < lines.len()
    &&& lines[i + 1].indent > lines[i].indent
    &&& find(lines[i].content, ':') matches Some(c) && trim(
        lines[i].content.subrange(c + 1, lines[i].content.len() as int),
    ).len() == 0
}

proof fn lemma_entry_span(lines: Seq<SpecLine>, i: int)
    requires
        0 <= i < lines.len(),
    ensures
        entry_at(lines, i) matches Ok((key, v, extra)) ==> i + 1 + extra <= lines.len(),
        opens_block(lines, i) ==> (entry_at(lines, i) matches Ok((key, v, extra)) ==> {
            &&& extra >= 1
            &&& i + 1 + extra == lines.len() || lines[i + 1 + extra].indent <= lines[i].indent
            &&& block_from(lines, i + 1, Some(lines[i].indent), seq![]) matches Ok((es, k)) && k
                == extra && v == SpecValue::Object(es)
        }),
    decreases left(lines.len() as int, i), 1nat,
{
    let line = lines[i];
    lemma_find_from(line.content, ':', 0);
    match find(line.content, ':') {
        None => {},
        Some(c) => {
            let raw = trim(line.content.subrange(c + 1, line.content.len() as int));
            if raw.len() > 0 && raw[0] == '{' {
                law_inline_object_ends_at_closing_line(lines, i, raw);
            } else if i + 1 < lines.len() && lines[i + 1].indent > line.indent && raw.len() == 0 {
                lemma_block_span(lines, i + 1, Some(line.indent), seq![]);
                if block_from(lines, i + 1, Some(line.indent), seq![]) is Ok {
                    lemma_entry_span(lines, i + 1);
                }
            }
        },
    }
}

proof fn lemma_block_span(
    lines: Seq<SpecLine>,
    i: int,
    base: Option<nat>,
    acc: Seq<(Seq<char>, SpecValue)>,
)
    requires
        0 <= i <= lines.len(),
    ensures
        block_from(lines, i, base, acc) matches Ok((es, k)) ==> {
            &&& i + k <= lines.len()
            &&& i + k == lines.len() || ends_block(lines[i + k], base)
        },
    decreases left(lines.len() as int, i), 2nat,
{
    if i < lines.len() && !ends_block(lines[i], base) {
        lemma_entry_span(lines, i);
        if let Ok((key, v, extra)) = entry_at(lines, i) {
            lemma_block_span(lines, i + 1 + extra, base, insert_entry(acc, key, v));
        }
    }
}

/// After `key:` with an empty value and more-indented lines below it, parsing
/// resumes at the first line that is not indented more than the key's line
/// (or at the end): the block takes at least one line, every line of it is
/// read once, as part of the key's object, whose pairs are the block's pairs.
pub proof fn law_nested_block_resumes(lines: Seq<SpecLine>, i: int)
    requires
        opens_block(lines, i),
    ensures
        entry_at(lines, i) matches Ok((key, v, extra)) ==> {
            &&& extra >= 1
            &&& i + 1 + extra <= lines.len()
            &&& i + 1 + extra == lines.len() || lines[i + 1 + extra].indent <= lines[i].indent
            &&& block_from(lines, i + 1, Some(lines[i].indent), seq![]) matches Ok((es, k)) && k
                == extra && v == SpecValue::Object(es)
        },
{
    lemma_entry_span(lines, i);
}

/// The lines of a block, read from `i` while they are indented more than
/// `base`, end where the block ends: the count of lines taken stops at the end
/// of the text or at a line not indented more than `base`.
pub proof fn law_block_ends_where_indent_drops(
    lines: Seq<SpecLine>,
    i: int,
    base: Option<nat>,
    acc: Seq<(Seq<char>, SpecValue)>,
)
    requires
        0 <= i <= lines.len(),
    ensures
        block_from(lines, i, base, acc) matches Ok((es, k)) ==> {
            &&& i + k <= lines.len()
            &&& i + k == lines.len() || ends_block(lines[i + k], base)
        },
{
    lemma_block_span(lines, i, base, acc);
}

/// A document made of one `key:` line and a block indented under it has
/// exactly one top-level entry: that key, holding the block's pairs.
pub proof fn law_single_key_with_block(lines: Seq<SpecLine>)
    requires
        opens_block(lines, 0),
        forall|j: int| 1 <= j < lines.len() ==> #[trigger] lines[j].indent > lines[0].indent,
    ensures
        block_from(lines, 0, None, seq![]) matches Ok((es, k)) ==> {
            &&& es.len() == 1
            &&& k == lines.len()
            &&& block_from(lines, 1, Some(lines[0].indent), seq![]) matches Ok((inner, m))
                && es[0].1 == SpecValue::Object(inner)
        },
{
    lemma_entry_span(lines, 0);
    if let Ok((key, v, extra)) = entry_at(lines, 0) {
        let n: int = 1 + extra as int;
        assert(n == lines.len());
        assert(block_from(lines, n, None, insert_entry(seq![], key, v)) == Ok::<
            (Seq<(Seq<char>, SpecValue)>, nat),
            SpecError,
        >((insert_entry(seq![], key, v), 0)));
        assert(insert_entry(seq![], key, v) == seq![(key, v)]);
    }
}


proof fn lemma_blank_from_name(t: Seq<char>, n: int, i: int)
    requires
        1 <= i <= n + 1 < t.len(),
        is_blank(t[n + 1]),
        forall|k: int| 1 <= k <= n ==> !is_blank(#[trigger] t[k]),
    ensures
        blank_from(t, i) == n + 1,
    decreases n + 1 - i,
{
    if i <= n {
        lemma_blank_from_name(t, n, i + 1);
    }
}

proof fn lemma_past_gap(t: Seq<char>, i: int, e: int)
    requires
        0 <= i <= e <= t.len(),
        forall|k: int| i <= k < e ==> is_blank(#[trigger] t[k]),
        e == t.len() || !is_blank(t[e]),
    ensures
        past_blanks(t, i) == e,
    decreases e - i,
{
    if i < e {
        lemma_past_gap(t, i + 1, e);
    }
}

/// A hint written `@name`, a run of blanks (spaces, tabs, line feeds), then a value that does not start
/// with a blank, has exactly that name and that value text, however long the
/// run of blanks.
pub proof fn law_hint_name_and_text(name: Seq<char>, gap: Seq<char>, v: Seq<char>)
    requires
        name.len() > 0,
        forall|k: int|
            0 <= k < name.len() ==> #[trigger] name[k] != ' ' && name[k] != '\t' && name[k] != '\n',
        gap.len() > 0,
        forall|k: int| 0 <= k < gap.len() ==> #[trigger] gap[k] == ' ' || gap[k] == '\t' || gap[k] == '\n',
        v.len() == 0 || (v[0] != ' ' && v[0] != '\t' && v[0] != '\n'),
    ensures
        hint_name(seq!['@'] + name + gap + v) == name,
        hint_text(seq!['@'] + name + gap + v) == v,
{
    let t = seq!['@'] + name + gap + v;
    let n = name.len() as int;
    let g = gap.len() as int;
    assert forall|k: int| 1 <= k <= n implies !is_blank(#[trigger] t[k]) by {
        assert(t[k] == name[k - 1]);
    }
    assert forall|k: int| n + 1 <= k < n + 1 + g implies is_blank(#[trigger] t[k]) by {
        assert(t[k] == gap[k - n - 1]);
    }
    assert(t[n + 1] == gap[0]);
    lemma_blank_from_name(t, n, 1);
    assert(blank_from(t, 0) == blank_from(t, 1));
    if v.len() > 0 {
        assert(t[n + 1 + g] == v[0]);
    }
    lemma_past_gap(t, n + 1, n + 1 + g);
    assert(hint_name(t) =~= name);
    assert(hint_text(t) =~= v);
}

/// `@bool v` reads as true exactly when `v` is `true`, `yes`, `on` or `1` in
/// any ASCII case, and as false for every other `v` (whose first character
/// is not a blank, since blanks after the name are skipped).
pub proof fn law_bool_hint(v: Seq<char>, line: nat)
    requires
        v.len() == 0 || (v[0] != ' ' && v[0] != '\t' && v[0] != '\n'),
    ensures
        hint_of(seq!['@'] + "bool"@ + seq![' '] + v, line) == Ok::<SpecValue, SpecError>(
            SpecValue::Bool(
                eq_ci(v, "true"@) || eq_ci(v, "yes"@) || eq_ci(v, "on"@) || eq_ci(v, "1"@),
            ),
        ),
{
    reveal_strlit("bool");
    reveal_strlit("int");
    reveal_strlit("float");
    law_hint_name_and_text("bool"@, seq![' '], v);
}

/// `@int v` is the integer `v` stands for when it is an integer literal that
/// fits in an `i64`, and the error `Invalid int: v` on the hint's line
/// otherwise.
pub proof fn law_int_hint(v: Seq<char>, line: nat)
    requires
        v.len() == 0 || (v[0] != ' ' && v[0] != '\t' && v[0] != '\n'),
    ensures
        hint_of(seq!['@'] + "int"@ + seq![' '] + v, line) == match int_value(v) {
            Some(n) => Ok::<SpecValue, SpecError>(SpecValue::Int(n)),
            None => Err::<SpecValue, SpecError>(
                SpecError { message: "Invalid int: "@ + v, line: line },
            ),
        },
{
    reveal_strlit("int");
    law_hint_name_and_text("int"@, seq![' '], v);
}

/// `@float v` is the float written `v` when `v` is a number of the format's
/// grammar, and the error `Invalid float: v` otherwise.
pub proof fn law_float_hint(v: Seq<char>, line: nat)
    requires
        v.len() == 0 || (v[0] != ' ' && v[0] != '\t' && v[0] != '\n'),
    ensures
        hint_of(seq!['@'] + "float"@ + seq![' '] + v, line) == if is_float(v) {
            Ok::<SpecValue, SpecError>(SpecValue::Float(v))
        } else {
            Err::<SpecValue, SpecError>(SpecError { message: "Invalid float: "@ + v, line: line })
        },
{
    reveal_strlit("int");
    reveal_strlit("float");
    law_hint_name_and_text("float"@, seq![' '], v);
}

/// The parts of `v` between its top-level `;`.
pub open spec fn semicolon_parts(v: Seq<char>) -> Seq<Seq<char>> {
    spec_smart_split(v, seq![';'])
}

/// A value that holds a `;` outside quotes and braces, and is not a type hint,
/// is the array of its `;`-separated parts, whatever its first character (a
/// quote included): the array has one item per part, each the value that part
/// reads as, and it fails exactly when one of the parts does.
pub proof fn law_top_level_semicolon_makes_array(v: Seq<char>, line: nat)
    requires
        trim(v) == v,
        v.len() > 0,
        v[0] != '@',
        spec_is_array(v),
    ensures
        value_of(v, line) == wrap_array(list_of(semicolon_parts(v), line, v.len())),
        value_of(v, line) matches Ok(x) ==> x matches SpecValue::Array(xs) && xs.len()
            == semicolon_parts(v).len() && forall|k: int|
            0 <= k < xs.len() ==> value_of(#[trigger] semicolon_parts(v)[k], line) == Ok::<
                SpecValue,
                SpecError,
            >(xs[k]),
        value_of(v, line) is Err <==> exists|k: int|
            0 <= k < semicolon_parts(v).len() && value_of(#[trigger] semicolon_parts(v)[k], line) is Err,
{
    let ds = seq![';'];
    let p = choose|p: int| 0 <= p < v.len() && v[p] == ';' && top_level(v, p);
    assert(ds[0] == v[p]);
    assert(is_split_point(v, ds, p));
    lemma_split_bounds(v, ds);
    let parts = semicolon_parts(v);
    law_array_in_order(parts, line, v.len());
}

/// A leading `-` never changes whether a text is a number, nor whether it is
/// an integer literal.
pub proof fn law_minus_keeps_number(s: Seq<char>)
    requires
        s.len() == 0 || s[0] != '-',
    ensures
        is_float(seq!['-'] + s) == is_float(s),
        is_int_literal(seq!['-'] + s) == is_int_literal(s),
{
    assert((seq!['-'] + s).drop_first() =~= s);
}

/// Every integer literal is a number of the format's grammar.
pub proof fn law_int_literal_is_number(s: Seq<char>)
    requires
        is_int_literal(s),
    ensures
        is_float(s),
{
    let b = minus_stripped(s);
    lemma_digits_end(b, 0);
    assert(digits_end(b, 0) == b.len()) by {
        lemma_digits_all(b, 0);
    }
}

proof fn lemma_digits_all(b: Seq<char>, i: int)
    requires
        0 <= i <= b.len(),
        all_digits(b),
    ensures
        digits_end(b, i) == b.len(),
    decreases b.len() - i,
{
    if i < b.len() {
        lemma_digits_all(b, i + 1);
    }
}


proof fn lemma_decimal(n: nat)
    ensures
        decimal(n).len() >= 1,
        all_digits(decimal(n)),
        digits_value(decimal(n)) == n,
        decimal(n)[0] == '0' ==> n == 0 && decimal(n).len() == 1,
        n >= 1 ==> decimal(n)[0] != '0',
    decreases n,
{
    if n >= 10 {
        lemma_decimal(n / 10);
        let d = decimal(n);
        assert(d.drop_last() =~= decimal(n / 10));
        assert(d[0] == decimal(n / 10)[0]);
        assert(digit_value(d.last()) == n % 10);
        assert((n / 10) * 10 + n % 10 == n);
        assert(digits_value(d) == digits_value(d.drop_last()) * 10 + digit_value(d.last()));
        assert forall|k: int| 0 <= k < d.len() implies is_digit(#[trigger] d[k]) by {
            if k < d.len() - 1 {
                assert(d[k] == decimal(n / 10)[k]);
            }
        }
    } else {
        let d = decimal(n);
        assert(d.drop_last() =~= Seq::<char>::empty());
        assert(digits_value(d) == digits_value(d.drop_last()) * 10 + digit_value(d.last()));
    }
}

proof fn lemma_plain_trim(v: Seq<char>)
    requires
        v.len() > 0,
        !is_ws(v[0]),
        !is_ws(v[v.len() - 1]),
    ensures
        trim(v) == v,
{
    assert(skip_ws(v, 0) == 0);
    assert(trim_start(v) =~= v);
    assert(back_ws(v, v.len() as int) == v.len());
    assert(trim(v) =~= v);
}

proof fn lemma_not_word(v: Seq<char>)
    requires
        v.len() > 0,
        is_digit(v[0]) || v[0] == '-',
    ensures
        !is_true_word(v),
        !is_false_word(v),
        !is_null_word(v),
        !spec_is_array(v) <== forall|k: int| 0 <= k < v.len() ==> #[trigger] v[k] != ';',
{
    reveal_strlit("true");
    reveal_strlit("yes");
    reveal_strlit("on");
    reveal_strlit("false");
    reveal_strlit("no");
    reveal_strlit("off");
    reveal_strlit("null");
    reveal_strlit("nil");
    reveal_strlit("_");
    reveal_strlit("~");
    assert(!eq_ci_char(v[0], 't') && !eq_ci_char(v[0], 'y') && !eq_ci_char(v[0], 'o'));
    assert(!eq_ci_char(v[0], 'f') && !eq_ci_char(v[0], 'n') && !eq_ci_char(v[0], '_'));
    assert(!eq_ci_char(v[0], '~'));
}

/// Integers read back as what they are: the decimal digits of any `n` up to
/// `i64::MAX`, with or without a leading `-`, are the integer `n` or `-n`,
/// both as integer literals and as whole values.
pub proof fn law_integers_read_back(n: nat, line: nat)
    requires
        n <= i64::MAX,
    ensures
        int_value(decimal(n)) == Some(n as i64),
        int_value(seq!['-'] + decimal(n)) == Some((-n) as i64),
        value_of(decimal(n), line) == Ok::<SpecValue, SpecError>(SpecValue::Int(n as i64)),
        value_of(seq!['-'] + decimal(n), line) == Ok::<SpecValue, SpecError>(
            SpecValue::Int((-n) as i64),
        ),
{
    lemma_decimal(n);
    let d = decimal(n);
    let m = seq!['-'] + d;
    assert(m.drop_first() =~= d);
    assert(unsigned_part(d) == d);
    assert(unsigned_part(m) == d);
    assert(is_int_literal(d));
    assert(is_int_literal(m));
    lemma_plain_trim(d);
    lemma_plain_trim(m);
    lemma_not_word(d);
    lemma_not_word(m);
    assert forall|k: int| 0 <= k < d.len() implies #[trigger] d[k] != ';' by {
        assert(is_digit(d[k]));
    }
    assert forall|k: int| 0 <= k < m.len() implies #[trigger] m[k] != ';' by {
        if k > 0 {
            assert(m[k] == d[k - 1]);
            assert(is_digit(d[k - 1]));
        }
    }
}


proof fn lemma_word_shape(v: Seq<char>, w: Seq<char>)
    requires
        eq_ci(v, w),
        w.len() > 0,
        forall|k: int| 0 <= k < w.len() ==> ('a' <= #[trigger] w[k] && w[k] <= 'z') || w[k] == '_' || w[k] == '~',
    ensures
        trim(v) == v,
        v.len() > 0,
        v[0] != '@' && v[0] != '{' && v[0] != '"',
        !spec_is_array(v),
{
    assert forall|k: int| 0 <= k < v.len() implies #[trigger] v[k] != ';' && !is_ws(v[k]) by {
        assert(eq_ci_char(v[k], w[k]));
    }
    assert(eq_ci_char(v[0], w[0]));
    lemma_plain_trim(v);
}

proof fn lemma_word_chars(w: Seq<char>)
    requires
        w == "true"@ || w == "yes"@ || w == "on"@ || w == "false"@ || w == "no"@ || w == "off"@ || w
            == "null"@ || w == "nil"@ || w == "_"@ || w == "~"@,
    ensures
        w.len() > 0,
        forall|k: int| 0 <= k < w.len() ==> ('a' <= #[trigger] w[k] && w[k] <= 'z') || w[k] == '_' || w[k] == '~',
{
    reveal_strlit("true");
    reveal_strlit("yes");
    reveal_strlit("on");
    reveal_strlit("false");
    reveal_strlit("no");
    reveal_strlit("off");
    reveal_strlit("null");
    reveal_strlit("nil");
    reveal_strlit("_");
    reveal_strlit("~");
}

/// `true`, `yes` and `on`, in any ASCII case, read as the boolean true;
/// `false`, `no` and `off` as false; `null`, `nil`, `_` and `~` as null.
pub proof fn law_word_values(v: Seq<char>, line: nat)
    ensures
        (eq_ci(v, "true"@) || eq_ci(v, "yes"@) || eq_ci(v, "on"@)) ==> value_of(v, line) == Ok::<
            SpecValue,
            SpecError,
        >(SpecValue::Bool(true)),
        (eq_ci(v, "false"@) || eq_ci(v, "no"@) || eq_ci(v, "off"@)) ==> value_of(v, line) == Ok::<
            SpecValue,
            SpecError,
        >(SpecValue::Bool(false)),
        (eq_ci(v, "null"@) || eq_ci(v, "nil"@) || eq_ci(v, "_"@) || eq_ci(v, "~"@)) ==> value_of(
            v,
            line,
        ) == Ok::<SpecValue, SpecError>(SpecValue::Null),
{
    lemma_words_apart(v);
    if eq_ci(v, "true"@) {
        lemma_word_chars("true"@);
        lemma_word_shape(v, "true"@);
    }
    if eq_ci(v, "yes"@) {
        lemma_word_chars("yes"@);
        lemma_word_shape(v, "yes"@);
    }
    if eq_ci(v, "on"@) {
        lemma_word_chars("on"@);
        lemma_word_shape(v, "on"@);
    }
    if eq_ci(v, "false"@) {
        lemma_word_chars("false"@);
        lemma_word_shape(v, "false"@);
    }
    if eq_ci(v, "no"@) {
        lemma_word_chars("no"@);
        lemma_word_shape(v, "no"@);
    }
    if eq_ci(v, "off"@) {
        lemma_word_chars("off"@);
        lemma_word_shape(v, "off"@);
    }
    if eq_ci(v, "null"@) {
        lemma_word_chars("null"@);
        lemma_word_shape(v, "null"@);
    }
    if eq_ci(v, "nil"@) {
        lemma_word_chars("nil"@);
        lemma_word_shape(v, "nil"@);
    }
    if eq_ci(v, "_"@) {
        lemma_word_chars("_"@);
        lemma_word_shape(v, "_"@);
    }
    if eq_ci(v, "~"@) {
        lemma_word_chars("~"@);
        lemma_word_shape(v, "~"@);
    }
}

proof fn lemma_words_apart(v: Seq<char>)
    ensures
        is_true_word(v) ==> !is_false_word(v) && !is_null_word(v),
        is_false_word(v) ==> !is_null_word(v),
{
    reveal_strlit("true");
    reveal_strlit("yes");
    reveal_strlit("on");
    reveal_strlit("false");
    reveal_strlit("no");
    reveal_strlit("off");
    reveal_strlit("null");
    reveal_strlit("nil");
    reveal_strlit("_");
    reveal_strlit("~");
    if v.len() > 0 {
        assert(eq_ci(v, "on"@) ==> eq_ci_char(v[0], 'o') && eq_ci_char(v[1], 'n'));
        assert(eq_ci(v, "no"@) ==> eq_ci_char(v[0], 'n') && eq_ci_char(v[1], 'o'));
        assert(eq_ci(v, "nil"@) ==> eq_ci_char(v[0], 'n'));
        assert(eq_ci(v, "off"@) ==> eq_ci_char(v[0], 'o') && eq_ci_char(v[1], 'f'));
        assert(eq_ci(v, "yes"@) ==> eq_ci_char(v[0], 'y'));
        assert(eq_ci(v, "null"@) ==> eq_ci_char(v[0], 'n') && eq_ci_char(v[1], 'u'));
        assert(eq_ci(v, "true"@) ==> eq_ci_char(v[0], 't'));
        assert(eq_ci(v, "false"@) ==> eq_ci_char(v[0], 'f'));
    }
}


/// `.` followed by one or more digits.
pub open spec fn is_fraction(f: Seq<char>) -> bool {
    f.len() >= 2 && f[0] == '.' && all_digits(f.drop_first())
}

/// `e` or `E`, an optional sign, and one or more digits.
pub open spec fn is_exponent(x: Seq<char>) -> bool {
    &&& x.len() >= 2
    &&& x[0] == 'e' || x[0] == 'E'
    &&& {
        ||| all_digits(x.drop_first())
        ||| x.len() >= 3 && (x[1] == '+' || x[1] == '-') && all_digits(x.subrange(2, x.len() as int))
    }
}

/// `s` is an integer literal `a`, then an optional fraction `f`, then an
/// optional exponent `x`.
pub open spec fn number_split(s: Seq<char>, a: Seq<char>, f: Seq<char>, x: Seq<char>) -> bool {
    &&& s == a + f + x
    &&& is_int_literal(a)
    &&& f.len() == 0 || is_fraction(f)
    &&& x.len() == 0 || is_exponent(x)
}

proof fn lemma_digits_end_at(b: Seq<char>, i: int, p: int)
    requires
        0 <= i <= p <= b.len(),
        forall|k: int| i <= k < p ==> is_digit(#[trigger] b[k]),
        p == b.len() || !is_digit(b[p]),
    ensures
        digits_end(b, i) == p,
    decreases p - i,
{
    if i < p {
        lemma_digits_end_at(b, i + 1, p);
    }
}

proof fn lemma_exp_tail_iff(b: Seq<char>, e: int)
    requires
        0 <= e <= b.len(),
    ensures
        exp_tail(b, e) <==> (e == b.len() || is_exponent(b.subrange(e, b.len() as int))),
{
    if e < b.len() {
        let x = b.subrange(e, b.len() as int);
        assert(eq_ci_char(b[e], 'e') <==> (b[e] == 'e' || b[e] == 'E'));
        let signed = e + 1 < b.len() && (b[e + 1] == '+' || b[e + 1] == '-');
        let j = if signed {
            e + 2
        } else {
            e + 1
        };
        if j <= b.len() {
            lemma_digits_end(b, j);
            if forall|k: int| j <= k < b.len() ==> is_digit(#[trigger] b[k]) {
                lemma_digits_end_at(b, j, b.len() as int);
            }
        }
        if x.len() >= 2 {
            assert(x[1] == b[e + 1]);
            let t1 = x.drop_first();
            assert forall|k: int| 0 <= k < t1.len() implies t1[k] == #[trigger] b[e + 1 + k] by {}
            if x.len() >= 3 {
                let t2 = x.subrange(2, x.len() as int);
                assert forall|k: int| 0 <= k < t2.len() implies t2[k] == #[trigger] b[e + 2 + k] by {}
                if all_digits(t2) && signed {
                    assert forall|k: int| j <= k < b.len() implies is_digit(#[trigger] b[k]) by {
                        assert(b[k] == t2[k - e - 2]);
                    }
                }
            }
            if all_digits(t1) {
                assert(!signed) by {
                    if signed {
                        assert(is_digit(t1[0]));
                    }
                }
                assert forall|k: int| j <= k < b.len() implies is_digit(#[trigger] b[k]) by {
                    assert(b[k] == t1[k - e - 1]);
                }
            }
            if j < b.len() && digits_end(b, j) == b.len() {
                if signed {
                    assert forall|k: int| 0 <= k < x.subrange(2, x.len() as int).len() implies is_digit(
                        #[trigger] x.subrange(2, x.len() as int)[k],
                    ) by {
                        assert(x.subrange(2, x.len() as int)[k] == b[e + 2 + k]);
                    }
                } else {
                    assert forall|k: int| 0 <= k < t1.len() implies is_digit(#[trigger] t1[k]) by {
                        assert(t1[k] == b[e + 1 + k]);
                    }
                }
            }
        }
    }
}

proof fn lemma_number_split_found(s: Seq<char>)
    requires
        is_float(s),
    ensures
        exists|a: Seq<char>, f: Seq<char>, x: Seq<char>| #[trigger] number_split(s, a, f, x),
{
    let m: int = if s.len() > 0 && s[0] == '-' {
        1
    } else {
        0
    };
    let b = minus_stripped(s);
    assert(b =~= s.subrange(m, s.len() as int));
    let d1 = digits_end(b, 0);
    lemma_digits_end(b, 0);
    let frac = d1 < b.len() && b[d1] == '.';
    let e = if frac {
        digits_end(b, d1 + 1)
    } else {
        d1
    };
    if frac {
        lemma_digits_end(b, d1 + 1);
    }
    let a = s.subrange(0, m + d1);
    let f = s.subrange(m + d1, m + e);
    let x = s.subrange(m + e, s.len() as int);
    assert(s =~= a + f + x);
    let ab = minus_stripped(a);
    assert(ab =~= b.subrange(0, d1)) by {
        if m == 0 && a.len() > 0 {
            assert(a[0] == b[0]);
            assert(is_digit(b[0]));
        }
    }
    assert(is_int_literal(a)) by {
        assert forall|k: int| 0 <= k < ab.len() implies is_digit(#[trigger] ab[k]) by {
            assert(ab[k] == b[k]);
        }
    }
    if frac {
        assert forall|k: int| 0 <= k < f.drop_first().len() implies is_digit(
            #[trigger] f.drop_first()[k],
        ) by {
            assert(f.drop_first()[k] == b[d1 + 1 + k]);
        }
        assert(is_fraction(f));
    } else {
        assert(f.len() == 0);
    }
    lemma_exp_tail_iff(b, e);
    assert(x =~= b.subrange(e, b.len() as int));
    assert(number_split(s, a, f, x));
}

proof fn lemma_number_split_is_number(s: Seq<char>, a: Seq<char>, f: Seq<char>, x: Seq<char>)
    requires
        number_split(s, a, f, x),
    ensures
        is_float(s),
{
    let m: int = if s.len() > 0 && s[0] == '-' {
        1
    } else {
        0
    };
    let b = minus_stripped(s);
    assert(b =~= s.subrange(m, s.len() as int));
    let d1 = digits_end(b, 0);
    lemma_digits_end(b, 0);
    let ab = minus_stripped(a);
    let n = ab.len() as int;
    let ma: int = if a.len() > 0 && a[0] == '-' {
        1
    } else {
        0
    };
    assert(ab =~= a.subrange(ma, a.len() as int));
    assert(m == ma) by {
        if ma == 0 {
            assert(s[0] == a[0] && is_digit(ab[0]));
        } else {
            assert(s[0] == a[0]);
        }
    }
    assert(b =~= ab + f + x);
    assert forall|k: int| 0 <= k < n implies is_digit(#[trigger] b[k]) by {
        assert(b[k] == ab[k]);
    }
    if f.len() > 0 {
        assert(b[n] == f[0]);
    } else if x.len() > 0 {
        assert(b[n] == x[0]);
    }
    lemma_digits_end_at(b, 0, n);
    assert(b[0] == ab[0]);
    let e = n + f.len();
    if f.len() > 0 {
        assert forall|k: int| n + 1 <= k < e implies is_digit(#[trigger] b[k]) by {
            assert(b[k] == f.drop_first()[k - n - 1]);
        }
        if x.len() > 0 {
            assert(b[e] == x[0]);
        }
        lemma_digits_end_at(b, n + 1, e);
    }
    lemma_exp_tail_iff(b, e);
    assert(b.subrange(e, b.len() as int) =~= x);
}

/// A number of the format's grammar is exactly an integer literal (an
/// optional `-`, then `0` or digits not starting with `0`), then optionally
/// `.` and one or more digits, then optionally `e` or `E`, an optional sign
/// and one or more digits.
pub proof fn law_number_grammar(s: Seq<char>)
    ensures
        is_float(s) <==> exists|a: Seq<char>, f: Seq<char>, x: Seq<char>| #[trigger]
            number_split(s, a, f, x),
{
    if is_float(s) {
        lemma_number_split_found(s);
    }
    if exists|a: Seq<char>, f: Seq<char>, x: Seq<char>| #[trigger] number_split(s, a, f, x) {
        let (a, f, x) = choose|a: Seq<char>, f: Seq<char>, x: Seq<char>| #[trigger]
            number_split(s, a, f, x);
        lemma_number_split_is_number(s, a, f, x);
    }
}


/// A character that can stand in a number.
pub open spec fn is_number_char(c: char) -> bool {
    is_digit(c) || c == '-' || c == '+' || c == '.' || c == 'e' || c == 'E'
}

proof fn lemma_number_chars(s: Seq<char>)
    requires
        is_float(s),
    ensures
        s.len() > 0,
        is_digit(s[0]) || s[0] == '-',
        is_digit(s[s.len() - 1]),
        forall|k: int| 0 <= k < s.len() ==> is_number_char(#[trigger] s[k]),
{
    lemma_number_split_found(s);
    let (a, f, x) = choose|a: Seq<char>, f: Seq<char>, x: Seq<char>| #[trigger]
        number_split(s, a, f, x);
    let ab = minus_stripped(a);
    let ma: int = if a.len() > 0 && a[0] == '-' {
        1
    } else {
        0
    };
    assert(ab =~= a.subrange(ma, a.len() as int));
    assert forall|k: int| 0 <= k < a.len() implies is_number_char(#[trigger] a[k]) by {
        if k >= ma {
            assert(a[k] == ab[k - ma]);
        }
    }
    assert forall|k: int| 0 <= k < f.len() implies is_number_char(#[trigger] f[k]) by {
        if k > 0 {
            assert(f[k] == f.drop_first()[k - 1]);
        }
    }
    assert forall|k: int| 0 <= k < x.len() implies is_number_char(#[trigger] x[k]) by {
        if k > 0 {
            if all_digits(x.drop_first()) {
                assert(x[k] == x.drop_first()[k - 1]);
            } else if k > 1 {
                assert(x[k] == x.subrange(2, x.len() as int)[k - 2]);
            }
        }
    }
    assert forall|k: int| 0 <= k < s.len() implies is_number_char(#[trigger] s[k]) by {
        if k < a.len() {
            assert(s[k] == a[k]);
        } else if k < a.len() + f.len() {
            assert(s[k] == f[k - a.len()]);
        } else {
            assert(s[k] == x[k - a.len() - f.len()]);
        }
    }
    assert(s[0] == a[0]);
    if ma == 0 {
        assert(a[0] == ab[0]);
    }
    if x.len() > 0 {
        assert(s[s.len() - 1] == x[x.len() - 1]);
        if all_digits(x.drop_first()) {
            assert(x[x.len() - 1] == x.drop_first()[x.len() - 2]);
        } else {
            assert(x[x.len() - 1] == x.subrange(2, x.len() as int)[x.len() - 3]);
        }
    } else if f.len() > 0 {
        assert(s[s.len() - 1] == f[f.len() - 1]);
        assert(f[f.len() - 1] == f.drop_first()[f.len() - 2]);
    } else {
        assert(s[s.len() - 1] == a[a.len() - 1]);
        assert(a[a.len() - 1] == ab[ab.len() - 1]);
    }
}

/// A number reads as the integer it stands for when it is an integer literal
/// that fits in an `i64`, and as a float kept as its text otherwise.
pub proof fn law_number_values(v: Seq<char>, line: nat)
    requires
        is_float(v),
    ensures
        value_of(v, line) == match int_value(v) {
            Some(n) => Ok::<SpecValue, SpecError>(SpecValue::Int(n)),
            None => Ok::<SpecValue, SpecError>(SpecValue::Float(v)),
        },
{
    lemma_number_chars(v);
    lemma_plain_trim(v);
    lemma_not_word(v);
    assert forall|k: int| 0 <= k < v.len() implies #[trigger] v[k] != ';' by {
        assert(is_number_char(v[k]));
    }
}


/// How `c` is written inside a quoted string: `"`, `\\`, and the control
/// characters backspace, form feed, line feed, carriage return and tab as
/// their escapes; every other character as itself.
pub open spec fn escape_char(c: char) -> Seq<char> {
    if c == '"' {
        seq!['\\', '"']
    } else if c == '\\' {
        seq!['\\', '\\']
    } else if c == '\u{8}' {
        seq!['\\', 'b']
    } else if c == '\u{c}' {
        seq!['\\', 'f']
    } else if c == '\n' {
        seq!['\\', 'n']
    } else if c == '\r' {
        seq!['\\', 'r']
    } else if c == '\t' {
        seq!['\\', 't']
    } else {
        seq![c]
    }
}

/// `t` written character by character with `escape_char`.
pub open spec fn escape(t: Seq<char>) -> Seq<char>
    decreases t.len(),
{
    if t.len() == 0 {
        seq![]
    } else {
        escape_char(t[0]) + escape(t.drop_first())
    }
}

/// Escaping and unescaping undo each other: any text written with its quotes,
/// backslashes and control characters escaped reads back as itself.
pub proof fn law_unescape_undoes_escape(t: Seq<char>)
    ensures
        unescape(escape(t)) == t,
    decreases t.len(),
{
    if t.len() > 0 {
        law_unescape_undoes_escape(t.drop_first());
        let c = t[0];
        let e = escape(t);
        let rest = escape(t.drop_first());
        let ec = escape_char(c);
        assert(e == ec + rest);
        if ec.len() == 2 {
            assert(e.subrange(2, e.len() as int) =~= rest);
            assert(e[0] == '\\' && e[1] == ec[1]);
        } else {
            assert(e.subrange(1, e.len() as int) =~= rest);
            assert(e[0] == c);
        }
        assert(t =~= seq![c] + t.drop_first());
    }
}

/// A quoted string whose body is `escape(t)` reads as the string `t`.
pub proof fn law_quoted_string_reads_back(t: Seq<char>, line: nat)
    ensures
        string_value(seq!['"'] + escape(t) + seq!['"'], line) == Ok::<SpecValue, SpecError>(
            SpecValue::Str(t),
        ),
{
    let q = seq!['"'] + escape(t) + seq!['"'];
    assert(q.subrange(1, q.len() - 1) =~= escape(t));
    law_unescape_undoes_escape(t);
}


/// The hexadecimal digit of value `d` (below 16), in lower or upper case.
pub open spec fn hex_char(d: int, upper: bool) -> char {
    if d < 10 {
        (d + '0' as int) as char
    } else if upper {
        (d - 10 + 'A' as int) as char
    } else {
        (d - 10 + 'a' as int) as char
    }
}

proof fn lemma_hex_char(d: int, upper: bool)
    requires
        0 <= d < 16,
    ensures
        is_hex_digit(hex_char(d, upper)),
        hex_value(hex_char(d, upper)) == d,
{
}

/// `\u` and the four hexadecimal digits (either case) of a Unicode scalar
/// value below U+10000 stand for that character, whatever follows.
pub proof fn law_unicode_escape(d1: int, d2: int, d3: int, d4: int, upper: bool, rest: Seq<char>)
    requires
        0 <= d1 < 16 && 0 <= d2 < 16 && 0 <= d3 < 16 && 0 <= d4 < 16,
        is_scalar(d1 * 4096 + d2 * 256 + d3 * 16 + d4),
    ensures
        unescape(
            seq![
                '\\',
                'u',
                hex_char(d1, upper),
                hex_char(d2, upper),
                hex_char(d3, upper),
                hex_char(d4, upper),
            ] + rest,
        ) == seq![(d1 * 4096 + d2 * 256 + d3 * 16 + d4) as char] + unescape(rest),
{
    lemma_hex_char(d1, upper);
    lemma_hex_char(d2, upper);
    lemma_hex_char(d3, upper);
    lemma_hex_char(d4, upper);
    let s = seq![
        '\\',
        'u',
        hex_char(d1, upper),
        hex_char(d2, upper),
        hex_char(d3, upper),
        hex_char(d4, upper),
    ] + rest;
    assert(s[1] == 'u' && s[2] == hex_char(d1, upper) && s[5] == hex_char(d4, upper));
    assert(s[3] == hex_char(d2, upper) && s[4] == hex_char(d3, upper));
    assert(simple_escape(s[1]) is None);
    assert(unicode_escape_at(s, 0));
    assert(s.subrange(6, s.len() as int) =~= rest);
}


/// `@bigint` accepts exactly one or more digits with at most one leading `-`:
/// a text not starting with `-` is valid when it is all digits, and any text
/// after one `-` is valid exactly when it is one or more digits (so never
/// when it starts with another `-`).
pub proof fn law_bigint_one_minus(d: Seq<char>)
    ensures
        d.len() == 0 || d[0] != '-' ==> valid_bigint(d) == (d.len() > 0 && all_digits(d)),
        valid_bigint(seq!['-'] + d) == (d.len() > 0 && all_digits(d)),
{
    assert((seq!['-'] + d).drop_first() =~= d);
    if d.len() > 0 && d[0] == '-' {
        assert(!is_digit(d[0]));
    }
}


proof fn lemma_value_error_line(raw: Seq<char>, line: nat)
    ensures
        value_of(raw, line) matches Err(e) ==> e.line == line,
    decreases raw.len(), 2nat, 0nat,
{
    let v = trim(raw);
    lemma_trim_len(raw);
    if v.len() == 0 {
    } else if v[0] == '@' {
        lemma_hint_error_line(v, line);
    } else if spec_is_array(v) {
        let ds = seq![';'];
        let p = choose|p: int| 0 <= p < v.len() && v[p] == ';' && top_level(v, p);
        assert(ds[0] == v[p]);
        assert(is_split_point(v, ds, p));
        lemma_split_bounds(v, ds);
        lemma_list_error_line(spec_smart_split(v, ds), line, v.len());
    } else if v[0] == '{' && v[v.len() - 1] == '}' {
        let inner = v.subrange(1, v.len() - 1);
        lemma_split_bounds(inner, seq![';', ',']);
        if spec_is_inline_array(inner) {
            lemma_list_error_line(inline_items(inner), line, v.len());
        } else {
            lemma_pairs_error_line(inline_items(inner), seq![], line, v.len());
        }
    }
}

proof fn lemma_hint_error_line(t: Seq<char>, line: nat)
    requires
        t.len() > 0,
    ensures
        hint_of(t, line) matches Err(e) ==> e.line == line,
    decreases t.len(), 1nat, 0nat,
{
    lemma_hint_bounds(t);
    lemma_value_error_line(hint_text(t), line);
}

proof fn lemma_list_error_line(items: Seq<Seq<char>>, line: nat, bound: nat)
    requires
        forall|k: int| 0 <= k < items.len() ==> #[trigger] items[k].len() < bound,
    ensures
        list_of(items, line, bound) matches Err(e) ==> e.line == line,
    decreases bound, 1nat, items.len(),
{
    if items.len() > 0 {
        lemma_value_error_line(items[0], line);
        let rest = items.drop_first();
        assert forall|k: int| 0 <= k < rest.len() implies #[trigger] rest[k].len() < bound by {
            assert(rest[k] == items[k + 1]);
        }
        lemma_list_error_line(rest, line, bound);
    }
}

proof fn lemma_pairs_error_line(
    items: Seq<Seq<char>>,
    acc: Seq<(Seq<char>, SpecValue)>,
    line: nat,
    bound: nat,
)
    requires
        forall|k: int| 0 <= k < items.len() ==> #[trigger] items[k].len() < bound,
    ensures
        pairs_of(items, acc, line, bound) matches Err(e) ==> e.line == line,
    decreases bound, 1nat, items.len(),
{
    if items.len() > 0 {
        let rest = items.drop_first();
        assert forall|k: int| 0 <= k < rest.len() implies #[trigger] rest[k].len() < bound by {
            assert(rest[k] == items[k + 1]);
        }
        let t = trim(items[0]);
        lemma_trim_len(items[0]);
        if t.len() == 0 {
            lemma_pairs_error_line(rest, acc, line, bound);
        } else if let Some(c) = key_colon(t) {
            lemma_key_colon_from(t, 0);
            let key = trim(t.subrange(0, c));
            let val = trim(t.subrange(c + 1, t.len() as int));
            lemma_trim_len(t.subrange(c + 1, t.len() as int));
            lemma_value_error_line(val, line);
            if let Ok(x) = value_of(val, line) {
                lemma_pairs_error_line(rest, insert_entry(acc, key, x), line, bound);
            }
        }
    }
}

/// Every error that reading a value gives, however deep inside arrays,
/// inline objects and type hints it arises, names the line the value is on.
pub proof fn law_value_errors_name_their_line(raw: Seq<char>, line: nat)
    ensures
        value_of(raw, line) matches Err(e) ==> e.line == line,
{
    lemma_value_error_line(raw, line);
}


/// The parts of a brace body between its top-level `;` and `,`.
pub open spec fn brace_parts(inner: Seq<char>) -> Seq<Seq<char>> {
    spec_smart_split(inner, seq![';', ','])
}

/// A `{ }` value with no `;` outside its braces whose body has no colon at
/// top level is the array of the body's `;`- and `,`-separated parts: one item
/// per part, each the value that part reads as; it fails exactly when one of
/// the parts does.
pub proof fn law_brace_array_items(v: Seq<char>, line: nat)
    requires
        trim(v) == v,
        v.len() >= 2,
        v[0] == '{',
        v[v.len() - 1] == '}',
        !spec_is_array(v),
        !spec_has_top_level_colon(v.subrange(1, v.len() - 1)),
    ensures
        value_of(v, line) matches Ok(x) ==> x matches SpecValue::Array(xs) && xs.len()
            == brace_parts(v.subrange(1, v.len() - 1)).len() && forall|k: int|
            0 <= k < xs.len() ==> value_of(
                #[trigger] brace_parts(v.subrange(1, v.len() - 1))[k],
                line,
            ) == Ok::<SpecValue, SpecError>(xs[k]),
        value_of(v, line) is Err <==> exists|k: int|
            0 <= k < brace_parts(v.subrange(1, v.len() - 1)).len() && value_of(
                #[trigger] brace_parts(v.subrange(1, v.len() - 1))[k],
                line,
            ) is Err,
{
    let inner = v.subrange(1, v.len() - 1);
    law_inline_array_iff_no_top_level_colon(inner);
    lemma_split_bounds(inner, seq![';', ',']);
    law_array_in_order(brace_parts(inner), line, v.len());
}


proof fn lemma_trim_first(x: Seq<char>)
    requires
        trim(x).len() > 0,
    ensures
        x.contains(trim(x)[0]),
{
    lemma_skip_ws_bounds(x, 0);
    let y = trim_start(x);
    lemma_back_ws_bounds(y, y.len() as int);
    assert(trim(x)[0] == x[skip_ws(x, 0)]);
}

proof fn lemma_flat_entry(lines: Seq<SpecLine>, i: int)
    requires
        0 <= i < lines.len(),
        forall|j: int| 0 <= j < lines.len() ==> !(#[trigger] lines[j].content).contains('{'),
    ensures
        entry_at(lines, i) matches Ok((key, v, extra)) ==> forall|j: int|
            i < j < i + 1 + extra ==> #[trigger] lines[j].indent > lines[i].indent,
    decreases left(lines.len() as int, i), 1nat,
{
    let line = lines[i];
    lemma_find_from(line.content, ':', 0);
    if let Some(c) = find(line.content, ':') {
        let after = line.content.subrange(c + 1, line.content.len() as int);
        let raw = trim(after);
        if raw.len() > 0 {
            lemma_trim_first(after);
            let k = choose|k: int| 0 <= k < after.len() && after[k] == raw[0];
            assert(line.content[c + 1 + k] == raw[0]);
            assert(raw[0] != '{');
        }
        if i + 1 < lines.len() && lines[i + 1].indent > line.indent && raw.len() == 0 {
            lemma_flat_block(lines, i + 1, line.indent, seq![]);
        }
    }
}

proof fn lemma_flat_block(lines: Seq<SpecLine>, i: int, b: nat, acc: Seq<(Seq<char>, SpecValue)>)
    requires
        0 <= i <= lines.len(),
        forall|j: int| 0 <= j < lines.len() ==> !(#[trigger] lines[j].content).contains('{'),
    ensures
        block_from(lines, i, Some(b), acc) matches Ok((es, k)) ==> {
            &&& forall|j: int| i <= j < i + k ==> #[trigger] lines[j].indent > b
            &&& i + k == lines.len() || lines[i + k].indent <= b
        },
    decreases left(lines.len() as int, i), 2nat,
{
    lemma_block_span(lines, i, Some(b), acc);
    if i < lines.len() && lines[i].indent > b {
        lemma_flat_entry(lines, i);
        lemma_entry_span(lines, i);
        if let Ok((key, v, extra)) = entry_at(lines, i) {
            lemma_flat_block(lines, i + 1 + extra, b, insert_entry(acc, key, v));
        }
    }
}

/// In a text without inline objects, a block read from line `i` under a
/// line of indentation `b` takes exactly the lines indented more than `b`
/// that follow, and stops at the first line indented `b` or less: a line
/// indented as much as the key's line is no longer part of its block.
pub proof fn law_block_stops_at_first_outdent(
    lines: Seq<SpecLine>,
    i: int,
    b: nat,
    acc: Seq<(Seq<char>, SpecValue)>,
)
    requires
        0 <= i <= lines.len(),
        forall|j: int| 0 <= j < lines.len() ==> !(#[trigger] lines[j].content).contains('{'),
    ensures
        block_from(lines, i, Some(b), acc) matches Ok((es, k)) ==> {
            &&& forall|j: int| i <= j < i + k ==> #[trigger] lines[j].indent > b
            &&& i + k == lines.len() || lines[i + k].indent <= b
        },
{
    lemma_flat_block(lines, i, b, acc);
}


/// `text[j]` is a `}` that brings the braces, `count` open before `text`,
/// back to zero.
pub open spec fn closes_at(text: Seq<char>, count: int, j: int) -> bool {
    text[j] == '}' && count + net_braces(text.take(j + 1)) == 0
}

proof fn lemma_close_at_first(text: Seq<char>, c0: int, k: int, count: int)
    requires
        0 <= k <= text.len(),
        count == c0 + net_braces(text.take(k)),
        forall|j: int| 0 <= j < k ==> !#[trigger] closes_at(text, c0, j),
    ensures
        close_at(text, count, k) matches Some(p) ==> {
            &&& k <= p < text.len()
            &&& closes_at(text, c0, p)
            &&& forall|j: int| 0 <= j < p ==> !#[trigger] closes_at(text, c0, j)
        },
        close_at(text, count, k) is None ==> forall|j: int|
            0 <= j < text.len() ==> !#[trigger] closes_at(text, c0, j),
    decreases text.len() - k,
{
    if k < text.len() {
        assert(text.take(k + 1).drop_last() =~= text.take(k));
        assert(net_braces(text.take(k + 1)) == net_braces(text.take(k)) + brace_delta(text[k]));
        if !(text[k] == '}' && count - 1 == 0) {
            lemma_close_at_first(text, c0, k + 1, count + brace_delta(text[k]));
        }
    }
}

/// The closing brace of an inline object is the first `}` that brings the
/// count of open braces (`count` before the text) back to zero; when no such
/// `}` is in the text, none is found.
pub proof fn law_close_at_first_balancing_brace(text: Seq<char>, count: int)
    ensures
        close_at(text, count, 0) matches Some(p) ==> {
            &&& 0 <= p < text.len()
            &&& closes_at(text, count, p)
            &&& forall|j: int| 0 <= j < p ==> !#[trigger] closes_at(text, count, j)
        },
        close_at(text, count, 0) is None ==> forall|j: int|
            0 <= j < text.len() ==> !#[trigger] closes_at(text, count, j),
{
    assert(text.take(0) =~= Seq::<char>::empty());
    lemma_close_at_first(text, count, 0, count);
}


/// A value that starts with `@` is a type hint, even when it holds `;`,
/// braces or quotes.
pub proof fn law_at_sign_makes_hint(v: Seq<char>, line: nat)
    requires
        trim(v) == v,
        v.len() > 0,
        v[0] == '@',
    ensures
        value_of(v, line) == hint_of(v, line),
{
}

/// A value that starts with `"` and holds no `;` outside quotes and braces is
/// a quoted string: its body unescaped, or the unclosed-string error.
pub proof fn law_quote_makes_string(v: Seq<char>, line: nat)
    requires
        trim(v) == v,
        v.len() > 0,
        v[0] == '"',
        !spec_is_array(v),
    ensures
        value_of(v, line) == string_value(v, line),
{
}

/// A backslash before any character other than `"`, `\\`, `b`, `f`, `n`,
/// `r`, `t` and `u` is no escape: both stay as typed.
pub proof fn law_unknown_escape_kept(c: char, rest: Seq<char>)
    requires
        c != '"' && c != '\\' && c != 'b' && c != 'f' && c != 'n' && c != 'r' && c != 't' && c
            != 'u',
    ensures
        unescape(seq!['\\', c] + rest) == seq!['\\', c] + unescape(rest),
{
    let s = seq!['\\', c] + rest;
    assert(s[0] == '\\' && s[1] == c);
    assert(simple_escape(c) is None);
    assert(!unicode_escape_at(s, 0));
    assert(s.subrange(1, s.len() as int) =~= seq![c] + rest);
    let s1 = seq![c] + rest;
    assert(s1[0] == c);
    assert(!unicode_escape_at(s1, 0));
    assert(s1.subrange(1, s1.len() as int) =~= rest);
    assert(unescape(s1) == seq![c] + unescape(rest));
    assert(unescape(s) == seq!['\\'] + unescape(s1));
    assert(seq!['\\'] + (seq![c] + unescape(rest)) =~= seq!['\\', c] + unescape(rest));
}

/// Text that is no number, no boolean or null word, holds no `;` outside
/// quotes and braces, and starts with none of `@`, `{` and `"`, reads as
/// itself, a plain string.
pub proof fn law_plain_text_is_string(v: Seq<char>, line: nat)
    requires
        trim(v) == v,
        v.len() > 0,
        v[0] != '@' && v[0] != '{' && v[0] != '"',
        !spec_is_array(v),
        !is_float(v),
        !(eq_ci(v, "true"@) || eq_ci(v, "yes"@) || eq_ci(v, "on"@)),
        !(eq_ci(v, "false"@) || eq_ci(v, "no"@) || eq_ci(v, "off"@)),
        !(eq_ci(v, "null"@) || eq_ci(v, "nil"@) || eq_ci(v, "_"@) || eq_ci(v, "~"@)),
    ensures
        value_of(v, line) == Ok::<SpecValue, SpecError>(SpecValue::Str(v)),
{
    if is_int_literal(v) {
        law_int_literal_is_number(v);
    }
}


/// A line `key: value` whose value is written on the line itself (not
/// opening an inline object or an indented block) gives the text before its
/// first colon, trimmed, as the key and the text after it, read on that
/// line's number, as the value, and takes no further line. With nothing after
/// the colon and no more-indented line below, the value is null.
pub proof fn law_single_line_pair(lines: Seq<SpecLine>, i: int, c: int)
    requires
        0 <= i < lines.len(),
        0 <= c < lines[i].content.len(),
        lines[i].content[c] == ':',
        forall|j: int| 0 <= j < c ==> #[trigger] lines[i].content[j] != ':',
        ({
            let raw = trim(lines[i].content.subrange(c + 1, lines[i].content.len() as int));
            raw.len() == 0 || raw[0] != '{'
        }),
        !opens_block(lines, i),
    ensures
        entry_at(lines, i) == match value_of(
            trim(lines[i].content.subrange(c + 1, lines[i].content.len() as int)),
            lines[i].line_num,
        ) {
            Ok(v) => Ok::<(Seq<char>, SpecValue, nat), SpecError>(
                (trim(lines[i].content.subrange(0, c)), v, 0),
            ),
            Err(e) => Err::<(Seq<char>, SpecValue, nat), SpecError>(e),
        },
        trim(lines[i].content.subrange(c + 1, lines[i].content.len() as int)).len() == 0
            ==> entry_at(lines, i) == Ok::<(Seq<char>, SpecValue, nat), SpecError>(
            (trim(lines[i].content.subrange(0, c)), SpecValue::Null, 0),
        ),
{
    lemma_find_from(lines[i].content, ':', 0);
    let e = Seq::<char>::empty();
    assert(trim(e) =~= e) by {
        assert(trim_start(e) =~= e);
    }
}

} // verus!
