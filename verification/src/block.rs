//! Reading the lines of a document: `key: value` pairs, indented blocks, and
//! inline `{ }` objects that may run over several lines.
use crate::lexer::{lines_view, Line, SpecLine};
use crate::scan::{inline_items, is_inline_array_chars, lemma_split_bounds, spec_is_inline_array, spec_smart_split};
use crate::text::{chars_of, concat, find, find_char, slice_of, string_of, trim, trim_chars};
use crate::value::{insert_entry, SpecError, SpecValue, YANObject, YANParseError, YANValue};
use crate::values::{
    error, list_of, msg_expected_colon, object_result, pairs_of, parse_array, parse_inline_pairs,
    parse_value, value_of, value_result, wrap_array, wrap_object,
};
use vstd::prelude::*;

verus! {

/// `+1` for `{`, `-1` for `}`.
pub open spec fn brace_delta(c: char) -> int {
    if c == '{' {
        1
    } else if c == '}' {
        -1
    } else {
        0
    }
}

/// The number of `{` minus the number of `}` in `s`.
pub open spec fn net_braces(s: Seq<char>) -> int
    decreases s.len(),
{
    if s.len() == 0 {
        0
    } else {
        net_braces(s.drop_last()) + brace_delta(s.last())
    }
}

/// The first `}` at or after `k` that brings the brace count, `count` before
/// `text[k]`, down to zero.
pub open spec fn close_at(text: Seq<char>, count: int, k: int) -> Option<int>
    decreases text.len() - k,
{
    if k < 0 || k >= text.len() {
        None
    } else if text[k] == '}' && count - 1 == 0 {
        Some(k)
    } else {
        close_at(text, count + brace_delta(text[k]), k + 1)
    }
}

/// The value of the inline object opened by `raw` on line `start`, the scan
/// having reached line `i` with `content` gathered and `count` braces open;
/// with the number of lines after `start` that it took.
pub open spec fn inline_from(
    lines: Seq<SpecLine>,
    start: int,
    i: int,
    raw: Seq<char>,
    content: Seq<char>,
    count: int,
) -> Result<(SpecValue, nat), SpecError>
    decreases lines.len() - i,
{
    if i < 0 || i >= lines.len() {
        Err(SpecError { message: "Unclosed '{'"@, line: lines[start].line_num })
    } else {
        let text = if i == start {
            raw
        } else {
            lines[i].content
        };
        match close_at(text, count, 0) {
            Some(k) => {
                let inner = (content + text.subrange(0, k)).subrange(
                    1,
                    (content + text.subrange(0, k)).len() as int,
                );
                let r = if spec_is_inline_array(inner) {
                    wrap_array(list_of(inline_items(inner), lines[i].line_num, inner.len() + 1))
                } else {
                    wrap_object(
                        pairs_of(inline_items(inner), seq![], lines[i].line_num, inner.len() + 1),
                    )
                };
                match r {
                    Ok(v) => Ok((v, (i - start) as nat)),
                    Err(e) => Err(e),
                }
            },
            None => inline_from(
                lines,
                start,
                i + 1,
                raw,
                content + text + seq![' '],
                count + net_braces(text),
            ),
        }
    }
}

/// The inline object (or array) that `raw`, the value on line `start`, opens.
pub open spec fn inline_value(lines: Seq<SpecLine>, start: int, raw: Seq<char>) -> Result<
    (SpecValue, nat),
    SpecError,
> {
    inline_from(lines, start, start, raw, seq![], 0)
}

/// `r` with `d` more lines taken.
pub open spec fn taken(
    r: Result<(Seq<(Seq<char>, SpecValue)>, nat), SpecError>,
    d: nat,
) -> Result<(Seq<(Seq<char>, SpecValue)>, nat), SpecError> {
    match r {
        Ok((es, k)) => Ok((es, k + d)),
        Err(e) => Err(e),
    }
}

/// Line `i` lies outside a block whose lines are indented more than `base`.
pub open spec fn ends_block(l: SpecLine, base: Option<nat>) -> bool {
    match base {
        Some(b) => l.indent <= b,
        None => false,
    }
}

/// How many of `n` items are left from `i` on.
pub open spec fn left(n: int, i: int) -> int {
    if i >= n {
        0
    } else {
        n - i
    }
}

/// The key and value that line `i` gives, and how many lines after it they
/// took (an inline object or an indented block can run over several).
pub open spec fn entry_at(lines: Seq<SpecLine>, i: int) -> Result<
    (Seq<char>, SpecValue, nat),
    SpecError,
>
    decreases left(lines.len() as int, i), 1nat,
    when 0 <= i < lines.len()
{
    let line = lines[i];
    match find(line.content, ':') {
        None => Err(SpecError { message: msg_expected_colon(line.content), line: line.line_num }),
        Some(c) => {
            let key = trim(line.content.subrange(0, c));
            let raw = trim(line.content.subrange(c + 1, line.content.len() as int));
            if raw.len() > 0 && raw[0] == '{' {
                match inline_value(lines, i, raw) {
                    Err(e) => Err(e),
                    Ok((v, extra)) => Ok((key, v, extra)),
                }
            } else if i + 1 < lines.len() && lines[i + 1].indent > line.indent && raw.len() == 0 {
                match block_from(lines, i + 1, Some(line.indent), seq![]) {
                    Err(e) => Err(e),
                    Ok((inner, k)) => Ok((key, SpecValue::Object(inner), k)),
                }
            } else {
                match value_of(raw, line.line_num) {
                    Err(e) => Err(e),
                    Ok(v) => Ok((key, v, 0)),
                }
            }
        },
    }
}

/// The pairs of the block that runs from line `i` on while lines are indented
/// more than `base`, added to `acc`; with the number of lines it took.
pub open spec fn block_from(
    lines: Seq<SpecLine>,
    i: int,
    base: Option<nat>,
    acc: Seq<(Seq<char>, SpecValue)>,
) -> Result<(Seq<(Seq<char>, SpecValue)>, nat), SpecError>
    decreases left(lines.len() as int, i), 2nat,
{
    if i < 0 || i >= lines.len() || ends_block(lines[i], base) {
        Ok((acc, 0))
    } else {
        match entry_at(lines, i) {
            Err(e) => Err(e),
            Ok((key, v, extra)) => taken(
                block_from(lines, i + 1 + extra, base, insert_entry(acc, key, v)),
                1 + extra,
            ),
        }
    }
}

/// Each character moves the brace count by at most one.
pub proof fn lemma_net_braces_bound(s: Seq<char>)
    ensures
        -s.len() <= net_braces(s) <= s.len(),
    decreases s.len(),
{
    if s.len() > 0 {
        lemma_net_braces_bound(s.drop_last());
    }
}

/// Reads the inline object whose first text is `raw` on line `start`: its
/// value and the index of the line after its closing `}`.
pub fn parse_inline_object(lines: &[Line], start: usize, raw: &[char]) -> (r: Result<
    (YANValue, usize),
    YANParseError,
>)
    requires
        start < lines@.len(),
        raw@.len() > 0,
        raw@[0] == '{',
    ensures
        match r {
            Ok((v, next)) => start < next <= lines@.len() && inline_value(lines_view(lines@), start as int, raw@)
                == Ok::<(SpecValue, nat), SpecError>((v.deep(), (next - start - 1) as nat)),
            Err(e) => inline_value(lines_view(lines@), start as int, raw@) == Err::<
                (SpecValue, nat),
                SpecError,
            >(e.spec()),
        },
{
    let ghost ls = lines_view(lines@);
    let mut count: i128 = 0;
    let mut content: Vec<char> = Vec::new();
    let mut i = start;
    while i < lines.len()
        invariant
            start <= i <= lines@.len(),
            ls == lines_view(lines@),
            raw@.len() > 0,
            raw@[0] == '{',
            i > start ==> content@.len() > 0,
            -(content@.len() as int) <= count <= content@.len(),
            inline_value(ls, start as int, raw@) == inline_from(
                ls,
                start as int,
                i as int,
                raw@,
                content@,
                count as int,
            ),
        decreases lines@.len() - i,
    {
        let text: &[char] = if i == start {
            raw
        } else {
            lines[i].content.as_slice()
        };
        assert(text@ == (if i == start {
            raw@
        } else {
            ls[i as int].content
        }));
        let ghost count0 = count as int;
        let clen = content.len();
        let tlen = text.len();
        let mut k: usize = 0;
        while k < text.len()
            invariant
                start <= i < lines@.len(),
                ls == lines_view(lines@),
                text@ == (if i == start {
                    raw@
                } else {
                    ls[i as int].content
                }),
                inline_value(ls, start as int, raw@) == inline_from(
                    ls,
                    start as int,
                    i as int,
                    raw@,
                    content@,
                    count0,
                ),
                i > start ==> content@.len() > 0,
                k <= text@.len(),
                tlen == text@.len(),
                clen == content@.len(),
                -(content@.len() as int) <= count0 <= content@.len(),
                count == count0 + net_braces(text@.subrange(0, k as int)),
                close_at(text@, count0, 0) == close_at(text@, count as int, k as int),
                i == start ==> text@ == raw@,
                i == start ==> raw@[0] == '{',
            decreases text@.len() - k,
        {
            proof {
                lemma_net_braces_bound(text@.subrange(0, k as int));
                assert(text@.subrange(0, k + 1).drop_last() =~= text@.subrange(0, k as int));
            }
            let ch = text[k];
            if ch == '}' && count - 1 == 0 {
                // the closing brace
                content = concat(content, &slice_of(text, 0, k));
                let inner = slice_of(&content, 1, content.len());
                let line = lines[i].line_num;
                proof {
                    lemma_split_bounds(inner@, seq![';']);
                    lemma_split_bounds(inner@, seq![';', ',']);
                }
                let delims = [';', ','];
                assert(delims@ =~= seq![';', ',']);
                let value = if is_inline_array_chars(&inner) {
                    parse_array(&inner, &delims, line, Ghost((inner@.len() + 1) as nat))
                } else {
                    match parse_inline_pairs(&inner, line, Ghost((inner@.len() + 1) as nat)) {
                        Ok(o) => Ok(YANValue::Object(o)),
                        Err(e) => Err(e),
                    }
                };
                return match value {
                    Ok(v) => Ok((v, i + 1)),
                    Err(e) => Err(e),
                };
            }
            if ch == '{' {
                count = count + 1;
            } else if ch == '}' {
                count = count - 1;
            }
            k += 1;
        }
        assert(text@.subrange(0, text@.len() as int) =~= text@);
        proof {
            lemma_net_braces_bound(text@);
        }
        let ghost old_content = content@;
        content = concat(content, text);
        content.push(' ');
        assert(content@ == old_content + text@ + seq![' ']);
        assert(inline_from(ls, start as int, i as int, raw@, old_content, count0) == inline_from(
            ls,
            start as int,
            i + 1,
            raw@,
            content@,
            count as int,
        ));
        i += 1;
    }
    Err(error(chars_of("Unclosed '{'"), lines[start].line_num))
}

/// The indentation bound as a number.
pub open spec fn base_view(base: Option<u128>) -> Option<nat> {
    match base {
        Some(b) => Some(b as nat),
        None => None,
    }
}

/// Reads the pair that line `i` starts: its key, its value, and the index of
/// the line after it.
fn parse_entry(lines: &[Line], i: usize) -> (r: Result<(String, YANValue, usize), YANParseError>)
    requires
        i < lines@.len(),
    ensures
        match r {
            Ok((key, v, next)) => i < next <= lines@.len() && entry_at(lines_view(lines@), i as int)
                == Ok::<(Seq<char>, SpecValue, nat), SpecError>(
                (key@, v.deep(), (next - i - 1) as nat),
            ),
            Err(e) => entry_at(lines_view(lines@), i as int) == Err::<
                (Seq<char>, SpecValue, nat),
                SpecError,
            >(e.spec()),
        },
    decreases left(lines@.len() as int, i as int), 1nat,
{
    let line = &lines[i];
    let clen = line.content.len();
    let colon = match find_char(&line.content, ':') {
        Some(c) => c,
        None => {
            return Err(crate::values::expected_colon_error(&line.content, line.line_num));
        },
    };
    let key = string_of(&trim_chars(&slice_of(&line.content, 0, colon)));
    let raw = trim_chars(&slice_of(&line.content, colon + 1, clen));
    if raw.len() > 0 && raw[0] == '{' {
        return match parse_inline_object(lines, i, &raw) {
            Ok((value, next)) => Ok((key, value, next)),
            Err(e) => Err(e),
        };
    }
    if i + 1 < lines.len() && lines[i + 1].indent > line.indent && raw.len() == 0 {
        return match parse_block(lines, i + 1, Some(line.indent)) {
            Ok((obj, next)) => Ok((key, YANValue::Object(obj), next)),
            Err(e) => Err(e),
        };
    }
    match parse_value(&raw, line.line_num) {
        Ok(v) => Ok((key, v, i + 1)),
        Err(e) => Err(e),
    }
}

/// Reads the block of lines from `start` on that are indented more than
/// `base` (all of them when `base` is `None`): its object and the index of
/// the first line after it.
pub fn parse_block(lines: &[Line], start: usize, base: Option<u128>) -> (r: Result<
    (YANObject, usize),
    YANParseError,
>)
    requires
        start <= lines@.len(),
    ensures
        match r {
            Ok((o, next)) => start <= next <= lines@.len() && block_from(
                lines_view(lines@),
                start as int,
                base_view(base),
                seq![],
            ) == Ok::<(Seq<(Seq<char>, SpecValue)>, nat), SpecError>(
                (o.deep(), (next - start) as nat),
            ),
            Err(e) => block_from(lines_view(lines@), start as int, base_view(base), seq![])
                == Err::<(Seq<(Seq<char>, SpecValue)>, nat), SpecError>(e.spec()),
        },
    decreases left(lines@.len() as int, start as int), 2nat,
{
    let ghost ls = lines_view(lines@);
    let mut result = YANObject::new();
    let mut i = start;
    while i < lines.len()
        invariant
            start <= i <= lines@.len(),
            ls == lines_view(lines@),
            block_from(ls, start as int, base_view(base), seq![]) == taken(
                block_from(ls, i as int, base_view(base), result.deep()),
                (i - start) as nat,
            ),
        ensures
            i >= lines@.len() || ends_block(ls[i as int], base_view(base)),
        decreases lines@.len() - i,
    {
        if let Some(b) = base {
            if lines[i].indent <= b {
                break;
            }
        }
        match parse_entry(lines, i) {
            Ok((key, value, next)) => {
                result.insert(key, value);
                i = next;
            },
            Err(e) => {
                return Err(e);
            },
        }
    }
    assert(block_from(ls, i as int, base_view(base), result.deep()) == Ok::<
        (Seq<(Seq<char>, SpecValue)>, nat),
        SpecError,
    >((result.deep(), 0nat)));
    Ok((result, i))
}

} // verus!
