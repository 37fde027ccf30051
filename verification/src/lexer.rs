//! The line layer: newline normalisation, comment stripping and the split of
//! a document into indented, trimmed, non-empty lines.
use crate::text::{first_non_ws, is_whitespace, lemma_skip_ws_bounds, skip_ws, trim, trim_chars};
use vstd::prelude::*;

verus! {

/// `s[i..]` with every `\r\n` and every other `\r` turned into `\n`.
pub open spec fn normalize_from(s: Seq<char>, i: int) -> Seq<char>
    decreases s.len() - i,
{
    if i < 0 || i >= s.len() {
        seq![]
    } else if s[i] == '\r' {
        let next = if i + 1 < s.len() && s[i + 1] == '\n' {
            i + 2
        } else {
            i + 1
        };
        seq!['\n'] + normalize_from(s, next)
    } else {
        seq![s[i]] + normalize_from(s, i + 1)
    }
}

/// `s.replace("\r\n", "\n").replace('\r', "\n")`.
pub open spec fn normalize_newlines(s: Seq<char>) -> Seq<char> {
    normalize_from(s, 0)
}

/// Where the comment scanner stands.
pub enum Mode {
    /// Ordinary text.
    Normal,
    /// Inside a string opened by the given quote character.
    Quote(char),
    /// Inside a `#` comment, up to the end of the line.
    LineComment,
    /// Inside a `/* */` comment.
    BlockComment,
}

/// The text kept from `t[i..]` when the scanner is in mode `m` at `i`.
pub open spec fn strip_from(t: Seq<char>, i: int, m: Mode) -> Seq<char>
    decreases t.len() - i,
{
    if i < 0 || i >= t.len() {
        seq![]
    } else {
        let c = t[i];
        match m {
            Mode::Quote(q) => if c == '\\' && i + 1 < t.len() {
                seq![c, t[i + 1]] + strip_from(t, i + 2, Mode::Quote(q))
            } else if c == q {
                seq![c] + strip_from(t, i + 1, Mode::Normal)
            } else {
                seq![c] + strip_from(t, i + 1, Mode::Quote(q))
            },
            Mode::LineComment => if c == '\n' {
                seq![c] + strip_from(t, i + 1, Mode::Normal)
            } else {
                strip_from(t, i + 1, Mode::LineComment)
            },
            Mode::BlockComment => if c == '*' && i + 1 < t.len() && t[i + 1] == '/' {
                strip_from(t, i + 2, Mode::Normal)
            } else if c == '\n' {
                seq![c] + strip_from(t, i + 1, Mode::BlockComment)
            } else {
                strip_from(t, i + 1, Mode::BlockComment)
            },
            Mode::Normal => if c == '"' || c == '\'' {
                seq![c] + strip_from(t, i + 1, Mode::Quote(c))
            } else if c == '#' {
                strip_from(t, i + 1, Mode::LineComment)
            } else if c == '/' && i + 1 < t.len() && t[i + 1] == '*' {
                strip_from(t, i + 2, Mode::BlockComment)
            } else {
                seq![c] + strip_from(t, i + 1, Mode::Normal)
            },
        }
    }
}

/// `t` without its `#` line comments and `/* */` block comments; both are
/// ignored inside single- or double-quoted strings, where `\` escapes the
/// next character. The line breaks of a block comment stay, so that lines
/// keep their numbers.
pub open spec fn spec_strip_comments(t: Seq<char>) -> Seq<char> {
    strip_from(t, 0, Mode::Normal)
}

/// What the parser reads of a source text: newlines normalised, comments gone.
pub open spec fn spec_preprocess(s: Seq<char>) -> Seq<char> {
    spec_strip_comments(normalize_newlines(s))
}

/// `s` with `\r\n` and `\r` turned into `\n`.
pub fn normalize_newlines_chars(s: &[char]) -> (r: Vec<char>)
    ensures
        r@ == normalize_newlines(s@),
{
    let mut r: Vec<char> = Vec::new();
    let mut i: usize = 0;
    while i < s.len()
        invariant
            i <= s@.len(),
            normalize_newlines(s@) == r@ + normalize_from(s@, i as int),
        decreases s@.len() - i,
    {
        if s[i] == '\r' {
            r.push('\n');
            if i + 1 < s.len() && s[i + 1] == '\n' {
                i += 2;
            } else {
                i += 1;
            }
        } else {
            r.push(s[i]);
            i += 1;
        }
    }
    r
}

/// `chars` without its comments; see `spec_strip_comments`.
pub fn strip_comments_chars(chars: &[char]) -> (r: Vec<char>)
    ensures
        r@ == spec_strip_comments(chars@),
{
    let n = chars.len();
    let mut result: Vec<char> = Vec::new();
    let mut i: usize = 0;
    // whether a quoted string is open, and its quote character
    let mut quoting = false;
    let mut q: char = '"';
    while i < n
        invariant
            n == chars@.len(),
            i <= n,
            spec_strip_comments(chars@) == result@ + strip_from(
                chars@,
                i as int,
                if quoting {
                    Mode::Quote(q)
                } else {
                    Mode::Normal
                },
            ),
        decreases n - i,
    {
        let ch = chars[i];
        if quoting {
            result.push(ch);
            if ch == '\\' && i + 1 < n {
                result.push(chars[i + 1]);
                i += 2;
                continue;
            }
            if ch == q {
                quoting = false;
            }
            i += 1;
            continue;
        }
        if ch == '"' || ch == '\'' {
            quoting = true;
            q = ch;
            result.push(ch);
            i += 1;
            continue;
        }
        if ch == '#' {
            i += 1;
            let ghost i0 = i;
            while i < n && chars[i] != '\n'
                invariant
                    n == chars@.len(),
                    0 < i0 <= i <= n,
                    !quoting,
                    spec_strip_comments(chars@) == result@ + strip_from(
                        chars@,
                        i as int,
                        Mode::LineComment,
                    ),
                decreases n - i,
            {
                i += 1;
            }
            continue;
        }
        if ch == '/' && i + 1 < n && chars[i + 1] == '*' {
            i += 2;
            let ghost i0 = i;
            while i < n && i + 1 < n && !(chars[i] == '*' && chars[i + 1] == '/')
                invariant
                    n == chars@.len(),
                    0 < i0 <= i <= n,
                    !quoting,
                    spec_strip_comments(chars@) == result@ + strip_from(
                        chars@,
                        i as int,
                        Mode::BlockComment,
                    ),
                decreases n - i,
            {
                if chars[i] == '\n' {
                    let ghost before = result@;
                    result.push('\n');
                    assert(result@ + strip_from(chars@, i + 1, Mode::BlockComment) =~= before + (
                    seq!['\n'] + strip_from(chars@, i + 1, Mode::BlockComment)));
                }
                i += 1;
            }
            assert(strip_from(chars@, n as int, Mode::BlockComment) == Seq::<char>::empty());
            if i < n && i + 1 < n {
                i += 2;
            } else {
                if i < n && chars[i] == '\n' {
                    let ghost before = result@;
                    result.push('\n');
                    assert(result@ =~= before + seq!['\n']);
                }
                i = n;
            }
            continue;
        }
        result.push(ch);
        i += 1;
    }
    result
}

/// A line of the document as the block parser sees it.
pub struct SpecLine {
    /// 1-based number of the line in the source (comments keep their line
    /// breaks).
    pub line_num: nat,
    /// Bytes of leading whitespace, tabs counted as two spaces.
    pub indent: nat,
    /// The line with tabs expanded and surrounding whitespace trimmed.
    pub content: Seq<char>,
}

/// A non-empty line of a document.
pub struct Line {
    pub line_num: usize,
    pub indent: u128,
    pub content: Vec<char>,
}

impl View for Line {
    type V = SpecLine;

    open spec fn view(&self) -> SpecLine {
        SpecLine { line_num: self.line_num as nat, indent: self.indent as nat, content: self.content@ }
    }
}

/// What a list of lines stands for.
pub open spec fn lines_view(ls: Seq<Line>) -> Seq<SpecLine> {
    ls.map_values(|l: Line| l@)
}

/// `s.replace('\t', "  ")`.
pub open spec fn expand_tabs(s: Seq<char>) -> Seq<char>
    decreases s.len(),
{
    if s.len() == 0 {
        seq![]
    } else if s.last() == '\t' {
        expand_tabs(s.drop_last()) + seq![' ', ' ']
    } else {
        expand_tabs(s.drop_last()).push(s.last())
    }
}

/// Bytes that `c` takes in UTF-8.
pub open spec fn utf8_len(c: char) -> nat {
    if (c as u32) < 0x80 {
        1
    } else if (c as u32) < 0x800 {
        2
    } else if (c as u32) < 0x10000 {
        3
    } else {
        4
    }
}

/// Bytes that `s` takes in UTF-8.
pub open spec fn byte_len(s: Seq<char>) -> nat
    decreases s.len(),
{
    if s.len() == 0 {
        0
    } else {
        byte_len(s.drop_last()) + utf8_len(s.last())
    }
}

/// The line made of the text `seg` of line number `num`.
pub open spec fn make_line(seg: Seq<char>, num: nat) -> SpecLine {
    let n = expand_tabs(seg);
    SpecLine {
        line_num: num,
        indent: byte_len(n.subrange(0, skip_ws(n, 0))),
        content: trim(n),
    }
}

/// `[l]` when `l` holds something, else nothing.
pub open spec fn keep(l: SpecLine) -> Seq<SpecLine> {
    if l.content.len() > 0 {
        seq![l]
    } else {
        seq![]
    }
}

/// The lines of `t[s..]`: the current line begins at `s`, has number `num`,
/// and the scan has reached `i`.
pub open spec fn lines_from(t: Seq<char>, s: int, i: int, num: nat) -> Seq<SpecLine>
    decreases t.len() - i,
{
    if i >= t.len() {
        keep(make_line(t.subrange(s, t.len() as int), num))
    } else if t[i] == '\n' {
        keep(make_line(t.subrange(s, i), num)) + lines_from(t, i + 1, i + 1, num + 1)
    } else {
        lines_from(t, s, i + 1, num)
    }
}

/// The non-blank lines of `t`, numbered from 1 over all lines.
pub open spec fn spec_split_lines(t: Seq<char>) -> Seq<SpecLine> {
    lines_from(t, 0, 0, 1)
}

fn expand_tabs_chars(s: &[char]) -> (r: Vec<char>)
    ensures
        r@ == expand_tabs(s@),
{
    let mut r: Vec<char> = Vec::new();
    let mut i: usize = 0;
    while i < s.len()
        invariant
            i <= s@.len(),
            r@ == expand_tabs(s@.subrange(0, i as int)),
        decreases s@.len() - i,
    {
        assert(s@.subrange(0, i + 1).drop_last() =~= s@.subrange(0, i as int));
        if s[i] == '\t' {
            r.push(' ');
            r.push(' ');
        } else {
            r.push(s[i]);
        }
        i += 1;
    }
    assert(s@.subrange(0, s@.len() as int) =~= s@);
    r
}

fn utf8_len_exec(c: char) -> (r: u128)
    ensures
        r == utf8_len(c),
{
    let v = c as u32;
    if v < 0x80 {
        1
    } else if v < 0x800 {
        2
    } else if v < 0x10000 {
        3
    } else {
        4
    }
}

/// The line of number `num` made of the text `seg`, if it is not blank.
fn make_line_exec(seg: &[char], num: usize) -> (r: Option<Line>)
    ensures
        match r {
            Some(l) => keep(make_line(seg@, num as nat)) == seq![l@],
            None => keep(make_line(seg@, num as nat)) == Seq::<SpecLine>::empty(),
        },
{
    let normalized = expand_tabs_chars(seg);
    let a = first_non_ws(&normalized);
    proof {
        lemma_skip_ws_bounds(normalized@, 0);
    }
    let mut indent: u128 = 0;
    let mut k: usize = 0;
    while k < a
        invariant
            k <= a <= normalized@.len(),
            indent == byte_len(normalized@.subrange(0, k as int)),
            indent <= 4 * k,
        decreases a - k,
    {
        assert(normalized@.subrange(0, k + 1).drop_last() =~= normalized@.subrange(0, k as int));
        indent = indent + utf8_len_exec(normalized[k]);
        k += 1;
    }
    let content = trim_chars(&normalized);
    if content.len() > 0 {
        Some(Line { line_num: num, indent, content })
    } else {
        None
    }
}

/// Splits `t` at `\n` into numbered lines, expanding tabs to two spaces and
/// trimming each line; blank lines are dropped but still counted.
pub fn split_lines_chars(t: &[char]) -> (lines: Vec<Line>)
    ensures
        lines_view(lines@) == spec_split_lines(t@),
{
    let mut lines: Vec<Line> = Vec::new();
    let mut s: usize = 0;
    let mut i: usize = 0;
    let mut num: u128 = 1;
    while i < t.len()
        invariant
            s <= i <= t@.len(),
            1 <= num <= s + 1,
            spec_split_lines(t@) == lines_view(lines@) + lines_from(t@, s as int, i as int, num as nat),
        decreases t@.len() - i,
    {
        if t[i] == '\n' {
            let seg = crate::text::slice_of(t, s, i);
            let made = make_line_exec(&seg, num as usize);
            if let Some(l) = made {
                lines.push(l);
            }
            num = num + 1;
            s = i + 1;
        }
        i += 1;
    }
    if s < t.len() {
        let seg = crate::text::slice_of(t, s, t.len());
        let made = make_line_exec(&seg, num as usize);
        if let Some(l) = made {
            lines.push(l);
        }
    }
    lines
}

} // verus!
