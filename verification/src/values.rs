//! Reading one value: scalars, quoted strings, arrays, inline objects and
//! type hints.
use crate::hint::{
    color_value, color_value_chars, valid_bigint, valid_bigint_chars, valid_color,
    valid_color_chars, valid_duration, valid_duration_chars, valid_email, valid_email_chars,
    valid_ipv4, valid_ipv4_chars, valid_ipv6, valid_ipv6_chars,
};
use crate::number::{
    decimal, decimal_chars, eq_ci, eq_ci_exec, is_digit, is_float, is_float_chars, is_hex_digit,
    int_value, int_value_chars,
};
use crate::scan::{
    inline_items, is_array_chars, is_inline_array_chars, key_colon, lemma_key_colon_from,
    lemma_split_bounds, smart_split_chars, spec_is_array, spec_is_inline_array, spec_smart_split,
    find_key_colon_chars, views,
};
use crate::text::{
    char_from_code, chars_eq, chars_of, concat, is_scalar, lemma_trim_len, slice_of,
    string_of, trim, trim_chars,
};
use crate::value::{
    insert_entry, SpecError, SpecValue, YANObject, YANParseError, YANValue, deep_values,
};
use vstd::prelude::*;

verus! {

/// `Expected ':' in '{text}'`.
pub open spec fn msg_expected_colon(text: Seq<char>) -> Seq<char> {
    "Expected ':' in '"@ + text + "'"@
}

/// `Unclosed string: {text}`.
pub open spec fn msg_unclosed_string(text: Seq<char>) -> Seq<char> {
    "Unclosed string: "@ + text
}

/// `Invalid @{name} value on line {line}: "{raw}"`.
pub open spec fn msg_invalid_hint(name: Seq<char>, line: nat, raw: Seq<char>) -> Seq<char> {
    "Invalid @"@ + name + " value on line "@ + decimal(line) + ": \""@ + raw + "\""@
}

/// What the `@color` error adds to the message.
pub open spec fn color_note() -> Seq<char> {
    " (note: hex colors must be quoted, e.g. @color \"#ff0080\", since unquoted '#' starts a comment)"@
}

/// The error of message `message` on line `line`.
pub open spec fn err<T>(message: Seq<char>, line: nat) -> Result<T, SpecError> {
    Err(SpecError { message, line })
}

/// The value of the hexadecimal digit `c`.
pub open spec fn hex_value(c: char) -> int {
    if is_digit(c) {
        c as int - '0' as int
    } else if 'a' <= c && c <= 'f' {
        c as int - 'a' as int + 10
    } else {
        c as int - 'A' as int + 10
    }
}

/// The value of the four hexadecimal digits `s[i..i + 4]`.
pub open spec fn hex4_value(s: Seq<char>, i: int) -> int {
    hex_value(s[i]) * 4096 + hex_value(s[i + 1]) * 256 + hex_value(s[i + 2]) * 16 + hex_value(
        s[i + 3],
    )
}

/// `s[i..]` starts with `\u` and four hexadecimal digits that name a Unicode
/// scalar value.
pub open spec fn unicode_escape_at(s: Seq<char>, i: int) -> bool {
    &&& 0 <= i
    &&& i + 6 <= s.len()
    &&& s[i] == '\\'
    &&& s[i + 1] == 'u'
    &&& is_hex_digit(s[i + 2])
    &&& is_hex_digit(s[i + 3])
    &&& is_hex_digit(s[i + 4])
    &&& is_hex_digit(s[i + 5])
    &&& is_scalar(hex4_value(s, i + 2))
}

/// The character that a backslash followed by `c` stands for in a quoted
/// string: `\"`, `\\`, `\b`, `\f`, `\n`, `\r` and `\t`.
pub open spec fn simple_escape(c: char) -> Option<char> {
    if c == '"' {
        Some('"')
    } else if c == '\\' {
        Some('\\')
    } else if c == 'b' {
        Some('\u{8}')
    } else if c == 'f' {
        Some('\u{c}')
    } else if c == 'n' {
        Some('\n')
    } else if c == 'r' {
        Some('\r')
    } else if c == 't' {
        Some('\t')
    } else {
        None
    }
}

/// The body `s` of a quoted string with its escapes replaced, read from left
/// to right: the escapes of `simple_escape`, and `\uXXXX` naming a Unicode
/// scalar value. Any other backslash stays as typed.
pub open spec fn unescape(s: Seq<char>) -> Seq<char>
    decreases s.len(),
{
    if s.len() == 0 {
        seq![]
    } else if s.len() >= 2 && s[0] == '\\' && simple_escape(s[1]) is Some {
        seq![simple_escape(s[1])->0] + unescape(s.subrange(2, s.len() as int))
    } else if unicode_escape_at(s, 0) {
        seq![hex4_value(s, 2) as char] + unescape(s.subrange(6, s.len() as int))
    } else {
        seq![s[0]] + unescape(s.subrange(1, s.len() as int))
    }
}

/// A double-quoted string: its body with its escapes replaced.
pub open spec fn string_value(text: Seq<char>, line: nat) -> Result<SpecValue, SpecError> {
    if !(text.len() > 0 && text[0] == '"') {
        Ok(SpecValue::Str(text))
    } else if text.len() < 2 || text[text.len() - 1] != '"' {
        err(msg_unclosed_string(text), line)
    } else {
        Ok(SpecValue::Str(unescape(text.subrange(1, text.len() - 1))))
    }
}

/// `true`, `yes` or `on` in any ASCII case.
pub open spec fn is_true_word(v: Seq<char>) -> bool {
    eq_ci(v, "true"@) || eq_ci(v, "yes"@) || eq_ci(v, "on"@)
}

/// `false`, `no` or `off` in any ASCII case.
pub open spec fn is_false_word(v: Seq<char>) -> bool {
    eq_ci(v, "false"@) || eq_ci(v, "no"@) || eq_ci(v, "off"@)
}

/// `null`, `nil`, `_` or `~` in any ASCII case.
pub open spec fn is_null_word(v: Seq<char>) -> bool {
    eq_ci(v, "null"@) || eq_ci(v, "nil"@) || eq_ci(v, "_"@) || eq_ci(v, "~"@)
}

/// What `@bool` reads as true: `true`, `yes`, `on` or `1`, in any ASCII case.
pub open spec fn is_bool_hint_true(v: Seq<char>) -> bool {
    is_true_word(v) || eq_ci(v, "1"@)
}

/// The hints whose text is kept as it is.
pub open spec fn is_plain_hint(name: Seq<char>) -> bool {
    ||| name == "date"@
    ||| name == "datetime"@
    ||| name == "hex"@
    ||| name == "base64"@
    ||| name == "uuid"@
    ||| name == "url"@
    ||| name == "regex"@
}

/// A hint named `name` over the string `text`.
pub open spec fn hint_string(name: Seq<char>, text: Seq<char>) -> SpecValue {
    SpecValue::TypeHint(name, Box::new(SpecValue::Str(text)))
}

/// A blank between a hint's name and its value: space, tab or line feed.
pub open spec fn is_blank(c: char) -> bool {
    c == ' ' || c == '\t' || c == '\n'
}

/// The first index at or after `i` that holds a blank, or the end of `t`.
pub open spec fn blank_from(t: Seq<char>, i: int) -> int
    decreases t.len() - i,
{
    if 0 <= i < t.len() && !is_blank(t[i]) {
        blank_from(t, i + 1)
    } else {
        i
    }
}

/// The first index at or after `i` that holds no blank, or the end of `t`.
pub open spec fn past_blanks(t: Seq<char>, i: int) -> int
    decreases t.len() - i,
{
    if 0 <= i < t.len() && is_blank(t[i]) {
        past_blanks(t, i + 1)
    } else {
        i
    }
}

/// `blank_from` and `past_blanks` stay within `i..=t.len()`.
pub proof fn lemma_blank_bounds(t: Seq<char>, i: int)
    requires
        0 <= i <= t.len(),
    ensures
        i <= blank_from(t, i) <= t.len(),
        i <= past_blanks(t, i) <= t.len(),
    decreases t.len() - i,
{
    if i < t.len() {
        lemma_blank_bounds(t, i + 1);
    }
}

/// The text of a hint `@name rest` is shorter than the hint, and its name
/// starts after the `@`.
pub proof fn lemma_hint_bounds(t: Seq<char>)
    requires
        t.len() > 0,
    ensures
        0 <= hint_space(t) <= past_blanks(t, hint_space(t)) <= t.len(),
        1 <= past_blanks(t, hint_space(t)),
        t[0] == '@' ==> 1 <= hint_space(t),
{
    lemma_blank_bounds(t, 0);
    lemma_blank_bounds(t, 1);
    lemma_blank_bounds(t, hint_space(t));
}

/// Where the hint name of `@name rest` ends: the first blank, or the end.
pub open spec fn hint_space(t: Seq<char>) -> int {
    blank_from(t, 0)
}

/// The name of the hint `@name rest`.
pub open spec fn hint_name(t: Seq<char>) -> Seq<char> {
    t.subrange(1, hint_space(t))
}

/// The text after the name of `@name rest` and the run of blanks that follows it.
pub open spec fn hint_text(t: Seq<char>) -> Seq<char> {
    t.subrange(past_blanks(t, hint_space(t)), t.len() as int)
}


/// An array of the values, or the error.
pub open spec fn wrap_array(r: Result<Seq<SpecValue>, SpecError>) -> Result<SpecValue, SpecError> {
    match r {
        Ok(xs) => Ok(SpecValue::Array(xs)),
        Err(e) => Err(e),
    }
}

/// An object of the entries, or the error.
pub open spec fn wrap_object(r: Result<Seq<(Seq<char>, SpecValue)>, SpecError>) -> Result<
    SpecValue,
    SpecError,
> {
    match r {
        Ok(es) => Ok(SpecValue::Object(es)),
        Err(e) => Err(e),
    }
}

/// The value written as `raw` on line `line`.
pub open spec fn value_of(raw: Seq<char>, line: nat) -> Result<SpecValue, SpecError>
    decreases raw.len(), 2nat, 0nat,
{
    let v = trim(raw);
    proof {
        lemma_trim_len(raw);
    }
    if v.len() == 0 {
        Ok(SpecValue::Null)
    } else if v[0] == '@' {
        hint_of(v, line)
    } else if spec_is_array(v) {
        wrap_array(list_of(spec_smart_split(v, seq![';']), line, v.len()))
    } else if v[0] == '{' && v[v.len() - 1] == '}' {
        let inner = v.subrange(1, v.len() - 1);
        if spec_is_inline_array(inner) {
            wrap_array(list_of(inline_items(inner), line, v.len()))
        } else {
            wrap_object(pairs_of(inline_items(inner), seq![], line, v.len()))
        }
    } else if v[0] == '"' {
        string_value(v, line)
    } else if is_true_word(v) {
        Ok(SpecValue::Bool(true))
    } else if is_false_word(v) {
        Ok(SpecValue::Bool(false))
    } else if is_null_word(v) {
        Ok(SpecValue::Null)
    } else {
        match int_value(v) {
            Some(n) => Ok(SpecValue::Int(n)),
            None => if is_float(v) {
                Ok(SpecValue::Float(v))
            } else {
                Ok(SpecValue::Str(v))
            },
        }
    }
}

/// The values of `items`, in order; the first error stops the list.
pub open spec fn list_of(items: Seq<Seq<char>>, line: nat, bound: nat) -> Result<
    Seq<SpecValue>,
    SpecError,
>
    decreases bound, 1nat, items.len(),
    when forall|k: int| 0 <= k < items.len() ==> #[trigger] items[k].len() < bound
{
    if items.len() == 0 {
        Ok(seq![])
    } else {
        match value_of(items[0], line) {
            Err(e) => Err(e),
            Ok(x) => match list_of(items.drop_first(), line, bound) {
                Err(e) => Err(e),
                Ok(xs) => Ok(seq![x] + xs),
            },
        }
    }
}

/// The `key: value` pairs `items` of an object on line `line` added to `acc`;
/// blank items are skipped and the first error stops the object.
pub open spec fn pairs_of(
    items: Seq<Seq<char>>,
    acc: Seq<(Seq<char>, SpecValue)>,
    line: nat,
    bound: nat,
) -> Result<Seq<(Seq<char>, SpecValue)>, SpecError>
    decreases bound, 1nat, items.len(),
    when forall|k: int| 0 <= k < items.len() ==> #[trigger] items[k].len() < bound
{
    if items.len() == 0 {
        Ok(acc)
    } else {
        let t = trim(items[0]);
        if t.len() == 0 {
            pairs_of(items.drop_first(), acc, line, bound)
        } else {
            match key_colon(t) {
                None => err(msg_expected_colon(t), line),
                Some(c) => {
                    proof {
                        lemma_key_colon_from(t, 0);
                        lemma_trim_len(items[0]);
                        lemma_trim_len(t.subrange(c + 1, t.len() as int));
                    }
                    let key = trim(t.subrange(0, c));
                    let val = trim(t.subrange(c + 1, t.len() as int));
                    match value_of(val, line) {
                        Err(e) => Err(e),
                        Ok(x) => pairs_of(items.drop_first(), insert_entry(acc, key, x), line, bound),
                    }
                },
            }
        }
    }
}

/// The value of the type hint `@name rest` (`t` begins with `@`).
pub open spec fn hint_of(t: Seq<char>, line: nat) -> Result<SpecValue, SpecError>
    decreases t.len(), 1nat, 0nat,
    when t.len() > 0
{
    let name = hint_name(t);
    let raw = hint_text(t);
    if name == "int"@ {
        match int_value(raw) {
            Some(n) => Ok(SpecValue::Int(n)),
            None => err("Invalid int: "@ + raw, line),
        }
    } else if name == "float"@ {
        if is_float(raw) {
            Ok(SpecValue::Float(raw))
        } else {
            err("Invalid float: "@ + raw, line)
        }
    } else if name == "bool"@ {
        Ok(SpecValue::Bool(is_bool_hint_true(raw)))
    } else if is_plain_hint(name) {
        Ok(hint_string(name, raw))
    } else if name == "bigint"@ {
        if valid_bigint(raw) {
            Ok(hint_string(name, raw))
        } else {
            err(msg_invalid_hint(name, line, raw), line)
        }
    } else if name == "email"@ {
        if valid_email(raw) {
            Ok(hint_string(name, raw))
        } else {
            err(msg_invalid_hint(name, line, raw), line)
        }
    } else if name == "ipv4"@ {
        if valid_ipv4(raw) {
            Ok(hint_string(name, raw))
        } else {
            err(msg_invalid_hint(name, line, raw), line)
        }
    } else if name == "ipv6"@ {
        if valid_ipv6(raw) {
            Ok(hint_string(name, raw))
        } else {
            err(msg_invalid_hint(name, line, raw), line)
        }
    } else if name == "color"@ {
        if valid_color(color_value(raw)) {
            Ok(hint_string(name, color_value(raw)))
        } else {
            err(msg_invalid_hint(name, line, raw) + color_note(), line)
        }
    } else if name == "duration"@ {
        if valid_duration(raw) {
            Ok(hint_string(name, raw))
        } else {
            err(msg_invalid_hint(name, line, raw), line)
        }
    } else {
        proof {
            lemma_hint_bounds(t);
        }
        match value_of(raw, line) {
            Ok(x) => Ok(SpecValue::TypeHint(name, Box::new(x))),
            Err(e) => Err(e),
        }
    }
}

/// What a value or an error stands for.
pub open spec fn value_result(r: Result<YANValue, YANParseError>) -> Result<SpecValue, SpecError> {
    match r {
        Ok(v) => Ok(v.deep()),
        Err(e) => Err(e.spec()),
    }
}

/// What an object or an error stands for.
pub open spec fn object_result(r: Result<YANObject, YANParseError>) -> Result<
    Seq<(Seq<char>, SpecValue)>,
    SpecError,
> {
    match r {
        Ok(o) => Ok(o.deep()),
        Err(e) => Err(e.spec()),
    }
}

/// The error of message `m` on line `line`.
pub fn error(m: Vec<char>, line: usize) -> (e: YANParseError)
    ensures
        e.spec() == (SpecError { message: m@, line: line as nat }),
{
    YANParseError { message: string_of(&m), line }
}

pub(crate) fn expected_colon_error(text: &[char], line: usize) -> (e: YANParseError)
    ensures
        e.spec() == (SpecError { message: msg_expected_colon(text@), line: line as nat }),
{
    let m = concat(concat(chars_of("Expected ':' in '"), text), &chars_of("'"));
    error(m, line)
}

fn invalid_hint_error(name: &str, line: usize, raw: &[char], note: bool) -> (e: YANParseError)
    ensures
        e.spec() == (SpecError {
            message: if note {
                msg_invalid_hint(name@, line as nat, raw@) + color_note()
            } else {
                msg_invalid_hint(name@, line as nat, raw@)
            },
            line: line as nat,
        }),
{
    let m = concat(chars_of("Invalid @"), &chars_of(name));
    let m = concat(m, &chars_of(" value on line "));
    let m = concat(m, &decimal_chars(line));
    let m = concat(m, &chars_of(": \""));
    let m = concat(m, raw);
    let m = concat(m, &chars_of("\""));
    if note {
        let m = concat(m, &chars_of(" (note: hex colors must be quoted, e.g. @color \"#ff0080\", since unquoted '#' starts a comment)"));
        error(m, line)
    } else {
        error(m, line)
    }
}

/// The value of the hexadecimal digit `c`.
fn hex_digit_value(c: char) -> (r: u32)
    requires
        is_hex_digit(c),
    ensures
        r == hex_value(c),
        r < 16,
{
    if '0' <= c && c <= '9' {
        c as u32 - '0' as u32
    } else if 'a' <= c && c <= 'f' {
        c as u32 - 'a' as u32 + 10
    } else {
        c as u32 - 'A' as u32 + 10
    }
}

/// Whether `c` is a hexadecimal digit.
fn is_hex_digit_exec(c: char) -> (r: bool)
    ensures
        r == is_hex_digit(c),
{
    ('0' <= c && c <= '9') || ('a' <= c && c <= 'f') || ('A' <= c && c <= 'F')
}

/// The character that a backslash followed by `c` stands for, if any.
fn simple_escape_exec(c: char) -> (r: Option<char>)
    ensures
        r == simple_escape(c),
{
    if c == '"' {
        Some('"')
    } else if c == '\\' {
        Some('\\')
    } else if c == 'b' {
        Some('\u{8}')
    } else if c == 'f' {
        Some('\u{c}')
    } else if c == 'n' {
        Some('\n')
    } else if c == 'r' {
        Some('\r')
    } else if c == 't' {
        Some('\t')
    } else {
        None
    }
}

/// The character that a `\uXXXX` escape at `s[i..]` stands for, if there is
/// one there.
fn unicode_escape_exec(s: &[char], i: usize) -> (r: Option<char>)
    requires
        i < s@.len(),
    ensures
        unicode_escape_at(s@, i as int) ==> r == Some(hex4_value(s@, i + 2) as char),
        !unicode_escape_at(s@, i as int) ==> r is None,
{
    if !(5 < s.len() - i && s[i] == '\\' && s[i + 1] == 'u') {
        return None;
    }
    if !(is_hex_digit_exec(s[i + 2]) && is_hex_digit_exec(s[i + 3]) && is_hex_digit_exec(s[i + 4])
        && is_hex_digit_exec(s[i + 5])) {
        return None;
    }
    let code = hex_digit_value(s[i + 2]) * 4096 + hex_digit_value(s[i + 3]) * 256
        + hex_digit_value(s[i + 4]) * 16 + hex_digit_value(s[i + 5]);
    char_from_code(code)
}

/// The characters of the quoted-string body `s` with its escapes replaced.
fn unescape_chars(s: &[char]) -> (r: Vec<char>)
    ensures
        r@ == unescape(s@),
{
    let n = s.len();
    let mut r: Vec<char> = Vec::new();
    let mut i: usize = 0;
    assert(s@.subrange(0, n as int) =~= s@);
    while i < n
        invariant
            i <= n == s@.len(),
            unescape(s@) == r@ + unescape(s@.subrange(i as int, n as int)),
        decreases n - i,
    {
        let ghost rest = s@.subrange(i as int, n as int);
        let simple = if i + 1 < n && s[i] == '\\' {
            simple_escape_exec(s[i + 1])
        } else {
            None
        };
        match simple {
            Some(c) => {
                r.push(c);
                assert(rest.subrange(2, rest.len() as int) =~= s@.subrange(i + 2, n as int));
                i += 2;
            },
            None => {
                let uni = unicode_escape_exec(s, i);
                assert(unicode_escape_at(rest, 0) == unicode_escape_at(s@, i as int));
                assert(unicode_escape_at(rest, 0) ==> hex4_value(rest, 2) == hex4_value(s@, i + 2));
                match uni {
                    Some(c) => {
                        r.push(c);
                        assert(rest.subrange(6, rest.len() as int) =~= s@.subrange(i + 6, n as int));
                        i += 6;
                    },
                    None => {
                        r.push(s[i]);
                        assert(rest.subrange(1, rest.len() as int) =~= s@.subrange(i + 1, n as int));
                        i += 1;
                    },
                }
            },
        }
    }
    r
}

/// `text` as a string value: a double-quoted string is unescaped; one
/// without its closing quote is an error.
pub fn parse_string(text: &[char], line: usize) -> (r: Result<YANValue, YANParseError>)
    ensures
        value_result(r) == string_value(text@, line as nat),
{
    let n = text.len();
    if !(n > 0 && text[0] == '"') {
        return Ok(YANValue::String(string_of(text)));
    }
    if n < 2 || text[n - 1] != '"' {
        return Err(error(concat(chars_of("Unclosed string: "), text), line));
    }
    let body = slice_of(text, 1, n - 1);
    Ok(YANValue::String(string_of(&unescape_chars(&body))))
}

/// The string value of a hint named `name`.
fn hint_string_exec(name: &[char], text: &[char]) -> (v: YANValue)
    ensures
        v.deep() == hint_string(name@, text@),
{
    let inner = YANValue::String(string_of(text));
    assert(inner.deep() == SpecValue::Str(text@));
    YANValue::TypeHint { name: string_of(name), value: Box::new(inner) }
}

fn word_ci(v: &[char], w: &str) -> (r: bool)
    ensures
        r == eq_ci(v@, w@),
{
    eq_ci_exec(v, &chars_of(w))
}

fn is_name(name: &[char], w: &str) -> (r: bool)
    ensures
        r == (name@ == w@),
{
    chars_eq(name, &chars_of(w))
}

/// Reads the value `raw` of line `line`.
pub fn parse_value(raw: &[char], line: usize) -> (r: Result<YANValue, YANParseError>)
    ensures
        value_result(r) == value_of(raw@, line as nat),
    decreases raw@.len(), 2nat, 0nat,
{
    let v = trim_chars(raw);
    proof {
        lemma_trim_len(raw@);
    }
    let n = v.len();
    if n == 0 {
        return Ok(YANValue::Null);
    }
    if v[0] == '@' {
        return parse_type_hint(&v, line);
    }
    if is_array_chars(&v) {
        proof {
            let p = choose|p: int| 0 <= p < v@.len() && v@[p] == ';' && crate::scan::top_level(v@, p);
            assert(seq![';'][0] == v@[p]);
            assert(crate::scan::is_split_point(v@, seq![';'], p));
            lemma_split_bounds(v@, seq![';']);
        }
        let delims = [';'];
        assert(delims@ =~= seq![';']);
        return parse_array(&v, &delims, line, Ghost(n as nat));
    }
    if v[0] == '{' && v[n - 1] == '}' {
        let inner = slice_of(&v, 1, n - 1);
        proof {
            lemma_split_bounds(inner@, seq![';']);
            lemma_split_bounds(inner@, seq![';', ',']);
        }
        if is_inline_array_chars(&inner) {
            let delims = [';', ','];
            assert(delims@ =~= seq![';', ',']);
            return parse_array(&inner, &delims, line, Ghost(n as nat));
        } else {
            return match parse_inline_pairs(&inner, line, Ghost(n as nat)) {
                Ok(o) => Ok(YANValue::Object(o)),
                Err(e) => Err(e),
            };
        }
    }
    if v[0] == '"' {
        return parse_string(&v, line);
    }
    if word_ci(&v, "true") || word_ci(&v, "yes") || word_ci(&v, "on") {
        return Ok(YANValue::Bool(true));
    }
    if word_ci(&v, "false") || word_ci(&v, "no") || word_ci(&v, "off") {
        return Ok(YANValue::Bool(false));
    }
    if word_ci(&v, "null") || word_ci(&v, "nil") || word_ci(&v, "_") || word_ci(&v, "~") {
        return Ok(YANValue::Null);
    }
    match int_value_chars(&v) {
        Some(x) => Ok(YANValue::Int(x)),
        None => if is_float_chars(&v) {
            Ok(YANValue::Float(string_of(&v)))
        } else {
            Ok(YANValue::String(string_of(&v)))
        },
    }
}

/// Reads the items of `text` between top-level `delims` as an array.
pub fn parse_array(text: &[char], delims: &[char], line: usize, Ghost(bound): Ghost<nat>) -> (r:
    Result<YANValue, YANParseError>)
    requires
        forall|k: int|
            0 <= k < spec_smart_split(text@, delims@).len() ==> #[trigger] spec_smart_split(
                text@,
                delims@,
            )[k].len() < bound,
    ensures
        value_result(r) == wrap_array(list_of(spec_smart_split(text@, delims@), line as nat, bound)),
    decreases bound, 1nat, 0nat,
{
    let items = smart_split_chars(text, delims);
    let ghost all = spec_smart_split(text@, delims@);
    let mut values: Vec<YANValue> = Vec::new();
    let mut k: usize = 0;
    assert(all.skip(0) =~= all);
    while k < items.len()
        invariant
            k <= items@.len(),
            views(items@) == all,
            all == spec_smart_split(text@, delims@),
            forall|j: int| 0 <= j < all.len() ==> #[trigger] all[j].len() < bound,
            list_of(all, line as nat, bound) == match list_of(all.skip(k as int), line as nat, bound) {
                Ok(xs) => Ok(deep_values(values@) + xs),
                Err(e) => Err(e),
            },
        decreases items@.len() - k,
    {
        assert(all.skip(k as int).drop_first() =~= all.skip(k + 1));
        let x = parse_value(&items[k], line);
        match x {
            Ok(x) => {
                let ghost before = values@;
                values.push(x);
                proof {
                    assert(values@.drop_last() == before);
                    match list_of(all.skip(k + 1), line as nat, bound) {
                        Ok(xs) => {
                            assert(deep_values(before) + (seq![x.deep()] + xs) =~= deep_values(values@) + xs);
                        },
                        Err(e) => {},
                    }
                }
            },
            Err(e) => {
                return Err(e);
            },
        }
        k += 1;
    }
    Ok(YANValue::Array(values))
}

/// Reads the `key: value` pairs of an inline object body `text` on line `line`.
pub fn parse_inline_pairs(text: &[char], line: usize, Ghost(bound): Ghost<nat>) -> (r: Result<
    YANObject,
    YANParseError,
>)
    requires
        forall|k: int|
            0 <= k < inline_items(text@).len() ==> #[trigger] inline_items(text@)[k].len()
                < bound,
    ensures
        object_result(r) == pairs_of(inline_items(text@), seq![], line as nat, bound),
    decreases bound, 1nat, 0nat,
{
    let delims = [';', ','];
    let pairs = smart_split_chars(text, &delims);
    let ghost all = inline_items(text@);
    let mut result = YANObject::new();
    let mut k: usize = 0;
    assert(all.skip(0) =~= all);
    while k < pairs.len()
        invariant
            k <= pairs@.len(),
            views(pairs@) == all,
            all == inline_items(text@),
            forall|j: int| 0 <= j < all.len() ==> #[trigger] all[j].len() < bound,
            pairs_of(all, seq![], line as nat, bound) == pairs_of(
                all.skip(k as int),
                result.deep(),
                line as nat,
                bound,
            ),
        decreases pairs@.len() - k,
    {
        assert(all.skip(k as int).drop_first() =~= all.skip(k + 1));
        let trimmed = trim_chars(&pairs[k]);
        if trimmed.len() == 0 {
            k += 1;
            continue;
        }
        let colon = match find_key_colon_chars(&trimmed) {
            Some(c) => c,
            None => {
                return Err(expected_colon_error(&trimmed, line));
            },
        };
        proof {
            lemma_key_colon_from(trimmed@, 0);
            lemma_trim_len(all[k as int]);
            lemma_trim_len(trimmed@.subrange(colon + 1, trimmed@.len() as int));
        }
        let key = trim_chars(&slice_of(&trimmed, 0, colon));
        let val = trim_chars(&slice_of(&trimmed, colon + 1, trimmed.len()));
        let x = parse_value(&val, line);
        match x {
            Ok(x) => {
                result.insert(string_of(&key), x);
            },
            Err(e) => {
                return Err(e);
            },
        }
        k += 1;
    }
    Ok(result)
}

/// Reads the type hint `@name rest`.
pub fn parse_type_hint(t: &[char], line: usize) -> (r: Result<YANValue, YANParseError>)
    requires
        t@.len() > 0,
        t@[0] == '@',
    ensures
        value_result(r) == hint_of(t@, line as nat),
    decreases t@.len(), 1nat, 0nat,
{
    let n = t.len();
    let mut sp: usize = 0;
    while sp < n && !(t[sp] == ' ' || t[sp] == '\t' || t[sp] == '\n')
        invariant
            sp <= n == t@.len(),
            blank_from(t@, sp as int) == hint_space(t@),
        decreases n - sp,
    {
        sp += 1;
    }
    let mut vs: usize = sp;
    while vs < n && (t[vs] == ' ' || t[vs] == '\t' || t[vs] == '\n')
        invariant
            sp <= vs <= n == t@.len(),
            sp == hint_space(t@),
            past_blanks(t@, vs as int) == past_blanks(t@, hint_space(t@)),
        decreases n - vs,
    {
        vs += 1;
    }
    assert(t@[0] == '@');
    let name = slice_of(t, 1, sp);
    let raw = slice_of(t, vs, n);
    if is_name(&name, "int") {
        return match int_value_chars(&raw) {
            Some(x) => Ok(YANValue::Int(x)),
            None => Err(error(concat(chars_of("Invalid int: "), &raw), line)),
        };
    }
    if is_name(&name, "float") {
        return if is_float_chars(&raw) {
            Ok(YANValue::Float(string_of(&raw)))
        } else {
            Err(error(concat(chars_of("Invalid float: "), &raw), line))
        };
    }
    if is_name(&name, "bool") {
        let b = word_ci(&raw, "true") || word_ci(&raw, "yes") || word_ci(&raw, "on") || word_ci(
            &raw,
            "1",
        );
        return Ok(YANValue::Bool(b));
    }
    if is_name(&name, "date") || is_name(&name, "datetime") || is_name(&name, "hex") || is_name(
        &name,
        "base64",
    ) || is_name(&name, "uuid") || is_name(&name, "url") || is_name(&name, "regex") {
        return Ok(hint_string_exec(&name, &raw));
    }
    if is_name(&name, "bigint") {
        return if valid_bigint_chars(&raw) {
            Ok(hint_string_exec(&name, &raw))
        } else {
            Err(invalid_hint_error("bigint", line, &raw, false))
        };
    }
    if is_name(&name, "email") {
        return if valid_email_chars(&raw) {
            Ok(hint_string_exec(&name, &raw))
        } else {
            Err(invalid_hint_error("email", line, &raw, false))
        };
    }
    if is_name(&name, "ipv4") {
        return if valid_ipv4_chars(&raw) {
            Ok(hint_string_exec(&name, &raw))
        } else {
            Err(invalid_hint_error("ipv4", line, &raw, false))
        };
    }
    if is_name(&name, "ipv6") {
        return if valid_ipv6_chars(&raw) {
            Ok(hint_string_exec(&name, &raw))
        } else {
            Err(invalid_hint_error("ipv6", line, &raw, false))
        };
    }
    if is_name(&name, "color") {
        let cv = color_value_chars(&raw);
        return if valid_color_chars(&cv) {
            Ok(hint_string_exec(&name, &cv))
        } else {
            Err(invalid_hint_error("color", line, &raw, true))
        };
    }
    if is_name(&name, "duration") {
        return if valid_duration_chars(&raw) {
            Ok(hint_string_exec(&name, &raw))
        } else {
            Err(invalid_hint_error("duration", line, &raw, false))
        };
    }
    match parse_value(&raw, line) {
        Ok(x) => Ok(YANValue::TypeHint { name: string_of(&name), value: Box::new(x) }),
        Err(e) => Err(e),
    }
}

} // verus!
