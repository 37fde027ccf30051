//! The parser's entry points.
use crate::block::{block_from, parse_block};
use crate::lexer::{
    lines_view, normalize_newlines_chars, spec_preprocess, spec_split_lines, spec_strip_comments,
    split_lines_chars, strip_comments_chars, Line,
};
use crate::scan::{
    find_key_colon_chars, has_top_level_colon_chars, is_array_chars, is_inline_array_chars,
    key_colon, smart_split_chars, spec_has_top_level_colon, spec_is_array, spec_is_inline_array,
    spec_smart_split,
};
use crate::text::{chars_of, string_of};
use crate::value::{keys_unique, SpecError, SpecValue, YANObject, YANParseError};
use vstd::prelude::*;

verus! {

/// What parsing `source` gives: the top-level pairs of the document, or the
/// first error met.
pub open spec fn spec_parse(source: Seq<char>) -> Result<Seq<(Seq<char>, SpecValue)>, SpecError> {
    match block_from(spec_split_lines(spec_preprocess(source)), 0, None, seq![]) {
        Ok((entries, _)) => Ok(entries),
        Err(e) => Err(e),
    }
}

/// A parser of YAN documents.
pub struct YANParser;

impl YANParser {
    pub fn new() -> (p: YANParser) {
        YANParser
    }

    /// Parses the document `source` into its top-level object.
    pub fn parse(&self, source: &str) -> (r: Result<YANObject, YANParseError>)
        ensures
            match r {
                Ok(o) => spec_parse(source@) == Ok::<Seq<(Seq<char>, SpecValue)>, SpecError>(o.deep())
                    && keys_unique(o.deep()),
                Err(e) => spec_parse(source@) == Err::<Seq<(Seq<char>, SpecValue)>, SpecError>(e.spec()),
            },
    {
        let src = chars_of(source);
        let cleaned = strip_comments_chars(&normalize_newlines_chars(&src));
        let lines = split_lines_chars(&cleaned);
        match parse_block(lines.as_slice(), 0, None) {
            Ok((result, _)) => {
                proof {
                    crate::laws::law_parse_keys_unique(source@);
                }
                Ok(result)
            },
            Err(e) => Err(e),
        }
    }

    /// `source` with `\r\n` and `\r` turned into `\n`, then without comments.
    pub fn preprocess(&self, source: &str) -> (r: String)
        ensures
            r@ == spec_preprocess(source@),
    {
        let src = chars_of(source);
        string_of(&strip_comments_chars(&normalize_newlines_chars(&src)))
    }

    /// `text` without `#` line comments and `/* */` block comments, both of
    /// which are ignored inside single- or double-quoted strings.
    pub fn strip_comments(&self, text: &str) -> (r: String)
        ensures
            r@ == spec_strip_comments(text@),
    {
        string_of(&strip_comments_chars(&chars_of(text)))
    }

    /// The non-blank lines of `text`, numbered from 1, with their indentation
    /// and their trimmed content.
    pub fn split_lines(&self, text: &str) -> (lines: Vec<Line>)
        ensures
            lines_view(lines@) == spec_split_lines(text@),
    {
        split_lines_chars(&chars_of(text))
    }

    /// The index of the first `:` outside double-quoted strings.
    pub fn find_key_colon(&self, text: &str) -> (r: Option<usize>)
        ensures
            match r {
                Some(k) => key_colon(text@) == Some(k as int),
                None => key_colon(text@) is None,
            },
    {
        find_key_colon_chars(&chars_of(text))
    }

    /// The parts of `text` between the `delimiters` that stand outside
    /// strings and braces; a last part that is only whitespace is dropped.
    pub fn smart_split(&self, text: &str, delimiters: &[char]) -> (parts: Vec<String>)
        ensures
            parts@.map_values(|p: String| p@) == spec_smart_split(text@, delimiters@),
    {
        let pieces = smart_split_chars(&chars_of(text), delimiters);
        let mut parts: Vec<String> = Vec::new();
        let mut k: usize = 0;
        while k < pieces.len()
            invariant
                k <= pieces@.len(),
                crate::scan::views(pieces@) == spec_smart_split(text@, delimiters@),
                parts@.map_values(|p: String| p@) == crate::scan::views(pieces@).take(k as int),
            decreases pieces@.len() - k,
        {
            let ghost before = parts@;
            let piece = string_of(&pieces[k]);
            parts.push(piece);
            assert(parts@.map_values(|p: String| p@) =~= before.map_values(|p: String| p@).push(
                piece@,
            ));
            k += 1;
            assert(parts@.map_values(|p: String| p@) =~= crate::scan::views(pieces@).take(
                k as int,
            ));
        }
        parts
    }

    /// `text` holds a `;` outside strings and braces.
    pub fn is_array(&self, text: &str) -> (r: bool)
        ensures
            r == spec_is_array(text@),
    {
        is_array_chars(&chars_of(text))
    }

    /// `text` holds a `:` outside strings and braces.
    pub fn has_top_level_colon(&self, text: &str) -> (r: bool)
        ensures
            r == spec_has_top_level_colon(text@),
    {
        has_top_level_colon_chars(&chars_of(text))
    }

    /// A `{ }` body is an array when none of its `;`/`,`-separated items has
    /// a top-level `key:` colon.
    pub fn is_inline_array(&self, text: &str) -> (r: bool)
        ensures
            r == spec_is_inline_array(text@),
    {
        is_inline_array_chars(&chars_of(text))
    }
}

} // verus!
