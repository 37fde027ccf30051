# yan

A verified parser for YAN ("Yet Another Notation"), a small human-readable
data format: `key: value` pairs, objects nested by indentation or written
inline in braces, `;`-separated arrays, `#` and `/* */` comments, and type
hints such as `@int 42` or `@color "#ff0080"`.

The library (`src/`) is written in Verus. Every function states what it
returns as a mathematical function of its input, and Verus proves it:

- `lexer` — newline normalisation, comment stripping, the split into
  numbered, indented, trimmed lines;
- `scan` — quote- and brace-aware scanning (top-level separators, the key
  colon, inline arrays);
- `number` — the integer and float literals;
- `hint` — the checks behind the validated type hints;
- `values` — one value: scalars, strings, arrays, inline objects, hints;
- `block` — indented blocks and multi-line inline objects;
- `value` — the value and object types and their mathematical views;
- `parser` — `YANParser`, the entry points;
- `laws` — properties of the parser as a whole (line endings, comments,
  line numbers, duplicate keys, array order, trailing separators, splitting
  and rejoining, inline arrays).

Floats are kept as their literal text, which follows the format's number
grammar (`-`? integer, optional fraction, optional exponent), and objects
as ordered lists of unique keys. `app/` offers the same parser with `f64`
floats, `HashMap` objects and an error type implementing `Display` and
`std::error::Error`.
