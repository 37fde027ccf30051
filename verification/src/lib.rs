//! A parser for YAN ("Yet Another Notation") documents: `key: value` pairs,
//! indented and inline objects, `;`-separated arrays, comments and type hints.
pub mod block;
pub mod hint;
pub mod laws;
pub mod lexer;
pub mod number;
pub mod parser;
pub mod scan;
pub mod text;
pub mod value;
pub mod values;

pub use lexer::Line;
pub use parser::YANParser;
pub use value::{YANObject, YANParseError, YANValue};
