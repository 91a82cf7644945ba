//! A small JSON reader in two stages: a lexer that turns characters into
//! tokens and a recursive-descent parser that turns tokens into a value tree.
//!
//! Every stage has a mathematical description (`lex_text`, `document_at`) and
//! an executable function proved to compute exactly that description.
pub mod cursor;
pub mod error;
pub mod token;
pub mod value;
pub mod lexer;
pub mod parser;
pub mod render;

pub use crate::cursor::Cursor;
pub use crate::error::{LexicalError, LexicalErrorKind, StructuralError, StructuralErrorKind};
pub use crate::lexer::{expect_rest_of_constant, lex, tokenize_number, tokenize_string};
pub use crate::parser::{parse, parse_array, parse_object, parse_value};
pub use crate::token::{Number, Token};
pub use crate::value::{JsonValue, ObjectMap};
