//! Typed failures of the two stages. Each names what went wrong and where.
use vstd::prelude::*;

verus! {

/// What the lexer could not accept.
#[derive(Debug, Clone, Copy, PartialEq, Eq)]
pub enum LexicalErrorKind {
    /// The input ended inside a string literal.
    UnterminatedString,
    /// A number holds a second decimal point.
    SecondDecimalPoint,
    /// A number holds no digit at all, such as a lone minus sign.
    NumberWithoutDigits,
    /// A keyword constant departs from its spelling, or the input ends
    /// inside it; `expected` is the character that should have come.
    BadConstant { expected: char },
    /// A character that starts no token.
    UnexpectedChar { found: char },
}

/// A failure of the lexer: its kind, and the index in the input at which
/// scanning stopped.
#[derive(Debug, Clone, Copy, PartialEq, Eq)]
pub struct LexicalError {
    pub kind: LexicalErrorKind,
    pub at: usize,
}

/// What the parser could not accept.
#[derive(Debug, Clone, Copy, PartialEq, Eq)]
pub enum StructuralErrorKind {
    /// A value was expected, and the token starts none.
    ValueExpected,
    /// A comma inside an object is not followed by a key.
    KeyExpected,
    /// A comma inside an array is not followed by an object.
    ObjectExpected,
    /// A token that cannot stand inside an array.
    UnexpectedInArray,
    /// The tokens ended inside an object or an array.
    UnexpectedEnd,
}

/// A failure of the parser: its kind, and the index of the token at which
/// parsing stopped (the number of tokens, where they ran out).
#[derive(Debug, Clone, Copy, PartialEq, Eq)]
pub struct StructuralError {
    pub kind: StructuralErrorKind,
    pub at: usize,
}

/// The lexical error of kind `kind` at index `at`.
pub open spec fn lexical(kind: LexicalErrorKind, at: int) -> LexicalError {
    LexicalError { kind, at: at as usize }
}

/// The structural error of kind `kind` at token index `at`.
pub open spec fn structural(kind: StructuralErrorKind, at: int) -> StructuralError {
    StructuralError { kind, at: at as usize }
}

} // verus!
