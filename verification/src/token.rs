//! The token vocabulary shared by the lexer and the parser.
use vstd::prelude::*;

verus! {

/// A decimal digit.
pub open spec fn is_digit(c: char) -> bool {
    '0' <= c && c <= '9'
}

/// Some character of `s` is a digit.
pub open spec fn has_digit(s: Seq<char>) -> bool {
    exists|i: int| 0 <= i < s.len() && is_digit(#[trigger] s[i])
}

/// The spelling of a number: a digit or a minus sign, then digits with at
/// most one decimal point among them, and at least one digit in all.
pub open spec fn is_number_literal(s: Seq<char>) -> bool {
    &&& s.len() >= 1
    &&& (is_digit(s[0]) || s[0] == '-')
    &&& forall|i: int| 1 <= i < s.len() ==> is_digit(#[trigger] s[i]) || s[i] == '.'
    &&& forall|i: int, j: int|
        1 <= i < j < s.len() ==> !(#[trigger] s[i] == '.' && #[trigger] s[j] == '.')
    &&& has_digit(s)
}

/// No character of `s` is a double quote.
pub open spec fn has_no_quote(s: Seq<char>) -> bool {
    forall|i: int| 0 <= i < s.len() ==> (#[trigger] s[i]) != '"'
}

/// A number, held as the characters that spell it. The spelling decides the
/// 64-bit floating-point value that a caller reads from it.
#[derive(Debug, PartialEq, Eq)]
pub struct Number {
    pub literal: String,
}

impl Number {
    /// The literal is the spelling of a number.
    pub open spec fn wf(&self) -> bool {
        is_number_literal(self.literal@)
    }
}

/// A lexical unit of the input.
#[derive(Debug, PartialEq, Eq)]
pub enum Token {
    /// A string literal, without its quotes.
    TokenString(String),
    TokenNumber(Number),
    TokenNull,
    TokenTrue,
    TokenFalse,
    Comma,
    /// The `:` between a key and its value.
    SemiColon,
    LeftBrace,
    RightBrace,
    LeftBracket,
    RightBracket,
}

/// What a token is, in terms of mathematical sequences.
pub ghost enum Lexeme {
    Text(Seq<char>),
    Number(Seq<char>),
    Null,
    True,
    False,
    Comma,
    Colon,
    LeftBrace,
    RightBrace,
    LeftBracket,
    RightBracket,
}

impl View for Token {
    type V = Lexeme;

    open spec fn view(&self) -> Lexeme {
        match self {
            Token::TokenString(s) => Lexeme::Text(s@),
            Token::TokenNumber(n) => Lexeme::Number(n.literal@),
            Token::TokenNull => Lexeme::Null,
            Token::TokenTrue => Lexeme::True,
            Token::TokenFalse => Lexeme::False,
            Token::Comma => Lexeme::Comma,
            Token::SemiColon => Lexeme::Colon,
            Token::LeftBrace => Lexeme::LeftBrace,
            Token::RightBrace => Lexeme::RightBrace,
            Token::LeftBracket => Lexeme::LeftBracket,
            Token::RightBracket => Lexeme::RightBracket,
        }
    }
}

/// A string token holds no double quote, and a number token is spelled as
/// a number.
pub open spec fn well_spelled(token: Lexeme) -> bool {
    match token {
        Lexeme::Text(s) => has_no_quote(s),
        Lexeme::Number(n) => is_number_literal(n),
        _ => true,
    }
}

/// Every token of the sequence is well spelled.
pub open spec fn all_well_spelled(tokens: Seq<Lexeme>) -> bool {
    forall|i: int| 0 <= i < tokens.len() ==> well_spelled(#[trigger] tokens[i])
}

/// The lexemes of a sequence of tokens, in order.
pub open spec fn lexemes(tokens: Seq<Token>) -> Seq<Lexeme> {
    Seq::new(tokens.len(), |i: int| tokens[i]@)
}

} // verus!
