use json_parser::{
    expect_rest_of_constant, lex, tokenize_number, tokenize_string, Cursor, LexicalError,
    LexicalErrorKind, Number, Token,
};

fn number(text: &str) -> Token {
    Token::TokenNumber(Number { literal: text.to_string() })
}

fn string(text: &str) -> Token {
    Token::TokenString(text.to_string())
}

fn chars(text: &str) -> Vec<char> {
    text.chars().collect()
}

fn error(kind: LexicalErrorKind, at: usize) -> LexicalError {
    LexicalError { kind, at }
}

#[test]
fn structural_characters_give_one_token_each() {
    assert_eq!(
        lex("{}[],:".to_string()),
        Ok(vec![
            Token::LeftBrace,
            Token::RightBrace,
            Token::LeftBracket,
            Token::RightBracket,
            Token::Comma,
            Token::SemiColon,
        ])
    );
}

#[test]
fn empty_text_has_no_tokens() {
    assert_eq!(lex(String::new()), Ok(vec![]));
}

#[test]
fn spaces_and_newlines_are_skipped() {
    assert_eq!(lex(" \n  \n".to_string()), Ok(vec![]));
    assert_eq!(
        lex(" { \n \"a\" : 1 \n } ".to_string()),
        Ok(vec![Token::LeftBrace, string("a"), Token::SemiColon, number("1"), Token::RightBrace])
    );
}

#[test]
fn tab_is_not_a_blank() {
    assert_eq!(
        lex("{\t}".to_string()),
        Err(error(LexicalErrorKind::UnexpectedChar { found: '\t' }, 1))
    );
}

#[test]
fn carriage_return_is_not_a_blank() {
    assert_eq!(
        lex("1\r\n".to_string()),
        Err(error(LexicalErrorKind::UnexpectedChar { found: '\r' }, 1))
    );
}

#[test]
fn unknown_character_is_named() {
    assert_eq!(
        lex("[x]".to_string()),
        Err(error(LexicalErrorKind::UnexpectedChar { found: 'x' }, 1))
    );
    assert_eq!(
        lex("+1".to_string()),
        Err(error(LexicalErrorKind::UnexpectedChar { found: '+' }, 0))
    );
}

#[test]
fn string_content_is_taken_as_it_is() {
    assert_eq!(lex("\"hello world\"".to_string()), Ok(vec![string("hello world")]));
    assert_eq!(lex("\"\"".to_string()), Ok(vec![string("")]));
    assert_eq!(lex("\"{[,:]}\\n\ttrue\"".to_string()), Ok(vec![string("{[,:]}\\n\ttrue")]));
    assert_eq!(lex("\"h\u{e9}\u{4e16}\"".to_string()), Ok(vec![string("h\u{e9}\u{4e16}")]));
}

#[test]
fn backslash_does_not_escape_a_quote() {
    assert_eq!(
        lex("\"a\\\"b\"".to_string()),
        Err(error(LexicalErrorKind::UnexpectedChar { found: 'b' }, 4))
    );
    assert_eq!(lex("\"a\\\" 1".to_string()), Ok(vec![string("a\\"), number("1")]));
}

#[test]
fn unterminated_string_fails() {
    assert_eq!(
        lex("{\"a\":\"b".to_string()),
        Err(error(LexicalErrorKind::UnterminatedString, 7))
    );
    assert_eq!(lex("\"".to_string()), Err(error(LexicalErrorKind::UnterminatedString, 1)));
}

#[test]
fn numbers_keep_their_spelling() {
    assert_eq!(lex("-3.14".to_string()), Ok(vec![number("-3.14")]));
    assert_eq!(lex("12".to_string()), Ok(vec![number("12")]));
    assert_eq!(lex("0".to_string()), Ok(vec![number("0")]));
    assert_eq!(lex("007".to_string()), Ok(vec![number("007")]));
    assert_eq!(lex("5.".to_string()), Ok(vec![number("5.")]));
    assert_eq!(lex("-.5".to_string()), Ok(vec![number("-.5")]));
}

#[test]
fn number_values_as_floats() {
    let value = |text: &str| -> f64 {
        match lex(text.to_string()).unwrap().as_slice() {
            [Token::TokenNumber(n)] => n.literal.parse::<f64>().unwrap(),
            other => panic!("not one number: {:?}", other),
        }
    };
    assert_eq!(value("-3.14"), -3.14);
    assert_eq!(value("12"), 12.0);
    assert_eq!(value("0.5"), 0.5);
    assert_eq!(value("-0"), 0.0);
    assert!(value("-0").is_sign_negative());
    assert_eq!(value("5."), 5.0);
    assert_eq!(value("-.5"), -0.5);
    assert_eq!(value("123456789012345678901234567890"), 123456789012345678901234567890.0);
}

#[test]
fn second_decimal_point_fails() {
    assert_eq!(lex("1.2.3".to_string()), Err(error(LexicalErrorKind::SecondDecimalPoint, 3)));
    assert_eq!(lex("1..".to_string()), Err(error(LexicalErrorKind::SecondDecimalPoint, 2)));
    assert_eq!(lex("[-..]".to_string()), Err(error(LexicalErrorKind::SecondDecimalPoint, 3)));
}

#[test]
fn number_without_digits_fails() {
    assert_eq!(lex("-".to_string()), Err(error(LexicalErrorKind::NumberWithoutDigits, 1)));
    assert_eq!(lex("-.".to_string()), Err(error(LexicalErrorKind::NumberWithoutDigits, 2)));
    assert_eq!(lex("[-]".to_string()), Err(error(LexicalErrorKind::NumberWithoutDigits, 2)));
    assert_eq!(lex("--1".to_string()), Err(error(LexicalErrorKind::NumberWithoutDigits, 1)));
}

#[test]
fn number_stops_before_the_first_other_character() {
    assert_eq!(lex("1,2".to_string()), Ok(vec![number("1"), Token::Comma, number("2")]));
    assert_eq!(lex("1-2".to_string()), Ok(vec![number("1"), number("-2")]));
    assert_eq!(lex("12]".to_string()), Ok(vec![number("12"), Token::RightBracket]));
    assert_eq!(lex("1 2".to_string()), Ok(vec![number("1"), number("2")]));
    assert_eq!(
        lex("1e5".to_string()),
        Err(error(LexicalErrorKind::UnexpectedChar { found: 'e' }, 1))
    );
}

#[test]
fn keyword_constants() {
    assert_eq!(
        lex("null true false".to_string()),
        Ok(vec![Token::TokenNull, Token::TokenTrue, Token::TokenFalse])
    );
    assert_eq!(
        lex("nulltruefalse".to_string()),
        Ok(vec![Token::TokenNull, Token::TokenTrue, Token::TokenFalse])
    );
}

#[test]
fn truncated_constant_fails() {
    assert_eq!(
        lex("nul".to_string()),
        Err(error(LexicalErrorKind::BadConstant { expected: 'l' }, 3))
    );
    assert_eq!(lex("t".to_string()), Err(error(LexicalErrorKind::BadConstant { expected: 'r' }, 1)));
    assert_eq!(
        lex("[fals]".to_string()),
        Err(error(LexicalErrorKind::BadConstant { expected: 'e' }, 5))
    );
}

#[test]
fn misspelled_constant_fails() {
    assert_eq!(
        lex("nuLl".to_string()),
        Err(error(LexicalErrorKind::BadConstant { expected: 'l' }, 2))
    );
    assert_eq!(
        lex("tru e".to_string()),
        Err(error(LexicalErrorKind::BadConstant { expected: 'e' }, 3))
    );
    assert_eq!(
        lex("falsy".to_string()),
        Err(error(LexicalErrorKind::BadConstant { expected: 'e' }, 4))
    );
}

#[test]
fn tokens_come_in_the_order_of_the_text() {
    assert_eq!(
        lex("{\"k\":[{\"n\":-1.5},true,null]}".to_string()),
        Ok(vec![
            Token::LeftBrace,
            string("k"),
            Token::SemiColon,
            Token::LeftBracket,
            Token::LeftBrace,
            string("n"),
            Token::SemiColon,
            number("-1.5"),
            Token::RightBrace,
            Token::Comma,
            Token::TokenTrue,
            Token::Comma,
            Token::TokenNull,
            Token::RightBracket,
            Token::RightBrace,
        ])
    );
}

#[test]
fn first_error_wins() {
    assert_eq!(
        lex("{\"a\":tru,\"b\":\"c".to_string()),
        Err(error(LexicalErrorKind::BadConstant { expected: 'e' }, 8))
    );
}

#[test]
fn expect_rest_consumes_the_constant() {
    let text = chars("ull,");
    let mut cursor = Cursor::new(&text);
    assert_eq!(expect_rest_of_constant("ull", &mut cursor), Ok(()));
    assert_eq!(cursor.position(), 3);
    assert_eq!(cursor.peek(), Some(&','));
}

#[test]
fn expect_rest_stops_at_the_first_difference() {
    let text = chars("ulx");
    let mut cursor = Cursor::new(&text);
    assert_eq!(
        expect_rest_of_constant("ull", &mut cursor),
        Err(error(LexicalErrorKind::BadConstant { expected: 'l' }, 2))
    );
    assert_eq!(cursor.position(), 2);
    assert_eq!(cursor.peek(), Some(&'x'));
}

#[test]
fn expect_rest_fails_at_the_end_of_the_text() {
    let text = chars("al");
    let mut cursor = Cursor::new(&text);
    assert_eq!(
        expect_rest_of_constant("alse", &mut cursor),
        Err(error(LexicalErrorKind::BadConstant { expected: 's' }, 2))
    );
    assert_eq!(cursor.position(), 2);
}

#[test]
fn expect_rest_of_nothing_succeeds() {
    let text = chars("abc");
    let mut cursor = Cursor::new(&text);
    assert_eq!(expect_rest_of_constant("", &mut cursor), Ok(()));
    assert_eq!(cursor.position(), 0);
}

#[test]
fn tokenize_number_reads_the_run_behind_its_start() {
    let text = chars("23.5,");
    let mut cursor = Cursor::new(&text);
    assert_eq!(tokenize_number('1', &mut cursor), Ok(number("123.5")));
    assert_eq!(cursor.position(), 4);

    let text = chars("");
    let mut cursor = Cursor::new(&text);
    assert_eq!(tokenize_number('7', &mut cursor), Ok(number("7")));
    assert_eq!(cursor.position(), 0);
}

#[test]
fn tokenize_number_reports_where_it_stopped() {
    let text = chars("1.2.3");
    let mut cursor = Cursor::new(&text);
    assert_eq!(
        tokenize_number('-', &mut cursor),
        Err(error(LexicalErrorKind::SecondDecimalPoint, 3))
    );
    assert_eq!(cursor.position(), 3);

    let text = chars(".x");
    let mut cursor = Cursor::new(&text);
    assert_eq!(
        tokenize_number('-', &mut cursor),
        Err(error(LexicalErrorKind::NumberWithoutDigits, 1))
    );
    assert_eq!(cursor.position(), 1);
}

#[test]
fn tokenize_string_reads_up_to_the_quote() {
    let text = chars("ab\" rest");
    let mut cursor = Cursor::new(&text);
    assert_eq!(tokenize_string(&mut cursor), Ok(string("ab")));
    assert_eq!(cursor.position(), 3);

    let text = chars("ab");
    let mut cursor = Cursor::new(&text);
    assert_eq!(tokenize_string(&mut cursor), Err(error(LexicalErrorKind::UnterminatedString, 2)));
    assert_eq!(cursor.position(), 2);
}

#[test]
fn cursor_peeks_and_advances() {
    let items = vec![10u8, 20, 30];
    let mut cursor = Cursor::new(&items);
    assert_eq!(cursor.position(), 0);
    assert_eq!(cursor.peek(), Some(&10));
    assert_eq!(cursor.peek(), Some(&10));
    assert_eq!(cursor.next(), Some(&10));
    assert_eq!(cursor.next(), Some(&20));
    assert_eq!(cursor.position(), 2);
    assert_eq!(cursor.next(), Some(&30));
    assert_eq!(cursor.peek(), None);
    assert_eq!(cursor.next(), None);
    assert_eq!(cursor.position(), 3);
}
