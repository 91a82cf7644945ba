use json_parser::{
    lex, parse, parse_array, parse_object, parse_value, Cursor, JsonValue, Number, ObjectMap,
    StructuralError, StructuralErrorKind, Token,
};

fn number(text: &str) -> JsonValue {
    JsonValue::JsonNumber(Number { literal: text.to_string() })
}

fn string(text: &str) -> JsonValue {
    JsonValue::JsonString(text.to_string())
}

fn object(members: Vec<(&str, JsonValue)>) -> JsonValue {
    JsonValue::JsonObject(ObjectMap {
        entries: members.into_iter().map(|(k, v)| (k.to_string(), v)).collect(),
    })
}

fn read(text: &str) -> Result<JsonValue, StructuralError> {
    let tokens = lex(text.to_string()).expect("the text lexes");
    let mut cursor = Cursor::new(&tokens);
    parse(&mut cursor)
}

fn failure(kind: StructuralErrorKind, at: usize) -> Result<JsonValue, StructuralError> {
    Err(StructuralError { kind, at })
}

fn as_float(v: &JsonValue) -> f64 {
    match v {
        JsonValue::JsonNumber(n) => n.literal.parse::<f64>().unwrap(),
        other => panic!("not a number: {:?}", other),
    }
}

#[test]
fn scalars_parse_to_themselves() {
    assert_eq!(read("\"hello\""), Ok(string("hello")));
    assert_eq!(read("\"\""), Ok(string("")));
    assert_eq!(read("42"), Ok(number("42")));
    assert_eq!(read("-3.14"), Ok(number("-3.14")));
    assert_eq!(read("true"), Ok(JsonValue::JsonBool(true)));
    assert_eq!(read("false"), Ok(JsonValue::JsonBool(false)));
    assert_eq!(read("null"), Ok(JsonValue::JsonNull));
}

#[test]
fn parsed_numbers_as_floats() {
    assert_eq!(as_float(&read("42").unwrap()), 42.0);
    assert_eq!(as_float(&read("-3.14").unwrap()), -3.14);
    assert_eq!(as_float(&read("0.125").unwrap()), 0.125);
}

#[test]
fn empty_input_is_null() {
    assert_eq!(read(""), Ok(JsonValue::JsonNull));
    assert_eq!(read(" \n "), Ok(JsonValue::JsonNull));
    let tokens: Vec<Token> = Vec::new();
    let mut cursor = Cursor::new(&tokens);
    assert_eq!(parse(&mut cursor), Ok(JsonValue::JsonNull));
    assert_eq!(cursor.position(), 0);
}

#[test]
fn duplicate_key_keeps_the_last_value() {
    let v = read("{\"a\":1,\"a\":2}").unwrap();
    assert_eq!(v, object(vec![("a", number("2"))]));
    match v {
        JsonValue::JsonObject(members) => {
            assert_eq!(members.entries.len(), 1);
            assert_eq!(members.get("a").map(as_float), Some(2.0));
        }
        other => panic!("not an object: {:?}", other),
    }
}

#[test]
fn overwritten_key_keeps_its_place() {
    assert_eq!(
        read("{\"a\":1,\"b\":2,\"a\":3}"),
        Ok(object(vec![("a", number("3")), ("b", number("2"))]))
    );
}

#[test]
fn array_of_one_object() {
    let v = read("[{\"x\":1}]").unwrap();
    assert_eq!(v, JsonValue::JsonArray(vec![object(vec![("x", number("1"))])]));
    match v {
        JsonValue::JsonArray(items) => {
            assert_eq!(items.len(), 1);
            match &items[0] {
                JsonValue::JsonObject(members) => {
                    assert_eq!(members.get("x").map(as_float), Some(1.0));
                }
                other => panic!("not an object: {:?}", other),
            }
        }
        other => panic!("not an array: {:?}", other),
    }
}

#[test]
fn array_of_scalars_is_refused() {
    assert_eq!(read("[1,2]"), failure(StructuralErrorKind::UnexpectedInArray, 1));
    assert_eq!(read("[\"a\"]"), failure(StructuralErrorKind::UnexpectedInArray, 1));
    assert_eq!(read("[null]"), failure(StructuralErrorKind::UnexpectedInArray, 1));
    assert_eq!(read("[:]"), failure(StructuralErrorKind::UnexpectedInArray, 1));
}

#[test]
fn nested_array_is_refused() {
    assert_eq!(read("[[]]"), failure(StructuralErrorKind::UnexpectedInArray, 1));
    assert_eq!(read("[{},[{}]]"), failure(StructuralErrorKind::ObjectExpected, 4));
}

#[test]
fn key_without_colon_is_dropped() {
    assert_eq!(read("{\"a\" 1}"), Ok(object(vec![])));
    assert_eq!(read("{\"a\" 1,\"b\":2}"), Ok(object(vec![("b", number("2"))])));
    assert_eq!(read("{\"a\" \"b\":1}"), Ok(object(vec![])));
}

#[test]
fn key_without_colon_takes_the_next_token_with_it() {
    assert_eq!(read("{\"a\"}"), failure(StructuralErrorKind::UnexpectedEnd, 3));
    assert_eq!(read("{\"a\"}}"), Ok(object(vec![])));
}

#[test]
fn stray_tokens_in_an_object_are_passed_over() {
    assert_eq!(read("{1 \"a\":2}"), Ok(object(vec![("a", number("2"))])));
    assert_eq!(read("{: true null \"a\":2 ] [}"), Ok(object(vec![("a", number("2"))])));
    assert_eq!(read("{{}"), Ok(object(vec![])));
}

#[test]
fn members_need_no_comma() {
    assert_eq!(
        read("{\"a\":1 \"b\":2}"),
        Ok(object(vec![("a", number("1")), ("b", number("2"))]))
    );
    assert_eq!(read("[{} {}]"), Ok(JsonValue::JsonArray(vec![object(vec![]), object(vec![])])));
}

#[test]
fn comma_may_come_first() {
    assert_eq!(read("{,\"a\":1}"), Ok(object(vec![("a", number("1"))])));
    assert_eq!(read("[,{}]"), Ok(JsonValue::JsonArray(vec![object(vec![])])));
}

#[test]
fn comma_in_object_needs_a_key() {
    assert_eq!(read("{\"a\":1,}"), failure(StructuralErrorKind::KeyExpected, 5));
    assert_eq!(read("{\"a\":1,,\"b\":2}"), failure(StructuralErrorKind::KeyExpected, 5));
    assert_eq!(read("{,1}"), failure(StructuralErrorKind::KeyExpected, 2));
    assert_eq!(read("{\"a\":1,"), failure(StructuralErrorKind::UnexpectedEnd, 5));
}

#[test]
fn comma_in_array_needs_an_object() {
    assert_eq!(read("[{},]"), failure(StructuralErrorKind::ObjectExpected, 4));
    assert_eq!(read("[{},1]"), failure(StructuralErrorKind::ObjectExpected, 4));
    assert_eq!(read("[{},"), failure(StructuralErrorKind::UnexpectedEnd, 4));
}

#[test]
fn value_expected() {
    assert_eq!(read(","), failure(StructuralErrorKind::ValueExpected, 0));
    assert_eq!(read(":"), failure(StructuralErrorKind::ValueExpected, 0));
    assert_eq!(read("}"), failure(StructuralErrorKind::ValueExpected, 0));
    assert_eq!(read("]"), failure(StructuralErrorKind::ValueExpected, 0));
    assert_eq!(read("{\"a\":}"), failure(StructuralErrorKind::ValueExpected, 3));
    assert_eq!(read("{\"a\":,\"b\":1}"), failure(StructuralErrorKind::ValueExpected, 3));
}

#[test]
fn unclosed_structures_fail() {
    assert_eq!(read("{"), failure(StructuralErrorKind::UnexpectedEnd, 1));
    assert_eq!(read("["), failure(StructuralErrorKind::UnexpectedEnd, 1));
    assert_eq!(read("{\"a\""), failure(StructuralErrorKind::UnexpectedEnd, 2));
    assert_eq!(read("{\"a\":"), failure(StructuralErrorKind::UnexpectedEnd, 3));
    assert_eq!(read("{\"a\":1"), failure(StructuralErrorKind::UnexpectedEnd, 4));
    assert_eq!(read("[{}"), failure(StructuralErrorKind::UnexpectedEnd, 3));
    assert_eq!(read("[{\"a\":{"), failure(StructuralErrorKind::UnexpectedEnd, 5));
}

#[test]
fn nested_values() {
    assert_eq!(
        read("{\"a\":{\"b\":[{\"c\":null},{\"d\":[]}]},\"e\":true,\"f\":\"g\"}"),
        Ok(object(vec![
            (
                "a",
                object(vec![(
                    "b",
                    JsonValue::JsonArray(vec![
                        object(vec![("c", JsonValue::JsonNull)]),
                        object(vec![("d", JsonValue::JsonArray(vec![]))]),
                    ]),
                )]),
            ),
            ("e", JsonValue::JsonBool(true)),
            ("f", string("g")),
        ]))
    );
}

#[test]
fn empty_composites() {
    assert_eq!(read("{}"), Ok(object(vec![])));
    assert_eq!(read("[]"), Ok(JsonValue::JsonArray(vec![])));
}

#[test]
fn cursor_stops_behind_the_value() {
    let tokens = lex("{\"a\":[{}]} 7 true".to_string()).unwrap();
    let mut cursor = Cursor::new(&tokens);
    assert_eq!(
        parse(&mut cursor),
        Ok(object(vec![("a", JsonValue::JsonArray(vec![object(vec![])]))]))
    );
    assert_eq!(cursor.position(), 8);
    assert_eq!(parse(&mut cursor), Ok(number("7")));
    assert_eq!(cursor.position(), 9);
    assert_eq!(parse(&mut cursor), Ok(JsonValue::JsonBool(true)));
    assert_eq!(cursor.position(), 10);
    assert_eq!(parse(&mut cursor), Ok(JsonValue::JsonNull));
    assert_eq!(cursor.position(), 10);
}

#[test]
fn cursor_stops_at_the_error() {
    let tokens = lex("{\"a\":[{},7]}".to_string()).unwrap();
    let mut cursor = Cursor::new(&tokens);
    assert_eq!(parse(&mut cursor), failure(StructuralErrorKind::ObjectExpected, 7));
    assert_eq!(cursor.position(), 7);
}

#[test]
fn parse_value_fails_at_the_end() {
    let tokens: Vec<Token> = Vec::new();
    let mut cursor = Cursor::new(&tokens);
    assert_eq!(parse_value(&mut cursor), failure(StructuralErrorKind::UnexpectedEnd, 0));
}

#[test]
fn parse_object_starts_behind_the_brace() {
    let tokens = lex("\"a\":1} 2".to_string()).unwrap();
    let mut cursor = Cursor::new(&tokens);
    assert_eq!(parse_object(&mut cursor), Ok(object(vec![("a", number("1"))])));
    assert_eq!(cursor.position(), 4);
}

#[test]
fn parse_array_starts_behind_the_bracket() {
    let tokens = lex("{},{}] 2".to_string()).unwrap();
    let mut cursor = Cursor::new(&tokens);
    assert_eq!(
        parse_array(&mut cursor),
        Ok(JsonValue::JsonArray(vec![object(vec![]), object(vec![])]))
    );
    assert_eq!(cursor.position(), 6);
}

#[test]
fn tokens_built_by_hand_parse_too() {
    let tokens = vec![
        Token::LeftBrace,
        Token::TokenString("k".to_string()),
        Token::SemiColon,
        Token::TokenFalse,
        Token::RightBrace,
    ];
    let mut cursor = Cursor::new(&tokens);
    assert_eq!(parse(&mut cursor), Ok(object(vec![("k", JsonValue::JsonBool(false))])));
    assert_eq!(cursor.position(), 5);
}
