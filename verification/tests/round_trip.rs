use json_parser::{lex, parse, Cursor, JsonValue, Number, ObjectMap};

fn read(text: &str) -> JsonValue {
    let tokens = lex(text.to_string()).expect("the text lexes");
    let mut cursor = Cursor::new(&tokens);
    let value = parse(&mut cursor).expect("the tokens parse");
    assert_eq!(cursor.position(), tokens.len());
    value
}

fn write(v: &JsonValue) -> String {
    match v {
        JsonValue::JsonString(s) => format!("\"{}\"", s),
        JsonValue::JsonNumber(n) => n.literal.clone(),
        JsonValue::JsonBool(true) => "true".to_string(),
        JsonValue::JsonBool(false) => "false".to_string(),
        JsonValue::JsonNull => "null".to_string(),
        JsonValue::JsonObject(members) => {
            let parts: Vec<String> =
                members.entries.iter().map(|(k, v)| format!("\"{}\":{}", k, write(v))).collect();
            format!("{{{}}}", parts.join(","))
        }
        JsonValue::JsonArray(items) => {
            let parts: Vec<String> = items.iter().map(write).collect();
            format!("[{}]", parts.join(","))
        }
    }
}

fn object(members: Vec<(&str, JsonValue)>) -> JsonValue {
    JsonValue::JsonObject(ObjectMap {
        entries: members.into_iter().map(|(k, v)| (k.to_string(), v)).collect(),
    })
}

fn number(text: &str) -> JsonValue {
    JsonValue::JsonNumber(Number { literal: text.to_string() })
}

#[test]
fn scalar_texts_read_back() {
    for value in [
        JsonValue::JsonString("plain text".to_string()),
        JsonValue::JsonString(String::new()),
        JsonValue::JsonString("back\\slash and {braces}".to_string()),
        number("0"),
        number("-12"),
        number("3.25"),
        number("-0.5"),
        JsonValue::JsonBool(true),
        JsonValue::JsonBool(false),
        JsonValue::JsonNull,
    ] {
        assert_eq!(read(&write(&value)), value);
    }
}

#[test]
fn composite_texts_read_back() {
    for value in [
        object(vec![]),
        JsonValue::JsonArray(vec![]),
        object(vec![("a", number("1")), ("b", JsonValue::JsonString("two".to_string()))]),
        JsonValue::JsonArray(vec![object(vec![("x", number("1"))]), object(vec![])]),
        object(vec![
            ("list", JsonValue::JsonArray(vec![object(vec![("deep", JsonValue::JsonNull)])])),
            ("inner", object(vec![("flag", JsonValue::JsonBool(false))])),
            ("n", number("-7.5")),
        ]),
    ] {
        assert_eq!(read(&write(&value)), value);
    }
}

#[test]
fn writing_what_was_read_and_reading_again_changes_nothing() {
    for text in [
        "{ \"a\" : 1 , \"b\" : [ { \"c\" : true } , { } ] }",
        "[\n{\"k\":\"v\"}\n,\n{\"k\":null}\n]",
        "{\"a\":1,\"a\":2,\"b\" 5,\"c\":{\"d\":-0.25}}",
        "\"just a string\"",
        "17",
        "",
    ] {
        let first = read(text);
        let second = read(&write(&first));
        assert_eq!(second, first);
        assert_eq!(write(&second), write(&first));
    }
}

#[test]
fn object_map_insert_and_get() {
    let mut members = ObjectMap::new();
    assert_eq!(members.get("a"), None);
    members.insert("a".to_string(), number("1"));
    members.insert("b".to_string(), JsonValue::JsonNull);
    assert_eq!(members.get("a"), Some(&number("1")));
    assert_eq!(members.get("b"), Some(&JsonValue::JsonNull));
    assert_eq!(members.get("c"), None);
    members.insert("a".to_string(), JsonValue::JsonBool(true));
    assert_eq!(members.get("a"), Some(&JsonValue::JsonBool(true)));
    assert_eq!(members.entries.len(), 2);
    assert_eq!(members.entries[0].0, "a");
    assert_eq!(members.entries[1].0, "b");
    assert_eq!(members.get(""), None);
    members.insert(String::new(), number("0"));
    assert_eq!(members.get(""), Some(&number("0")));
}

#[test]
fn object_map_with_a_repeated_key_reads_the_last() {
    let mut members = ObjectMap {
        entries: vec![
            ("a".to_string(), number("1")),
            ("b".to_string(), number("2")),
            ("a".to_string(), number("3")),
        ],
    };
    assert_eq!(members.get("a"), Some(&number("3")));
    members.insert("a".to_string(), number("4"));
    assert_eq!(members.get("a"), Some(&number("4")));
    assert_eq!(
        members.entries,
        vec![
            ("a".to_string(), number("1")),
            ("b".to_string(), number("2")),
            ("a".to_string(), number("4")),
        ]
    );
}
