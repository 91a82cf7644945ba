//! The parser: recursive descent over a cursor on the tokens.
use vstd::prelude::*;
use crate::cursor::{left, Cursor};
use crate::error::{structural, StructuralError, StructuralErrorKind};
use crate::token::{all_well_spelled, lexemes, Lexeme, Number, Token};
use crate::value::{
    items_renderable, jsons_of, lemma_written_renderable, members_renderable, renderable, Json,
    JsonValue, ObjectMap,
};

verus! {

/// The outcome of parsing from some index on: the value and the number of
/// tokens that belong to it, or the error.
pub type Parsed = Result<(Json, nat), StructuralError>;

/// The outcome `outcome` of parsing that began `before` tokens later: the
/// same value, with those tokens counted in.
pub open spec fn after(before: nat, outcome: Parsed) -> Parsed {
    match outcome {
        Ok((value, n)) => Ok((value, before + n)),
        Err(e) => Err(e),
    }
}

/// The value that begins at index `pos`, inside an object or an array: there
/// the end of the tokens is an error.
pub open spec fn value_at(tokens: Seq<Lexeme>, pos: int) -> Parsed
    decreases left(tokens.len(), pos),
{
    if 0 <= pos < tokens.len() {
        match tokens[pos] {
            Lexeme::Text(s) => Ok((Json::Text(s), 1)),
            Lexeme::Number(n) => Ok((Json::Number(n), 1)),
            Lexeme::True => Ok((Json::Bool(true), 1)),
            Lexeme::False => Ok((Json::Bool(false), 1)),
            Lexeme::Null => Ok((Json::Null, 1)),
            Lexeme::LeftBrace => after(1, object_from(tokens, pos + 1, Map::empty())),
            Lexeme::LeftBracket => after(1, array_from(tokens, pos + 1, Seq::empty())),
            _ => Err(structural(StructuralErrorKind::ValueExpected, pos)),
        }
    } else {
        Err(structural(StructuralErrorKind::UnexpectedEnd, tokens.len() as int))
    }
}

/// The rest of an object from index `pos` on, where `members` were found
/// before: up to and with the closing brace.
///
/// A key with a colon behind it takes the value that follows, and is written
/// over an earlier member with that key. A key with another token behind it
/// is dropped together with that token. A comma must have a key behind it.
/// Any other token is passed over.
pub open spec fn object_from(tokens: Seq<Lexeme>, pos: int, members: Map<Seq<char>, Json>) -> Parsed
    decreases left(tokens.len(), pos),
{
    if 0 <= pos < tokens.len() {
        match tokens[pos] {
            Lexeme::RightBrace => Ok((Json::Object(members), 1)),
            Lexeme::Text(key) => {
                if pos + 1 >= tokens.len() {
                    Err(structural(StructuralErrorKind::UnexpectedEnd, tokens.len() as int))
                } else if tokens[pos + 1] == Lexeme::Colon {
                    match value_at(tokens, pos + 2) {
                        Ok((value, n)) => after(
                            2 + n,
                            object_from(tokens, pos + 2 + n, members.insert(key, value)),
                        ),
                        Err(e) => Err(e),
                    }
                } else {
                    after(2, object_from(tokens, pos + 2, members))
                }
            },
            Lexeme::Comma => {
                if pos + 1 >= tokens.len() {
                    Err(structural(StructuralErrorKind::UnexpectedEnd, tokens.len() as int))
                } else if tokens[pos + 1] is Text {
                    after(1, object_from(tokens, pos + 1, members))
                } else {
                    Err(structural(StructuralErrorKind::KeyExpected, pos + 1))
                }
            },
            _ => after(1, object_from(tokens, pos + 1, members)),
        }
    } else {
        Err(structural(StructuralErrorKind::UnexpectedEnd, tokens.len() as int))
    }
}

/// The rest of an array from index `pos` on, where `items` were found
/// before: up to and with the closing bracket.
///
/// Only objects are items. A comma must have the opening brace of an object
/// behind it. Any other token is an error.
pub open spec fn array_from(tokens: Seq<Lexeme>, pos: int, items: Seq<Json>) -> Parsed
    decreases left(tokens.len(), pos),
{
    if 0 <= pos < tokens.len() {
        match tokens[pos] {
            Lexeme::RightBracket => Ok((Json::Array(items), 1)),
            Lexeme::LeftBrace => {
                match object_from(tokens, pos + 1, Map::empty()) {
                    Ok((object, n)) => after(
                        1 + n,
                        array_from(tokens, pos + 1 + n, items.push(object)),
                    ),
                    Err(e) => Err(e),
                }
            },
            Lexeme::Comma => {
                if pos + 1 >= tokens.len() {
                    Err(structural(StructuralErrorKind::UnexpectedEnd, tokens.len() as int))
                } else if tokens[pos + 1] == Lexeme::LeftBrace {
                    after(1, array_from(tokens, pos + 1, items))
                } else {
                    Err(structural(StructuralErrorKind::ObjectExpected, pos + 1))
                }
            },
            _ => Err(structural(StructuralErrorKind::UnexpectedInArray, pos)),
        }
    } else {
        Err(structural(StructuralErrorKind::UnexpectedEnd, tokens.len() as int))
    }
}

/// The document that begins at index `pos`: null where no token is left,
/// else the value there.
pub open spec fn document_at(tokens: Seq<Lexeme>, pos: int) -> Parsed {
    if pos >= tokens.len() {
        Ok((Json::Null, 0))
    } else {
        value_at(tokens, pos)
    }
}

/// The `n` tokens from index `pos` on lie inside the tokens, are at least
/// one, and end with `closing`.
pub open spec fn closed_by(tokens: Seq<Lexeme>, pos: int, n: nat, closing: Lexeme) -> bool {
    &&& 0 <= pos
    &&& n >= 1
    &&& pos + n <= tokens.len()
    &&& tokens[pos + n - 1] == closing
}

/// Every value that is parsed takes at least one token and no token past
/// the end. An object is returned only closed, its last token the closing
/// brace, and an array only with the closing bracket as its last token; any
/// other value is one token.
pub proof fn lemma_value_closed(tokens: Seq<Lexeme>, pos: int)
    ensures
        value_at(tokens, pos) matches Ok((value, n)) ==> {
            &&& 0 <= pos < tokens.len()
            &&& n >= 1
            &&& pos + n <= tokens.len()
            &&& tokens[pos] == Lexeme::LeftBrace ==> value is Object && closed_by(
                tokens,
                pos,
                n,
                Lexeme::RightBrace,
            )
            &&& tokens[pos] == Lexeme::LeftBracket ==> value is Array && closed_by(
                tokens,
                pos,
                n,
                Lexeme::RightBracket,
            )
            &&& tokens[pos] != Lexeme::LeftBrace && tokens[pos] != Lexeme::LeftBracket ==> n == 1
                && !(value is Object) && !(value is Array)
        },
    decreases left(tokens.len(), pos),
{
    if 0 <= pos < tokens.len() {
        match tokens[pos] {
            Lexeme::LeftBrace => {
                lemma_object_closed(tokens, pos + 1, Map::empty());
            },
            Lexeme::LeftBracket => {
                lemma_array_closed(tokens, pos + 1, Seq::empty());
            },
            _ => {},
        }
    }
}

/// The rest of an object, where it is parsed, is an object and ends with
/// the closing brace.
pub proof fn lemma_object_closed(tokens: Seq<Lexeme>, pos: int, members: Map<Seq<char>, Json>)
    ensures
        object_from(tokens, pos, members) matches Ok((value, n)) ==> value is Object && closed_by(
            tokens,
            pos,
            n,
            Lexeme::RightBrace,
        ),
    decreases left(tokens.len(), pos),
{
    if 0 <= pos < tokens.len() {
        match tokens[pos] {
            Lexeme::RightBrace => {},
            Lexeme::Text(key) => {
                if pos + 1 < tokens.len() {
                    if tokens[pos + 1] == Lexeme::Colon {
                        lemma_value_closed(tokens, pos + 2);
                        if let Ok((value, n)) = value_at(tokens, pos + 2) {
                            lemma_object_closed(tokens, pos + 2 + n, members.insert(key, value));
                        }
                    } else {
                        lemma_object_closed(tokens, pos + 2, members);
                    }
                }
            },
            _ => {
                lemma_object_closed(tokens, pos + 1, members);
            },
        }
    }
}

/// The rest of an array, where it is parsed, is an array of objects and
/// ends with the closing bracket.
pub proof fn lemma_array_closed(tokens: Seq<Lexeme>, pos: int, items: Seq<Json>)
    requires
        forall|i: int| 0 <= i < items.len() ==> (#[trigger] items[i]) is Object,
    ensures
        array_from(tokens, pos, items) matches Ok((value, n)) ==> {
            &&& value matches Json::Array(all)
            &&& forall|i: int| 0 <= i < all.len() ==> (#[trigger] all[i]) is Object
            &&& closed_by(tokens, pos, n, Lexeme::RightBracket)
        },
    decreases left(tokens.len(), pos),
{
    if 0 <= pos < tokens.len() {
        match tokens[pos] {
            Lexeme::LeftBrace => {
                lemma_object_closed(tokens, pos + 1, Map::empty());
                if let Ok((object, n)) = object_from(tokens, pos + 1, Map::empty()) {
                    let more = items.push(object);
                    assert forall|i: int| 0 <= i < more.len() implies (#[trigger] more[i]) is Object by {
                        if i < items.len() {
                            assert(more[i] == items[i]);
                        }
                    }
                    lemma_array_closed(tokens, pos + 1 + n, more);
                }
            },
            Lexeme::Comma => {
                if pos + 1 < tokens.len() && tokens[pos + 1] == Lexeme::LeftBrace {
                    lemma_array_closed(tokens, pos + 1, items);
                }
            },
            _ => {},
        }
    }
}

/// The result `r` and the cursor's move from `start` to `end` are what
/// `outcome` says: on success a value without a repeated key that stands for
/// the outcome's, as many tokens on; on failure the same error, with the
/// cursor where the error is.
pub open spec fn parsed_as(
    outcome: Parsed,
    r: Result<JsonValue, StructuralError>,
    start: int,
    end: int,
) -> bool {
    match outcome {
        Ok((value, n)) => {
            &&& r matches Ok(v)
            &&& v@ == value
            &&& v.wf()
            &&& end == start + n
        },
        Err(e) => r == Err::<JsonValue, StructuralError>(e) && end == e.at,
    }
}

/// Parses the value at the cursor, inside an object or an array, and moves
/// the cursor past exactly the tokens of that value. A token that starts no
/// value is an error, and so is the end of the tokens. On an error the cursor
/// stays at the token that the error names.
pub fn parse_value<'a>(cursor: &mut Cursor<'a, Token>) -> (r: Result<JsonValue, StructuralError>)
    ensures
        final(cursor).items() == old(cursor).items(),
        old(cursor).index() <= final(cursor).index() <= old(cursor).items().len(),
        parsed_as(
            value_at(lexemes(old(cursor).items()), old(cursor).index()),
            r,
            old(cursor).index(),
            final(cursor).index(),
        ),
        all_well_spelled(lexemes(old(cursor).items())) ==> (r matches Ok(v) ==> renderable(v)),
    decreases old(cursor).items().len() - old(cursor).index(),
{
    let at = cursor.position();
    match cursor.peek() {
        None => Err(StructuralError { kind: StructuralErrorKind::UnexpectedEnd, at }),
        Some(token) => {
            assert(lexemes(cursor.items())[at as int] == token@);
            match token {
                Token::TokenString(s) => {
                    cursor.next();
                    Ok(JsonValue::JsonString(s.clone()))
                },
                Token::TokenNumber(n) => {
                    cursor.next();
                    Ok(JsonValue::JsonNumber(Number { literal: n.literal.clone() }))
                },
                Token::TokenTrue => {
                    cursor.next();
                    Ok(JsonValue::JsonBool(true))
                },
                Token::TokenFalse => {
                    cursor.next();
                    Ok(JsonValue::JsonBool(false))
                },
                Token::TokenNull => {
                    cursor.next();
                    Ok(JsonValue::JsonNull)
                },
                Token::LeftBrace => {
                    cursor.next();
                    parse_object(cursor)
                },
                Token::LeftBracket => {
                    cursor.next();
                    parse_array(cursor)
                },
                _ => Err(StructuralError { kind: StructuralErrorKind::ValueExpected, at }),
            }
        },
    }
}

/// Parses an object whose opening brace has been consumed, through its
/// closing brace.
///
/// The object is lenient where `object_from` says so: a key that has no
/// colon behind it is dropped with the token behind it, and a token that is
/// neither key, comma nor closing brace is passed over; neither is an error.
/// Tokens that end before the closing brace are an error.
pub fn parse_object<'a>(cursor: &mut Cursor<'a, Token>) -> (r: Result<JsonValue, StructuralError>)
    ensures
        final(cursor).items() == old(cursor).items(),
        old(cursor).index() <= final(cursor).index() <= old(cursor).items().len(),
        parsed_as(
            object_from(lexemes(old(cursor).items()), old(cursor).index(), Map::empty()),
            r,
            old(cursor).index(),
            final(cursor).index(),
        ),
        r matches Ok(v) ==> v is JsonObject,
        all_well_spelled(lexemes(old(cursor).items())) ==> (r matches Ok(v) ==> renderable(v)),
    decreases old(cursor).items().len() - old(cursor).index(),
{
    let ghost tokens = lexemes(cursor.items());
    let ghost start = cursor.index();
    let mut entries = ObjectMap::new();
    loop
        invariant
            tokens == lexemes(old(cursor).items()),
            start == old(cursor).index(),
            cursor.items() == old(cursor).items(),
            start <= cursor.index(),
            entries.wf(),
            all_well_spelled(tokens) ==> members_renderable(entries.entries@),
            object_from(tokens, start, Map::empty()) == after(
                (cursor.index() - start) as nat,
                object_from(tokens, cursor.index(), entries@),
            ),
        decreases left(tokens.len(), cursor.index()),
    {
        let at = cursor.position();
        match cursor.next() {
            None => {
                return Err(StructuralError { kind: StructuralErrorKind::UnexpectedEnd, at });
            },
            Some(token) => {
                match token {
                    Token::RightBrace => {
                        return Ok(JsonValue::JsonObject(entries));
                    },
                    Token::TokenString(key) => {
                        let behind = cursor.position();
                        match cursor.next() {
                            None => {
                                return Err(
                                    StructuralError {
                                        kind: StructuralErrorKind::UnexpectedEnd,
                                        at: behind,
                                    },
                                );
                            },
                            Some(separator) => {
                                match separator {
                                    Token::SemiColon => {
                                        match parse_value(cursor) {
                                            Ok(value) => {
                                                let ghost before = entries.entries@;
                                                let name = key.clone();
                                                let ghost member = (name, value);
                                                entries.insert(name, value);
                                                proof {
                                                    assert(tokens[at as int] == token@);
                                                    if all_well_spelled(tokens) {
                                                        lemma_written_renderable(
                                                            before,
                                                            member,
                                                            entries.entries@,
                                                        );
                                                    }
                                                }
                                            },
                                            Err(e) => {
                                                return Err(e);
                                            },
                                        }
                                    },
                                    _ => {},
                                }
                            },
                        }
                    },
                    Token::Comma => {
                        let behind = cursor.position();
                        match cursor.peek() {
                            None => {
                                return Err(
                                    StructuralError {
                                        kind: StructuralErrorKind::UnexpectedEnd,
                                        at: behind,
                                    },
                                );
                            },
                            Some(following) => {
                                match following {
                                    Token::TokenString(_) => {},
                                    _ => {
                                        return Err(
                                            StructuralError {
                                                kind: StructuralErrorKind::KeyExpected,
                                                at: behind,
                                            },
                                        );
                                    },
                                }
                            },
                        }
                    },
                    _ => {},
                }
            },
        }
    }
}

/// Parses an array whose opening bracket has been consumed, through its
/// closing bracket.
///
/// Only objects are accepted as items: a scalar or an array as an item is an
/// error, and so are tokens that end before the closing bracket.
pub fn parse_array<'a>(cursor: &mut Cursor<'a, Token>) -> (r: Result<JsonValue, StructuralError>)
    ensures
        final(cursor).items() == old(cursor).items(),
        old(cursor).index() <= final(cursor).index() <= old(cursor).items().len(),
        parsed_as(
            array_from(lexemes(old(cursor).items()), old(cursor).index(), Seq::empty()),
            r,
            old(cursor).index(),
            final(cursor).index(),
        ),
        r matches Ok(v) ==> v is JsonArray,
        all_well_spelled(lexemes(old(cursor).items())) ==> (r matches Ok(v) ==> renderable(v)),
    decreases old(cursor).items().len() - old(cursor).index(),
{
    let ghost tokens = lexemes(cursor.items());
    let ghost start = cursor.index();
    let mut items: Vec<JsonValue> = Vec::new();
    assert(jsons_of(items@) =~= Seq::<Json>::empty());
    loop
        invariant
            tokens == lexemes(old(cursor).items()),
            start == old(cursor).index(),
            cursor.items() == old(cursor).items(),
            start <= cursor.index(),
            forall|i: int| 0 <= i < items@.len() ==> (#[trigger] items@[i]).wf(),
            all_well_spelled(tokens) ==> items_renderable(items@),
            array_from(tokens, start, Seq::empty()) == after(
                (cursor.index() - start) as nat,
                array_from(tokens, cursor.index(), jsons_of(items@)),
            ),
        decreases left(tokens.len(), cursor.index()),
    {
        let at = cursor.position();
        match cursor.peek() {
            None => {
                return Err(StructuralError { kind: StructuralErrorKind::UnexpectedEnd, at });
            },
            Some(token) => {
                match token {
                    Token::RightBracket => {
                        cursor.next();
                        return Ok(JsonValue::JsonArray(items));
                    },
                    Token::LeftBrace => {
                        cursor.next();
                        match parse_object(cursor) {
                            Ok(object) => {
                                let ghost before = items@;
                                assert(jsons_of(before.push(object)) =~= jsons_of(before).push(
                                    object@,
                                ));
                                assert(object is JsonObject);
                                items.push(object);
                                proof {
                                    let now = items@;
                                    assert forall|i: int| 0 <= i < now.len() implies (
                                    #[trigger] now[i]).wf() by {
                                        if i < before.len() {
                                            assert(now[i] == before[i]);
                                        }
                                    }
                                    if all_well_spelled(tokens) {
                                        assert forall|i: int| 0 <= i < now.len() implies (
                                        #[trigger] now[i]) is JsonObject && renderable(now[i]) by {
                                            if i < before.len() {
                                                assert(now[i] == before[i]);
                                            }
                                        }
                                    }
                                }
                            },
                            Err(e) => {
                                return Err(e);
                            },
                        }
                    },
                    Token::Comma => {
                        cursor.next();
                        let behind = cursor.position();
                        match cursor.peek() {
                            None => {
                                return Err(
                                    StructuralError {
                                        kind: StructuralErrorKind::UnexpectedEnd,
                                        at: behind,
                                    },
                                );
                            },
                            Some(following) => {
                                match following {
                                    Token::LeftBrace => {},
                                    _ => {
                                        return Err(
                                            StructuralError {
                                                kind: StructuralErrorKind::ObjectExpected,
                                                at: behind,
                                            },
                                        );
                                    },
                                }
                            },
                        }
                    },
                    _ => {
                        return Err(
                            StructuralError { kind: StructuralErrorKind::UnexpectedInArray, at },
                        );
                    },
                }
            },
        }
    }
}

/// Parses the document at the cursor: null where no token is left, else the
/// value there. Moves the cursor past exactly the tokens of that value.
pub fn parse<'a>(cursor: &mut Cursor<'a, Token>) -> (r: Result<JsonValue, StructuralError>)
    ensures
        final(cursor).items() == old(cursor).items(),
        old(cursor).index() <= final(cursor).index() <= old(cursor).items().len(),
        parsed_as(
            document_at(lexemes(old(cursor).items()), old(cursor).index()),
            r,
            old(cursor).index(),
            final(cursor).index(),
        ),
        all_well_spelled(lexemes(old(cursor).items())) ==> (r matches Ok(v) ==> renderable(v)),
{
    if cursor.peek().is_none() {
        Ok(JsonValue::JsonNull)
    } else {
        parse_value(cursor)
    }
}

} // verus!
