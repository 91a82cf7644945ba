//! The text of a value, and the laws that tie it to the lexer and the
//! parser: reading the text of a value gives that value back.
use vstd::prelude::*;
use crate::error::{LexicalError, StructuralError};
use crate::cursor::{lemma_occurs_at_concat, occurs_at};
use crate::lexer::{
    followed_by, lemma_agreement, lex_from, lex_text, number_ends, number_run, scan, unquoted_len,
    Scan,
};
use crate::parser::{after, array_from, document_at, object_from, value_at, Parsed};
use crate::token::{has_no_quote, is_digit, is_number_literal, Lexeme};
use crate::value::{
    is_scalar, items_renderable, json_of, jsons_of, members_map, members_renderable, renderable,
    Json, JsonValue, ObjectMap,
};

verus! {

/// `s` between double quotes.
pub open spec fn quoted(s: Seq<char>) -> Seq<char> {
    seq!['"'] + s + seq!['"']
}

/// The text of a value: strings in quotes with nothing escaped, numbers as
/// they are spelled, members and items separated by commas, and no blanks.
pub open spec fn render(v: JsonValue) -> Seq<char>
    decreases v, 0int,
{
    match v {
        JsonValue::JsonString(s) => quoted(s@),
        JsonValue::JsonNumber(n) => n.literal@,
        JsonValue::JsonBool(b) => if b {
            seq!['t', 'r', 'u', 'e']
        } else {
            seq!['f', 'a', 'l', 's', 'e']
        },
        JsonValue::JsonNull => seq!['n', 'u', 'l', 'l'],
        JsonValue::JsonObject(m) => seq!['{'] + render_members(m.entries@) + seq!['}'],
        JsonValue::JsonArray(items) => seq!['['] + render_items(items@) + seq![']'],
    }
}

/// The text of one member of an object: its key in quotes, a colon, and the
/// text of its value.
pub open spec fn render_member(member: (String, JsonValue)) -> Seq<char>
    decreases member, 0int,
{
    quoted(member.0@) + seq![':'] + render(member.1)
}

/// The text of the members of an object, without the braces.
pub open spec fn render_members(entries: Seq<(String, JsonValue)>) -> Seq<char>
    decreases entries, 1int,
{
    if entries.len() == 0 {
        Seq::empty()
    } else if entries.len() == 1 {
        render_member(entries.last())
    } else {
        render_members(entries.drop_last()) + seq![','] + render_member(entries.last())
    }
}

/// The text of the items of an array, without the brackets.
pub open spec fn render_items(items: Seq<JsonValue>) -> Seq<char>
    decreases items, 1int,
{
    if items.len() == 0 {
        Seq::empty()
    } else if items.len() == 1 {
        render(items.last())
    } else {
        render_items(items.drop_last()) + seq![','] + render(items.last())
    }
}

/// The tokens that the text of a value is made of.
pub open spec fn tokens_of(v: JsonValue) -> Seq<Lexeme>
    decreases v, 0int,
{
    match v {
        JsonValue::JsonString(s) => seq![Lexeme::Text(s@)],
        JsonValue::JsonNumber(n) => seq![Lexeme::Number(n.literal@)],
        JsonValue::JsonBool(b) => if b {
            seq![Lexeme::True]
        } else {
            seq![Lexeme::False]
        },
        JsonValue::JsonNull => seq![Lexeme::Null],
        JsonValue::JsonObject(m) => seq![Lexeme::LeftBrace] + member_tokens(m.entries@)
            + seq![Lexeme::RightBrace],
        JsonValue::JsonArray(items) => seq![Lexeme::LeftBracket] + item_tokens(items@)
            + seq![Lexeme::RightBracket],
    }
}

/// The tokens of one member of an object.
pub open spec fn one_member_tokens(member: (String, JsonValue)) -> Seq<Lexeme>
    decreases member, 0int,
{
    seq![Lexeme::Text(member.0@), Lexeme::Colon] + tokens_of(member.1)
}

/// The tokens of the members of an object, without the braces.
pub open spec fn member_tokens(entries: Seq<(String, JsonValue)>) -> Seq<Lexeme>
    decreases entries, 1int,
{
    if entries.len() == 0 {
        Seq::empty()
    } else if entries.len() == 1 {
        one_member_tokens(entries.last())
    } else {
        member_tokens(entries.drop_last()) + seq![Lexeme::Comma] + one_member_tokens(entries.last())
    }
}

/// The tokens of the items of an array, without the brackets.
pub open spec fn item_tokens(items: Seq<JsonValue>) -> Seq<Lexeme>
    decreases items, 1int,
{
    if items.len() == 0 {
        Seq::empty()
    } else if items.len() == 1 {
        tokens_of(items.last())
    } else {
        item_tokens(items.drop_last()) + seq![Lexeme::Comma] + tokens_of(items.last())
    }
}

/// Tokens before tokens before an outcome are their concatenation before it.
pub proof fn lemma_followed_by_concat(
    a: Seq<Lexeme>,
    b: Seq<Lexeme>,
    rest: Result<Seq<Lexeme>, LexicalError>,
)
    ensures
        followed_by(a, followed_by(b, rest)) == followed_by(a + b, rest),
{
    if let Ok(more) = rest {
        assert(a + (b + more) =~= (a + b) + more);
    }
}

proof fn lemma_unquoted_len(text: Seq<char>, from: int, n: nat)
    requires
        0 <= from,
        from + n < text.len(),
        forall|k: int| from <= k < from + n ==> (#[trigger] text[k]) != '"',
        text[from + n] == '"',
    ensures
        unquoted_len(text, from) == n,
    decreases n,
{
    if n > 0 {
        lemma_unquoted_len(text, from + 1, (n - 1) as nat);
    }
}

proof fn lemma_number_run(text: Seq<char>, from: int, n: nat, seen: bool)
    requires
        0 <= from,
        from + n <= text.len(),
        forall|k: int| from <= k < from + n ==> is_digit(#[trigger] text[k]) || text[k] == '.',
        forall|i: int, j: int|
            from <= i < j < from + n ==> !(#[trigger] text[i] == '.' && #[trigger] text[j] == '.'),
        seen ==> forall|k: int| from <= k < from + n ==> (#[trigger] text[k]) != '.',
        number_ends(text, from + n),
    ensures
        number_run(text, from, seen) == Ok::<nat, LexicalError>(n),
    decreases n,
{
    if n > 0 {
        assert(is_digit(text[from]) || text[from] == '.');
        let seen_after = seen || text[from] == '.';
        lemma_number_run(text, from + 1, (n - 1) as nat, seen_after);
    }
}

/// A string literal without a quote inside is scanned as one token.
pub proof fn lemma_scan_string(text: Seq<char>, pos: int, s: Seq<char>)
    requires
        occurs_at(text, pos, quoted(s)),
        has_no_quote(s),
    ensures
        scan(text, pos) == Ok::<Scan, LexicalError>(
            Scan { token: Some(Lexeme::Text(s)), len: s.len() + 2 },
        ),
{
    let q = quoted(s);
    assert(q.len() == s.len() + 2);
    assert(q[0] == '"');
    assert(q[s.len() as int + 1] == '"');
    assert forall|k: int| pos + 1 <= k < pos + 1 + s.len() implies (#[trigger] text[k]) != '"' by {
        assert(q[k - pos] == s[k - pos - 1]);
    }
    lemma_unquoted_len(text, pos + 1, s.len());
    assert(text.subrange(pos + 1, pos + 1 + s.len()) =~= s) by {
        assert forall|k: int| 0 <= k < s.len() implies text[pos + 1 + k] == s[k] by {
            assert(q[k + 1] == s[k]);
        }
    }
}

/// The spelling of a number, with no digit or point behind it, is scanned
/// as one token.
pub proof fn lemma_scan_number(text: Seq<char>, pos: int, literal: Seq<char>)
    requires
        occurs_at(text, pos, literal),
        is_number_literal(literal),
        number_ends(text, pos + literal.len()),
    ensures
        scan(text, pos) == Ok::<Scan, LexicalError>(
            Scan { token: Some(Lexeme::Number(literal)), len: literal.len() },
        ),
{
    let n = (literal.len() - 1) as nat;
    assert(text[pos] == literal[0]);
    assert forall|k: int| pos + 1 <= k < pos + 1 + n implies is_digit(#[trigger] text[k]) || text[k]
        == '.' by {
        assert(text[k] == literal[k - pos]);
    }
    assert forall|i: int, j: int| pos + 1 <= i < j < pos + 1 + n implies !(#[trigger] text[i] == '.'
        && #[trigger] text[j] == '.') by {
        assert(text[i] == literal[i - pos]);
        assert(text[j] == literal[j - pos]);
    }
    lemma_number_run(text, pos + 1, n, false);
    assert(seq![text[pos]] + text.subrange(pos + 1, pos + 1 + n) =~= literal) by {
        assert forall|k: int| 0 <= k < literal.len() implies text[pos + k] == literal[k] by {}
    }
}

/// The spelling of a keyword constant is scanned as one token.
pub proof fn lemma_scan_constants(text: Seq<char>, pos: int)
    ensures
        occurs_at(text, pos, seq!['n', 'u', 'l', 'l']) ==> scan(text, pos) == Ok::<
            Scan,
            LexicalError,
        >(Scan { token: Some(Lexeme::Null), len: 4 }),
        occurs_at(text, pos, seq!['t', 'r', 'u', 'e']) ==> scan(text, pos) == Ok::<
            Scan,
            LexicalError,
        >(Scan { token: Some(Lexeme::True), len: 4 }),
        occurs_at(text, pos, seq!['f', 'a', 'l', 's', 'e']) ==> scan(text, pos) == Ok::<
            Scan,
            LexicalError,
        >(Scan { token: Some(Lexeme::False), len: 5 }),
{
    let null = seq!['n', 'u', 'l', 'l'];
    if occurs_at(text, pos, null) {
        assert(null =~= seq!['n'] + seq!['u', 'l', 'l']);
        lemma_occurs_at_concat(text, pos, seq!['n'], seq!['u', 'l', 'l']);
        assert(text[pos] == null[0]);
        lemma_agreement(text, pos + 1, seq!['u', 'l', 'l'], 0);
    }
    let yes = seq!['t', 'r', 'u', 'e'];
    if occurs_at(text, pos, yes) {
        assert(yes =~= seq!['t'] + seq!['r', 'u', 'e']);
        lemma_occurs_at_concat(text, pos, seq!['t'], seq!['r', 'u', 'e']);
        assert(text[pos] == yes[0]);
        lemma_agreement(text, pos + 1, seq!['r', 'u', 'e'], 0);
    }
    let no = seq!['f', 'a', 'l', 's', 'e'];
    if occurs_at(text, pos, no) {
        assert(no =~= seq!['f'] + seq!['a', 'l', 's', 'e']);
        lemma_occurs_at_concat(text, pos, seq!['f'], seq!['a', 'l', 's', 'e']);
        assert(text[pos] == no[0]);
        lemma_agreement(text, pos + 1, seq!['a', 'l', 's', 'e'], 0);
    }
}

proof fn lemma_lex_token(text: Seq<char>, pos: int, token: Lexeme, len: nat)
    requires
        0 <= pos < text.len(),
        len >= 1,
        scan(text, pos) == Ok::<Scan, LexicalError>(Scan { token: Some(token), len }),
    ensures
        lex_from(text, pos) == followed_by(seq![token], lex_from(text, pos + len)),
{
}

proof fn lemma_lex_mark(text: Seq<char>, pos: int, mark: char)
    requires
        occurs_at(text, pos, seq![mark]),
    ensures
        text[pos] == mark,
        0 <= pos < text.len(),
{
    assert(seq![mark][0] == mark);
}

/// Where the text of a value stands in a text, with nothing behind it that
/// a number would go on with, lexing from there gives the value's tokens
/// and goes on behind it.
pub proof fn lemma_lex_value(text: Seq<char>, pos: int, v: JsonValue)
    requires
        occurs_at(text, pos, render(v)),
        renderable(v),
        number_ends(text, pos + render(v).len()),
    ensures
        lex_from(text, pos) == followed_by(tokens_of(v), lex_from(text, pos + render(v).len())),
    decreases v, 0int,
{
    match v {
        JsonValue::JsonString(s) => {
            lemma_scan_string(text, pos, s@);
            lemma_lex_token(text, pos, Lexeme::Text(s@), s@.len() + 2);
        },
        JsonValue::JsonNumber(n) => {
            lemma_scan_number(text, pos, n.literal@);
            lemma_lex_token(text, pos, Lexeme::Number(n.literal@), n.literal@.len());
        },
        JsonValue::JsonBool(b) => {
            lemma_scan_constants(text, pos);
            if b {
                lemma_lex_token(text, pos, Lexeme::True, 4);
            } else {
                lemma_lex_token(text, pos, Lexeme::False, 5);
            }
        },
        JsonValue::JsonNull => {
            lemma_scan_constants(text, pos);
            lemma_lex_token(text, pos, Lexeme::Null, 4);
        },
        JsonValue::JsonObject(m) => {
            let body = render_members(m.entries@);
            let inner = member_tokens(m.entries@);
            let end = pos + 1 + body.len();
            lemma_occurs_at_concat(text, pos, seq!['{'] + body, seq!['}']);
            lemma_occurs_at_concat(text, pos, seq!['{'], body);
            lemma_lex_mark(text, pos, '{');
            lemma_lex_mark(text, end, '}');
            lemma_lex_members(text, pos + 1, m.entries@);
            lemma_lex_token(text, pos, Lexeme::LeftBrace, 1);
            lemma_lex_token(text, end, Lexeme::RightBrace, 1);
            let rest = lex_from(text, end + 1);
            lemma_followed_by_concat(inner, seq![Lexeme::RightBrace], rest);
            lemma_followed_by_concat(
                seq![Lexeme::LeftBrace],
                inner + seq![Lexeme::RightBrace],
                rest,
            );
            assert(seq![Lexeme::LeftBrace] + (inner + seq![Lexeme::RightBrace]) =~= tokens_of(v));
        },
        JsonValue::JsonArray(items) => {
            let body = render_items(items@);
            let inner = item_tokens(items@);
            let end = pos + 1 + body.len();
            lemma_occurs_at_concat(text, pos, seq!['['] + body, seq![']']);
            lemma_occurs_at_concat(text, pos, seq!['['], body);
            lemma_lex_mark(text, pos, '[');
            lemma_lex_mark(text, end, ']');
            lemma_lex_items(text, pos + 1, items@);
            lemma_lex_token(text, pos, Lexeme::LeftBracket, 1);
            lemma_lex_token(text, end, Lexeme::RightBracket, 1);
            let rest = lex_from(text, end + 1);
            lemma_followed_by_concat(inner, seq![Lexeme::RightBracket], rest);
            lemma_followed_by_concat(
                seq![Lexeme::LeftBracket],
                inner + seq![Lexeme::RightBracket],
                rest,
            );
            assert(seq![Lexeme::LeftBracket] + (inner + seq![Lexeme::RightBracket]) =~= tokens_of(
                v,
            ));
        },
    }
}

proof fn lemma_lex_member(text: Seq<char>, pos: int, member: (String, JsonValue))
    requires
        occurs_at(text, pos, render_member(member)),
        has_no_quote(member.0@),
        renderable(member.1),
        number_ends(text, pos + render_member(member).len()),
    ensures
        lex_from(text, pos) == followed_by(
            one_member_tokens(member),
            lex_from(text, pos + render_member(member).len()),
        ),
    decreases member, 0int,
{
    let key = member.0@;
    let colon_at = pos + key.len() + 2;
    lemma_occurs_at_concat(text, pos, quoted(key) + seq![':'], render(member.1));
    lemma_occurs_at_concat(text, pos, quoted(key), seq![':']);
    lemma_lex_mark(text, colon_at, ':');
    lemma_scan_string(text, pos, key);
    lemma_lex_token(text, pos, Lexeme::Text(key), key.len() + 2);
    lemma_lex_token(text, colon_at, Lexeme::Colon, 1);
    lemma_lex_value(text, colon_at + 1, member.1);
    let rest = lex_from(text, pos + render_member(member).len());
    lemma_followed_by_concat(seq![Lexeme::Colon], tokens_of(member.1), rest);
    lemma_followed_by_concat(
        seq![Lexeme::Text(key)],
        seq![Lexeme::Colon] + tokens_of(member.1),
        rest,
    );
    assert(seq![Lexeme::Text(key)] + (seq![Lexeme::Colon] + tokens_of(member.1))
        =~= one_member_tokens(member));
}

proof fn lemma_lex_members(text: Seq<char>, pos: int, entries: Seq<(String, JsonValue)>)
    requires
        occurs_at(text, pos, render_members(entries)),
        members_renderable(entries),
        number_ends(text, pos + render_members(entries).len()),
    ensures
        lex_from(text, pos) == followed_by(
            member_tokens(entries),
            lex_from(text, pos + render_members(entries).len()),
        ),
    decreases entries, 1int,
{
    let rest = lex_from(text, pos + render_members(entries).len());
    if entries.len() == 0 {
        if let Ok(more) = rest {
            assert(Seq::<Lexeme>::empty() + more =~= more);
        }
    } else if entries.len() == 1 {
        lemma_lex_member(text, pos, entries.last());
    } else {
        let front = entries.drop_last();
        let last = entries.last();
        let comma_at = pos + render_members(front).len();
        lemma_occurs_at_concat(text, pos, render_members(front) + seq![','], render_member(last));
        lemma_occurs_at_concat(text, pos, render_members(front), seq![',']);
        lemma_lex_mark(text, comma_at, ',');
        assert(members_renderable(front)) by {
            assert forall|i: int| 0 <= i < front.len() implies has_no_quote(
                (#[trigger] front[i]).0@,
            ) && renderable(front[i].1) by {
                assert(front[i] == entries[i]);
            }
        }
        lemma_lex_members(text, pos, front);
        lemma_lex_token(text, comma_at, Lexeme::Comma, 1);
        lemma_lex_member(text, comma_at + 1, last);
        lemma_followed_by_concat(seq![Lexeme::Comma], one_member_tokens(last), rest);
        lemma_followed_by_concat(
            member_tokens(front),
            seq![Lexeme::Comma] + one_member_tokens(last),
            rest,
        );
        assert(member_tokens(front) + (seq![Lexeme::Comma] + one_member_tokens(last))
            =~= member_tokens(entries));
    }
}

proof fn lemma_lex_items(text: Seq<char>, pos: int, items: Seq<JsonValue>)
    requires
        occurs_at(text, pos, render_items(items)),
        items_renderable(items),
        number_ends(text, pos + render_items(items).len()),
    ensures
        lex_from(text, pos) == followed_by(
            item_tokens(items),
            lex_from(text, pos + render_items(items).len()),
        ),
    decreases items, 1int,
{
    let rest = lex_from(text, pos + render_items(items).len());
    if items.len() == 0 {
        if let Ok(more) = rest {
            assert(Seq::<Lexeme>::empty() + more =~= more);
        }
    } else if items.len() == 1 {
        lemma_lex_value(text, pos, items.last());
    } else {
        let front = items.drop_last();
        let last = items.last();
        let comma_at = pos + render_items(front).len();
        lemma_occurs_at_concat(text, pos, render_items(front) + seq![','], render(last));
        lemma_occurs_at_concat(text, pos, render_items(front), seq![',']);
        lemma_lex_mark(text, comma_at, ',');
        assert(items_renderable(front)) by {
            assert forall|i: int| 0 <= i < front.len() implies (#[trigger] front[i]) is JsonObject
                && renderable(front[i]) by {
                assert(front[i] == items[i]);
            }
        }
        lemma_lex_items(text, pos, front);
        lemma_lex_token(text, comma_at, Lexeme::Comma, 1);
        lemma_lex_value(text, comma_at + 1, last);
        lemma_followed_by_concat(seq![Lexeme::Comma], tokens_of(last), rest);
        lemma_followed_by_concat(item_tokens(front), seq![Lexeme::Comma] + tokens_of(last), rest);
        assert(item_tokens(front) + (seq![Lexeme::Comma] + tokens_of(last)) =~= item_tokens(items));
    }
}

/// Lexing the text of a renderable value gives the tokens of the value.
pub proof fn lemma_text_lexes_to_tokens(v: JsonValue)
    requires
        renderable(v),
    ensures
        lex_text(render(v)) == Ok::<Seq<Lexeme>, LexicalError>(tokens_of(v)),
{
    let text = render(v);
    lemma_lex_value(text, 0, v);
    assert(tokens_of(v) + Seq::<Lexeme>::empty() =~= tokens_of(v));
}

proof fn lemma_after_after(a: nat, b: nat, outcome: Parsed)
    ensures
        after(a, after(b, outcome)) == after(a + b, outcome),
{
}

/// Where the tokens of a renderable value stand in a sequence of tokens,
/// the value parsed there is that value, and it takes exactly those tokens.
pub proof fn lemma_parse_value(tokens: Seq<Lexeme>, pos: int, v: JsonValue)
    requires
        occurs_at(tokens, pos, tokens_of(v)),
        renderable(v),
    ensures
        value_at(tokens, pos) == Ok::<(Json, nat), StructuralError>(
            (json_of(v), tokens_of(v).len()),
        ),
    decreases v, 0int,
{
    let own = tokens_of(v);
    assert(own.len() >= 1);
    assert(tokens[pos] == own[0]);
    match v {
        JsonValue::JsonObject(m) => {
            let inner = member_tokens(m.entries@);
            assert(own =~= seq![Lexeme::LeftBrace] + (inner + seq![Lexeme::RightBrace]));
            lemma_occurs_at_concat(
                tokens,
                pos,
                seq![Lexeme::LeftBrace],
                inner + seq![Lexeme::RightBrace],
            );
            lemma_parse_object(tokens, pos + 1, m);
        },
        JsonValue::JsonArray(items) => {
            let inner = item_tokens(items@);
            let end = pos + 1 + inner.len();
            lemma_occurs_at_concat(
                tokens,
                pos,
                seq![Lexeme::LeftBracket] + inner,
                seq![Lexeme::RightBracket],
            );
            lemma_occurs_at_concat(tokens, pos, seq![Lexeme::LeftBracket], inner);
            assert(tokens[end] == seq![Lexeme::RightBracket][0]);
            lemma_parse_items(tokens, pos + 1, items@);
            assert(array_from(tokens, end, jsons_of(items@)) == Ok::<(Json, nat), StructuralError>(
                (Json::Array(jsons_of(items@)), 1),
            ));
        },
        _ => {},
    }
}

proof fn lemma_parse_object(tokens: Seq<Lexeme>, pos: int, m: ObjectMap)
    requires
        occurs_at(tokens, pos, member_tokens(m.entries@) + seq![Lexeme::RightBrace]),
        members_renderable(m.entries@),
    ensures
        object_from(tokens, pos, Map::empty()) == Ok::<(Json, nat), StructuralError>(
            (Json::Object(members_map(m.entries@)), member_tokens(m.entries@).len() + 1),
        ),
    decreases m, 2int,
{
    let inner = member_tokens(m.entries@);
    let end = pos + inner.len();
    lemma_occurs_at_concat(tokens, pos, inner, seq![Lexeme::RightBrace]);
    assert(tokens[end] == seq![Lexeme::RightBrace][0]);
    lemma_parse_members(tokens, pos, m.entries@);
    assert(object_from(tokens, end, members_map(m.entries@)) == Ok::<(Json, nat), StructuralError>(
        (Json::Object(members_map(m.entries@)), 1),
    ));
}

proof fn lemma_parse_members(tokens: Seq<Lexeme>, pos: int, entries: Seq<(String, JsonValue)>)
    requires
        occurs_at(tokens, pos, member_tokens(entries)),
        members_renderable(entries),
    ensures
        object_from(tokens, pos, Map::empty()) == after(
            member_tokens(entries).len(),
            object_from(tokens, pos + member_tokens(entries).len(), members_map(entries)),
        ),
    decreases entries, 1int,
{
    if entries.len() > 0 {
        let front = entries.drop_last();
        let last = entries.last();
        let own = one_member_tokens(last);
        let found = members_map(front);
        let value_len = tokens_of(last.1).len();
        let before: nat = if entries.len() == 1 {
            0
        } else {
            member_tokens(front).len() + 1
        };
        let at = pos + before;
        if entries.len() > 1 {
            let comma_at = pos + member_tokens(front).len();
            lemma_occurs_at_concat(tokens, pos, member_tokens(front) + seq![Lexeme::Comma], own);
            lemma_occurs_at_concat(tokens, pos, member_tokens(front), seq![Lexeme::Comma]);
            assert(tokens[comma_at] == seq![Lexeme::Comma][0]);
            assert(tokens[comma_at + 1] == own[0]);
            assert(members_renderable(front)) by {
                assert forall|i: int| 0 <= i < front.len() implies has_no_quote(
                    (#[trigger] front[i]).0@,
                ) && renderable(front[i].1) by {
                    assert(front[i] == entries[i]);
                }
            }
            lemma_parse_members(tokens, pos, front);
            assert(object_from(tokens, comma_at, found) == after(
                1,
                object_from(tokens, at, found),
            ));
            lemma_after_after(
                member_tokens(front).len(),
                1,
                object_from(tokens, at, found),
            );
        }
        assert(object_from(tokens, pos, Map::empty()) == after(
            before,
            object_from(tokens, at, found),
        ));
        lemma_occurs_at_concat(
            tokens,
            at,
            seq![Lexeme::Text(last.0@), Lexeme::Colon],
            tokens_of(last.1),
        );
        assert(tokens[at] == own[0]);
        assert(tokens[at + 1] == own[1]);
        lemma_parse_value(tokens, at + 2, last.1);
        let next = object_from(tokens, at + 2 + value_len, members_map(entries));
        assert(object_from(tokens, at, found) == after(2 + value_len, next));
        lemma_after_after(before, 2 + value_len, next);
    }
}

proof fn lemma_parse_items(tokens: Seq<Lexeme>, pos: int, items: Seq<JsonValue>)
    requires
        occurs_at(tokens, pos, item_tokens(items)),
        items_renderable(items),
    ensures
        array_from(tokens, pos, Seq::empty()) == after(
            item_tokens(items).len(),
            array_from(tokens, pos + item_tokens(items).len(), jsons_of(items)),
        ),
    decreases items, 1int,
{
    if items.len() == 0 {
        assert(jsons_of(items) =~= Seq::<Json>::empty());
    } else {
        let front = items.drop_last();
        let last = items.last();
        let own = tokens_of(last);
        let found = jsons_of(front);
        let before: nat = if items.len() == 1 {
            0
        } else {
            item_tokens(front).len() + 1
        };
        let at = pos + before;
        assert(last == items[items.len() - 1]);
        let m = last->JsonObject_0;
        let inner = member_tokens(m.entries@);
        assert(own =~= seq![Lexeme::LeftBrace] + (inner + seq![Lexeme::RightBrace]));
        if items.len() == 1 {
            assert(found =~= Seq::<Json>::empty());
        } else {
            let comma_at = pos + item_tokens(front).len();
            lemma_occurs_at_concat(tokens, pos, item_tokens(front) + seq![Lexeme::Comma], own);
            lemma_occurs_at_concat(tokens, pos, item_tokens(front), seq![Lexeme::Comma]);
            assert(tokens[comma_at] == seq![Lexeme::Comma][0]);
            assert(tokens[comma_at + 1] == own[0]);
            assert(items_renderable(front)) by {
                assert forall|i: int| 0 <= i < front.len() implies (#[trigger] front[i]) is JsonObject
                    && renderable(front[i]) by {
                    assert(front[i] == items[i]);
                }
            }
            lemma_parse_items(tokens, pos, front);
            assert(array_from(tokens, comma_at, found) == after(1, array_from(tokens, at, found)));
            lemma_after_after(item_tokens(front).len(), 1, array_from(tokens, at, found));
        }
        assert(array_from(tokens, pos, Seq::empty()) == after(
            before,
            array_from(tokens, at, found),
        ));
        lemma_occurs_at_concat(
            tokens,
            at,
            seq![Lexeme::LeftBrace],
            inner + seq![Lexeme::RightBrace],
        );
        assert(tokens[at] == own[0]);
        lemma_parse_object(tokens, at + 1, m);
        assert(found.push(json_of(last)) =~= jsons_of(items));
        let next = array_from(tokens, at + own.len(), jsons_of(items));
        assert(array_from(tokens, at, found) == after(own.len(), next));
        lemma_after_after(before, own.len(), next);
    }
}

/// Parsing the tokens of a renderable value gives the value, and takes all
/// of them.
pub proof fn lemma_tokens_parse_to_value(v: JsonValue)
    requires
        renderable(v),
    ensures
        document_at(tokens_of(v), 0) == Ok::<(Json, nat), StructuralError>(
            (json_of(v), tokens_of(v).len()),
        ),
{
    lemma_parse_value(tokens_of(v), 0, v);
}

/// Reading the text of `v` gives `v` back: the text lexes, and its tokens
/// parse, all of them, to the value that `v` stands for.
pub open spec fn reads_back(v: JsonValue) -> bool {
    &&& lex_text(render(v)) matches Ok(tokens)
    &&& document_at(tokens, 0) == Ok::<(Json, nat), StructuralError>((json_of(v), tokens.len()))
}

/// The text of a scalar reads back as that scalar: a string without a
/// double quote as the same characters, a number as the same spelling, a
/// boolean and null as themselves.
pub proof fn lemma_scalar_reads_back(v: JsonValue)
    requires
        is_scalar(v),
        renderable(v),
    ensures
        reads_back(v),
{
    lemma_text_lexes_to_tokens(v);
    lemma_tokens_parse_to_value(v);
}

/// The text of an object or an array reads back as an equal value tree,
/// where its strings hold no double quote, its numbers are spelled as
/// numbers and the items of its arrays are objects. So serialising what
/// was parsed and parsing again changes nothing.
pub proof fn lemma_composite_reads_back(v: JsonValue)
    requires
        v is JsonObject || v is JsonArray,
        renderable(v),
    ensures
        reads_back(v),
{
    lemma_text_lexes_to_tokens(v);
    lemma_tokens_parse_to_value(v);
}

} // verus!
