//! The lexer: one scan from left to right with one character of lookahead.
use vstd::prelude::*;
use crate::cursor::{left, occurs_at, Cursor};
use crate::error::{lexical, LexicalError, LexicalErrorKind};
use crate::token::{
    all_well_spelled, has_digit, has_no_quote, is_digit, lexemes, well_spelled, Lexeme, Number,
    Token,
};

verus! {

/// The characters that are skipped between tokens: space and newline only.
pub open spec fn is_blank(c: char) -> bool {
    c == ' ' || c == '\n'
}

/// How many characters of `rest`, from its index `i` on, the text spells out
/// from `from + i` on before it departs from `rest` or ends.
pub open spec fn agreement(text: Seq<char>, from: int, rest: Seq<char>, i: int) -> nat
    decreases rest.len() - i,
{
    if 0 <= i < rest.len() && 0 <= from + i < text.len() && text[from + i] == rest[i] {
        1 + agreement(text, from, rest, i + 1)
    } else {
        0
    }
}

/// Whether the text spells `rest` from `from` on; if not, the error at the
/// first character that differs (or at the end of the text).
pub open spec fn expect_rest(text: Seq<char>, from: int, rest: Seq<char>) -> Result<
    (),
    LexicalError,
> {
    let n = agreement(text, from, rest, 0);
    if n >= rest.len() {
        Ok(())
    } else {
        Err(lexical(LexicalErrorKind::BadConstant { expected: rest[n as int] }, from + n))
    }
}

/// The number of characters from `from` up to the next `"`, or up to the end
/// of the text where there is none.
pub open spec fn unquoted_len(text: Seq<char>, from: int) -> nat
    decreases text.len() - from,
{
    if 0 <= from < text.len() && text[from] != '"' {
        1 + unquoted_len(text, from + 1)
    } else {
        0
    }
}

/// The string literal whose opening quote stands just before `from`: its
/// content and the number of characters it takes from `from` on, closing
/// quote included.
pub open spec fn string_token(text: Seq<char>, from: int) -> Result<
    (Seq<char>, nat),
    LexicalError,
> {
    let n = unquoted_len(text, from);
    if from + n >= text.len() {
        Err(lexical(LexicalErrorKind::UnterminatedString, text.len() as int))
    } else {
        Ok((text.subrange(from, from + n), n + 1))
    }
}

/// The length of the run of digits and decimal points that starts at `from`,
/// or the error at a second decimal point. `seen_point` says whether a point
/// came before `from`.
pub open spec fn number_run(text: Seq<char>, from: int, seen_point: bool) -> Result<
    nat,
    LexicalError,
>
    decreases text.len() - from,
{
    if 0 <= from < text.len() && is_digit(text[from]) {
        match number_run(text, from + 1, seen_point) {
            Ok(n) => Ok(n + 1),
            Err(e) => Err(e),
        }
    } else if 0 <= from < text.len() && text[from] == '.' {
        if seen_point {
            Err(lexical(LexicalErrorKind::SecondDecimalPoint, from))
        } else {
            match number_run(text, from + 1, true) {
                Ok(n) => Ok(n + 1),
                Err(e) => Err(e),
            }
        }
    } else {
        Ok(0)
    }
}

/// `more` characters before a run whose length is `run`.
pub open spec fn lengthened(run: Result<nat, LexicalError>, more: nat) -> Result<nat, LexicalError> {
    match run {
        Ok(n) => Ok(n + more),
        Err(e) => Err(e),
    }
}

/// The number that begins with the character `start` and goes on at `from`:
/// its spelling and the number of characters it takes from `from` on.
pub open spec fn number_token(start: char, text: Seq<char>, from: int) -> Result<
    (Seq<char>, nat),
    LexicalError,
> {
    match number_run(text, from, false) {
        Err(e) => Err(e),
        Ok(n) => {
            let literal = seq![start] + text.subrange(from, from + n);
            if has_digit(literal) {
                Ok((literal, n))
            } else {
                Err(lexical(LexicalErrorKind::NumberWithoutDigits, from + n))
            }
        },
    }
}

/// The text at `pos` is not one that a number would go on with.
pub open spec fn number_ends(text: Seq<char>, pos: int) -> bool {
    pos >= text.len() || !(is_digit(text[pos]) || text[pos] == '.')
}

/// One step of the lexer: the token found, if any, and the number of
/// characters it spans.
pub ghost struct Scan {
    pub token: Option<Lexeme>,
    pub len: nat,
}

/// The step for a keyword constant whose first character stands just before
/// `from` and whose other characters are `rest`.
pub open spec fn constant_scan(text: Seq<char>, from: int, rest: Seq<char>, lexeme: Lexeme) -> Result<
    Scan,
    LexicalError,
> {
    match expect_rest(text, from, rest) {
        Ok(_) => Ok(Scan { token: Some(lexeme), len: 1 + rest.len() }),
        Err(e) => Err(e),
    }
}

/// The step of the lexer at index `pos` of the text.
pub open spec fn scan(text: Seq<char>, pos: int) -> Result<Scan, LexicalError> {
    let c = text[pos];
    if c == '{' {
        Ok(Scan { token: Some(Lexeme::LeftBrace), len: 1 })
    } else if c == '}' {
        Ok(Scan { token: Some(Lexeme::RightBrace), len: 1 })
    } else if c == '[' {
        Ok(Scan { token: Some(Lexeme::LeftBracket), len: 1 })
    } else if c == ']' {
        Ok(Scan { token: Some(Lexeme::RightBracket), len: 1 })
    } else if c == ':' {
        Ok(Scan { token: Some(Lexeme::Colon), len: 1 })
    } else if c == ',' {
        Ok(Scan { token: Some(Lexeme::Comma), len: 1 })
    } else if is_blank(c) {
        Ok(Scan { token: None, len: 1 })
    } else if c == '"' {
        match string_token(text, pos + 1) {
            Ok((content, n)) => Ok(Scan { token: Some(Lexeme::Text(content)), len: 1 + n }),
            Err(e) => Err(e),
        }
    } else if c == 'n' {
        constant_scan(text, pos + 1, seq!['u', 'l', 'l'], Lexeme::Null)
    } else if c == 't' {
        constant_scan(text, pos + 1, seq!['r', 'u', 'e'], Lexeme::True)
    } else if c == 'f' {
        constant_scan(text, pos + 1, seq!['a', 'l', 's', 'e'], Lexeme::False)
    } else if is_digit(c) || c == '-' {
        match number_token(c, text, pos + 1) {
            Ok((literal, n)) => Ok(Scan { token: Some(Lexeme::Number(literal)), len: 1 + n }),
            Err(e) => Err(e),
        }
    } else {
        Err(lexical(LexicalErrorKind::UnexpectedChar { found: c }, pos))
    }
}

/// `tokens` followed by the outcome `rest`, where that is a sequence.
pub open spec fn followed_by(tokens: Seq<Lexeme>, rest: Result<Seq<Lexeme>, LexicalError>) -> Result<
    Seq<Lexeme>,
    LexicalError,
> {
    match rest {
        Ok(more) => Ok(tokens + more),
        Err(e) => Err(e),
    }
}

/// The tokens of the text from index `pos` on, in the order of the text, or
/// the first error met.
pub open spec fn lex_from(text: Seq<char>, pos: int) -> Result<Seq<Lexeme>, LexicalError>
    decreases left(text.len(), pos),
{
    if 0 <= pos < text.len() {
        match scan(text, pos) {
            Err(e) => Err(e),
            Ok(step) => {
                let rest = lex_from(text, pos + step.len);
                match step.token {
                    Some(t) => followed_by(seq![t], rest),
                    None => rest,
                }
            },
        }
    } else {
        Ok(Seq::empty())
    }
}

/// The tokens of the whole text.
pub open spec fn lex_text(text: Seq<char>) -> Result<Seq<Lexeme>, LexicalError> {
    lex_from(text, 0)
}

/// Where `rest` stands in the text at `from`, all of it agrees.
pub proof fn lemma_agreement(text: Seq<char>, from: int, rest: Seq<char>, i: int)
    requires
        occurs_at(text, from, rest),
        0 <= i <= rest.len(),
    ensures
        agreement(text, from, rest, i) == rest.len() - i,
    decreases rest.len() - i,
{
    if i < rest.len() {
        assert(text[from + i] == rest[i]);
        lemma_agreement(text, from, rest, i + 1);
    }
}

/// What `agreement` counts: the characters counted are those of `rest`, and
/// the count stops at the end of `rest`, at the end of the text, or before a
/// character that differs.
pub proof fn lemma_agreement_meaning(text: Seq<char>, from: int, rest: Seq<char>, i: int)
    requires
        0 <= i <= rest.len(),
    ensures
        i + agreement(text, from, rest, i) <= rest.len(),
        agreement(text, from, rest, i) > 0 ==> 0 <= from + i && from + i + agreement(
            text,
            from,
            rest,
            i,
        ) <= text.len(),
        forall|k: int|
            i <= k < i + agreement(text, from, rest, i) ==> text[from + k] == #[trigger] rest[k],
        ({
            let stop = i + agreement(text, from, rest, i);
            stop < rest.len() ==> !(0 <= from + stop < text.len()) || text[from + stop]
                != rest[stop]
        }),
    decreases rest.len() - i,
{
    if 0 <= i < rest.len() && 0 <= from + i < text.len() && text[from + i] == rest[i] {
        lemma_agreement_meaning(text, from, rest, i + 1);
    }
}

/// The text spells `rest` from `from` on exactly where `rest` stands there.
pub proof fn lemma_expect_rest_ok(text: Seq<char>, from: int, rest: Seq<char>)
    requires
        0 <= from <= text.len(),
    ensures
        expect_rest(text, from, rest) is Ok <==> occurs_at(text, from, rest),
{
    lemma_agreement_meaning(text, from, rest, 0);
    if occurs_at(text, from, rest) {
        lemma_agreement(text, from, rest, 0);
    }
}

/// What `unquoted_len` counts: no character counted is a `"`, and the
/// character behind them, if there is one, is a `"`.
pub proof fn lemma_unquoted_len_meaning(text: Seq<char>, from: int)
    requires
        0 <= from <= text.len(),
    ensures
        from + unquoted_len(text, from) <= text.len(),
        forall|k: int| from <= k < from + unquoted_len(text, from) ==> (#[trigger] text[k]) != '"',
        from + unquoted_len(text, from) < text.len() ==> text[from + unquoted_len(text, from)]
            == '"',
    decreases text.len() - from,
{
    if from < text.len() && text[from] != '"' {
        lemma_unquoted_len_meaning(text, from + 1);
    }
}

/// What a run is: digits and at most one decimal point (none where one was
/// seen before), as many as there are before a character of another kind.
pub proof fn lemma_number_run_meaning(text: Seq<char>, from: int, seen_point: bool)
    requires
        0 <= from <= text.len(),
    ensures
        number_run(text, from, seen_point) matches Ok(n) ==> {
            &&& from + n <= text.len()
            &&& forall|k: int|
                from <= k < from + n ==> is_digit(#[trigger] text[k]) || text[k] == '.'
            &&& forall|i: int, j: int|
                from <= i < j < from + n ==> !(#[trigger] text[i] == '.' && #[trigger] text[j]
                    == '.')
            &&& seen_point ==> forall|k: int| from <= k < from + n ==> (#[trigger] text[k]) != '.'
            &&& number_ends(text, from + n)
        },
    decreases text.len() - from,
{
    if from < text.len() && is_digit(text[from]) {
        lemma_number_run_meaning(text, from + 1, seen_point);
    } else if from < text.len() && text[from] == '.' && !seen_point {
        lemma_number_run_meaning(text, from + 1, true);
    }
}

/// Where a run fails: at a decimal point that has only digits and decimal
/// points between the start and itself, one decimal point among them or
/// before them.
pub proof fn lemma_number_run_error(text: Seq<char>, from: int, seen_point: bool)
    requires
        0 <= from <= text.len() <= usize::MAX,
    ensures
        number_run(text, from, seen_point) matches Err(e) ==> {
            &&& e.kind == LexicalErrorKind::SecondDecimalPoint
            &&& from <= e.at < text.len()
            &&& text[e.at as int] == '.'
            &&& forall|k: int| from <= k < e.at ==> is_digit(#[trigger] text[k]) || text[k] == '.'
            &&& (seen_point || exists|k: int| from <= k < e.at && #[trigger] text[k] == '.')
        },
    decreases text.len() - from,
{
    if from < text.len() && is_digit(text[from]) {
        lemma_number_run_error(text, from + 1, seen_point);
        if let Err(e) = number_run(text, from, seen_point) {
            if !seen_point {
                let k = choose|k: int| from + 1 <= k < e.at && #[trigger] text[k] == '.';
                assert(from <= k < e.at && text[k] == '.');
            }
        }
    } else if from < text.len() && text[from] == '.' && !seen_point {
        lemma_number_run_error(text, from + 1, true);
        if let Err(e) = number_run(text, from, seen_point) {
            assert(from <= from < e.at && text[from] == '.');
        }
    }
}

/// A step takes at least one character and stays inside the text, and the
/// token it finds is well spelled.
pub proof fn lemma_scan_well_spelled(text: Seq<char>, pos: int)
    requires
        0 <= pos < text.len(),
    ensures
        scan(text, pos) matches Ok(step) ==> {
            &&& step.len >= 1
            &&& pos + step.len <= text.len()
            &&& step.token matches Some(t) ==> well_spelled(t)
        },
{
    let c = text[pos];
    if let Ok(step) = scan(text, pos) {
        if c == '"' {
            lemma_unquoted_len_meaning(text, pos + 1);
            let n = unquoted_len(text, pos + 1);
            let content = text.subrange(pos + 1, pos + 1 + n);
            assert forall|i: int| 0 <= i < content.len() implies (#[trigger] content[i]) != '"' by {
                assert(content[i] == text[pos + 1 + i]);
            }
        } else if c == 'n' {
            lemma_expect_rest_ok(text, pos + 1, seq!['u', 'l', 'l']);
        } else if c == 't' {
            lemma_expect_rest_ok(text, pos + 1, seq!['r', 'u', 'e']);
        } else if c == 'f' {
            lemma_expect_rest_ok(text, pos + 1, seq!['a', 'l', 's', 'e']);
        } else if is_digit(c) || c == '-' {
            lemma_number_run_meaning(text, pos + 1, false);
            let n = number_run(text, pos + 1, false)->Ok_0;
            let literal = seq![c] + text.subrange(pos + 1, pos + 1 + n);
            assert forall|i: int| 1 <= i < literal.len() implies is_digit(#[trigger] literal[i])
                || literal[i] == '.' by {
                assert(literal[i] == text[pos + i]);
            }
            assert forall|i: int, j: int| 1 <= i < j < literal.len() implies !(#[trigger] literal[i]
                == '.' && #[trigger] literal[j] == '.') by {
                assert(literal[i] == text[pos + i]);
                assert(literal[j] == text[pos + j]);
            }
            assert(literal[0] == c);
        }
    }
}

/// Every token that lexing yields is well spelled.
pub proof fn lemma_lex_well_spelled(text: Seq<char>, pos: int)
    ensures
        lex_from(text, pos) matches Ok(tokens) ==> all_well_spelled(tokens),
    decreases left(text.len(), pos),
{
    if 0 <= pos < text.len() {
        lemma_scan_well_spelled(text, pos);
        if let Ok(step) = scan(text, pos) {
            lemma_lex_well_spelled(text, pos + step.len);
            if let Ok(rest) = lex_from(text, pos + step.len) {
                if let Some(t) = step.token {
                    let tokens = seq![t] + rest;
                    assert forall|i: int| 0 <= i < tokens.len() implies well_spelled(
                        #[trigger] tokens[i],
                    ) by {
                        if i > 0 {
                            assert(tokens[i] == rest[i - 1]);
                        }
                    }
                }
            }
        }
    }
}

/// `has_digit` of a sequence with one more character at its end.
pub proof fn lemma_has_digit_push(s: Seq<char>, c: char)
    ensures
        has_digit(s.push(c)) == (has_digit(s) || is_digit(c)),
{
    let t = s.push(c);
    if has_digit(s) {
        let i = choose|i: int| 0 <= i < s.len() && is_digit(#[trigger] s[i]);
        assert(is_digit(t[i]));
    }
    if is_digit(c) {
        assert(is_digit(t[s.len() as int]));
    }
    if has_digit(t) {
        let i = choose|i: int| 0 <= i < t.len() && is_digit(#[trigger] t[i]);
        if i < s.len() {
            assert(is_digit(s[i]));
        }
    }
}

/// The lexemes of a sequence of tokens with one more token at its end.
pub proof fn lemma_lexemes_push(tokens: Seq<Token>, token: Token)
    ensures
        lexemes(tokens.push(token)) == lexemes(tokens).push(token@),
{
    assert(lexemes(tokens.push(token)) =~= lexemes(tokens).push(token@));
}

/// A step that yields a token moves it from the text still to be read to the
/// tokens already found.
proof fn lemma_lex_step(text: Seq<char>, done: Seq<Lexeme>, pos: int, token: Option<Lexeme>, len: nat)
    requires
        0 <= pos < text.len(),
        len >= 1,
        scan(text, pos) == Ok::<Scan, LexicalError>(Scan { token, len }),
    ensures
        followed_by(done, lex_from(text, pos)) == followed_by(
            match token {
                Some(t) => done.push(t),
                None => done,
            },
            lex_from(text, pos + len),
        ),
{
    match lex_from(text, pos + len) {
        Ok(more) => {
            match token {
                Some(t) => {
                    assert(done + (seq![t] + more) =~= done.push(t) + more);
                },
                None => {},
            }
        },
        Err(e) => {},
    }
}

/// `String::push` of the standard library: the string afterwards is the
/// string before with `ch` as one more character at its end.
pub assume_specification[ std::string::String::push ](s: &mut String, ch: char)
    ensures
        final(s)@ == old(s)@.push(ch),
;

/// The characters of a string, in order.
fn to_chars(s: &str) -> (v: Vec<char>)
    ensures
        v@ == s@,
{
    let mut v: Vec<char> = Vec::new();
    let mut it = s.chars();
    for c in iter: it
        invariant
            v@ == iter.seq().take(iter.index()),
    {
        v.push(c);
    }
    v
}

/// Whether `c` is a decimal digit.
fn is_digit_char(c: char) -> (b: bool)
    ensures
        b == is_digit(c),
{
    '0' <= c && c <= '9'
}

/// Consumes the characters of `rest` from the cursor. Stops without
/// consuming at the first character that is not the one expected, or at the
/// end of the input, and reports it.
pub fn expect_rest_of_constant<'a>(rest: &str, cursor: &mut Cursor<'a, char>) -> (r: Result<
    (),
    LexicalError,
>)
    ensures
        final(cursor).items() == old(cursor).items(),
        old(cursor).index() <= final(cursor).index() <= old(cursor).items().len(),
        final(cursor).index() == old(cursor).index() + agreement(
            old(cursor).items(),
            old(cursor).index(),
            rest@,
            0,
        ),
        r == expect_rest(old(cursor).items(), old(cursor).index(), rest@),
        r is Ok <==> occurs_at(old(cursor).items(), old(cursor).index(), rest@),
        r is Ok ==> final(cursor).index() == old(cursor).index() + rest@.len(),
{
    proof {
        cursor.lemma_in_bounds();
        lemma_expect_rest_ok(cursor.items(), cursor.index(), rest@);
        lemma_agreement_meaning(cursor.items(), cursor.index(), rest@, 0);
    }
    let n = rest.unicode_len();
    let mut i: usize = 0;
    while i < n
        invariant
            n == rest@.len(),
            i <= n,
            cursor.items() == old(cursor).items(),
            cursor.index() == old(cursor).index() + i,
            agreement(old(cursor).items(), old(cursor).index(), rest@, 0) == i + agreement(
                old(cursor).items(),
                old(cursor).index(),
                rest@,
                i as int,
            ),
        decreases n - i,
    {
        let expected = rest.get_char(i);
        let at = cursor.position();
        let matched = match cursor.peek() {
            Some(c) => *c == expected,
            None => false,
        };
        if !matched {
            return Err(LexicalError { kind: LexicalErrorKind::BadConstant { expected }, at });
        }
        cursor.next();
        i = i + 1;
    }
    Ok(())
}

/// Reads a string literal whose opening quote has been consumed: takes the
/// characters up to the next `"` as they are, with no escapes, and consumes
/// that quote. Fails where the input ends first.
pub fn tokenize_string<'a>(cursor: &mut Cursor<'a, char>) -> (r: Result<Token, LexicalError>)
    ensures
        final(cursor).items() == old(cursor).items(),
        old(cursor).index() <= final(cursor).index() <= old(cursor).items().len(),
        match string_token(old(cursor).items(), old(cursor).index()) {
            Ok((content, n)) => {
                &&& r matches Ok(Token::TokenString(s))
                &&& s@ == content
                &&& has_no_quote(s@)
                &&& final(cursor).index() == old(cursor).index() + n
            },
            Err(e) => r == Err::<Token, LexicalError>(e) && final(cursor).index() == e.at,
        },
{
    let ghost text = cursor.items();
    let ghost from = cursor.index();
    let mut content = String::new();
    proof {
        cursor.lemma_in_bounds();
    }
    loop
        invariant
            text == old(cursor).items(),
            from == old(cursor).index(),
            cursor.items() == text,
            0 <= from <= cursor.index() <= text.len(),
            content@ == text.subrange(from, cursor.index()),
            has_no_quote(content@),
            unquoted_len(text, from) == (cursor.index() - from) + unquoted_len(text, cursor.index()),
        decreases text.len() - cursor.index(),
    {
        let at = cursor.position();
        match cursor.next() {
            None => {
                return Err(LexicalError { kind: LexicalErrorKind::UnterminatedString, at });
            },
            Some(c) => {
                if *c == '"' {
                    return Ok(Token::TokenString(content));
                }
                content.push(*c);
                assert(content@ == text.subrange(from, at + 1));
            },
        }
    }
}

/// Reads the rest of a number whose first character, `start`, has been
/// consumed: takes digits and at most one decimal point, and stops before
/// the first character that is neither. Fails at a second decimal point, and
/// where the characters taken, `start` included, hold no digit.
pub fn tokenize_number<'a>(start: char, cursor: &mut Cursor<'a, char>) -> (r: Result<
    Token,
    LexicalError,
>)
    ensures
        final(cursor).items() == old(cursor).items(),
        old(cursor).index() <= final(cursor).index() <= old(cursor).items().len(),
        match number_token(start, old(cursor).items(), old(cursor).index()) {
            Ok((literal, n)) => {
                &&& r matches Ok(Token::TokenNumber(number))
                &&& number.literal@ == literal
                &&& is_digit(start) || start == '-' ==> number.wf()
                &&& final(cursor).index() == old(cursor).index() + n
            },
            Err(e) => r == Err::<Token, LexicalError>(e) && final(cursor).index() == e.at,
        },
{
    let ghost text = cursor.items();
    let ghost from = cursor.index();
    let mut num_str = String::new();
    let mut has_dec = false;
    let mut digits = is_digit_char(start);
    num_str.push(start);
    proof {
        cursor.lemma_in_bounds();
        lemma_number_run_meaning(text, from, false);
        lemma_has_digit_push(Seq::empty(), start);
        assert(num_str@ =~= seq![start] + text.subrange(from, from));
    }
    loop
        invariant
            text == old(cursor).items(),
            from == old(cursor).index(),
            cursor.items() == text,
            0 <= from <= cursor.index() <= text.len(),
            num_str@ == seq![start] + text.subrange(from, cursor.index()),
            digits == has_digit(num_str@),
            number_run(text, from, false) == lengthened(
                number_run(text, cursor.index(), has_dec),
                (cursor.index() - from) as nat,
            ),
        ensures
            number_run(text, cursor.index(), has_dec) == Ok::<nat, LexicalError>(0nat),
        decreases text.len() - cursor.index(),
    {
        let at = cursor.position();
        let c = match cursor.peek() {
            None => {
                break ;
            },
            Some(c) => *c,
        };
        if is_digit_char(c) {
            digits = true;
        } else if c == '.' {
            if has_dec {
                return Err(LexicalError { kind: LexicalErrorKind::SecondDecimalPoint, at });
            }
            has_dec = true;
        } else {
            break ;
        }
        proof {
            lemma_has_digit_push(num_str@, c);
        }
        num_str.push(c);
        cursor.next();
        assert(num_str@ == seq![start] + text.subrange(from, at + 1));
    }
    if digits {
        Ok(Token::TokenNumber(Number { literal: num_str }))
    } else {
        Err(LexicalError { kind: LexicalErrorKind::NumberWithoutDigits, at: cursor.position() })
    }
}

/// Turns the text into its tokens, in the order of the text. Fails at the
/// first character or constant that it cannot classify.
pub fn lex(contents: String) -> (r: Result<Vec<Token>, LexicalError>)
    ensures
        match lex_text(contents@) {
            Ok(found) => r matches Ok(tokens) && lexemes(tokens@) == found,
            Err(e) => r == Err::<Vec<Token>, LexicalError>(e),
        },
        r matches Ok(tokens) ==> all_well_spelled(lexemes(tokens@)),
{
    let chars = to_chars(contents.as_str());
    let ghost text = chars@;
    let mut cursor = Cursor::new(chars.as_slice());
    let mut tokens: Vec<Token> = Vec::new();
    assert(lexemes(tokens@) =~= Seq::<Lexeme>::empty());
    assert(Seq::<Lexeme>::empty() + lex_from(text, 0)->Ok_0 =~= lex_from(text, 0)->Ok_0);
    loop
        invariant
            text == contents@,
            cursor.items() == text,
            0 <= cursor.index() <= text.len(),
            lex_text(text) == followed_by(lexemes(tokens@), lex_from(text, cursor.index())),
        ensures
            cursor.index() == text.len(),
        decreases text.len() - cursor.index(),
    {
        let pos = cursor.position();
        let c = match cursor.next() {
            None => {
                break ;
            },
            Some(c) => *c,
        };
        let token = if c == '{' {
            Some(Token::LeftBrace)
        } else if c == '}' {
            Some(Token::RightBrace)
        } else if c == '[' {
            Some(Token::LeftBracket)
        } else if c == ']' {
            Some(Token::RightBracket)
        } else if c == ':' {
            Some(Token::SemiColon)
        } else if c == ',' {
            Some(Token::Comma)
        } else if c == ' ' || c == '\n' {
            None
        } else if c == '"' {
            match tokenize_string(&mut cursor) {
                Ok(t) => Some(t),
                Err(e) => {
                    return Err(e);
                },
            }
        } else if c == 'n' {
            proof {
                reveal_strlit("ull");
                assert("ull"@ =~= seq!['u', 'l', 'l']);
            }
            match expect_rest_of_constant("ull", &mut cursor) {
                Ok(_) => Some(Token::TokenNull),
                Err(e) => {
                    return Err(e);
                },
            }
        } else if c == 't' {
            proof {
                reveal_strlit("rue");
                assert("rue"@ =~= seq!['r', 'u', 'e']);
            }
            match expect_rest_of_constant("rue", &mut cursor) {
                Ok(_) => Some(Token::TokenTrue),
                Err(e) => {
                    return Err(e);
                },
            }
        } else if c == 'f' {
            proof {
                reveal_strlit("alse");
                assert("alse"@ =~= seq!['a', 'l', 's', 'e']);
            }
            match expect_rest_of_constant("alse", &mut cursor) {
                Ok(_) => Some(Token::TokenFalse),
                Err(e) => {
                    return Err(e);
                },
            }
        } else if is_digit_char(c) || c == '-' {
            match tokenize_number(c, &mut cursor) {
                Ok(t) => Some(t),
                Err(e) => {
                    return Err(e);
                },
            }
        } else {
            return Err(LexicalError { kind: LexicalErrorKind::UnexpectedChar { found: c }, at: pos });
        };
        let ghost scanned = token;
        proof {
            cursor.lemma_in_bounds();
            let found = match scanned {
                Some(t) => Some(t@),
                None => None,
            };
            lemma_lex_step(text, lexemes(tokens@), pos as int, found, (cursor.index() - pos) as nat);
            if let Some(t) = scanned {
                lemma_lexemes_push(tokens@, t);
            }
        }
        if let Some(t) = token {
            tokens.push(t);
        }
    }
    proof {
        assert(lexemes(tokens@) + Seq::<Lexeme>::empty() =~= lexemes(tokens@));
        lemma_lex_well_spelled(text, 0);
    }
    Ok(tokens)
}

} // verus!
