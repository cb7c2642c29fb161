//! Tokens and the tokenizer.

use vstd::prelude::*;
use crate::cursor::Cursor;
use crate::model::models;
use crate::number::{Number, NumberModel};

verus! {

/// One lexical unit of a JSON text.
#[derive(Debug, PartialEq)]
pub enum Token {
    OpenBrace,
    CloseBrace,
    OpenBracket,
    CloseBracket,
    Colon,
    Comma,
    String(String),
    Number(Number),
    Boolean(bool),
    Null,
}

/// What a [`Token`] stands for.
pub enum TokenModel {
    OpenBrace,
    CloseBrace,
    OpenBracket,
    CloseBracket,
    Colon,
    Comma,
    String(Seq<char>),
    Number(NumberModel),
    Boolean(bool),
    Null,
}

impl View for Token {
    type V = TokenModel;

    open spec fn view(&self) -> TokenModel {
        match self {
            Token::OpenBrace => TokenModel::OpenBrace,
            Token::CloseBrace => TokenModel::CloseBrace,
            Token::OpenBracket => TokenModel::OpenBracket,
            Token::CloseBracket => TokenModel::CloseBracket,
            Token::Colon => TokenModel::Colon,
            Token::Comma => TokenModel::Comma,
            Token::String(text) => TokenModel::String(text@),
            Token::Number(number) => TokenModel::Number(number@),
            Token::Boolean(b) => TokenModel::Boolean(*b),
            Token::Null => TokenModel::Null,
        }
    }
}

impl DeepView for Token {
    type V = TokenModel;

    open spec fn deep_view(&self) -> TokenModel {
        self@
    }
}

/// Why a text could not be tokenized.
#[derive(Debug, Clone, Copy, PartialEq, Eq)]
pub enum ParseError {
    /// A numeric literal that does not read as a number.
    InvalidNumber,
    /// A keyword or a string literal that the text does not complete.
    UnexpectedEndOfInput,
    /// A character that begins no token.
    InvalidToken,
}

/// `std::string::String::push`: the string afterwards is the string before
/// with `ch` appended as its last character.
pub assume_specification[ std::string::String::push ](text: &mut std::string::String, ch: char)
    ensures
        final(text)@ == old(text)@.push(ch),
;

/// The characters of `text`, in order.
pub(crate) fn chars_of(text: &str) -> (chars: Vec<char>)
    ensures
        chars@ == text@,
{
    let mut chars: Vec<char> = Vec::new();
    for c in it: text.chars()
        invariant
            chars@ == it.seq().take(it.index()),
    {
        chars.push(c);
    }
    chars
}

/// The characters that separate tokens: space, newline and tab.
pub open spec fn is_whitespace(c: char) -> bool {
    c == ' ' || c == '\n' || c == '\t'
}

/// The decimal digits.
pub open spec fn is_digit(c: char) -> bool {
    '0' <= c <= '9'
}

/// The characters that a numeric literal runs on with after its first.
pub open spec fn continues_number(c: char) -> bool {
    is_digit(c) || c == '.' || c == 'e' || c == 'E'
}

/// The first position at or after `at` that holds no whitespace.
pub open spec fn skip_whitespace(input: Seq<char>, at: nat) -> nat
    decreases input.len() - at,
{
    if at < input.len() && is_whitespace(input[at as int]) {
        skip_whitespace(input, at + 1)
    } else {
        at
    }
}

/// The position of the quote that closes a string literal whose payload
/// begins at `at`: the first quote at or after `at` that no backslash
/// escapes. A backslash escapes the character after it, whatever that is.
/// `None` where the text ends first.
pub open spec fn closing_quote(input: Seq<char>, at: nat) -> Option<nat>
    decreases input.len() - at,
{
    if at >= input.len() {
        None
    } else if input[at as int] == '"' {
        Some(at)
    } else if input[at as int] == '\\' {
        if at + 1 >= input.len() {
            None
        } else {
            closing_quote(input, at + 2)
        }
    } else {
        closing_quote(input, at + 1)
    }
}

/// The first position at or after `at` whose character does not continue a
/// numeric literal.
pub open spec fn number_end(input: Seq<char>, at: nat) -> nat
    decreases input.len() - at,
{
    if at < input.len() && continues_number(input[at as int]) {
        number_end(input, at + 1)
    } else {
        at
    }
}

/// The first position at or after `at` that holds no digit.
pub open spec fn digits_end(text: Seq<char>, at: nat) -> nat
    decreases text.len() - at,
{
    if at < text.len() && is_digit(text[at as int]) {
        digits_end(text, at + 1)
    } else {
        at
    }
}

/// `text` is a number in decimal notation: an optional minus sign; then
/// digits with at most one point before, among or after them, at least one
/// digit in all; then, optionally, `e` or `E` and at least one digit.
pub open spec fn well_formed_number(text: Seq<char>) -> bool {
    let begin: nat = if text.len() > 0 && text[0] == '-' {
        1
    } else {
        0
    };
    let point = digits_end(text, begin);
    let has_point = point < text.len() && text[point as int] == '.';
    let mantissa_end = if has_point {
        digits_end(text, point + 1)
    } else {
        point
    };
    let digits = if has_point {
        mantissa_end - begin - 1
    } else {
        mantissa_end - begin
    };
    &&& digits > 0
    &&& mantissa_end < text.len() ==> {
        &&& text[mantissa_end as int] == 'e' || text[mantissa_end as int] == 'E'
        &&& mantissa_end + 1 < text.len()
        &&& digits_end(text, mantissa_end + 1) == text.len()
    }
}

/// What one scan of the text finds.
pub enum LexemeModel {
    /// Nothing but whitespace is left.
    End,
    /// A token that is complete as it stands.
    Token(TokenModel),
    /// A well-formed numeric literal, by its text.
    Number(Seq<char>),
    /// A lexical error.
    Error(ParseError),
}

/// A lexeme and the position at which the scan for it stops: after the
/// lexeme, or, for an error, at the first character of what failed.
pub struct Scanned {
    pub lexeme: LexemeModel,
    pub next: nat,
}

/// The scan of a keyword whose first letter stands at `start`, whose other
/// letters are `rest` and which stands for `token`.
pub open spec fn keyword(input: Seq<char>, start: nat, rest: Seq<char>, token: TokenModel) -> Scanned {
    if rest.is_prefix_of(input.skip(start + 1 as int)) {
        Scanned { lexeme: LexemeModel::Token(token), next: start + 1 + rest.len() }
    } else {
        Scanned { lexeme: LexemeModel::Error(ParseError::UnexpectedEndOfInput), next: start }
    }
}

/// The lexeme that a scan finds when it begins at `at`.
///
/// Whitespace before it is skipped. A punctuation mark is a token by itself.
/// A quote opens a string literal, whose payload is every character up to the
/// closing quote, escapes left as they are written. A digit or a minus sign
/// opens a numeric literal, which runs on over digits, `.`, `e` and `E` and
/// must then be a well-formed number. `t`, `f` and `n` open the keywords
/// `true`, `false` and `null`. No other character opens a lexeme.
pub open spec fn lexeme_at(input: Seq<char>, at: nat) -> Scanned {
    let start = skip_whitespace(input, at);
    if start >= input.len() {
        Scanned { lexeme: LexemeModel::End, next: start }
    } else {
        let c = input[start as int];
        if c == '{' {
            Scanned { lexeme: LexemeModel::Token(TokenModel::OpenBrace), next: start + 1 }
        } else if c == '}' {
            Scanned { lexeme: LexemeModel::Token(TokenModel::CloseBrace), next: start + 1 }
        } else if c == '[' {
            Scanned { lexeme: LexemeModel::Token(TokenModel::OpenBracket), next: start + 1 }
        } else if c == ']' {
            Scanned { lexeme: LexemeModel::Token(TokenModel::CloseBracket), next: start + 1 }
        } else if c == ':' {
            Scanned { lexeme: LexemeModel::Token(TokenModel::Colon), next: start + 1 }
        } else if c == ',' {
            Scanned { lexeme: LexemeModel::Token(TokenModel::Comma), next: start + 1 }
        } else if c == '"' {
            match closing_quote(input, start + 1) {
                Some(close) => Scanned {
                    lexeme: LexemeModel::Token(
                        TokenModel::String(input.subrange(start + 1 as int, close as int)),
                    ),
                    next: close + 1,
                },
                None => Scanned {
                    lexeme: LexemeModel::Error(ParseError::UnexpectedEndOfInput),
                    next: start,
                },
            }
        } else if is_digit(c) || c == '-' {
            let end = number_end(input, start + 1);
            let literal = input.subrange(start as int, end as int);
            if well_formed_number(literal) {
                Scanned { lexeme: LexemeModel::Number(literal), next: end }
            } else {
                Scanned { lexeme: LexemeModel::Error(ParseError::InvalidNumber), next: start }
            }
        } else if c == 't' {
            keyword(input, start, "rue"@, TokenModel::Boolean(true))
        } else if c == 'f' {
            keyword(input, start, "alse"@, TokenModel::Boolean(false))
        } else if c == 'n' {
            keyword(input, start, "ull"@, TokenModel::Null)
        } else {
            Scanned { lexeme: LexemeModel::Error(ParseError::InvalidToken), next: start }
        }
    }
}

/// Consumes as many characters as `expected` has, or all that are left where
/// they are fewer, and succeeds if they were exactly `expected`.
pub fn assert_next_chars(input: &mut Cursor<char>, expected: &str) -> (result: Result<
    (),
    ParseError,
>)
    ensures
        final(input).items() == old(input).items(),
        final(input).position() == if old(input).position() + expected@.len() <= old(
            input,
        ).items().len() {
            old(input).position() + expected@.len()
        } else {
            old(input).items().len()
        },
        result is Ok <==> expected@.is_prefix_of(old(input).remaining()),
        result is Err ==> result == Err::<(), ParseError>(ParseError::UnexpectedEndOfInput),
{
    let count = expected.unicode_len();
    let ghost items = input.items();
    let begin = input.offset();
    let ghost start = begin as nat;
    let mut matched = true;
    let mut i: usize = 0;
    while i < count
        invariant
            i <= count,
            count == expected@.len(),
            items == old(input).items(),
            start == old(input).position(),
            input.items() == items,
            input.position() == start + i,
            start + i <= items.len(),
            matched <==> forall|j: int| 0 <= j < i ==> items[start + j] == expected@[j],
        decreases count - i,
    {
        match input.next() {
            None => {
                return Err(ParseError::UnexpectedEndOfInput);
            },
            Some(c) => {
                if *c != expected.get_char(i) {
                    matched = false;
                }
            },
        }
        i += 1;
    }
    if matched {
        assert(expected@ =~= old(input).remaining().subrange(0, expected@.len() as int));
        Ok(())
    } else {
        Err(ParseError::UnexpectedEndOfInput)
    }
}

/// What one scan of the text finds.
#[derive(Debug, PartialEq)]
pub enum Lexeme {
    /// Nothing but whitespace is left.
    End,
    /// A token that is complete as it stands.
    Token(Token),
    /// A well-formed numeric literal, by its text: it becomes a token once
    /// it is read as a number.
    Number(String),
    /// A lexical error.
    Error(ParseError),
}

impl View for Lexeme {
    type V = LexemeModel;

    open spec fn view(&self) -> LexemeModel {
        match self {
            Lexeme::End => LexemeModel::End,
            Lexeme::Token(token) => LexemeModel::Token(token@),
            Lexeme::Number(literal) => LexemeModel::Number(literal@),
            Lexeme::Error(error) => LexemeModel::Error(*error),
        }
    }
}

/// A scan that finds a token or a numeric literal stops further on than it
/// began, and no scan stops before it began or beyond the end of the text.
pub proof fn lemma_scan_advances(input: Seq<char>, at: nat)
    requires
        at <= input.len(),
    ensures
        at <= lexeme_at(input, at).next <= input.len(),
        lexeme_at(input, at).lexeme is Token || lexeme_at(input, at).lexeme is Number ==> at
            < lexeme_at(input, at).next,
{
    lemma_skip_whitespace_bounds(input, at);
    let start = skip_whitespace(input, at);
    if start < input.len() {
        lemma_closing_quote_bounds(input, start + 1);
        lemma_number_end_bounds(input, start + 1);
    }
}

proof fn lemma_skip_whitespace_bounds(input: Seq<char>, at: nat)
    requires
        at <= input.len(),
    ensures
        at <= skip_whitespace(input, at) <= input.len(),
    decreases input.len() - at,
{
    if at < input.len() && is_whitespace(input[at as int]) {
        lemma_skip_whitespace_bounds(input, at + 1);
    }
}

proof fn lemma_closing_quote_bounds(input: Seq<char>, at: nat)
    ensures
        closing_quote(input, at) matches Some(close) ==> at <= close < input.len(),
    decreases input.len() - at,
{
    if at < input.len() && input[at as int] != '"' {
        if input[at as int] == '\\' {
            if at + 1 < input.len() {
                lemma_closing_quote_bounds(input, at + 2);
            }
        } else {
            lemma_closing_quote_bounds(input, at + 1);
        }
    }
}

proof fn lemma_number_end_bounds(input: Seq<char>, at: nat)
    requires
        at <= input.len(),
    ensures
        at <= number_end(input, at) <= input.len(),
    decreases input.len() - at,
{
    if at < input.len() && continues_number(input[at as int]) {
        lemma_number_end_bounds(input, at + 1);
    }
}

/// The first position at or after `at` that holds no digit.
fn skip_digits(text: &[char], at: usize) -> (end: usize)
    requires
        at <= text@.len(),
    ensures
        end == digits_end(text@, at as nat),
        at <= end <= text@.len(),
{
    let mut end = at;
    while end < text.len() && text[end] >= '0' && text[end] <= '9'
        invariant
            at <= end <= text@.len(),
            digits_end(text@, at as nat) == digits_end(text@, end as nat),
        decreases text@.len() - end,
    {
        end += 1;
    }
    end
}

/// Whether `literal` is a number in decimal notation.
pub fn is_well_formed_number(literal: &str) -> (valid: bool)
    ensures
        valid == well_formed_number(literal@),
{
    let chars = chars_of(literal);
    let text = chars.as_slice();
    let begin: usize = if text.len() > 0 && text[0] == '-' {
        1
    } else {
        0
    };
    let point = skip_digits(text, begin);
    let has_point = point < text.len() && text[point] == '.';
    let mantissa_end = if has_point {
        skip_digits(text, point + 1)
    } else {
        point
    };
    let digits = if has_point {
        mantissa_end - begin - 1
    } else {
        mantissa_end - begin
    };
    if digits == 0 {
        return false;
    }
    if mantissa_end == text.len() {
        return true;
    }
    if text[mantissa_end] != 'e' && text[mantissa_end] != 'E' {
        return false;
    }
    if mantissa_end + 1 >= text.len() {
        return false;
    }
    skip_digits(text, mantissa_end + 1) == text.len()
}

/// Consumes the whitespace at the cursor.
fn skip_spaces(input: &mut Cursor<char>)
    ensures
        final(input).items() == old(input).items(),
        final(input).position() == skip_whitespace(old(input).items(), old(input).position()),
{
    let ghost items = input.items();
    let ghost at = input.position();
    loop
        invariant
            input.items() == items,
            skip_whitespace(items, at) == skip_whitespace(items, input.position()),
        ensures
            input.position() == skip_whitespace(items, at),
        decreases items.len() - input.position(),
    {
        match input.peek() {
            Some(c) => {
                if *c == ' ' || *c == '\n' || *c == '\t' {
                    input.next();
                } else {
                    break ;
                }
            },
            None => {
                break ;
            },
        }
    }
}

/// Consumes a string literal from after its opening quote to its closing
/// quote and returns the payload; `None` where the literal is not closed.
fn scan_string(input: &mut Cursor<char>) -> (payload: Option<String>)
    ensures
        final(input).items() == old(input).items(),
        final(input).position() >= old(input).position(),
        match closing_quote(old(input).items(), old(input).position()) {
            Some(close) => payload matches Some(text) && text@ == old(input).items().subrange(
                old(input).position() as int,
                close as int,
            ) && final(input).position() == close + 1,
            None => payload is None,
        },
{
    let ghost items = input.items();
    let ghost at = input.position();
    proof {
        input.lemma_in_bounds();
    }
    let mut text = String::new();
    loop
        invariant
            items == old(input).items(),
            at == old(input).position(),
            input.items() == items,
            at <= input.position() <= items.len(),
            closing_quote(items, at) == closing_quote(items, input.position()),
            text@ == items.subrange(at as int, input.position() as int),
        decreases items.len() - input.position(),
    {
        match input.next() {
            None => {
                return None;
            },
            Some(c) => {
                if *c == '"' {
                    return Some(text);
                }
                text.push(*c);
                if *c == '\\' {
                    match input.next() {
                        None => {
                            return None;
                        },
                        Some(escaped) => {
                            text.push(*escaped);
                        },
                    }
                }
            },
        }
        assert(text@ =~= items.subrange(at as int, input.position() as int));
    }
}

/// Consumes the rest of a numeric literal whose first character, `first`,
/// has just been consumed, and returns the literal.
fn scan_number(input: &mut Cursor<char>, first: char) -> (literal: String)
    ensures
        final(input).items() == old(input).items(),
        final(input).position() == number_end(old(input).items(), old(input).position()),
        literal@ == seq![first] + old(input).items().subrange(
            old(input).position() as int,
            final(input).position() as int,
        ),
{
    let ghost items = input.items();
    let ghost at = input.position();
    proof {
        input.lemma_in_bounds();
    }
    let mut literal = String::new();
    literal.push(first);
    loop
        invariant
            input.items() == items,
            at <= input.position() <= items.len(),
            number_end(items, at) == number_end(items, input.position()),
            literal@ == seq![first] + items.subrange(at as int, input.position() as int),
        ensures
            input.position() == number_end(items, at),
        decreases items.len() - input.position(),
    {
        match input.peek() {
            Some(c) => {
                if (*c >= '0' && *c <= '9') || *c == '.' || *c == 'e' || *c == 'E' {
                    input.next();
                    literal.push(*c);
                    assert(literal@ =~= seq![first] + items.subrange(
                        at as int,
                        input.position() as int,
                    ));
                } else {
                    break ;
                }
            },
            None => {
                break ;
            },
        }
    }
    literal
}

/// Consumes the rest of a keyword whose first letter, at `start`, has just
/// been consumed; where the text does not spell the keyword, the cursor
/// goes back to `start`.
fn scan_keyword(input: &mut Cursor<char>, start: usize, rest: &str, token: Token) -> (lexeme:
    Lexeme)
    requires
        old(input).position() == start + 1,
    ensures
        final(input).items() == old(input).items(),
        lexeme@ == keyword(old(input).items(), start as nat, rest@, token@).lexeme,
        final(input).position() == keyword(old(input).items(), start as nat, rest@, token@).next,
{
    proof {
        input.lemma_in_bounds();
    }
    match assert_next_chars(input, rest) {
        Ok(_) => Lexeme::Token(token),
        Err(error) => {
            input.rewind(start);
            Lexeme::Error(error)
        },
    }
}

/// Scans for one lexeme and leaves the cursor where the scan stops: after
/// the lexeme, or, for an error, at the first character of what failed.
pub fn next_lexeme(input: &mut Cursor<char>) -> (lexeme: Lexeme)
    ensures
        final(input).items() == old(input).items(),
        lexeme@ == lexeme_at(old(input).items(), old(input).position() as nat).lexeme,
        final(input).position() == lexeme_at(old(input).items(), old(input).position() as nat).next,
{
    let ghost items = input.items();
    skip_spaces(input);
    let start = input.offset();
    match input.next() {
        None => Lexeme::End,
        Some(c) => {
            let c = *c;
            if c == '{' {
                Lexeme::Token(Token::OpenBrace)
            } else if c == '}' {
                Lexeme::Token(Token::CloseBrace)
            } else if c == '[' {
                Lexeme::Token(Token::OpenBracket)
            } else if c == ']' {
                Lexeme::Token(Token::CloseBracket)
            } else if c == ':' {
                Lexeme::Token(Token::Colon)
            } else if c == ',' {
                Lexeme::Token(Token::Comma)
            } else if c == '"' {
                match scan_string(input) {
                    Some(text) => Lexeme::Token(Token::String(text)),
                    None => {
                        input.rewind(start);
                        Lexeme::Error(ParseError::UnexpectedEndOfInput)
                    },
                }
            } else if (c >= '0' && c <= '9') || c == '-' {
                let literal = scan_number(input, c);
                proof {
                    lemma_number_end_bounds(items, (start + 1) as nat);
                    assert(literal@ =~= items.subrange(start as int, input.position() as int));
                }
                if is_well_formed_number(literal.as_str()) {
                    Lexeme::Number(literal)
                } else {
                    input.rewind(start);
                    Lexeme::Error(ParseError::InvalidNumber)
                }
            } else if c == 't' {
                scan_keyword(input, start, "rue", Token::Boolean(true))
            } else if c == 'f' {
                scan_keyword(input, start, "alse", Token::Boolean(false))
            } else if c == 'n' {
                scan_keyword(input, start, "ull", Token::Null)
            } else {
                input.rewind(start);
                Lexeme::Error(ParseError::InvalidToken)
            }
        },
    }
}

/// `tokens` and then the tokens of `rest`; the error of `rest` where it is
/// one.
pub open spec fn followed_by(tokens: Seq<TokenModel>, rest: Result<Seq<TokenModel>, ParseError>)
    -> Result<Seq<TokenModel>, ParseError> {
    match rest {
        Ok(more) => Ok(tokens + more),
        Err(error) => Err(error),
    }
}

/// The tokens of the text from `at` on, or the first lexical error.
///
/// `numbers` holds the readings of the numeric literals, in the order of the
/// literals in the text; `used` of them belong to literals before `at`. A
/// literal whose reading is `None`, or for which `numbers` holds none, is an
/// invalid number, as one that is not well formed is.
pub open spec fn tokens_from(
    input: Seq<char>,
    at: nat,
    numbers: Seq<Option<NumberModel>>,
    used: nat,
) -> Result<Seq<TokenModel>, ParseError>
    decreases input.len() - at,
{
    let scanned = lexeme_at(input, at);
    match scanned.lexeme {
        LexemeModel::End => Ok(Seq::empty()),
        LexemeModel::Error(error) => Err(error),
        LexemeModel::Token(token) => {
            proof {
                lemma_scan_advances(input, at);
            }
            followed_by(seq![token], tokens_from(input, scanned.next, numbers, used))
        },
        LexemeModel::Number(_) => {
            if used < numbers.len() && numbers[used as int] is Some {
                proof {
                    lemma_scan_advances(input, at);
                }
                followed_by(
                    seq![TokenModel::Number(numbers[used as int]->0)],
                    tokens_from(input, scanned.next, numbers, used + 1),
                )
            } else {
                Err(ParseError::InvalidNumber)
            }
        },
    }
}

/// The tokens of a whole text, given the readings of its numeric literals.
pub open spec fn tokenization(input: Seq<char>, numbers: Seq<Option<NumberModel>>) -> Result<
    Seq<TokenModel>,
    ParseError,
> {
    tokens_from(input, 0, numbers, 0)
}

/// The numeric literals of the text from `at` on, in order, up to the end of
/// the text or to the first error that scanning alone finds.
pub open spec fn literals_from(input: Seq<char>, at: nat) -> Seq<Seq<char>>
    decreases input.len() - at,
{
    let scanned = lexeme_at(input, at);
    match scanned.lexeme {
        LexemeModel::End => Seq::empty(),
        LexemeModel::Error(_) => Seq::empty(),
        LexemeModel::Token(_) => {
            proof {
                lemma_scan_advances(input, at);
            }
            literals_from(input, scanned.next)
        },
        LexemeModel::Number(literal) => {
            proof {
                lemma_scan_advances(input, at);
            }
            seq![literal] + literals_from(input, scanned.next)
        },
    }
}

/// The first error that scanning alone finds from `at` on, if it finds one.
pub open spec fn scan_error(input: Seq<char>, at: nat) -> Option<ParseError>
    decreases input.len() - at,
{
    let scanned = lexeme_at(input, at);
    match scanned.lexeme {
        LexemeModel::End => None,
        LexemeModel::Error(error) => Some(error),
        _ => {
            proof {
                lemma_scan_advances(input, at);
            }
            scan_error(input, scanned.next)
        },
    }
}

/// Where `numbers` holds a reading for every literal that the text lists from
/// `at` on, the readings decide nothing: the text has tokens exactly if
/// scanning finds no error, and otherwise fails with the error that scanning
/// finds.
pub proof fn lemma_readings_suffice(
    input: Seq<char>,
    at: nat,
    numbers: Seq<Option<NumberModel>>,
    used: nat,
)
    requires
        at <= input.len(),
        forall|k: int|
            0 <= k < literals_from(input, at).len() ==> used + k < numbers.len() && (
            #[trigger] numbers[used + k]) is Some,
    ensures
        match scan_error(input, at) {
            Some(error) => tokens_from(input, at, numbers, used) == Err::<Seq<TokenModel>, _>(error),
            None => tokens_from(input, at, numbers, used) is Ok,
        },
    decreases input.len() - at,
{
    lemma_scan_advances(input, at);
    let scanned = lexeme_at(input, at);
    match scanned.lexeme {
        LexemeModel::Token(_) => {
            lemma_readings_suffice(input, scanned.next, numbers, used);
        },
        LexemeModel::Number(literal) => {
            let rest = literals_from(input, scanned.next);
            assert(literals_from(input, at) == seq![literal] + rest);
            assert(numbers[used + 0int] is Some);
            assert forall|k: int| 0 <= k < rest.len() implies used + 1 + k < numbers.len() && (
            #[trigger] numbers[used + 1 + k]) is Some by {
                assert(numbers[used + (k + 1)] is Some);
            }
            lemma_readings_suffice(input, scanned.next, numbers, used + 1);
        },
        _ => {},
    }
}

/// The numeric literals of `input`, in order, each as it is written.
///
/// A caller reads each of them as a number and hands the readings to
/// [`tokenize`].
pub fn numeric_literals(input: &str) -> (literals: Vec<String>)
    ensures
        models(literals@) == literals_from(input@, 0),
{
    let chars = chars_of(input);
    let mut cursor = Cursor::new(chars.as_slice());
    let mut literals: Vec<String> = Vec::new();
    loop
        invariant
            cursor.items() == input@,
            literals_from(input@, 0) == models(literals@) + literals_from(
                input@,
                cursor.position(),
            ),
        decreases input@.len() - cursor.position(),
    {
        proof {
            cursor.lemma_in_bounds();
            lemma_scan_advances(input@, cursor.position());
        }
        let ghost before = models(literals@);
        match next_lexeme(&mut cursor) {
            Lexeme::End => {
                return literals;
            },
            Lexeme::Error(_) => {
                return literals;
            },
            Lexeme::Token(_) => {},
            Lexeme::Number(literal) => {
                literals.push(literal);
                assert(models(literals@) =~= before.push(literal@));
            },
        }
    }
}

/// Splits a JSON text into tokens.
///
/// `numbers` holds one reading for each numeric literal of the text, in the
/// order that [`numeric_literals`] gives: the number that the literal
/// denotes, or `None` where it denotes none. The result is every token of the
/// text in order, or the first lexical error from the left.
pub fn tokenize(input: String, numbers: &[Option<Number>]) -> (result: Result<
    Vec<Token>,
    ParseError,
>)
    ensures
        match tokenization(input@, models(numbers@)) {
            Ok(tokens) => result matches Ok(found) && models(found@) == tokens,
            Err(error) => result matches Err(found) && found == error,
        },
{
    let chars = chars_of(input.as_str());
    let mut cursor = Cursor::new(chars.as_slice());
    let mut tokens: Vec<Token> = Vec::new();
    let mut used: usize = 0;
    let ghost readings = models(numbers@);
    loop
        invariant
            cursor.items() == input@,
            readings == models(numbers@),
            used <= numbers@.len(),
            tokenization(input@, readings) == followed_by(
                models(tokens@),
                tokens_from(input@, cursor.position(), readings, used as nat),
            ),
        decreases input@.len() - cursor.position(),
    {
        proof {
            cursor.lemma_in_bounds();
            lemma_scan_advances(input@, cursor.position());
        }
        let ghost before = models(tokens@);
        let ghost at = cursor.position();
        match next_lexeme(&mut cursor) {
            Lexeme::End => {
                assert(before + Seq::<TokenModel>::empty() =~= before);
                return Ok(tokens);
            },
            Lexeme::Error(error) => {
                return Err(error);
            },
            Lexeme::Token(token) => {
                let ghost model = token@;
                tokens.push(token);
                proof {
                    assert(models(tokens@) =~= before.push(model));
                    lemma_followed_by_push(
                        before,
                        model,
                        tokens_from(input@, cursor.position(), readings, used as nat),
                    );
                }
            },
            Lexeme::Number(_) => {
                if used >= numbers.len() {
                    return Err(ParseError::InvalidNumber);
                }
                match &numbers[used] {
                    None => {
                        return Err(ParseError::InvalidNumber);
                    },
                    Some(number) => {
                        let token = Token::Number(number.clone());
                        let ghost model = token@;
                        tokens.push(token);
                        used = used + 1;
                        proof {
                            assert(readings[used - 1] == Some(number@));
                            assert(models(tokens@) =~= before.push(model));
                            lemma_followed_by_push(
                                before,
                                model,
                                tokens_from(input@, cursor.position(), readings, used as nat),
                            );
                        }
                    },
                }
            },
        }
    }
}

proof fn lemma_followed_by_push(
    tokens: Seq<TokenModel>,
    token: TokenModel,
    rest: Result<Seq<TokenModel>, ParseError>,
)
    ensures
        followed_by(tokens, followed_by(seq![token], rest)) == followed_by(tokens.push(token), rest),
{
    if let Ok(more) = rest {
        assert(tokens + (seq![token] + more) =~= tokens.push(token) + more);
    }
}

} // verus!
