//! The JSON side of the library: tokens, the value tree, and the parser.

pub mod token;
pub mod value;

pub use value::{JsonModel, JsonObject, Member, Members};

use vstd::prelude::*;
use crate::cursor::Cursor;
use crate::model::models;
use crate::parser::token::{Token, TokenModel};
use crate::parser::value::{
    distinct_keys, has_key, lemma_key_index, lemma_with_member_distinct, with_member,
};

verus! {

/// Why a token sequence is no JSON value.
#[derive(Debug, Clone, Copy, PartialEq, Eq)]
pub enum StructuralError {
    /// A key of an object is not followed by a colon.
    MissingColon,
    /// Inside an object, where a member should begin, stands a token that
    /// is no key.
    InvalidTokenInObject,
    /// Where a value should begin stands a token that begins none, or the
    /// tokens end while an array or an object is open.
    UnexpectedToken,
}

/// The outcome of parsing from some position, and where the cursor rests
/// afterwards: past the value, or at the place of the error.
pub struct Parsed {
    pub outcome: Result<JsonModel, StructuralError>,
    pub next: nat,
}

/// The key that a token gives when it stands where a member begins: a
/// string is its own text, a number is its decimal rendering, a boolean is
/// the word for it. No other token is a key.
pub open spec fn key_text(token: TokenModel) -> Option<Seq<char>> {
    match token {
        TokenModel::String(text) => Some(text),
        TokenModel::Number(number) => Some(number.text),
        TokenModel::Boolean(b) => Some(
            if b {
                "true"@
            } else {
                "false"@
            },
        ),
        _ => None,
    }
}

/// The value that begins at `at`.
///
/// A literal token is a value by itself. An opening bracket begins an array
/// and an opening brace an object. Anything else, the end of the tokens
/// included, is an error at `at`.
pub open spec fn value_at(tokens: Seq<TokenModel>, at: nat) -> Parsed
    decreases tokens.len() - at, 0nat,
{
    if at >= tokens.len() {
        Parsed { outcome: Err(StructuralError::UnexpectedToken), next: at }
    } else {
        match tokens[at as int] {
            TokenModel::Null => Parsed { outcome: Ok(JsonModel::Null), next: at + 1 },
            TokenModel::Boolean(b) => Parsed { outcome: Ok(JsonModel::Boolean(b)), next: at + 1 },
            TokenModel::Number(number) => Parsed {
                outcome: Ok(JsonModel::Number(number)),
                next: at + 1,
            },
            TokenModel::String(text) => Parsed {
                outcome: Ok(JsonModel::String(text)),
                next: at + 1,
            },
            TokenModel::OpenBracket => items_at(tokens, at + 1, Seq::empty()),
            TokenModel::OpenBrace => members_at(tokens, at + 1, Seq::empty()),
            _ => Parsed { outcome: Err(StructuralError::UnexpectedToken), next: at },
        }
    }
}

/// The array whose items so far are `items` and whose next token stands at
/// `at`.
///
/// A closing bracket ends the array. A comma is passed over wherever it
/// stands: before the first item, after the last, or several in a row.
/// Any other token begins an item. The tokens may not end before the
/// bracket.
///
/// An item that parses always ends behind `at` and within the tokens
/// ([`lemma_value_bounds`]); the definition says so only to be well founded.
pub open spec fn items_at(tokens: Seq<TokenModel>, at: nat, items: Seq<JsonModel>) -> Parsed
    decreases tokens.len() - at, 1nat,
{
    if at >= tokens.len() {
        Parsed { outcome: Err(StructuralError::UnexpectedToken), next: at }
    } else {
        match tokens[at as int] {
            TokenModel::CloseBracket => Parsed { outcome: Ok(JsonModel::Array(items)), next: at + 1 },
            TokenModel::Comma => items_at(tokens, at + 1, items),
            _ => {
                let item = value_at(tokens, at);
                if item.outcome is Ok && at < item.next <= tokens.len() {
                    items_at(tokens, item.next, items.push(item.outcome->Ok_0))
                } else {
                    item
                }
            },
        }
    }
}

/// The object whose members so far are `members` and whose next token
/// stands at `at`.
///
/// A closing brace ends the object. A comma is passed over wherever it
/// stands. A string, a number or a boolean is a key: a colon must follow it,
/// and then a value, which is inserted under the key and replaces what an
/// earlier member with the same key held. Any other token is an error. The
/// tokens may not end before the brace.
///
/// A value that parses always ends behind its first token and within the
/// tokens ([`lemma_value_bounds`]); the definition says so only to be well
/// founded.
pub open spec fn members_at(
    tokens: Seq<TokenModel>,
    at: nat,
    members: Seq<(Seq<char>, JsonModel)>,
) -> Parsed
    decreases tokens.len() - at, 1nat,
{
    if at >= tokens.len() {
        Parsed { outcome: Err(StructuralError::UnexpectedToken), next: at }
    } else {
        match tokens[at as int] {
            TokenModel::CloseBrace => Parsed { outcome: Ok(JsonModel::Object(members)), next: at + 1 },
            TokenModel::Comma => members_at(tokens, at + 1, members),
            token => match key_text(token) {
                None => Parsed { outcome: Err(StructuralError::InvalidTokenInObject), next: at },
                Some(key) => {
                    if at + 1 < tokens.len() && tokens[at + 1 as int] is Colon {
                        let member = value_at(tokens, at + 2);
                        if member.outcome is Ok && at + 2 < member.next <= tokens.len() {
                            members_at(
                                tokens,
                                member.next,
                                with_member(members, key, member.outcome->Ok_0),
                            )
                        } else {
                            member
                        }
                    } else {
                        Parsed { outcome: Err(StructuralError::MissingColon), next: at + 1 }
                    }
                },
            },
        }
    }
}

/// The value of a whole document whose first token stands at `at`: the
/// value that begins there, or null where no token is left.
pub open spec fn document_at(tokens: Seq<TokenModel>, at: nat) -> Parsed {
    if at >= tokens.len() {
        Parsed { outcome: Ok(JsonModel::Null), next: at }
    } else {
        value_at(tokens, at)
    }
}

/// A parse never ends before the position at which it began nor beyond the
/// last token, and a value that parses takes at least one token. So where an
/// item or a member parses, the array or object goes on behind it.
pub proof fn lemma_value_bounds(tokens: Seq<TokenModel>, at: nat)
    requires
        at <= tokens.len(),
    ensures
        at <= value_at(tokens, at).next <= tokens.len(),
        value_at(tokens, at).outcome is Ok ==> at < value_at(tokens, at).next,
    decreases tokens.len() - at, 0nat,
{
    if at < tokens.len() {
        match tokens[at as int] {
            TokenModel::OpenBracket => lemma_items_bounds(tokens, at + 1, Seq::empty()),
            TokenModel::OpenBrace => lemma_members_bounds(tokens, at + 1, Seq::empty()),
            _ => {},
        }
    }
}

proof fn lemma_items_bounds(tokens: Seq<TokenModel>, at: nat, items: Seq<JsonModel>)
    requires
        at <= tokens.len(),
    ensures
        at <= items_at(tokens, at, items).next <= tokens.len(),
        items_at(tokens, at, items).outcome is Ok ==> at < items_at(tokens, at, items).next,
    decreases tokens.len() - at, 1nat,
{
    if at < tokens.len() {
        match tokens[at as int] {
            TokenModel::CloseBracket => {},
            TokenModel::Comma => lemma_items_bounds(tokens, at + 1, items),
            _ => {
                lemma_value_bounds(tokens, at);
                let item = value_at(tokens, at);
                if item.outcome is Ok {
                    lemma_items_bounds(tokens, item.next, items.push(item.outcome->Ok_0));
                }
            },
        }
    }
}

proof fn lemma_members_bounds(
    tokens: Seq<TokenModel>,
    at: nat,
    members: Seq<(Seq<char>, JsonModel)>,
)
    requires
        at <= tokens.len(),
    ensures
        at <= members_at(tokens, at, members).next <= tokens.len(),
        members_at(tokens, at, members).outcome is Ok ==> at < members_at(tokens, at, members).next,
    decreases tokens.len() - at, 1nat,
{
    if at < tokens.len() {
        match tokens[at as int] {
            TokenModel::CloseBrace => {},
            TokenModel::Comma => lemma_members_bounds(tokens, at + 1, members),
            token => {
                if let Some(key) = key_text(token) {
                    if at + 1 < tokens.len() && tokens[at + 1 as int] is Colon {
                        lemma_value_bounds(tokens, at + 2);
                        let member = value_at(tokens, at + 2);
                        if member.outcome is Ok {
                            lemma_members_bounds(
                                tokens,
                                member.next,
                                with_member(members, key, member.outcome->Ok_0),
                            );
                        }
                    }
                }
            },
        }
    }
}

/// `result`, with the cursor at `position`, is what `parsed` says.
pub open spec fn agrees(
    result: Result<JsonObject, StructuralError>,
    position: nat,
    parsed: Parsed,
) -> bool {
    &&& position == parsed.next
    &&& match parsed.outcome {
        Ok(value) => result matches Ok(found) && found@ == value,
        Err(error) => result matches Err(found) && found == error,
    }
}

/// The key that `token` gives, if it is one.
fn key_of(token: &Token) -> (key: Option<String>)
    ensures
        match key_text(token@) {
            Some(text) => key matches Some(found) && found@ == text,
            None => key is None,
        },
{
    match token {
        Token::String(text) => Some(text.clone()),
        Token::Number(number) => Some(number.text.clone()),
        Token::Boolean(b) => {
            if *b {
                Some("true".to_owned())
            } else {
                Some("false".to_owned())
            }
        },
        _ => None,
    }
}

/// Parses the value that begins at the cursor.
fn parse_value(tokens: &mut Cursor<Token>) -> (result: Result<JsonObject, StructuralError>)
    ensures
        final(tokens).items() == old(tokens).items(),
        agrees(
            result,
            final(tokens).position(),
            value_at(models(old(tokens).items()), old(tokens).position()),
        ),
        result is Ok ==> final(tokens).position() > old(tokens).position(),
        result matches Ok(value) ==> value@.well_formed(),
    decreases old(tokens).items().len() - old(tokens).position(), 0nat,
{
    match tokens.peek() {
        None => Err(StructuralError::UnexpectedToken),
        Some(token) => match token {
            Token::Null => {
                tokens.next();
                Ok(JsonObject::Null)
            },
            Token::Boolean(b) => {
                tokens.next();
                Ok(JsonObject::Boolean(*b))
            },
            Token::Number(number) => {
                tokens.next();
                Ok(JsonObject::Number(number.clone()))
            },
            Token::String(text) => {
                tokens.next();
                Ok(JsonObject::String(text.clone()))
            },
            Token::OpenBracket => {
                tokens.next();
                parse_array(tokens)
            },
            Token::OpenBrace => {
                tokens.next();
                parse_object(tokens)
            },
            _ => Err(StructuralError::UnexpectedToken),
        },
    }
}

/// Parses the rest of an array whose opening bracket has been consumed.
fn parse_array(tokens: &mut Cursor<Token>) -> (result: Result<JsonObject, StructuralError>)
    ensures
        final(tokens).items() == old(tokens).items(),
        agrees(
            result,
            final(tokens).position(),
            items_at(models(old(tokens).items()), old(tokens).position(), Seq::empty()),
        ),
        result is Ok ==> final(tokens).position() > old(tokens).position(),
        result matches Ok(value) ==> value@.well_formed(),
    decreases old(tokens).items().len() - old(tokens).position(), 1nat,
{
    let ghost all = models(tokens.items());
    let ghost start = tokens.position();
    let mut elements: Vec<JsonObject> = Vec::new();
    assert(models(elements@) =~= Seq::<JsonModel>::empty());
    loop
        invariant
            tokens.items() == old(tokens).items(),
            all == models(old(tokens).items()),
            start == old(tokens).position(),
            start <= tokens.position(),
            items_at(all, start, Seq::empty()) == items_at(
                all,
                tokens.position(),
                models(elements@),
            ),
            forall|i: int| 0 <= i < elements@.len() ==> (#[trigger] elements@[i])@.well_formed(),
        decreases all.len() - tokens.position(),
    {
        let ghost before = models(elements@);
        proof {
            tokens.lemma_in_bounds();
        }
        match tokens.peek() {
            None => {
                return Err(StructuralError::UnexpectedToken);
            },
            Some(token) => match token {
                Token::CloseBracket => {
                    tokens.next();
                    let array = JsonObject::Array(elements);
                    proof {
                        assert(array@->Array_0 =~= before);
                    }
                    return Ok(array);
                },
                Token::Comma => {
                    tokens.next();
                },
                _ => {
                    match parse_value(tokens) {
                        Ok(element) => {
                            proof {
                                tokens.lemma_in_bounds();
                            }
                            elements.push(element);
                            assert(models(elements@) =~= before.push(element@));
                        },
                        Err(error) => {
                            return Err(error);
                        },
                    }
                },
            },
        }
    }
}

/// Parses the rest of an object whose opening brace has been consumed.
fn parse_object(tokens: &mut Cursor<Token>) -> (result: Result<JsonObject, StructuralError>)
    ensures
        final(tokens).items() == old(tokens).items(),
        agrees(
            result,
            final(tokens).position(),
            members_at(models(old(tokens).items()), old(tokens).position(), Seq::empty()),
        ),
        result is Ok ==> final(tokens).position() > old(tokens).position(),
        result matches Ok(value) ==> value@.well_formed(),
    decreases old(tokens).items().len() - old(tokens).position(), 1nat,
{
    let ghost all = models(tokens.items());
    let ghost start = tokens.position();
    let mut members = Members::new();
    loop
        invariant
            tokens.items() == old(tokens).items(),
            all == models(old(tokens).items()),
            start == old(tokens).position(),
            start <= tokens.position(),
            members_at(all, start, Seq::empty()) == members_at(all, tokens.position(), members@),
            distinct_keys(members@),
            forall|i: int| 0 <= i < members@.len() ==> (#[trigger] members@[i]).1.well_formed(),
        decreases all.len() - tokens.position(),
    {
        let ghost before = members@;
        match tokens.peek() {
            None => {
                return Err(StructuralError::UnexpectedToken);
            },
            Some(token) => match token {
                Token::CloseBrace => {
                    tokens.next();
                    return Ok(JsonObject::Object(members));
                },
                Token::Comma => {
                    tokens.next();
                },
                _ => {
                    match key_of(token) {
                        None => {
                            return Err(StructuralError::InvalidTokenInObject);
                        },
                        Some(key) => {
                            tokens.next();
                            match tokens.peek() {
                                Some(Token::Colon) => {
                                    tokens.next();
                                },
                                _ => {
                                    return Err(StructuralError::MissingColon);
                                },
                            }
                            match parse_value(tokens) {
                                Ok(value) => {
                                    proof {
                                        tokens.lemma_in_bounds();
                                        lemma_with_member_distinct(before, key@, value@);
                                        if has_key(before, key@) {
                                            lemma_key_index(before, key@);
                                        }
                                    }
                                    members.insert(key, value);
                                },
                                Err(error) => {
                                    return Err(error);
                                },
                            }
                        },
                    }
                },
            },
        }
    }
}

/// Parses one JSON value from the tokens at the cursor and leaves the cursor
/// past it. Where no token is left, the value is null.
///
/// On an error the cursor rests at the token that is at fault, or at the end
/// where a token is missing. No object of the value has two members with
/// one key: of members with the same key, the last one's value is kept.
///
/// The parser descends once for each array or object that is open at one
/// time, so the depth of the call stack follows the depth of the nesting.
pub fn parse(tokens: &mut Cursor<Token>) -> (result: Result<JsonObject, StructuralError>)
    ensures
        final(tokens).items() == old(tokens).items(),
        agrees(
            result,
            final(tokens).position(),
            document_at(models(old(tokens).items()), old(tokens).position()),
        ),
        result matches Ok(value) ==> value@.well_formed(),
{
    match tokens.peek() {
        None => Ok(JsonObject::Null),
        Some(_) => parse_value(tokens),
    }
}

} // verus!
