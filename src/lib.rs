//! A small JSON reader: a lexer turns text into tokens, and a recursive-descent
//! parser turns the tokens into a [`Value`] tree.
mod laws;
mod lexer;
mod parser;
mod value;

pub use laws::{
    lemma_empty_containers, lemma_float_literal, lemma_integer_literal, lemma_keyword_literals,
    lemma_string_literal, sign,
};
pub use lexer::{
    digits_value, lex, lex_from, token_views, tokenize, tokens_well_formed, LexError, Token,
    TokenView,
};
pub use parser::{
    array_at, elements_from, members_from, object_at, parse, parse_tokens, parse_with_max_depth,
    value_at, ParseError, DEFAULT_MAX_DEPTH,
};
pub use value::{
    all_digits, is_digit, json_map, json_of, json_seq, keys_distinct, number_well_formed,
    well_formed, Decimal, Json, Number, NumberView, Value,
};

use vstd::prelude::*;

verus! {

/// Why a text is not a JSON document: the stage that failed, and how.
#[derive(Debug, PartialEq, Eq, Clone, Copy, Structural)]
pub enum Error {
    Lex(LexError),
    Parse(ParseError),
}

/// The description of each kind of error.
pub open spec fn message_of(e: Error) -> Seq<char> {
    match e {
        Error::Lex(LexError::UnterminatedString) => "lexer: unterminated string"@,
        Error::Lex(LexError::InvalidLiteral) => "lexer: invalid literal"@,
        Error::Lex(LexError::UnexpectedCharacter(_)) => "lexer: unexpected character"@,
        Error::Lex(LexError::InvalidNumber) => "lexer: invalid number"@,
        Error::Parse(ParseError::UnexpectedToken) => "parser: unexpected token"@,
        Error::Parse(ParseError::UnexpectedEof) => "parser: unexpected end of input"@,
        Error::Parse(ParseError::MissingColon) => "parser: missing colon after key"@,
        Error::Parse(ParseError::NestingTooDeep) => "parser: nesting too deep"@,
    }
}

impl Error {
    /// A human-readable description, naming the stage that failed.
    pub fn message(&self) -> (r: &'static str)
        ensures
            r@ == message_of(*self),
    {
        match self {
            Error::Lex(LexError::UnterminatedString) => "lexer: unterminated string",
            Error::Lex(LexError::InvalidLiteral) => "lexer: invalid literal",
            Error::Lex(LexError::UnexpectedCharacter(_)) => "lexer: unexpected character",
            Error::Lex(LexError::InvalidNumber) => "lexer: invalid number",
            Error::Parse(ParseError::UnexpectedToken) => "parser: unexpected token",
            Error::Parse(ParseError::UnexpectedEof) => "parser: unexpected end of input",
            Error::Parse(ParseError::MissingColon) => "parser: missing colon after key",
            Error::Parse(ParseError::NestingTooDeep) => "parser: nesting too deep",
        }
    }
}

/// The value that the text `s` denotes, or the first error found in it.
pub open spec fn read_json(s: Seq<char>, max_depth: nat) -> Result<Json, Error> {
    match lex(s) {
        Err(e) => Err(Error::Lex(e)),
        Ok(ts) => match parse_tokens(ts, max_depth) {
            Ok(v) => Ok(v),
            Err(e) => Err(Error::Parse(e)),
        },
    }
}

/// Reads the JSON document `s`, allowing arrays and objects to nest `max_depth` deep.
pub fn from_str_with_max_depth(s: &str, max_depth: usize) -> (r: Result<Value, Error>)
    ensures
        match r {
            Ok(v) => read_json(s@, max_depth as nat) == Ok::<Json, Error>(v@) && well_formed(v),
            Err(e) => read_json(s@, max_depth as nat) == Err::<Json, Error>(e),
        },
{
    match tokenize(s) {
        Err(e) => Err(Error::Lex(e)),
        Ok(tokens) => match parse_with_max_depth(&tokens, max_depth) {
            Ok(v) => Ok(v),
            Err(e) => Err(Error::Parse(e)),
        },
    }
}

/// Reads the JSON document `s`, with the default nesting limit.
pub fn from_str(s: &str) -> (r: Result<Value, Error>)
    ensures
        match r {
            Ok(v) => read_json(s@, DEFAULT_MAX_DEPTH as nat) == Ok::<Json, Error>(v@) && well_formed(
                v,
            ),
            Err(e) => read_json(s@, DEFAULT_MAX_DEPTH as nat) == Err::<Json, Error>(e),
        },
{
    from_str_with_max_depth(s, DEFAULT_MAX_DEPTH)
}

} // verus!
