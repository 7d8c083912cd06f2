use crate::lexer::{token_views, tokens_well_formed, Token, TokenView};
use crate::value::{
    json_map, json_of, json_seq, keys_distinct, well_formed, Decimal, Json, Number, Value,
};
use vstd::prelude::*;

verus! {

/// Why a token sequence is not one JSON value.
#[derive(Debug, PartialEq, Eq, Clone, Copy, Structural)]
pub enum ParseError {
    /// A token that the grammar does not allow where it stands.
    UnexpectedToken,
    /// The tokens end inside a value.
    UnexpectedEof,
    /// An object key is not followed by `:`.
    MissingColon,
    /// Arrays and objects are nested deeper than allowed.
    NestingTooDeep,
}

/// How deep arrays and objects may nest when no other limit is given.
pub const DEFAULT_MAX_DEPTH: usize = 128;

/// The value that starts at `pos`, and how many tokens it spans. `depth` is how
/// many more arrays or objects may be opened.
pub open spec fn value_at(ts: Seq<TokenView>, pos: int, depth: nat) -> Result<
    (Json, nat),
    ParseError,
>
    decreases ts.len() - pos, 2int,
{
    if pos < 0 || pos >= ts.len() {
        Err(ParseError::UnexpectedEof)
    } else {
        match ts[pos] {
            TokenView::Str(s) => Ok((Json::Str(s), 1)),
            TokenView::Number(n) => Ok((Json::Number(n), 1)),
            TokenView::True => Ok((Json::Bool(true), 1)),
            TokenView::False => Ok((Json::Bool(false), 1)),
            TokenView::Null => Ok((Json::Null, 1)),
            TokenView::LeftBracket => if depth == 0 {
                Err(ParseError::NestingTooDeep)
            } else {
                array_at(ts, pos, (depth - 1) as nat)
            },
            TokenView::LeftBrace => if depth == 0 {
                Err(ParseError::NestingTooDeep)
            } else {
                object_at(ts, pos, (depth - 1) as nat)
            },
            _ => Err(ParseError::UnexpectedToken),
        }
    }
}

/// The array whose `[` stands at `pos`, and how many tokens it spans; its
/// elements may open `depth` more arrays or objects.
pub open spec fn array_at(ts: Seq<TokenView>, pos: int, depth: nat) -> Result<
    (Json, nat),
    ParseError,
>
    decreases ts.len() - pos, 1int,
{
    if pos < 0 || pos >= ts.len() {
        Err(ParseError::UnexpectedEof)
    } else if pos + 1 < ts.len() && ts[pos + 1] is RightBracket {
        Ok((Json::Array(Seq::empty()), 2))
    } else {
        match elements_from(ts, pos + 1, depth, Seq::empty()) {
            Ok((items, end)) => Ok((Json::Array(items), (end - pos) as nat)),
            Err(e) => Err(e),
        }
    }
}

/// The elements from `pos` up to and including the closing `]`, after the
/// elements `acc` already read; with the index just past the `]`.
pub open spec fn elements_from(ts: Seq<TokenView>, pos: int, depth: nat, acc: Seq<Json>) -> Result<
    (Seq<Json>, int),
    ParseError,
>
    decreases ts.len() - pos, 3int,
{
    if pos < 0 || pos >= ts.len() {
        Err(ParseError::UnexpectedEof)
    } else {
        match value_at(ts, pos, depth) {
            Err(e) => Err(e),
            Ok((v, n)) => {
                let next = pos + n;
                if next >= ts.len() {
                    Err(ParseError::UnexpectedEof)
                } else {
                    match ts[next] {
                        TokenView::Comma => elements_from(ts, next + 1, depth, acc.push(v)),
                        TokenView::RightBracket => Ok((acc.push(v), next + 1)),
                        _ => Err(ParseError::UnexpectedToken),
                    }
                }
            },
        }
    }
}

/// The object whose `{` stands at `pos`, and how many tokens it spans; its
/// member values may open `depth` more arrays or objects.
pub open spec fn object_at(ts: Seq<TokenView>, pos: int, depth: nat) -> Result<
    (Json, nat),
    ParseError,
>
    decreases ts.len() - pos, 1int,
{
    if pos < 0 || pos >= ts.len() {
        Err(ParseError::UnexpectedEof)
    } else if pos + 1 < ts.len() && ts[pos + 1] is RightBrace {
        Ok((Json::Object(Map::empty()), 2))
    } else {
        match members_from(ts, pos + 1, depth, Map::empty()) {
            Ok((m, end)) => Ok((Json::Object(m), (end - pos) as nat)),
            Err(e) => Err(e),
        }
    }
}

/// The members from `pos` up to and including the closing `}`, entered into
/// `acc` in order, a later one replacing an earlier one with the same key; with
/// the index just past the `}`.
pub open spec fn members_from(
    ts: Seq<TokenView>,
    pos: int,
    depth: nat,
    acc: Map<Seq<char>, Json>,
) -> Result<(Map<Seq<char>, Json>, int), ParseError>
    decreases ts.len() - pos, 3int,
{
    if pos < 0 || pos >= ts.len() {
        Err(ParseError::UnexpectedEof)
    } else {
        match ts[pos] {
            TokenView::Str(k) => if pos + 1 >= ts.len() || !(ts[pos + 1] is Colon) {
                Err(ParseError::MissingColon)
            } else {
                match value_at(ts, pos + 2, depth) {
                    Err(e) => Err(e),
                    Ok((v, n)) => {
                        let next = pos + 2 + n;
                        if next >= ts.len() {
                            Err(ParseError::UnexpectedEof)
                        } else {
                            match ts[next] {
                                TokenView::Comma => members_from(
                                    ts,
                                    next + 1,
                                    depth,
                                    acc.insert(k, v),
                                ),
                                TokenView::RightBrace => Ok((acc.insert(k, v), next + 1)),
                                _ => Err(ParseError::UnexpectedToken),
                            }
                        }
                    },
                }
            },
            _ => Err(ParseError::UnexpectedToken),
        }
    }
}

/// The value that the whole token sequence forms.
pub open spec fn parse_tokens(ts: Seq<TokenView>, max_depth: nat) -> Result<Json, ParseError> {
    match value_at(ts, 0, max_depth) {
        Ok((v, n)) => if n == ts.len() {
            Ok(v)
        } else {
            Err(ParseError::UnexpectedToken)
        },
        Err(e) => Err(e),
    }
}

proof fn lemma_json_seq_push(vs: Seq<Value>, v: Value)
    ensures
        json_seq(vs.push(v)) == json_seq(vs).push(json_of(v)),
{
    assert(vs.push(v).subrange(0, vs.len() as int) =~= vs);
}

proof fn lemma_json_map_push(es: Seq<(String, Value)>, e: (String, Value))
    ensures
        json_map(es.push(e)) == json_map(es).insert(e.0@, json_of(e.1)),
{
    assert(es.push(e).subrange(0, es.len() as int) =~= es);
}

/// Replacing the member with a given key sets that key in the map.
proof fn lemma_json_map_update(es: Seq<(String, Value)>, i: int, e: (String, Value))
    requires
        keys_distinct(es),
        0 <= i < es.len(),
        es[i].0@ == e.0@,
    ensures
        json_map(es.update(i, e)) == json_map(es).insert(e.0@, json_of(e.1)),
    decreases es.len(),
{
    let last = es.len() - 1;
    let prefix = es.subrange(0, last);
    let updated = es.update(i, e);
    if i == last {
        assert(updated.subrange(0, last) =~= prefix);
        assert(json_map(updated) =~= json_map(es).insert(e.0@, json_of(e.1)));
    } else {
        assert(updated.subrange(0, last) =~= prefix.update(i, e));
        lemma_json_map_update(prefix, i, e);
        assert(es[last].0@ != e.0@);
        assert(json_map(updated) =~= json_map(es).insert(e.0@, json_of(e.1)));
    }
}

/// A copy of a number.
fn copy_number(n: &Number) -> (r: Number)
    ensures
        r@ == n@,
{
    match n {
        Number::Integer(i) => Number::Integer(*i),
        Number::Float(d) => Number::Float(
            Decimal { negative: d.negative, whole: d.whole.clone(), fraction: d.fraction.clone() },
        ),
    }
}

/// Enters a member into an object's members, replacing the one with the same key.
fn insert_member(entries: &mut Vec<(String, Value)>, key: String, value: Value)
    requires
        keys_distinct(old(entries)@),
    ensures
        keys_distinct(final(entries)@),
        (forall|i: int|
            0 <= i < old(entries)@.len() ==> well_formed(#[trigger] old(entries)@[i].1))
            && well_formed(value) ==> forall|i: int|
            0 <= i < final(entries)@.len() ==> well_formed(#[trigger] final(entries)@[i].1),
        json_map(final(entries)@) == json_map(old(entries)@).insert(key@, json_of(value)),
{
    let mut i: usize = 0;
    while i < entries.len()
        invariant
            i <= entries.len(),
            entries@ == old(entries)@,
            keys_distinct(entries@),
            forall|j: int| 0 <= j < i ==> (#[trigger] entries@[j]).0@ != key@,
        decreases entries.len() - i,
    {
        if entries[i].0 == key {
            proof {
                lemma_json_map_update(entries@, i as int, (key, value));
            }
            let ghost before = entries@;
            entries[i] = (key, value);
            assert(entries@ == before.update(i as int, (key, value)));
            assert forall|a: int, b: int| 0 <= a < b < entries@.len() implies entries@[a].0@
                != entries@[b].0@ by {
                assert(before[a].0@ != before[b].0@);
            }
            proof {
                if (forall|j: int| 0 <= j < before.len() ==> well_formed(#[trigger] before[j].1))
                    && well_formed(value) {
                    assert forall|j: int| 0 <= j < entries@.len() implies well_formed(
                        #[trigger] entries@[j].1,
                    ) by {
                        if j != i {
                            assert(well_formed(before[j].1));
                        } else {
                            assert(entries@[j].1 == value);
                        }
                    }
                }
            }
            return;
        }
        i = i + 1;
    }
    proof {
        lemma_json_map_push(entries@, (key, value));
    }
    entries.push((key, value));
    assert forall|a: int, b: int| 0 <= a < b < entries@.len() implies entries@[a].0@
        != entries@[b].0@ by {
        if b < entries@.len() - 1 {
            assert(old(entries)@[a].0@ != old(entries)@[b].0@);
        }
    }
}

/// Reads the value that starts at `pos`; on success also returns the index just past it.
fn parse_value(tokens: &Vec<Token>, pos: usize, depth: usize) -> (r: Result<
    (Value, usize),
    ParseError,
>)
    requires
        pos <= tokens.len(),
    ensures
        match r {
            Ok((v, end)) => pos < end <= tokens.len() && value_at(
                token_views(tokens@),
                pos as int,
                depth as nat,
            ) == Ok::<(Json, nat), ParseError>((v@, (end - pos) as nat)) && (tokens_well_formed(
                token_views(tokens@),
            ) ==> well_formed(v)),
            Err(e) => value_at(token_views(tokens@), pos as int, depth as nat) == Err::<
                (Json, nat),
                ParseError,
            >(e),
        },
    decreases tokens.len() - pos, 1int,
{
    if pos >= tokens.len() {
        return Err(ParseError::UnexpectedEof);
    }
    match &tokens[pos] {
        Token::String(s) => Ok((Value::String(s.clone()), pos + 1)),
        Token::Number(n) => {
            assert(token_views(tokens@)[pos as int] == tokens@[pos as int]@);
            Ok((Value::Number(copy_number(n)), pos + 1))
        },
        Token::True => Ok((Value::Bool(true), pos + 1)),
        Token::False => Ok((Value::Bool(false), pos + 1)),
        Token::Null => Ok((Value::Null, pos + 1)),
        Token::LeftBracket => {
            if depth == 0 {
                Err(ParseError::NestingTooDeep)
            } else {
                parse_array(tokens, pos, depth - 1)
            }
        },
        Token::LeftBrace => {
            if depth == 0 {
                Err(ParseError::NestingTooDeep)
            } else {
                parse_object(tokens, pos, depth - 1)
            }
        },
        _ => Err(ParseError::UnexpectedToken),
    }
}

/// Reads the array whose `[` stands at `pos`.
fn parse_array(tokens: &Vec<Token>, pos: usize, depth: usize) -> (r: Result<
    (Value, usize),
    ParseError,
>)
    requires
        pos < tokens.len(),
        tokens@[pos as int] is LeftBracket,
    ensures
        match r {
            Ok((v, end)) => pos < end <= tokens.len() && array_at(
                token_views(tokens@),
                pos as int,
                depth as nat,
            ) == Ok::<(Json, nat), ParseError>((v@, (end - pos) as nat)) && (tokens_well_formed(
                token_views(tokens@),
            ) ==> well_formed(v)),
            Err(e) => array_at(token_views(tokens@), pos as int, depth as nat) == Err::<
                (Json, nat),
                ParseError,
            >(e),
        },
    decreases tokens.len() - pos, 0int,
{
    let ghost ts = token_views(tokens@);
    let n = tokens.len();
    if pos + 1 < n && matches!(tokens[pos + 1], Token::RightBracket) {
        let empty: Vec<Value> = Vec::new();
        assert(json_seq(empty@) =~= Seq::<Json>::empty());
        return Ok((Value::Array(empty), pos + 2));
    }
    let mut items: Vec<Value> = Vec::new();
    let mut p: usize = pos + 1;
    assert(json_seq(items@) =~= Seq::<Json>::empty());
    loop
        invariant
            n == tokens.len(),
            ts == token_views(tokens@),
            pos < p <= n,
            !(pos + 1 < n && ts[pos + 1] is RightBracket),
            elements_from(ts, pos + 1, depth as nat, Seq::empty()) == elements_from(
                ts,
                p as int,
                depth as nat,
                json_seq(items@),
            ),
            tokens_well_formed(ts) ==> forall|i: int|
                0 <= i < items@.len() ==> well_formed(#[trigger] items@[i]),
        decreases n - p,
    {
        if p >= n {
            return Err(ParseError::UnexpectedEof);
        }
        let (v, q) = match parse_value(tokens, p, depth) {
            Ok(found) => found,
            Err(e) => {
                return Err(e);
            },
        };
        if q >= n {
            return Err(ParseError::UnexpectedEof);
        }
        proof {
            lemma_json_seq_push(items@, v);
        }
        match &tokens[q] {
            Token::Comma => {
                items.push(v);
                p = q + 1;
            },
            Token::RightBracket => {
                items.push(v);
                return Ok((Value::Array(items), q + 1));
            },
            _ => {
                return Err(ParseError::UnexpectedToken);
            },
        }
    }
}

/// Reads the object whose `{` stands at `pos`.
fn parse_object(tokens: &Vec<Token>, pos: usize, depth: usize) -> (r: Result<
    (Value, usize),
    ParseError,
>)
    requires
        pos < tokens.len(),
        tokens@[pos as int] is LeftBrace,
    ensures
        match r {
            Ok((v, end)) => pos < end <= tokens.len() && object_at(
                token_views(tokens@),
                pos as int,
                depth as nat,
            ) == Ok::<(Json, nat), ParseError>((v@, (end - pos) as nat)) && (tokens_well_formed(
                token_views(tokens@),
            ) ==> well_formed(v)),
            Err(e) => object_at(token_views(tokens@), pos as int, depth as nat) == Err::<
                (Json, nat),
                ParseError,
            >(e),
        },
    decreases tokens.len() - pos, 0int,
{
    let ghost ts = token_views(tokens@);
    let n = tokens.len();
    if pos + 1 < n && matches!(tokens[pos + 1], Token::RightBrace) {
        let empty: Vec<(String, Value)> = Vec::new();
        assert(json_map(empty@) =~= Map::<Seq<char>, Json>::empty());
        return Ok((Value::Object(empty), pos + 2));
    }
    let mut entries: Vec<(String, Value)> = Vec::new();
    let mut p: usize = pos + 1;
    assert(json_map(entries@) =~= Map::<Seq<char>, Json>::empty());
    loop
        invariant
            n == tokens.len(),
            ts == token_views(tokens@),
            pos < p <= n,
            !(pos + 1 < n && ts[pos + 1] is RightBrace),
            members_from(ts, pos + 1, depth as nat, Map::empty()) == members_from(
                ts,
                p as int,
                depth as nat,
                json_map(entries@),
            ),
            keys_distinct(entries@),
            tokens_well_formed(ts) ==> forall|i: int|
                0 <= i < entries@.len() ==> well_formed(#[trigger] entries@[i].1),
        decreases n - p,
    {
        if p >= n {
            return Err(ParseError::UnexpectedEof);
        }
        let key = match &tokens[p] {
            Token::String(k) => k.clone(),
            _ => {
                return Err(ParseError::UnexpectedToken);
            },
        };
        if p + 1 >= n || !matches!(tokens[p + 1], Token::Colon) {
            return Err(ParseError::MissingColon);
        }
        let (v, q) = match parse_value(tokens, p + 2, depth) {
            Ok(found) => found,
            Err(e) => {
                return Err(e);
            },
        };
        if q >= n {
            return Err(ParseError::UnexpectedEof);
        }
        match &tokens[q] {
            Token::Comma => {
                insert_member(&mut entries, key, v);
                p = q + 1;
            },
            Token::RightBrace => {
                insert_member(&mut entries, key, v);
                return Ok((Value::Object(entries), q + 1));
            },
            _ => {
                return Err(ParseError::UnexpectedToken);
            },
        }
    }
}

/// Reads the one value that `tokens` form, allowing arrays and objects to nest
/// `max_depth` deep; tokens left after that value are an error.
pub fn parse_with_max_depth(tokens: &Vec<Token>, max_depth: usize) -> (r: Result<
    Value,
    ParseError,
>)
    ensures
        match r {
            Ok(v) => parse_tokens(token_views(tokens@), max_depth as nat) == Ok::<
                Json,
                ParseError,
            >(v@) && (tokens_well_formed(token_views(tokens@)) ==> well_formed(v)),
            Err(e) => parse_tokens(token_views(tokens@), max_depth as nat) == Err::<
                Json,
                ParseError,
            >(e),
        },
{
    match parse_value(tokens, 0, max_depth) {
        Ok((v, end)) => {
            if end == tokens.len() {
                Ok(v)
            } else {
                Err(ParseError::UnexpectedToken)
            }
        },
        Err(e) => Err(e),
    }
}

/// Reads the one value that `tokens` form, with the default nesting limit.
pub fn parse(tokens: Vec<Token>) -> (r: Result<Value, ParseError>)
    ensures
        match r {
            Ok(v) => parse_tokens(token_views(tokens@), DEFAULT_MAX_DEPTH as nat) == Ok::<
                Json,
                ParseError,
            >(v@) && (tokens_well_formed(token_views(tokens@)) ==> well_formed(v)),
            Err(e) => parse_tokens(token_views(tokens@), DEFAULT_MAX_DEPTH as nat) == Err::<
                Json,
                ParseError,
            >(e),
        },
{
    parse_with_max_depth(&tokens, DEFAULT_MAX_DEPTH)
}

} // verus!
