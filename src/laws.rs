use crate::lexer::{digits_end, digits_value, lex, lex_from, number_at, quote_from, TokenView};
use crate::parser::{parse_tokens, value_at};
use crate::read_json;
use crate::value::{all_digits, is_digit, Json, NumberView};
use vstd::prelude::*;

verus! {

proof fn lemma_digits_end_at(s: Seq<char>, i: int, j: int)
    requires
        0 <= i <= j <= s.len(),
        forall|k: int| i <= k < j ==> is_digit(#[trigger] s[k]),
        j == s.len() || !is_digit(s[j]),
    ensures
        digits_end(s, i) == j,
    decreases j - i,
{
    if i < j {
        lemma_digits_end_at(s, i + 1, j);
    }
}

proof fn lemma_quote_from_at(s: Seq<char>, i: int, j: int)
    requires
        0 <= i <= j <= s.len(),
        forall|k: int| i <= k < j ==> #[trigger] s[k] != '"',
        j == s.len() || s[j] == '"',
    ensures
        quote_from(s, i) == j,
    decreases j - i,
{
    if i < j {
        lemma_quote_from_at(s, i + 1, j);
    }
}

/// Text that lexes to exactly one token forms the value that token stands for.
proof fn lemma_single_token(s: Seq<char>, t: TokenView, v: Json, depth: nat)
    requires
        lex(s) == Ok::<Seq<TokenView>, crate::lexer::LexError>(seq![t]),
        value_at(seq![t], 0, depth) == Ok::<(Json, nat), crate::parser::ParseError>((v, 1)),
    ensures
        read_json(s, depth) == Ok::<Json, crate::Error>(v),
{
    assert(parse_tokens(seq![t], depth) == Ok::<Json, crate::parser::ParseError>(v));
}

/// The words `true`, `false` and `null` read as the two booleans and null.
pub proof fn lemma_keyword_literals(depth: nat)
    ensures
        read_json(seq!['t', 'r', 'u', 'e'], depth) == Ok::<Json, crate::Error>(Json::Bool(true)),
        read_json(seq!['f', 'a', 'l', 's', 'e'], depth) == Ok::<Json, crate::Error>(
            Json::Bool(false),
        ),
        read_json(seq!['n', 'u', 'l', 'l'], depth) == Ok::<Json, crate::Error>(Json::Null),
{
    let t = seq!['t', 'r', 'u', 'e'];
    assert(t.subrange(0, 4) =~= t);
    assert(lex_from(t, 4) == Ok::<Seq<TokenView>, crate::lexer::LexError>(Seq::empty()));
    assert(seq![TokenView::True] + Seq::<TokenView>::empty() =~= seq![TokenView::True]);
    lemma_single_token(t, TokenView::True, Json::Bool(true), depth);
    let f = seq!['f', 'a', 'l', 's', 'e'];
    assert(f.subrange(0, 5) =~= f);
    assert(lex_from(f, 5) == Ok::<Seq<TokenView>, crate::lexer::LexError>(Seq::empty()));
    assert(seq![TokenView::False] + Seq::<TokenView>::empty() =~= seq![TokenView::False]);
    lemma_single_token(f, TokenView::False, Json::Bool(false), depth);
    let n = seq!['n', 'u', 'l', 'l'];
    assert(n.subrange(0, 4) =~= n);
    assert(lex_from(n, 4) == Ok::<Seq<TokenView>, crate::lexer::LexError>(Seq::empty()));
    assert(seq![TokenView::Null] + Seq::<TokenView>::empty() =~= seq![TokenView::Null]);
    lemma_single_token(n, TokenView::Null, Json::Null, depth);
}

/// The optional minus sign of a number literal.
pub open spec fn sign(negative: bool) -> Seq<char> {
    if negative {
        seq!['-']
    } else {
        Seq::empty()
    }
}

/// An integer literal, with or without a minus sign, reads as the integer it
/// spells, as long as that fits in an `i64`.
pub proof fn lemma_integer_literal(negative: bool, digits: Seq<char>, depth: nat)
    requires
        digits.len() > 0,
        all_digits(digits),
        i64::MIN <= (if negative { -digits_value(digits) } else { digits_value(digits) })
            <= i64::MAX,
    ensures
        read_json(sign(negative) + digits, depth) == Ok::<Json, crate::Error>(
            Json::Number(
                NumberView::Integer(
                    if negative {
                        -digits_value(digits)
                    } else {
                        digits_value(digits)
                    },
                ),
            ),
        ),
{
    let s = sign(negative) + digits;
    let ws = sign(negative).len() as int;
    let n = if negative { -digits_value(digits) } else { digits_value(digits) };
    assert forall|k: int| ws <= k < s.len() implies is_digit(#[trigger] s[k]) by {
        assert(s[k] == digits[k - ws]);
    }
    assert(is_digit(s[0]) || s[0] == '-') by {
        if !negative {
            assert(s[0] == digits[0]);
        }
    }
    lemma_digits_end_at(s, ws, s.len() as int);
    assert(s.subrange(ws, s.len() as int) =~= digits);
    assert(number_at(s, 0) == Ok::<(NumberView, int), crate::lexer::LexError>(
        (NumberView::Integer(n), s.len() as int),
    ));
    assert(lex_from(s, s.len() as int) == Ok::<Seq<TokenView>, crate::lexer::LexError>(
        Seq::empty(),
    ));
    let t = TokenView::Number(NumberView::Integer(n));
    assert(seq![t] + Seq::<TokenView>::empty() =~= seq![t]);
    lemma_single_token(s, t, Json::Number(NumberView::Integer(n)), depth);
}

/// A literal with a decimal point reads as a float that keeps its sign and both
/// runs of digits.
pub proof fn lemma_float_literal(negative: bool, whole: Seq<char>, fraction: Seq<char>, depth: nat)
    requires
        whole.len() > 0,
        fraction.len() > 0,
        all_digits(whole),
        all_digits(fraction),
    ensures
        read_json(sign(negative) + whole + seq!['.'] + fraction, depth) == Ok::<Json, crate::Error>(
            Json::Number(NumberView::Float(negative, whole, fraction)),
        ),
{
    let s = sign(negative) + whole + seq!['.'] + fraction;
    let ws = sign(negative).len() as int;
    let we = ws + whole.len();
    assert forall|k: int| ws <= k < we implies is_digit(#[trigger] s[k]) by {
        assert(s[k] == whole[k - ws]);
    }
    assert forall|k: int| we + 1 <= k < s.len() implies is_digit(#[trigger] s[k]) by {
        assert(s[k] == fraction[k - we - 1]);
    }
    assert(s[we] == '.');
    assert(is_digit(s[0]) || s[0] == '-') by {
        if !negative {
            assert(s[0] == whole[0]);
        }
    }
    lemma_digits_end_at(s, ws, we);
    lemma_digits_end_at(s, we + 1, s.len() as int);
    assert(s.subrange(ws, we) =~= whole);
    assert(s.subrange(we + 1, s.len() as int) =~= fraction);
    let nv = NumberView::Float(negative, whole, fraction);
    assert(number_at(s, 0) == Ok::<(NumberView, int), crate::lexer::LexError>(
        (nv, s.len() as int),
    ));
    assert(lex_from(s, s.len() as int) == Ok::<Seq<TokenView>, crate::lexer::LexError>(
        Seq::empty(),
    ));
    let t = TokenView::Number(nv);
    assert(seq![t] + Seq::<TokenView>::empty() =~= seq![t]);
    lemma_single_token(s, t, Json::Number(nv), depth);
}

/// Text between two quotes that holds no quote reads as that text, unchanged.
pub proof fn lemma_string_literal(body: Seq<char>, depth: nat)
    requires
        forall|k: int| 0 <= k < body.len() ==> #[trigger] body[k] != '"',
    ensures
        read_json(seq!['"'] + body + seq!['"'], depth) == Ok::<Json, crate::Error>(Json::Str(body)),
{
    let s = seq!['"'] + body + seq!['"'];
    let e = s.len() - 1;
    assert forall|k: int| 1 <= k < e implies #[trigger] s[k] != '"' by {
        assert(s[k] == body[k - 1]);
    }
    lemma_quote_from_at(s, 1, e);
    assert(s.subrange(1, e) =~= body);
    assert(lex_from(s, s.len() as int) == Ok::<Seq<TokenView>, crate::lexer::LexError>(
        Seq::empty(),
    ));
    let t = TokenView::Str(body);
    assert(seq![t] + Seq::<TokenView>::empty() =~= seq![t]);
    lemma_single_token(s, t, Json::Str(body), depth);
}

/// `[]` reads as the empty array and `{}` as the empty object, wherever one
/// level of nesting is allowed.
pub proof fn lemma_empty_containers(depth: nat)
    requires
        depth >= 1,
    ensures
        read_json(seq!['[', ']'], depth) == Ok::<Json, crate::Error>(Json::Array(Seq::empty())),
        read_json(seq!['{', '}'], depth) == Ok::<Json, crate::Error>(
            Json::Object(Map::empty()),
        ),
{
    let a = seq!['[', ']'];
    assert(lex_from(a, 2) == Ok::<Seq<TokenView>, crate::lexer::LexError>(Seq::empty()));
    assert(lex_from(a, 1) == Ok::<Seq<TokenView>, crate::lexer::LexError>(
        seq![TokenView::RightBracket],
    )) by {
        assert(seq![TokenView::RightBracket] + Seq::<TokenView>::empty() =~= seq![
            TokenView::RightBracket,
        ]);
    }
    let ta = seq![TokenView::LeftBracket, TokenView::RightBracket];
    assert(seq![TokenView::LeftBracket] + seq![TokenView::RightBracket] =~= ta);
    assert(lex(a) == Ok::<Seq<TokenView>, crate::lexer::LexError>(ta));
    assert(parse_tokens(ta, depth) == Ok::<Json, crate::parser::ParseError>(
        Json::Array(Seq::empty()),
    ));
    let o = seq!['{', '}'];
    assert(lex_from(o, 2) == Ok::<Seq<TokenView>, crate::lexer::LexError>(Seq::empty()));
    assert(lex_from(o, 1) == Ok::<Seq<TokenView>, crate::lexer::LexError>(
        seq![TokenView::RightBrace],
    )) by {
        assert(seq![TokenView::RightBrace] + Seq::<TokenView>::empty() =~= seq![
            TokenView::RightBrace,
        ]);
    }
    let to = seq![TokenView::LeftBrace, TokenView::RightBrace];
    assert(seq![TokenView::LeftBrace] + seq![TokenView::RightBrace] =~= to);
    assert(lex(o) == Ok::<Seq<TokenView>, crate::lexer::LexError>(to));
    assert(parse_tokens(to, depth) == Ok::<Json, crate::parser::ParseError>(
        Json::Object(Map::empty()),
    ));
}

} // verus!
