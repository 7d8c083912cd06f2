use crate::value::{all_digits, is_digit, number_well_formed, Decimal, Number, NumberView};
use vstd::prelude::*;
use vstd::std_specs::iter::IteratorSpec;

verus! {

broadcast use vstd::string::group_string_axioms;

/// One lexical unit of JSON text.
#[derive(Debug, PartialEq)]
pub enum Token {
    String(String),
    Number(Number),
    True,
    False,
    Null,
    LeftBrace,
    RightBrace,
    LeftBracket,
    RightBracket,
    Comma,
    Colon,
}

/// The mathematical meaning of a [`Token`].
pub enum TokenView {
    Str(Seq<char>),
    Number(NumberView),
    True,
    False,
    Null,
    LeftBrace,
    RightBrace,
    LeftBracket,
    RightBracket,
    Comma,
    Colon,
}

impl View for Token {
    type V = TokenView;

    open spec fn view(&self) -> TokenView {
        match self {
            Token::String(s) => TokenView::Str(s@),
            Token::Number(n) => TokenView::Number(n@),
            Token::True => TokenView::True,
            Token::False => TokenView::False,
            Token::Null => TokenView::Null,
            Token::LeftBrace => TokenView::LeftBrace,
            Token::RightBrace => TokenView::RightBrace,
            Token::LeftBracket => TokenView::LeftBracket,
            Token::RightBracket => TokenView::RightBracket,
            Token::Comma => TokenView::Comma,
            Token::Colon => TokenView::Colon,
        }
    }
}

/// Why a text could not be split into tokens.
#[derive(Debug, PartialEq, Eq, Clone, Copy, Structural)]
pub enum LexError {
    /// A string literal has no closing quote.
    UnterminatedString,
    /// A word that starts like `true`, `false` or `null` is not spelled so.
    InvalidLiteral,
    /// A character that starts no token.
    UnexpectedCharacter(char),
    /// A number does not read `-? digit+ (. digit+)?`, or its integer value
    /// does not fit in 64 signed bits.
    InvalidNumber,
}

pub open spec fn token_views(ts: Seq<Token>) -> Seq<TokenView> {
    ts.map_values(|t: Token| t@)
}

/// Every number token is well formed.
pub open spec fn tokens_well_formed(ts: Seq<TokenView>) -> bool {
    forall|i: int| 0 <= i < ts.len() ==> (#[trigger] ts[i] matches TokenView::Number(n) ==> number_well_formed(n))
}

/// The value of a run of decimal digits.
pub open spec fn digits_value(ds: Seq<char>) -> int
    decreases ds.len(),
{
    if ds.len() == 0 {
        0
    } else {
        digits_value(ds.drop_last()) * 10 + (ds.last() as int - '0' as int)
    }
}

/// The end of the run of digits that starts at `i`.
pub open spec fn digits_end(s: Seq<char>, i: int) -> int
    decreases s.len() - i,
{
    if 0 <= i < s.len() && is_digit(s[i]) {
        digits_end(s, i + 1)
    } else {
        i
    }
}

/// The index of the first `"` at or after `i`, or the length of `s` if there is none.
pub open spec fn quote_from(s: Seq<char>, i: int) -> int
    decreases s.len() - i,
{
    if 0 <= i < s.len() && s[i] != '"' {
        quote_from(s, i + 1)
    } else {
        i
    }
}

/// `s` holds the word `w` at index `i`.
pub open spec fn word_at(s: Seq<char>, i: int, w: Seq<char>) -> bool {
    0 <= i && i + w.len() <= s.len() && s.subrange(i, i + w.len()) == w
}

/// The number literal that starts at `i`, and the index just after it.
pub open spec fn number_at(s: Seq<char>, i: int) -> Result<(NumberView, int), LexError> {
    let negative = s[i] == '-';
    let ws = if negative { i + 1 } else { i };
    let we = digits_end(s, ws);
    if we == ws {
        Err(LexError::InvalidNumber)
    } else if we < s.len() && s[we] == '.' {
        let fe = digits_end(s, we + 1);
        if fe == we + 1 {
            Err(LexError::InvalidNumber)
        } else {
            Ok((NumberView::Float(negative, s.subrange(ws, we), s.subrange(we + 1, fe)), fe))
        }
    } else {
        let m = digits_value(s.subrange(ws, we));
        let n = if negative { -m } else { m };
        if i64::MIN <= n <= i64::MAX {
            Ok((NumberView::Integer(n), we))
        } else {
            Err(LexError::InvalidNumber)
        }
    }
}

/// The token that a one-character structural mark stands for.
pub open spec fn punct(c: char) -> Option<TokenView> {
    if c == '{' {
        Some(TokenView::LeftBrace)
    } else if c == '}' {
        Some(TokenView::RightBrace)
    } else if c == '[' {
        Some(TokenView::LeftBracket)
    } else if c == ']' {
        Some(TokenView::RightBracket)
    } else if c == ',' {
        Some(TokenView::Comma)
    } else if c == ':' {
        Some(TokenView::Colon)
    } else {
        None
    }
}

pub open spec fn is_space(c: char) -> bool {
    c == ' ' || c == '\n' || c == '\r'
}

/// `r` with `acc` put in front of its tokens.
pub open spec fn prefixed(acc: Seq<TokenView>, r: Result<Seq<TokenView>, LexError>) -> Result<
    Seq<TokenView>,
    LexError,
> {
    match r {
        Ok(ts) => Ok(acc + ts),
        Err(e) => Err(e),
    }
}

pub proof fn lemma_digits_end_bounds(s: Seq<char>, i: int)
    requires
        0 <= i <= s.len(),
    ensures
        i <= digits_end(s, i) <= s.len(),
        all_digits(s.subrange(i, digits_end(s, i))),
    decreases s.len() - i,
{
    if i < s.len() && is_digit(s[i]) {
        lemma_digits_end_bounds(s, i + 1);
        let e = digits_end(s, i);
        assert forall|k: int| 0 <= k < e - i implies is_digit(#[trigger] s.subrange(i, e)[k]) by {
            if k > 0 {
                assert(s.subrange(i, e)[k] == s.subrange(i + 1, e)[k - 1]);
            }
        }
    }
}

pub proof fn lemma_quote_from_bounds(s: Seq<char>, i: int)
    requires
        0 <= i <= s.len(),
    ensures
        i <= quote_from(s, i) <= s.len(),
        quote_from(s, i) < s.len() ==> s[quote_from(s, i)] == '"',
        forall|k: int| i <= k < quote_from(s, i) ==> s[k] != '"',
    decreases s.len() - i,
{
    if i < s.len() && s[i] != '"' {
        lemma_quote_from_bounds(s, i + 1);
    }
}

pub proof fn lemma_number_at_advances(s: Seq<char>, i: int)
    requires
        0 <= i < s.len(),
    ensures
        number_at(s, i) matches Ok((_, j)) ==> i < j <= s.len(),
{
    let ws = if s[i] == '-' { i + 1 } else { i };
    lemma_digits_end_bounds(s, ws);
    let we = digits_end(s, ws);
    if we < s.len() {
        lemma_digits_end_bounds(s, we + 1);
    }
}

/// The tokens of `s` from index `i` on.
pub open spec fn lex_from(s: Seq<char>, i: int) -> Result<Seq<TokenView>, LexError>
    decreases s.len() - i,
{
    if i < 0 || i >= s.len() {
        Ok(Seq::empty())
    } else {
        let c = s[i];
        if is_space(c) {
            lex_from(s, i + 1)
        } else if c == '"' {
            let e = quote_from(s, i + 1);
            proof {
                lemma_quote_from_bounds(s, i + 1);
            }
            if e >= s.len() {
                Err(LexError::UnterminatedString)
            } else {
                prefixed(seq![TokenView::Str(s.subrange(i + 1, e))], lex_from(s, e + 1))
            }
        } else if is_digit(c) || c == '-' {
            proof {
                lemma_number_at_advances(s, i);
            }
            match number_at(s, i) {
                Ok((n, j)) => prefixed(seq![TokenView::Number(n)], lex_from(s, j)),
                Err(e) => Err(e),
            }
        } else if c == 't' {
            if word_at(s, i, seq!['t', 'r', 'u', 'e']) {
                prefixed(seq![TokenView::True], lex_from(s, i + 4))
            } else {
                Err(LexError::InvalidLiteral)
            }
        } else if c == 'f' {
            if word_at(s, i, seq!['f', 'a', 'l', 's', 'e']) {
                prefixed(seq![TokenView::False], lex_from(s, i + 5))
            } else {
                Err(LexError::InvalidLiteral)
            }
        } else if c == 'n' {
            if word_at(s, i, seq!['n', 'u', 'l', 'l']) {
                prefixed(seq![TokenView::Null], lex_from(s, i + 4))
            } else {
                Err(LexError::InvalidLiteral)
            }
        } else if let Some(t) = punct(c) {
            prefixed(seq![t], lex_from(s, i + 1))
        } else {
            Err(LexError::UnexpectedCharacter(c))
        }
    }
}

/// The tokens of the text `s`, or the first lexical error in it.
pub open spec fn lex(s: Seq<char>) -> Result<Seq<TokenView>, LexError> {
    lex_from(s, 0)
}

/// Relies on `String::push`: appends `c` at the end of `s`.
#[verifier::external_body]
fn push_char(s: &mut String, c: char)
    ensures
        final(s)@ == old(s)@.push(c),
{
    s.push(c)
}

/// The characters of `s`, in order.
fn chars_of(s: &str) -> (r: Vec<char>)
    ensures
        r@ == s@,
{
    let mut it = s.chars();
    let mut out: Vec<char> = Vec::new();
    loop
        invariant
            out@ + it.remaining() == s@,
            it.decrease() is Some,
        decreases it.decrease()->0,
    {
        match it.next() {
            Some(c) => {
                out.push(c);
            },
            None => {
                assert(out@ =~= s@);
                return out;
            },
        }
    }
}

fn is_digit_char(c: char) -> (r: bool)
    ensures
        r == is_digit(c),
{
    '0' <= c && c <= '9'
}

/// Reads the run of digits that starts at `i` into a string.
fn scan_digits(cs: &Vec<char>, i: usize) -> (r: (String, usize))
    requires
        i <= cs.len(),
    ensures
        r.1 == digits_end(cs@, i as int),
        r.0@ == cs@.subrange(i as int, r.1 as int),
{
    let mut text = String::new();
    let mut j: usize = i;
    while j < cs.len() && is_digit_char(cs[j])
        invariant
            i <= j <= cs.len(),
            digits_end(cs@, i as int) == digits_end(cs@, j as int),
            text@ == cs@.subrange(i as int, j as int),
        decreases cs.len() - j,
    {
        push_char(&mut text, cs[j]);
        j = j + 1;
        assert(text@ =~= cs@.subrange(i as int, j as int));
    }
    (text, j)
}

proof fn lemma_digits_value_nonneg(ds: Seq<char>)
    requires
        all_digits(ds),
    ensures
        digits_value(ds) >= 0,
    decreases ds.len(),
{
    if ds.len() > 0 {
        assert(is_digit(ds[ds.len() - 1]));
        lemma_digits_value_nonneg(ds.drop_last());
    }
}

/// A prefix of a run of digits is worth no more than the whole run.
proof fn lemma_digits_value_prefix(ds: Seq<char>, k: int)
    requires
        all_digits(ds),
        0 <= k <= ds.len(),
    ensures
        digits_value(ds.subrange(0, k)) <= digits_value(ds),
    decreases ds.len(),
{
    if k < ds.len() {
        let d = ds.drop_last();
        assert(is_digit(ds[ds.len() - 1]));
        lemma_digits_value_prefix(d, k);
        lemma_digits_value_nonneg(d);
        assert(d.subrange(0, k) =~= ds.subrange(0, k));
    } else {
        assert(ds.subrange(0, k) =~= ds);
    }
}

/// The bound on the magnitude of an `i64`: 2 to the 63rd.
const MAGNITUDE_LIMIT: u64 = 9223372036854775808;

/// The integer that the digits `cs[ws..we]` spell, with a sign, if it fits in an `i64`.
fn integer_value(cs: &Vec<char>, ws: usize, we: usize, negative: bool) -> (r: Option<i64>)
    requires
        ws <= we <= cs.len(),
        all_digits(cs@.subrange(ws as int, we as int)),
    ensures
        ({
            let m = digits_value(cs@.subrange(ws as int, we as int));
            let n = if negative { -m } else { m };
            match r {
                Some(v) => v as int == n,
                None => !(i64::MIN <= n <= i64::MAX),
            }
        }),
{
    let ghost run = cs@.subrange(ws as int, we as int);
    let mut acc: u64 = 0;
    let mut k: usize = ws;
    while k < we
        invariant
            ws <= k <= we <= cs.len(),
            run == cs@.subrange(ws as int, we as int),
            all_digits(run),
            acc as int == digits_value(cs@.subrange(ws as int, k as int)),
            acc <= MAGNITUDE_LIMIT,
        decreases we - k,
    {
        proof {
            assert(cs@.subrange(ws as int, k as int) =~= run.subrange(0, k - ws));
            assert(cs@.subrange(ws as int, k + 1) =~= run.subrange(0, k + 1 - ws));
            assert(run.subrange(0, k + 1 - ws).drop_last() =~= run.subrange(0, k - ws));
            assert(is_digit(run[k - ws]));
            lemma_digits_value_prefix(run, k + 1 - ws);
        }
        let d = (cs[k] as u32 - '0' as u32) as u64;
        if acc > MAGNITUDE_LIMIT / 10 {
            assert(acc * 10 + d > MAGNITUDE_LIMIT) by (nonlinear_arith)
                requires
                    acc > MAGNITUDE_LIMIT / 10,
                    d >= 0,
            ;
            return None;
        }
        assert(acc * 10 + d <= MAGNITUDE_LIMIT + 9) by (nonlinear_arith)
            requires
                acc <= MAGNITUDE_LIMIT / 10,
                d <= 9,
        ;
        let next = acc * 10 + d;
        if next > MAGNITUDE_LIMIT {
            return None;
        }
        acc = next;
        k = k + 1;
    }
    assert(cs@.subrange(ws as int, k as int) =~= run);
    if negative {
        if acc == MAGNITUDE_LIMIT {
            Some(i64::MIN)
        } else {
            Some(-(acc as i64))
        }
    } else if acc > i64::MAX as u64 {
        None
    } else {
        Some(acc as i64)
    }
}

/// Reads the number literal that starts at `i`.
fn scan_number(cs: &Vec<char>, i: usize) -> (r: Result<(Number, usize), LexError>)
    requires
        i < cs.len(),
    ensures
        match r {
            Ok((n, j)) => number_at(cs@, i as int) == Ok::<(NumberView, int), LexError>(
                (n@, j as int),
            ) && number_well_formed(n@),
            Err(e) => number_at(cs@, i as int) == Err::<(NumberView, int), LexError>(e),
        },
{
    let negative = cs[i] == '-';
    let ws: usize = if negative { i + 1 } else { i };
    let (whole, we) = scan_digits(cs, ws);
    proof {
        lemma_digits_end_bounds(cs@, ws as int);
    }
    if we == ws {
        return Err(LexError::InvalidNumber);
    }
    if we < cs.len() && cs[we] == '.' {
        let (fraction, fe) = scan_digits(cs, we + 1);
        proof {
            lemma_digits_end_bounds(cs@, we + 1);
        }
        if fe == we + 1 {
            return Err(LexError::InvalidNumber);
        }
        return Ok((Number::Float(Decimal { negative, whole, fraction }), fe));
    }
    match integer_value(cs, ws, we, negative) {
        Some(v) => Ok((Number::Integer(v), we)),
        None => Err(LexError::InvalidNumber),
    }
}

/// `cs` holds the word `w` at index `i`.
fn has_word(cs: &Vec<char>, i: usize, w: &[char]) -> (r: bool)
    ensures
        r == word_at(cs@, i as int, w@),
{
    if i > cs.len() || w.len() > cs.len() - i {
        return false;
    }
    let mut k: usize = 0;
    while k < w.len()
        invariant
            i + w.len() <= cs.len(),
            k <= w.len(),
            forall|m: int| 0 <= m < k ==> cs@[i + m] == w@[m],
        decreases w.len() - k,
    {
        if cs[i + k] != w[k] {
            assert(cs@.subrange(i as int, i + w@.len())[k as int] != w@[k as int]);
            return false;
        }
        k = k + 1;
    }
    assert(cs@.subrange(i as int, i + w@.len()) =~= w@);
    true
}

/// The token that a one-character structural mark stands for.
fn punct_token(c: char) -> (r: Option<Token>)
    ensures
        match r {
            Some(t) => punct(c) == Some(t@),
            None => punct(c) is None,
        },
{
    if c == '{' {
        Some(Token::LeftBrace)
    } else if c == '}' {
        Some(Token::RightBrace)
    } else if c == '[' {
        Some(Token::LeftBracket)
    } else if c == ']' {
        Some(Token::RightBracket)
    } else if c == ',' {
        Some(Token::Comma)
    } else if c == ':' {
        Some(Token::Colon)
    } else {
        None
    }
}

proof fn lemma_prefixed_push(
    acc: Seq<TokenView>,
    t: TokenView,
    r: Result<Seq<TokenView>, LexError>,
)
    ensures
        prefixed(acc, prefixed(seq![t], r)) == prefixed(acc.push(t), r),
{
    if let Ok(ts) = r {
        assert(acc + (seq![t] + ts) =~= acc.push(t) + ts);
    }
}

/// Adds `t` to the tokens read so far, keeping the loop's account of what remains.
fn push_token(tokens: &mut Vec<Token>, t: Token)
    requires
        tokens_well_formed(token_views(old(tokens)@)),
        t@ matches TokenView::Number(n) ==> number_well_formed(n),
    ensures
        final(tokens)@ == old(tokens)@.push(t),
        token_views(final(tokens)@) == token_views(old(tokens)@).push(t@),
        tokens_well_formed(token_views(final(tokens)@)),
{
    tokens.push(t);
    assert(token_views(final(tokens)@) =~= token_views(old(tokens)@).push(t@));
}

/// Splits `s` into tokens, from left to right; fails on the first lexical error.
pub fn tokenize(s: &str) -> (r: Result<Vec<Token>, LexError>)
    ensures
        match r {
            Ok(ts) => lex(s@) == Ok::<Seq<TokenView>, LexError>(token_views(ts@))
                && tokens_well_formed(token_views(ts@)),
            Err(e) => lex(s@) == Err::<Seq<TokenView>, LexError>(e),
        },
{
    let cs = chars_of(s);
    let n = cs.len();
    let mut tokens: Vec<Token> = Vec::new();
    let mut i: usize = 0;
    assert(token_views(tokens@) =~= Seq::<TokenView>::empty());
    assert(prefixed(Seq::empty(), lex(cs@)) =~= lex(cs@)) by {
        if let Ok(ts) = lex(cs@) {
            assert(Seq::<TokenView>::empty() + ts =~= ts);
        }
    }
    while i < n
        invariant
            cs@ == s@,
            n == cs.len(),
            i <= n,
            lex(cs@) == prefixed(token_views(tokens@), lex_from(cs@, i as int)),
            tokens_well_formed(token_views(tokens@)),
        decreases n - i,
    {
        let ghost acc = token_views(tokens@);
        let c = cs[i];
        if c == ' ' || c == '\n' || c == '\r' {
            i = i + 1;
        } else if c == '"' {
            let mut text = String::new();
            let mut j: usize = i + 1;
            while j < n && cs[j] != '"'
                invariant
                    n == cs.len(),
                    i + 1 <= j <= n,
                    quote_from(cs@, i + 1) == quote_from(cs@, j as int),
                    text@ == cs@.subrange(i + 1, j as int),
                decreases n - j,
            {
                push_char(&mut text, cs[j]);
                j = j + 1;
                assert(text@ =~= cs@.subrange(i + 1, j as int));
            }
            if j >= n {
                return Err(LexError::UnterminatedString);
            }
            proof {
                lemma_prefixed_push(acc, TokenView::Str(text@), lex_from(cs@, j + 1));
            }
            push_token(&mut tokens, Token::String(text));
            i = j + 1;
        } else if is_digit_char(c) || c == '-' {
            match scan_number(&cs, i) {
                Ok((num, j)) => {
                    proof {
                        lemma_number_at_advances(cs@, i as int);
                        lemma_prefixed_push(acc, TokenView::Number(num@), lex_from(cs@, j as int));
                    }
                    push_token(&mut tokens, Token::Number(num));
                    i = j;
                },
                Err(e) => {
                    return Err(e);
                },
            }
        } else if c == 't' {
            if !has_word(&cs, i, &['t', 'r', 'u', 'e']) {
                return Err(LexError::InvalidLiteral);
            }
            proof {
                lemma_prefixed_push(acc, TokenView::True, lex_from(cs@, i + 4));
            }
            push_token(&mut tokens, Token::True);
            i = i + 4;
        } else if c == 'f' {
            if !has_word(&cs, i, &['f', 'a', 'l', 's', 'e']) {
                return Err(LexError::InvalidLiteral);
            }
            proof {
                lemma_prefixed_push(acc, TokenView::False, lex_from(cs@, i + 5));
            }
            push_token(&mut tokens, Token::False);
            i = i + 5;
        } else if c == 'n' {
            if !has_word(&cs, i, &['n', 'u', 'l', 'l']) {
                return Err(LexError::InvalidLiteral);
            }
            proof {
                lemma_prefixed_push(acc, TokenView::Null, lex_from(cs@, i + 4));
            }
            push_token(&mut tokens, Token::Null);
            i = i + 4;
        } else {
            match punct_token(c) {
                Some(t) => {
                    proof {
                        lemma_prefixed_push(acc, t@, lex_from(cs@, i + 1));
                    }
                    push_token(&mut tokens, t);
                    i = i + 1;
                },
                None => {
                    return Err(LexError::UnexpectedCharacter(c));
                },
            }
        }
    }
    assert(token_views(tokens@) + Seq::<TokenView>::empty() =~= token_views(tokens@));
    Ok(tokens)
}

} // verus!
