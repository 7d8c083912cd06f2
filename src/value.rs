use vstd::prelude::*;

verus! {

/// A decimal literal with a fractional part, kept exactly as written:
/// `-12.50` is `negative`, `whole` "12" and `fraction` "50".
#[derive(Debug, PartialEq)]
pub struct Decimal {
    pub negative: bool,
    pub whole: String,
    pub fraction: String,
}

/// A JSON number: an integer literal, or a literal with a decimal point.
#[derive(Debug, PartialEq)]
pub enum Number {
    Integer(i64),
    Float(Decimal),
}

/// A parsed JSON document.
///
/// An object holds its members as key/value pairs whose keys are distinct.
#[derive(Debug, PartialEq)]
pub enum Value {
    Object(Vec<(String, Value)>),
    Array(Vec<Value>),
    String(String),
    Number(Number),
    Bool(bool),
    Null,
}

/// The mathematical meaning of a [`Number`]. A float is its sign, the digits
/// before the point and the digits after it.
pub enum NumberView {
    Integer(int),
    Float(bool, Seq<char>, Seq<char>),
}

/// The mathematical meaning of a [`Value`]: an object is a map from keys to values.
pub enum Json {
    Null,
    Bool(bool),
    Number(NumberView),
    Str(Seq<char>),
    Array(Seq<Json>),
    Object(Map<Seq<char>, Json>),
}

impl View for Number {
    type V = NumberView;

    open spec fn view(&self) -> NumberView {
        match self {
            Number::Integer(n) => NumberView::Integer(*n as int),
            Number::Float(d) => NumberView::Float(d.negative, d.whole@, d.fraction@),
        }
    }
}

/// The meaning of one value.
pub open spec fn json_of(v: Value) -> Json
    decreases v,
{
    match v {
        Value::Object(es) => Json::Object(json_map(es@)),
        Value::Array(vs) => Json::Array(json_seq(vs@)),
        Value::String(s) => Json::Str(s@),
        Value::Number(n) => Json::Number(n@),
        Value::Bool(b) => Json::Bool(b),
        Value::Null => Json::Null,
    }
}

/// The meanings of a sequence of values, in order.
pub open spec fn json_seq(vs: Seq<Value>) -> Seq<Json>
    decreases vs,
{
    if vs.len() == 0 {
        Seq::empty()
    } else {
        json_seq(vs.subrange(0, vs.len() - 1)).push(json_of(vs[vs.len() - 1]))
    }
}

/// The map that a sequence of members denotes; a later member wins over an
/// earlier one with the same key.
pub open spec fn json_map(es: Seq<(String, Value)>) -> Map<Seq<char>, Json>
    decreases es,
{
    if es.len() == 0 {
        Map::empty()
    } else {
        json_map(es.subrange(0, es.len() - 1)).insert(
            es[es.len() - 1].0@,
            json_of(es[es.len() - 1].1),
        )
    }
}

impl View for Value {
    type V = Json;

    open spec fn view(&self) -> Json {
        json_of(*self)
    }
}

pub open spec fn is_digit(c: char) -> bool {
    '0' <= c && c <= '9'
}

pub open spec fn all_digits(ds: Seq<char>) -> bool {
    forall|k: int| 0 <= k < ds.len() ==> is_digit(#[trigger] ds[k])
}

/// A float has digits on both sides of its point.
pub open spec fn number_well_formed(n: NumberView) -> bool {
    match n {
        NumberView::Integer(_) => true,
        NumberView::Float(_, whole, fraction) => whole.len() > 0 && fraction.len() > 0
            && all_digits(whole) && all_digits(fraction),
    }
}

/// No two members of the sequence have the same key.
pub open spec fn keys_distinct(es: Seq<(String, Value)>) -> bool {
    forall|i: int, j: int| 0 <= i < j < es.len() ==> es[i].0@ != es[j].0@
}

/// Every object in the tree has distinct keys, and every float is well formed.
pub open spec fn well_formed(v: Value) -> bool
    decreases v,
{
    match v {
        Value::Object(es) => keys_distinct(es@) && forall|i: int|
            0 <= i < es.len() ==> well_formed(#[trigger] es[i].1),
        Value::Array(vs) => forall|i: int| 0 <= i < vs.len() ==> well_formed(#[trigger] vs[i]),
        Value::Number(n) => number_well_formed(n@),
        _ => true,
    }
}

} // verus!
