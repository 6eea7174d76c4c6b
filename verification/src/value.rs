//! Typed field values.

use crate::binary32;
use crate::json::{Json, JsonView};
use crate::literal;
use crate::narrowing;
use crate::text;
use std::cmp::Ordering;
use vstd::prelude::*;
use vstd::std_specs::cmp::PartialEqSpec;

verus! {

/// A field's value.
///
/// Numbers are single precision and held as their bit pattern, by which they are told apart: the
/// two zeros differ, and a NaN equals a NaN of the same pattern.
#[derive(Debug)]
pub enum Value {
    String(String),
    Number(u32),
    Bool(bool),
}

/// What a [`Value`] holds.
pub enum ValueView {
    String(Seq<char>),
    Number(u32),
    Bool(bool),
}

impl View for Value {
    type V = ValueView;

    open spec fn view(&self) -> ValueView {
        match self {
            Value::String(s) => ValueView::String(s@),
            Value::Number(n) => ValueView::Number(*n),
            Value::Bool(b) => ValueView::Bool(*b),
        }
    }
}

/// The order of two values: none between values of different types, nor where a NaN takes part.
pub open spec fn value_order(a: ValueView, b: ValueView) -> Option<Ordering> {
    match (a, b) {
        (ValueView::String(x), ValueView::String(y)) => Some(text::text_order(x, y)),
        (ValueView::Number(x), ValueView::Number(y)) => binary32::numeric_order(x, y),
        (ValueView::Bool(x), ValueView::Bool(y)) => if x == y {
            Some(Ordering::Equal)
        } else if y {
            Some(Ordering::Less)
        } else {
            Some(Ordering::Greater)
        },
        _ => None,
    }
}

impl PartialEq for Value {
    fn eq(&self, other: &Value) -> (r: bool) {
        match (self, other) {
            (Value::String(a), Value::String(b)) => *a == *b,
            (Value::Number(a), Value::Number(b)) => *a == *b,
            (Value::Bool(a), Value::Bool(b)) => *a == *b,
            _ => false,
        }
    }
}

impl vstd::std_specs::cmp::PartialEqSpecImpl for Value {
    open spec fn obeys_eq_spec() -> bool {
        true
    }

    open spec fn eq_spec(&self, other: &Value) -> bool {
        self@ == other@
    }
}

impl Eq for Value {

}

impl PartialOrd for Value {
    fn partial_cmp(&self, other: &Value) -> (r: Option<Ordering>) {
        match (self, other) {
            (Value::String(a), Value::String(b)) => Some(text::order(a.as_str(), b.as_str())),
            (Value::Number(a), Value::Number(b)) => binary32::order(*a, *b),
            (Value::Bool(a), Value::Bool(b)) => if *a == *b {
                Some(Ordering::Equal)
            } else if *b {
                Some(Ordering::Less)
            } else {
                Some(Ordering::Greater)
            },
            _ => None,
        }
    }
}

impl vstd::std_specs::cmp::PartialOrdSpecImpl for Value {
    open spec fn obeys_partial_cmp_spec() -> bool {
        true
    }

    open spec fn partial_cmp_spec(&self, other: &Value) -> Option<Ordering> {
        value_order(self@, other@)
    }
}

/// A piece of what a value feeds a hasher.
pub enum HashPart {
    Tag(u8),
    Text(Seq<char>),
    Number(u32),
    Flag(bool),
}

/// The tag of a value's type.
pub open spec fn hash_tag(value: ValueView) -> u8 {
    match value {
        ValueView::String(_) => 0,
        ValueView::Number(_) => 1,
        ValueView::Bool(_) => 2,
    }
}

/// What a value feeds a hasher: the tag of its type, then what it holds.
pub open spec fn hash_data(value: ValueView) -> Seq<HashPart> {
    seq![
        HashPart::Tag(hash_tag(value)),
        match value {
            ValueView::String(s) => HashPart::Text(s),
            ValueView::Number(n) => HashPart::Number(n),
            ValueView::Bool(b) => HashPart::Flag(b),
        },
    ]
}

/// `String`'s `Hash` of the standard library, of which nothing is stated.
pub assume_specification<H>[ <std::string::String as std::hash::Hash>::hash ](
    s: &std::string::String,
    state: &mut H,
) where H: std::hash::Hasher
;

/// `u8`'s `Hash` of the standard library, of which nothing is stated.
pub assume_specification<H>[ <u8 as std::hash::Hash>::hash ](n: &u8, state: &mut H) where
    H: std::hash::Hasher
;

/// `u32`'s `Hash` of the standard library, of which nothing is stated.
pub assume_specification<H>[ <u32 as std::hash::Hash>::hash ](n: &u32, state: &mut H) where
    H: std::hash::Hasher
;

/// `bool`'s `Hash` of the standard library, of which nothing is stated.
pub assume_specification<H>[ <bool as std::hash::Hash>::hash ](b: &bool, state: &mut H) where
    H: std::hash::Hasher
;

/// A value feeds a hasher what [`hash_data`] lists, piece by piece. What the hasher makes of it is
/// the hasher's own, and is not stated.
impl std::hash::Hash for Value {
    fn hash<H: std::hash::Hasher>(&self, state: &mut H) {
        self.tag().hash(state);
        match self {
            Value::String(s) => s.hash(state),
            Value::Number(n) => n.hash(state),
            Value::Bool(b) => b.hash(state),
        }
    }
}

/// Equal values feed a hasher the same, and values that differ do not.
pub proof fn law_equal_values_hash_alike(a: Value, b: Value)
    ensures
        a.eq_spec(&b) <==> hash_data(a@) == hash_data(b@),
{
    let x = hash_data(a@);
    let y = hash_data(b@);
    if x == y {
        assert(x[0] == y[0] && x[1] == y[1]);
    }
}

/// Values are told apart by type and by what they hold, numbers by their bits: each equals itself, a
/// NaN too, and values of different types are never equal.
pub proof fn law_values_are_equal_by_their_bits(a: Value, b: Value)
    ensures
        a.eq_spec(&a),
        a.eq_spec(&b) <==> b.eq_spec(&a),
        a.eq_spec(&b) <==> a@ == b@,
        a matches Value::Number(x) ==> (b matches Value::Number(y) ==> (a.eq_spec(&b) <==> x == y)),
        hash_tag(a@) != hash_tag(b@) ==> !a.eq_spec(&b),
{
}

impl Clone for Value {
    fn clone(&self) -> (r: Value)
        ensures
            r@ == self@,
    {
        match self {
            Value::String(s) => Value::String(s.clone()),
            Value::Number(n) => Value::Number(*n),
            Value::Bool(b) => Value::Bool(*b),
        }
    }
}

/// The value that a token of a query stands for.
pub open spec fn value_of_token(token: Seq<char>) -> ValueView {
    match literal::number_bits(token) {
        Some(bits) => ValueView::Number(bits),
        None => if token == "true"@ {
            ValueView::Bool(true)
        } else if token == "false"@ {
            ValueView::Bool(false)
        } else {
            ValueView::String(token)
        },
    }
}

/// The value of a JSON scalar; none for anything else.
pub open spec fn value_of_json(json: JsonView) -> Option<ValueView> {
    match json {
        JsonView::String(s) => Some(ValueView::String(s)),
        JsonView::Number(Some(bits)) => Some(ValueView::Number(narrowing::rounded(bits))),
        JsonView::Bool(b) => Some(ValueView::Bool(b)),
        _ => None,
    }
}

impl Value {
    /// The tag of the value's type.
    fn tag(&self) -> (r: u8)
        ensures
            r == hash_tag(self@),
    {
        match self {
            Value::String(_) => 0,
            Value::Number(_) => 1,
            Value::Bool(_) => 2,
        }
    }

    /// The value of a JSON scalar: a string, a boolean, or a number rounded to single precision.
    pub fn from_json(v: Json) -> (r: Option<Value>)
        ensures
            match value_of_json(v@) {
                Some(value) => r matches Some(x) && x@ == value,
                None => r is None,
            },
    {
        match v {
            Json::String(s) => Some(Value::String(s)),
            Json::Number(Some(bits)) => Some(Value::Number(narrowing::narrow(bits))),
            Json::Number(None) => None,
            Json::Bool(b) => Some(Value::Bool(b)),
            Json::Other => None,
        }
    }

    /// Types a token: a number if it reads as one, else a boolean, else a string.
    pub fn from_string(v: &str) -> (r: Value)
        ensures
            r@ == value_of_token(v@),
    {
        if let Some(bits) = literal::read_number(v) {
            return Value::Number(bits);
        }
        if text::same(v, "true") {
            return Value::Bool(true);
        }
        if text::same(v, "false") {
            return Value::Bool(false);
        }
        Value::String(v.to_owned())
    }
}

} // verus!
