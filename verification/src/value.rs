//! Annotation values stored in the forward index.
use vstd::prelude::*;

verus! {

/// A token annotation: a string (word, lemma, tag, ...) or an integer (head index, ...).
#[derive(Debug)]
pub enum Value {
    Str(String),
    Int(i64),
}

/// The mathematical content of a [`Value`].
pub enum ValueModel {
    Str(Seq<char>),
    Int(i64),
}

impl View for Value {
    type V = ValueModel;

    open spec fn view(&self) -> ValueModel {
        match self {
            Value::Str(s) => ValueModel::Str(s@),
            Value::Int(n) => ValueModel::Int(*n),
        }
    }
}

/// The value that stands in an unfilled slot: the empty string.
pub open spec fn absent_value() -> ValueModel {
    ValueModel::Str(Seq::empty())
}

impl Value {
    /// A string value holding a copy of `s`.
    pub fn from_text(s: &str) -> (v: Value)
        ensures
            v@ == ValueModel::Str(s@),
    {
        Value::Str(s.to_owned())
    }

    /// A string value that takes ownership of `s`.
    pub fn from_string(s: String) -> (v: Value)
        ensures
            v@ == ValueModel::Str(s@),
    {
        Value::Str(s)
    }

    /// An integer value.
    pub fn from_int(n: i64) -> (v: Value)
        ensures
            v@ == ValueModel::Int(n),
    {
        Value::Int(n)
    }

    /// The empty string value used for slots that hold no annotation.
    pub fn absent() -> (v: Value)
        ensures
            v@ == absent_value(),
    {
        Value::Str(String::new())
    }

    /// The integer held, if this is an integer value.
    pub fn as_int(&self) -> (r: Option<i64>)
        ensures
            r == (match self@ { ValueModel::Int(n) => Some(n), ValueModel::Str(_) => None::<i64> }),
    {
        match self {
            Value::Int(n) => Some(*n),
            Value::Str(_) => None,
        }
    }

    /// The string held, if this is a string value.
    pub fn as_text(&self) -> (r: Option<&str>)
        ensures
            r is Some <==> self@ is Str,
            r matches Some(s) ==> self@ == ValueModel::Str(s@),
    {
        match self {
            Value::Str(s) => Some(s.as_str()),
            Value::Int(_) => None,
        }
    }
}

impl Clone for Value {
    fn clone(&self) -> (r: Self)
        ensures
            r@ == self@,
    {
        match self {
            Value::Str(s) => Value::Str(s.clone()),
            Value::Int(n) => Value::Int(*n),
        }
    }
}

} // verus!
