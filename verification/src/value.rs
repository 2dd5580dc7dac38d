//! The value model: a tagged union of integer, boolean and text, with the
//! conversions the engine applies (truthiness and integer extraction).

use vstd::prelude::*;

verus! {

/// A runtime value. Once constructed, a value's variant never changes:
/// operations either produce a new value or fail.
#[derive(Debug, PartialEq)]
pub enum Value {
    Int(i32),
    Bool(bool),
    Str(String),
}

/// The mathematical model of a value: text is seen as its character sequence.
pub enum ValueView {
    Int(i32),
    Bool(bool),
    Str(Seq<char>),
}

impl View for Value {
    type V = ValueView;

    open spec fn view(&self) -> ValueView {
        match self {
            Value::Int(n) => ValueView::Int(*n),
            Value::Bool(b) => ValueView::Bool(*b),
            Value::Str(s) => ValueView::Str(s@),
        }
    }
}

/// Truthiness: a boolean is itself, an integer is true when non-zero, and a
/// string is true when non-empty.
pub open spec fn truthy(v: ValueView) -> bool {
    match v {
        ValueView::Int(n) => n != 0,
        ValueView::Bool(b) => b,
        ValueView::Str(s) => s.len() > 0,
    }
}

impl Value {
    /// Convert this value to a boolean for a condition test.
    pub fn as_bool(&self) -> (r: bool)
        ensures
            r == truthy(self@),
    {
        match self {
            Value::Bool(b) => *b,
            Value::Int(n) => *n != 0,
            Value::Str(s) => !s.as_str().is_empty(),
        }
    }

    /// Extract the integer held by this value; only an integer value may ask.
    pub fn as_int(&self) -> (r: i32)
        requires
            self@ matches ValueView::Int(_),
        ensures
            self@ == ValueView::Int(r),
    {
        match self {
            Value::Int(n) => *n,
            _ => {
                proof {
                    assert(false);
                }
                0
            },
        }
    }

    /// Produce a fresh value equal to this one.
    pub fn duplicate(&self) -> (r: Value)
        ensures
            r@ == self@,
    {
        match self {
            Value::Int(n) => Value::Int(*n),
            Value::Bool(b) => Value::Bool(*b),
            Value::Str(s) => Value::Str(s.clone()),
        }
    }
}

} // verus!
