//! Values of state variables and the states built from them.

use vstd::prelude::*;

use crate::diagnostics::{i64_text, int_text};

verus! {

#[derive(Debug, Clone, PartialEq, Eq, Hash)]
pub enum Value {
    Bool(bool),
    Int(i64),
    Enum(String),
}

#[derive(Debug, Clone, PartialEq, Eq, Hash)]
pub struct State {
    pub values: Vec<Value>,
}

/// Whether two values are the same value: same kind, same contents.
pub open spec fn same_value(a: Value, b: Value) -> bool {
    match (a, b) {
        (Value::Bool(x), Value::Bool(y)) => x == y,
        (Value::Int(x), Value::Int(y)) => x == y,
        (Value::Enum(x), Value::Enum(y)) => x@ == y@,
        _ => false,
    }
}

/// Whether two sequences of values agree position by position.
pub open spec fn same_values(a: Seq<Value>, b: Seq<Value>) -> bool {
    a.len() == b.len() && forall|i: int| 0 <= i < a.len() ==> same_value(#[trigger] a[i], b[i])
}

/// How a value is written: `true` or `false`, a decimal integer, or the
/// variant's name.
pub open spec fn value_text(v: Value) -> Seq<char> {
    match v {
        Value::Bool(b) => if b { "true"@ } else { "false"@ },
        Value::Int(i) => int_text(i as int),
        Value::Enum(name) => name@,
    }
}

impl Value {
    /// The text of the value.
    pub fn to_string(&self) -> (r: String)
        ensures
            r@ == value_text(*self),
    {
        match self {
            Value::Bool(b) => if *b { "true".to_owned() } else { "false".to_owned() },
            Value::Int(i) => i64_text(*i),
            Value::Enum(name) => name.clone(),
        }
    }
}

/// A copy of a value, equal to the original.
pub fn clone_value(v: &Value) -> (r: Value)
    ensures
        r == *v,
{
    match v {
        Value::Bool(b) => Value::Bool(*b),
        Value::Int(i) => Value::Int(*i),
        Value::Enum(s) => Value::Enum(s.clone()),
    }
}

/// Whether two values are the same value.
pub fn value_eq(a: &Value, b: &Value) -> (r: bool)
    ensures
        r == same_value(*a, *b),
{
    match (a, b) {
        (Value::Bool(x), Value::Bool(y)) => *x == *y,
        (Value::Int(x), Value::Int(y)) => *x == *y,
        (Value::Enum(x), Value::Enum(y)) => *x == *y,
        _ => false,
    }
}

/// A copy of a list of values, equal to the original element by element.
pub fn clone_values(v: &Vec<Value>) -> (r: Vec<Value>)
    ensures
        r@ == v@,
{
    let mut out: Vec<Value> = Vec::new();
    let mut i: usize = 0;
    while i < v.len()
        invariant
            i <= v@.len(),
            out@ == v@.take(i as int),
        decreases v@.len() - i,
    {
        out.push(clone_value(&v[i]));
        proof {
            assert(v@.take(i as int + 1) == v@.take(i as int).push(v@[i as int]));
        }
        i = i + 1;
    }
    proof {
        assert(v@.take(v@.len() as int) == v@);
    }
    out
}

/// A copy of a state, with the same values.
pub fn clone_state(s: &State) -> (r: State)
    ensures
        r.values@ == s.values@,
{
    State { values: clone_values(&s.values) }
}

/// Whether two states hold the same values.
pub fn state_eq(a: &State, b: &State) -> (r: bool)
    ensures
        r == same_values(a.values@, b.values@),
{
    if a.values.len() != b.values.len() {
        return false;
    }
    let mut i: usize = 0;
    while i < a.values.len()
        invariant
            i <= a.values@.len(),
            a.values@.len() == b.values@.len(),
            forall|j: int| 0 <= j < i ==> same_value(#[trigger] a.values@[j], b.values@[j]),
        decreases a.values@.len() - i,
    {
        if !value_eq(&a.values[i], &b.values[i]) {
            return false;
        }
        i = i + 1;
    }
    true
}

} // verus!
