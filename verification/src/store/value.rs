//! The values that the store keeps under its keys.

use vstd::prelude::*;

verus! {

/// A stored value. A float is kept as the bits of its IEEE 754 double.
#[derive(Debug, PartialEq, Clone)]
pub enum Value {
    Bool(bool),
    Int(isize),
    Uint(usize),
    Float(u64),
    Text(String),
    Blob(Vec<u8>),
}

/// A value with its text and bytes taken as sequences.
pub enum ValueV {
    Bool(bool),
    Int(isize),
    Uint(usize),
    Float(u64),
    Text(Seq<char>),
    Blob(Seq<u8>),
}

impl View for Value {
    type V = ValueV;

    open spec fn view(&self) -> ValueV {
        match self {
            Value::Bool(b) => ValueV::Bool(*b),
            Value::Int(n) => ValueV::Int(*n),
            Value::Uint(n) => ValueV::Uint(*n),
            Value::Float(f) => ValueV::Float(*f),
            Value::Text(s) => ValueV::Text(s@),
            Value::Blob(b) => ValueV::Blob(b@),
        }
    }
}

impl Value {
    /// A copy of the value.
    pub fn copy(&self) -> (r: Value)
        ensures
            r@ == self@,
    {
        match self {
            Value::Bool(b) => Value::Bool(*b),
            Value::Int(n) => Value::Int(*n),
            Value::Uint(n) => Value::Uint(*n),
            Value::Float(f) => Value::Float(*f),
            Value::Text(s) => Value::Text(s.clone()),
            Value::Blob(b) => {
                let mut c: Vec<u8> = Vec::new();
                let mut i: usize = 0;
                while i < b.len()
                    invariant
                        i <= b@.len(),
                        c@ == b@.subrange(0, i as int),
                    decreases b@.len() - i,
                {
                    c.push(b[i]);
                    i += 1;
                }
                assert(c@ =~= b@);
                Value::Blob(c)
            },
        }
    }

    pub fn bool(b: bool) -> (r: Value)
        ensures
            r == Value::Bool(b),
    {
        Value::Bool(b)
    }

    pub fn integer(n: isize) -> (r: Value)
        ensures
            r == Value::Int(n),
    {
        Value::Int(n)
    }

    pub fn uint(n: usize) -> (r: Value)
        ensures
            r == Value::Uint(n),
    {
        Value::Uint(n)
    }

    pub fn text(s: &str) -> (r: Value)
        ensures
            r matches Value::Text(t) && t@ == s@,
    {
        Value::Text(s.to_owned())
    }

    pub fn blob(b: Vec<u8>) -> (r: Value)
        ensures
            r == Value::Blob(b),
    {
        Value::Blob(b)
    }
}

} // verus!
