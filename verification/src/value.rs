//! The closed runtime value union.
//!
//! Booleans, integers, doubles (as IEEE-754 bit patterns) and text are
//! inline; arrays and objects are handles — indices into the collector's
//! arena — so only they are heap-managed.

use vstd::prelude::*;

use crate::ctx::Const;

verus! {

/// One runtime value.
#[derive(Debug)]
pub enum Value {
    True,
    False,
    Int(i64),
    /// A double, carried as its IEEE-754 bit pattern.
    Double(u64),
    /// Compile-time text, taken from the constant pool.
    Str(String),
    /// Owned runtime text.
    String(String),
    /// Handle of an array block in the heap arena.
    Arr(usize),
    /// Handle of an object block in the heap arena.
    Obj(usize),
}

/// Structural equality of runtime values: variants and payloads must
/// agree; text is compared by its character sequence, aggregates by
/// handle identity.
pub open spec fn veq(a: Value, b: Value) -> bool {
    match (a, b) {
        (Value::True, Value::True) => true,
        (Value::False, Value::False) => true,
        (Value::Int(x), Value::Int(y)) => x == y,
        (Value::Double(x), Value::Double(y)) => x == y,
        (Value::Str(x), Value::Str(y)) => x@ == y@,
        (Value::String(x), Value::String(y)) => x@ == y@,
        (Value::Arr(x), Value::Arr(y)) => x == y,
        (Value::Obj(x), Value::Obj(y)) => x == y,
        _ => false,
    }
}

impl PartialEq for Value {
    fn eq(&self, other: &Value) -> (r: bool) {
        match (self, other) {
            (Value::True, Value::True) => true,
            (Value::False, Value::False) => true,
            (Value::Int(x), Value::Int(y)) => x == y,
            (Value::Double(x), Value::Double(y)) => x == y,
            (Value::Str(x), Value::Str(y)) => x.eq(y),
            (Value::String(x), Value::String(y)) => x.eq(y),
            (Value::Arr(x), Value::Arr(y)) => x == y,
            (Value::Obj(x), Value::Obj(y)) => x == y,
            _ => false,
        }
    }
}

impl vstd::std_specs::cmp::PartialEqSpecImpl for Value {
    open spec fn obeys_eq_spec() -> bool {
        true
    }

    open spec fn eq_spec(&self, other: &Value) -> bool {
        veq(*self, *other)
    }
}

/// The 1:1 mapping from a pooled constant to the runtime value the
/// virtual machine's global table holds for it.
pub open spec fn value_of_const(c: Const) -> Value {
    match c {
        Const::False => Value::False,
        Const::True => Value::True,
        Const::Int(i) => Value::Int(i),
        Const::Double(b) => Value::Double(b),
        Const::Str(s) => Value::Str(s),
    }
}

impl From<Const> for Value {
    fn from(value: Const) -> (r: Value) {
        match value {
            Const::False => Value::False,
            Const::True => Value::True,
            Const::Int(i) => Value::Int(i),
            Const::Double(b) => Value::Double(b),
            Const::Str(s) => Value::Str(s),
        }
    }
}

impl vstd::std_specs::convert::FromSpecImpl<Const> for Value {
    open spec fn obeys_from_spec() -> bool {
        true
    }

    open spec fn from_spec(t: Const) -> Value {
        value_of_const(t)
    }
}

impl Value {
    /// The runtime value of a pooled constant, read from a borrow.  A
    /// constant is never heap-managed, so neither is its value.
    pub fn of_const(c: &Const) -> (r: Value)
        ensures
            r == value_of_const(*c),
            !(r is Arr),
            !(r is Obj),
    {
        match c {
            Const::False => Value::False,
            Const::True => Value::True,
            Const::Int(i) => Value::Int(*i),
            Const::Double(b) => Value::Double(*b),
            Const::Str(s) => Value::Str(s.clone()),
        }
    }

    /// An exact copy of `self` (handles are copied as handles, so the
    /// copy aliases the same heap block).
    pub fn duplicate(&self) -> (r: Value)
        ensures
            r == *self,
    {
        match self {
            Value::True => Value::True,
            Value::False => Value::False,
            Value::Int(i) => Value::Int(*i),
            Value::Double(b) => Value::Double(*b),
            Value::Str(s) => Value::Str(s.clone()),
            Value::String(s) => Value::String(s.clone()),
            Value::Arr(h) => Value::Arr(*h),
            Value::Obj(h) => Value::Obj(*h),
        }
    }
}

} // verus!
