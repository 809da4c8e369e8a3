use vstd::prelude::*;

use crate::memory::grow_capacity;
use crate::number::{equal, is_nan, number_eq};
use crate::object::Obj;

verus! {

/// A runtime value. A number is held as the bit pattern of an IEEE-754 double.
/// Rust's `==` on values compares representations; the language's equality,
/// under which NaN differs from itself, is `equals`.
#[derive(Debug, Clone, PartialEq)]
pub enum Value {
    Nil,
    Bool(bool),
    Number(u64),
    Obj(Obj),
}

/// What a value stands for: strings by their bytes.
pub enum Val {
    Nil,
    Bool(bool),
    Number(u64),
    Str(Seq<u8>),
}

impl View for Value {
    type V = Val;

    open spec fn view(&self) -> Val {
        match self {
            Value::Nil => Val::Nil,
            Value::Bool(b) => Val::Bool(*b),
            Value::Number(n) => Val::Number(*n),
            Value::Obj(o) => Val::Str(o.bytes()),
        }
    }
}

/// The values of a sequence of values.
pub open spec fn vals(s: Seq<Value>) -> Seq<Val> {
    s.map_values(|v: Value| v@)
}

/// `nil` and `false` are falsey; every other value is truthy.
pub open spec fn falsey(v: Val) -> bool {
    v == Val::Nil || v == Val::Bool(false)
}

/// Equality of the language: never across kinds, IEEE on numbers, by content
/// on strings.
pub open spec fn values_equal(a: Val, b: Val) -> bool {
    match (a, b) {
        (Val::Nil, Val::Nil) => true,
        (Val::Bool(x), Val::Bool(y)) => x == y,
        (Val::Number(x), Val::Number(y)) => number_eq(x, y),
        (Val::Str(x), Val::Str(y)) => x == y,
        _ => false,
    }
}

/// `nil` and `false` are falsey; numbers (zero too), `true` and strings (the
/// empty one too) are truthy.
pub proof fn lemma_truthiness(x: u64, s: Seq<u8>)
    ensures
        falsey(Val::Nil),
        falsey(Val::Bool(false)),
        !falsey(Val::Bool(true)),
        !falsey(Val::Number(x)),
        !falsey(Val::Str(s)),
{
}

/// Equality is reflexive on `nil`, booleans and strings; a number equals
/// itself exactly when it is not NaN.
pub proof fn lemma_equality_reflexive(v: Val)
    ensures
        !(v is Number) ==> values_equal(v, v),
        v matches Val::Number(x) ==> (values_equal(v, v) <==> !is_nan(x)),
{
}

/// Values of different kinds are never equal.
pub proof fn lemma_equality_across_kinds(a: Val, b: Val)
    requires
        (a is Nil) != (b is Nil) || (a is Bool) != (b is Bool) || (a is Number) != (b is Number)
            || (a is Str) != (b is Str),
    ensures
        !values_equal(a, b),
{
}

impl Value {
    pub fn is_number(&self) -> (r: bool)
        ensures
            r == (self@ is Number),
    {
        match self {
            Value::Number(_) => true,
            _ => false,
        }
    }

    /// The bits of a number.
    pub fn as_number(&self) -> (r: u64)
        requires
            self@ is Number,
        ensures
            self@ == Val::Number(r),
    {
        match self {
            Value::Number(n) => *n,
            _ => 0,
        }
    }

    pub fn is_string(&self) -> (r: bool)
        ensures
            r == (self@ is Str),
    {
        match self {
            Value::Obj(Obj::String(_)) => true,
            _ => false,
        }
    }

    /// The bytes of a string.
    pub fn as_string(&self) -> (r: &Vec<u8>)
        requires
            self@ is Str,
        ensures
            self@ == Val::Str(r@),
    {
        match self {
            Value::Obj(Obj::String(s)) => &s.chars,
            _ => unreached(),
        }
    }

    /// Equality of the language.
    pub fn equals(&self, other: &Value) -> (r: bool)
        ensures
            r == values_equal(self@, other@),
    {
        match (self, other) {
            (Value::Nil, Value::Nil) => true,
            (Value::Bool(x), Value::Bool(y)) => *x == *y,
            (Value::Number(x), Value::Number(y)) => equal(*x, *y),
            (Value::Obj(Obj::String(x)), Value::Obj(Obj::String(y))) => bytes_equal(&x.chars, &y.chars),
            _ => false,
        }
    }

    /// A copy of the value.
    pub fn duplicate(&self) -> (r: Value)
        ensures
            r@ == self@,
    {
        match self {
            Value::Nil => Value::Nil,
            Value::Bool(b) => Value::Bool(*b),
            Value::Number(n) => Value::Number(*n),
            Value::Obj(Obj::String(s)) => Value::Obj(Obj::take_string(s.chars.clone())),
        }
    }
}

/// `nil` and `false` are falsey; every other value is truthy.
pub fn is_falsey(value: &Value) -> (r: bool)
    ensures
        r == falsey(value@),
{
    match value {
        Value::Nil => true,
        Value::Bool(b) => !*b,
        _ => false,
    }
}

fn bytes_equal(a: &Vec<u8>, b: &Vec<u8>) -> (r: bool)
    ensures
        r == (a@ == b@),
{
    if a.len() != b.len() {
        return false;
    }
    let mut i: usize = 0;
    while i < a.len()
        invariant
            a@.len() == b@.len(),
            i <= a@.len(),
            a@.subrange(0, i as int) =~= b@.subrange(0, i as int),
        decreases a@.len() - i,
    {
        if a[i] != b[i] {
            assert(a@[i as int] != b@[i as int]);
            return false;
        }
        i = i + 1;
        assert(a@.subrange(0, i as int) =~= b@.subrange(0, i as int));
    }
    assert(a@ =~= a@.subrange(0, i as int));
    assert(b@ =~= b@.subrange(0, i as int));
    true
}

/// The constant pool of a chunk.
pub struct ValueArray {
    capacity: usize,
    values: Vec<Value>,
}

impl View for ValueArray {
    type V = Seq<Val>;

    closed spec fn view(&self) -> Seq<Val> {
        vals(self.values@)
    }
}

impl ValueArray {
    pub fn new() -> (r: Self)
        ensures
            r@ == Seq::<Val>::empty(),
    {
        let r = Self { capacity: 0, values: Vec::new() };
        assert(r@ =~= Seq::<Val>::empty());
        r
    }

    /// Number of values held.
    pub fn len(&self) -> (r: usize)
        ensures
            r == self@.len(),
    {
        self.values.len()
    }

    /// The value at `index`.
    pub fn get(&self, index: usize) -> (r: &Value)
        requires
            index < self@.len(),
        ensures
            r@ == self@[index as int],
    {
        &self.values[index]
    }

    /// Appends `value`, reserving room by doubling when the array is full.
    pub fn write(&mut self, value: Value)
        ensures
            final(self)@ == old(self)@.push(value@),
    {
        let count = self.values.len();
        if self.capacity <= count && count <= usize::MAX / 2 {
            let grown = grow_capacity(count);
            self.values.reserve(grown - count);
            self.capacity = grown;
        }
        self.values.push(value);
        assert(self@ =~= old(self)@.push(value@));
    }

    /// Replaces the value at `index`.
    pub fn set(&mut self, index: usize, value: Value)
        requires
            index < old(self)@.len(),
        ensures
            final(self)@ == old(self)@.update(index as int, value@),
    {
        self.values.set(index, value);
        assert(self@ =~= old(self)@.update(index as int, value@));
    }
}

} // verus!
