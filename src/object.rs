use vstd::prelude::*;
use vstd::slice::slice_subrange;
use vstd::slice::slice_to_vec;
use vstd::string::StringSliceAdditionalSpecFns;

verus! {

/// A heap object. Strings are the only kind so far.
#[derive(Debug, Clone, PartialEq)]
pub enum Obj {
    String(ObjString),
}

/// An immutable byte string, without the quotes of the literal it came from.
#[derive(Debug, Clone, PartialEq)]
pub struct ObjString {
    pub chars: Vec<u8>,
}

impl ObjString {
    /// A string that owns `chars`.
    pub fn new(chars: Vec<u8>) -> (r: Self)
        ensures
            r.chars@ == chars@,
    {
        Self { chars }
    }

    pub fn length(&self) -> (r: usize)
        ensures
            r == self.chars@.len(),
    {
        self.chars.len()
    }
}

impl Obj {
    /// The content of the object as bytes.
    pub open spec fn bytes(&self) -> Seq<u8> {
        match self {
            Obj::String(s) => s.chars@,
        }
    }

    /// A string object holding a copy of a string literal's lexeme without its
    /// surrounding quotes.
    pub fn copy_string(lexeme: &str) -> (r: Self)
        requires
            lexeme.spec_bytes().len() >= 2,
        ensures
            r.bytes() == lexeme.spec_bytes().subrange(1, lexeme.spec_bytes().len() - 1),
    {
        let bytes = lexeme.as_bytes();
        let inner = slice_subrange(bytes, 1, bytes.len() - 1);
        Obj::String(ObjString::new(slice_to_vec(inner)))
    }

    /// A string object that takes ownership of `chars`.
    pub fn take_string(chars: Vec<u8>) -> (r: Self)
        ensures
            r.bytes() == chars@,
    {
        Obj::String(ObjString::new(chars))
    }
}

} // verus!
