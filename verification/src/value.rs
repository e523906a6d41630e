//! Values of the store.
//!
//! A value is an arbitrary sequence of bytes (possibly empty), opaque to
//! the engine: only its bytes are stored and returned.

use vstd::prelude::*;

verus! {

use vstd::string::{StrSliceExecFns, StringSliceAdditionalSpecFns};
use vstd::utf8::encode_utf8;

/// A value is an arbitrary sequence of bytes.
#[derive(Debug, Clone, PartialEq, Eq)]
pub struct Value(Vec<u8>);

impl View for Value {
    type V = Seq<u8>;

    closed spec fn view(&self) -> Seq<u8> {
        self.0@
    }
}

impl Value {
    /// Wrap the given bytes as a value.
    pub fn new(data: Vec<u8>) -> (v: Value)
        ensures
            v@ == data@,
    {
        Value(data)
    }

    /// The value's bytes, copied into a fresh vector.
    pub fn to_vec(&self) -> (v: Vec<u8>)
        ensures
            v@ == self@,
    {
        let v = self.0.clone();
        proof {
            assert(v@ =~= self.0@);
        }
        v
    }

    /// The value's bytes, surrendering the value.
    pub fn into_vec(self) -> (v: Vec<u8>)
        ensures
            v@ == self@,
    {
        self.0
    }

    /// The value's bytes, borrowed.
    pub fn as_slice(&self) -> (s: &[u8])
        ensures
            s@ == self@,
    {
        self.0.as_slice()
    }

    /// A value holding the UTF-8 bytes of the given string.
    pub fn from_string(s: String) -> (v: Value)
        ensures
            v@ == encode_utf8(s@),
    {
        Value(s.as_str().as_bytes_vec())
    }

    /// A value holding the UTF-8 bytes of the given string slice.
    pub fn from_str(s: &str) -> (v: Value)
        ensures
            v@ == s.spec_bytes(),
    {
        Value(s.as_bytes_vec())
    }
}

} // verus!
