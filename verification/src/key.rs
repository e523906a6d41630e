//! Keys of the store.
//!
//! A key is an arbitrary sequence of bytes; equality is byte-exact and the
//! order used throughout the store is lexicographic over unsigned bytes
//! (see `order`).  UTF-8 construction is a convenience, not an invariant.

use vstd::prelude::*;

verus! {

use vstd::string::{StrSliceExecFns, StringSliceAdditionalSpecFns};
use vstd::utf8::encode_utf8;

/// A key is an arbitrary sequence of bytes.
#[derive(Debug, Clone, PartialEq, Eq)]
pub struct Key(Vec<u8>);

impl View for Key {
    type V = Seq<u8>;

    closed spec fn view(&self) -> Seq<u8> {
        self.0@
    }
}

impl Key {
    /// Wrap the given bytes as a key.
    pub fn new(data: Vec<u8>) -> (k: Key)
        ensures
            k@ == data@,
    {
        Key(data)
    }

    /// The key's bytes, copied into a fresh vector.
    pub fn to_vec(&self) -> (v: Vec<u8>)
        ensures
            v@ == self@,
    {
        let v = self.0.clone();
        proof {
            assert(v@ =~= self.0@);
        }
        v
    }

    /// The key's bytes, surrendering the key.
    pub fn into_vec(self) -> (v: Vec<u8>)
        ensures
            v@ == self@,
    {
        self.0
    }

    /// The key's bytes, borrowed.
    pub fn as_slice(&self) -> (s: &[u8])
        ensures
            s@ == self@,
    {
        self.0.as_slice()
    }

    /// A key holding the UTF-8 bytes of the given string.
    pub fn from_string(s: String) -> (k: Key)
        ensures
            k@ == encode_utf8(s@),
    {
        Key(s.as_str().as_bytes_vec())
    }

    /// A key holding the UTF-8 bytes of the given string slice.
    pub fn from_str(s: &str) -> (k: Key)
        ensures
            k@ == s.spec_bytes(),
    {
        Key(s.as_bytes_vec())
    }
}

} // verus!
