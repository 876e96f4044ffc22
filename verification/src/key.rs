//! Keys of the sharded store.
//!
//! A key presents itself as a sequence of bytes; that byte form is the
//! key's identity in the store's model, and it is what the shard-routing
//! hash is computed from. Two keys denote the same entry exactly when
//! their byte forms are equal.

use vstd::prelude::*;
use vstd::string::StrSliceExecFns;
use vstd::string::StringSliceAdditionalSpecFns;
use vstd::utf8::encode_utf8;

verus! {

/// A key that the store can hold: it has a byte form, which is stable,
/// and it can produce that byte form on demand.
pub trait ShardKey: Sized {
    /// The key's byte form: its identity in the store's model.
    spec fn key_bytes(&self) -> Seq<u8>;

    /// Produce the key's byte form.
    fn bytes(&self) -> (b: Vec<u8>)
        ensures
            b@ == self.key_bytes(),
    ;
}

impl<'a> ShardKey for &'a str {
    open spec fn key_bytes(&self) -> Seq<u8> {
        self.spec_bytes()
    }

    fn bytes(&self) -> (b: Vec<u8>) {
        self.as_bytes_vec()
    }
}

impl ShardKey for String {
    open spec fn key_bytes(&self) -> Seq<u8> {
        encode_utf8(self@)
    }

    fn bytes(&self) -> (b: Vec<u8>) {
        self.as_str().as_bytes_vec()
    }
}

} // verus!
