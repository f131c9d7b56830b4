//! Content hashing.

use std::collections::hash_map::DefaultHasher;
use std::hash::Hasher;
use vstd::prelude::*;
use vstd::std_specs::hash::DefaultHasherAdditionalSpecFns;

verus! {

/// A value with a content hash. The store trusts the hash: two values with
/// the same hash are taken for the same value.
pub trait HashMe {
    /// The content hash, as a function of the value.
    spec fn hash_spec(&self) -> u64;

    fn hash_me(&self) -> (h: u64)
        ensures
            h == self.hash_spec(),
    ;
}

/// Whether no two values of the type have one content hash.
pub open spec fn collision_free<T: HashMe>() -> bool {
    forall|a: T, b: T| #[trigger] a.hash_spec() == #[trigger] b.hash_spec() ==> a == b
}

/// The hash of a byte string: what the standard hasher, freshly made,
/// answers after it was fed the bytes in one write.
pub open spec fn hash_of_bytes(bytes: Seq<u8>) -> u64 {
    DefaultHasher::spec_finish(seq![bytes])
}

/// Hashes a byte string with the standard hasher.
pub fn hash_bytes(bytes: &[u8]) -> (h: u64)
    ensures
        h == hash_of_bytes(bytes@),
{
    let mut hasher = DefaultHasher::new();
    hasher.write(bytes);
    hasher.finish()
}

} // verus!
