use vstd::prelude::*;

use crate::bytes::copy_bytes;

verus! {

/// An object that maps a chunk to its hash.
///
/// The store keeps one payload per hash and never compares payloads, so a
/// hasher states that distinct chunks get distinct hashes.
pub trait Hasher {
    /// The hash of `data`; it depends on the bytes alone.
    spec fn spec_hash(data: Seq<u8>) -> Seq<u8>;

    /// Two chunks with one hash are the same chunk.
    proof fn lemma_collision_free(a: Seq<u8>, b: Seq<u8>)
        requires
            Self::spec_hash(a) == Self::spec_hash(b),
        ensures
            a == b,
    ;

    /// Takes some `data` and returns its hash.
    fn hash(&mut self, data: &[u8]) -> (r: Vec<u8>)
        ensures
            r@ == Self::spec_hash(data@),
    ;

    /// Length of the chunk that produced `hash`.
    fn len(&self, hash: &Vec<u8>) -> (r: usize)
        ensures
            forall|d: Seq<u8>| Self::spec_hash(d) == hash@ ==> r == d.len(),
    ;
}

/// Hasher whose hash of a chunk is the chunk itself.
pub struct SimpleHasher;

impl Hasher for SimpleHasher {
    open spec fn spec_hash(data: Seq<u8>) -> Seq<u8> {
        data
    }

    proof fn lemma_collision_free(a: Seq<u8>, b: Seq<u8>) {
    }

    fn hash(&mut self, data: &[u8]) -> (r: Vec<u8>) {
        copy_bytes(data)
    }

    fn len(&self, hash: &Vec<u8>) -> (r: usize) {
        hash.len()
    }
}

} // verus!
