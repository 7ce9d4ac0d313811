//! What files are sorted by: a value that can be compared with another of
//! its kind, and looked up by a number drawn from it.

use std::collections::hash_map::DefaultHasher;
use std::hash::Hasher;
use vstd::prelude::*;
use vstd::std_specs::cmp::PartialEqSpec;
use vstd::std_specs::hash::DefaultHasherAdditionalSpecFns;

verus! {

/// A value under which paths are filed. Two keys are the same when their
/// views are equal.
pub trait Key: View + Sized {
    /// The number by which a key is looked up. It is drawn from the view, so
    /// keys that are the same have the same number.
    spec fn digest_of(view: Self::V) -> u64;

    /// Whether `self` and `other` are the same key.
    fn same(&self, other: &Self) -> (b: bool)
        ensures
            b == (self@ == other@),
    ;

    /// The number by which this key is looked up.
    fn digest(&self) -> (digest: u64)
        ensures
            digest == Self::digest_of(self@),
    ;
}

/// The whole contents of a file: the same when the bytes are, and looked up
/// by the number that the standard hasher, freshly made, draws from the
/// bytes written in one piece.
impl Key for Vec<u8> {
    open spec fn digest_of(view: Seq<u8>) -> u64 {
        DefaultHasher::spec_finish(seq![view])
    }

    fn same(&self, other: &Self) -> (b: bool) {
        let b = self == other;
        proof {
            if b {
                assert forall|i: int| 0 <= i < self@.len() implies self@[i] == other@[i] by {
                    assert(self[i].eq_spec(&other[i]));
                }
                assert(self@ =~= other@);
            }
        }
        b
    }

    fn digest(&self) -> (digest: u64) {
        let mut hasher = DefaultHasher::new();
        hasher.write(self.as_slice());
        hasher.finish()
    }
}

/// A number drawn from the contents, and the length: looked up by the
/// number.
impl Key for (u64, usize) {
    open spec fn digest_of(view: (u64, usize)) -> u64 {
        view.0
    }

    fn same(&self, other: &Self) -> (b: bool) {
        self.0 == other.0 && self.1 == other.1
    }

    fn digest(&self) -> (digest: u64) {
        self.0
    }
}

} // verus!
