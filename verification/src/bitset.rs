//! The set of trigrams occurring in one document, backed by
//! `bit_set::BitSet` (a bit vector over the 18-bit trigram space).
//!
//! Verus cannot declare `BitSet`'s generic signature (its `BitBlock`
//! bound is an outside trait), so the set is held in a private field of
//! an opaque struct.  Its contents are named by the uninterpreted
//! function [`elems`]; every method the library calls gets a wrapper
//! whose contract states, over that name, what the crate's source
//! shows the method does.

use vstd::prelude::*;

verus! {

/// A set of trigram identifiers, without multiplicity.
#[verifier::external_body]
pub struct TrigramSet {
    inner: bit_set::BitSet,
}

/// The set of integers held by a `TrigramSet`.
pub uninterp spec fn elems(s: TrigramSet) -> Set<int>;

impl TrigramSet {
    /// Relies on `BitSet::with_capacity`: returns a set with no
    /// elements (capacity is only an allocation hint).
    #[verifier::external_body]
    pub fn with_capacity(nbits: usize) -> (r: TrigramSet)
        ensures
            elems(r) == Set::<int>::empty(),
    {
        TrigramSet { inner: bit_set::BitSet::with_capacity(nbits) }
    }

    /// Relies on `BitSet::insert`: adds `v` to the set, growing the
    /// backing bit vector as needed, and reports whether `v` was new.
    /// The bound keeps the growth arithmetic inside the bit vector
    /// away from its overflow edge; the library only stores 18-bit
    /// trigram identifiers anyway.
    #[verifier::external_body]
    pub(crate) fn insert(&mut self, v: usize) -> (r: bool)
        requires
            v < 262144,
        ensures
            elems(*final(self)) == elems(*old(self)).insert(v as int),
            r == !elems(*old(self)).contains(v as int),
    {
        self.inner.insert(v)
    }

    /// Relies on `BitSet::contains`: membership test.
    #[verifier::external_body]
    pub fn contains(&self, v: usize) -> (r: bool)
        ensures
            r == elems(*self).contains(v as int),
    {
        self.inner.contains(v)
    }

    /// Relies on `BitSet::iter`: yields the elements in strictly
    /// increasing order (the iterator walks the bit vector's blocks
    /// from low indices up, taking each block's lowest set bit first).
    #[verifier::external_body]
    pub fn to_vec(&self) -> (r: Vec<usize>)
        ensures
            forall|i: int, j: int| 0 <= i < j < r@.len() ==> r@[i] < r@[j],
            forall|i: int| 0 <= i < r@.len() ==> elems(*self).contains(#[trigger] r@[i] as int),
            forall|t: int|
                elems(*self).contains(t) ==> exists|i: int|
                    0 <= i < r@.len() && #[trigger] r@[i] as int == t,
    {
        self.inner.iter().collect()
    }
}

} // verus!
