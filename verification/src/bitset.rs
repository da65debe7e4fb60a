//! Page-index sets backed by bit_set::BitSet, the structure the query engine
//! intersects posting lists with. Verus cannot take the declaration of
//! `BitSet` itself (its `BitBlock` bound is an outside trait), so the set is
//! held in an opaque struct and its contents are modelled as a `Set<usize>`
//! through `page_set_elems`.

use vstd::prelude::*;

verus! {

#[verifier::external_body]
pub struct PageSet {
    inner: bit_set::BitSet,
}

/// The set of page indices a `PageSet` holds.
pub uninterp spec fn page_set_elems(s: PageSet) -> Set<usize>;

/// Relies on bit_set::BitSet::new: creates a set with no elements.
#[verifier::external_body]
pub(crate) fn page_set_new() -> (s: PageSet)
    ensures
        page_set_elems(s) == Set::<usize>::empty(),
{
    PageSet { inner: bit_set::BitSet::new() }
}

/// Relies on bit_set::BitSet::insert: adds one value to the set.
#[verifier::external_body]
pub(crate) fn page_set_insert(s: &mut PageSet, v: usize)
    ensures
        page_set_elems(*final(s)) == page_set_elems(*old(s)).insert(v),
{
    s.inner.insert(v);
}

/// Relies on bit_set::BitSet::contains: membership in the set.
#[verifier::external_body]
pub(crate) fn page_set_contains(s: &PageSet, v: usize) -> (r: bool)
    ensures
        r == page_set_elems(*s).contains(v),
{
    s.inner.contains(v)
}

/// Relies on bit_set::BitSet::intersect_with: keeps exactly the elements the
/// two sets share (values past the other set's storage are cleared).
#[verifier::external_body]
pub(crate) fn page_set_intersect(s: &mut PageSet, other: &PageSet)
    ensures
        page_set_elems(*final(s)) == page_set_elems(*old(s)).intersect(page_set_elems(*other)),
{
    s.inner.intersect_with(&other.inner);
}

} // verus!
