//! The pool of released document ids, kept in a compressed 64-bit bitmap.
use vstd::prelude::*;

use roaring::RoaringTreemap;

verus! {

#[verifier::external_type_specification]
#[verifier::external_body]
pub struct ExRoaringTreemap(RoaringTreemap);

/// The ids that a treemap holds.
pub uninterp spec fn treemap_ids(t: RoaringTreemap) -> Set<u64>;

/// Relies on RoaringTreemap::new: an empty set.
pub assume_specification[ RoaringTreemap::new ]() -> (r: RoaringTreemap)
    ensures
        treemap_ids(r) == Set::<u64>::empty(),
;

/// Relies on RoaringTreemap::insert: adds the value; true when it was absent.
pub assume_specification[ RoaringTreemap::insert ](t: &mut RoaringTreemap, value: u64) -> (r: bool)
    ensures
        treemap_ids(*final(t)) == treemap_ids(*old(t)).insert(value),
        r == !treemap_ids(*old(t)).contains(value),
;

/// Relies on RoaringTreemap::remove: takes the value out; true when it was present.
pub assume_specification[ RoaringTreemap::remove ](t: &mut RoaringTreemap, value: u64) -> (r: bool)
    ensures
        treemap_ids(*final(t)) == treemap_ids(*old(t)).remove(value),
        r == treemap_ids(*old(t)).contains(value),
;

/// Relies on RoaringTreemap::contains: whether the value is held.
pub assume_specification[ RoaringTreemap::contains ](t: &RoaringTreemap, value: u64) -> (r: bool)
    ensures
        r == treemap_ids(*t).contains(value),
;

/// Relies on RoaringTreemap::is_empty: true when no value is held.
pub assume_specification[ RoaringTreemap::is_empty ](t: &RoaringTreemap) -> (r: bool)
    ensures
        r == (treemap_ids(*t) == Set::<u64>::empty()),
;

/// Relies on RoaringTreemap::min: the smallest value held, none when empty.
pub assume_specification[ RoaringTreemap::min ](t: &RoaringTreemap) -> (r: Option<u64>)
    ensures
        match r {
            Some(m) => treemap_ids(*t).contains(m) && forall|x: u64| #[trigger] treemap_ids(*t).contains(x) ==> m <= x,
            None => treemap_ids(*t) == Set::<u64>::empty(),
        },
;

/// Relies on RoaringTreemap::insert_range: adds every value from `first`
/// to `last`, both included; nothing when `first` is above `last`.
#[verifier::external_body]
pub(crate) fn treemap_insert_run(t: &mut RoaringTreemap, first: u64, last: u64)
    ensures
        treemap_ids(*final(t)) == treemap_ids(*old(t)).union(Set::new(|x: u64| first <= x && x <= last)),
{
    t.insert_range(first..=last);
}

/// Relies on RoaringTreemap::iter, which yields the values held in
/// increasing order, each once.
#[verifier::external_body]
pub(crate) fn treemap_values(t: &RoaringTreemap) -> (r: Vec<u64>)
    ensures
        r@.to_set() == treemap_ids(*t),
        forall|i: int, j: int| 0 <= i < j < r@.len() ==> r@[i] < r@[j],
{
    t.iter().collect()
}

} // verus!
