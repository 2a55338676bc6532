//! The active set: the ranks of the programs whose opening event has been
//! processed and whose closing event has not. It is kept in a
//! `sortedlist_rs::SortedList`, an order-statistics container; the sweep
//! needs insertion, removal by value, and the largest member. The contracts
//! here name the list's contents, smallest first, and say what each call
//! does to them; everything else about the sweep is proved against them.

use vstd::prelude::*;
use sortedlist_rs::SortedList;

verus! {

#[verifier::external_type_specification]
#[verifier::external_body]
#[verifier::reject_recursive_types(T)]
pub struct ExSortedList<T: Ord>(SortedList<T>);

/// The contents of the active list, in the order the list keeps them:
/// ascending, smallest first.
pub uninterp spec fn rank_list_view(l: SortedList<usize>) -> Seq<usize>;

/// `after` is `before` with `x` put in at a position that respects the
/// ascending order.
pub open spec fn inserted_at(before: Seq<usize>, after: Seq<usize>, x: usize, i: int) -> bool {
    &&& 0 <= i <= before.len()
    &&& after == before.insert(i, x)
    &&& forall|j: int| 0 <= j < i ==> (#[trigger] before[j]) <= x
    &&& forall|j: int| i <= j < before.len() ==> x <= (#[trigger] before[j])
}

/// Relies on SortedList::new: the new list is empty.
#[verifier::external_body]
pub(crate) fn rank_list_new() -> (r: SortedList<usize>)
    ensures
        rank_list_view(r) == Seq::<usize>::empty(),
{
    SortedList::new()
}

/// Relies on SortedList::insert: the element enters at a position chosen by
/// binary search, which keeps the ascending order of the contents.
#[verifier::external_body]
pub(crate) fn rank_list_insert(l: &mut SortedList<usize>, x: usize)
    ensures
        exists|i: int|
            #[trigger] inserted_at(rank_list_view(*old(l)), rank_list_view(*final(l)), x, i),
{
    l.insert(x)
}

/// Relies on SortedList::binary_search: an exact match is reported with its
/// position, and an `Err` answer means the element is not present.
#[verifier::external_body]
pub(crate) fn rank_list_search(l: &SortedList<usize>, x: usize) -> (r: Result<usize, usize>)
    ensures
        r matches Ok(i) ==> (i as int) < rank_list_view(*l).len() && rank_list_view(*l)[i as int]
            == x,
        r matches Err(_) ==> !rank_list_view(*l).contains(x),
{
    l.binary_search(&x)
}

/// Relies on SortedList::remove: the element at the given position leaves
/// the list and is returned. The position must be in range, or the call
/// panics.
#[verifier::external_body]
pub(crate) fn rank_list_remove(l: &mut SortedList<usize>, k: usize) -> (r: usize)
    requires
        (k as int) < rank_list_view(*old(l)).len(),
    ensures
        r == rank_list_view(*old(l))[k as int],
        rank_list_view(*final(l)) == rank_list_view(*old(l)).remove(k as int),
{
    l.remove(k)
}

/// Relies on SortedList::last: the last of the contents — the largest
/// element — when any is present, and `None` exactly on the empty list.
#[verifier::external_body]
pub(crate) fn rank_list_last(l: &SortedList<usize>) -> (r: Option<usize>)
    ensures
        match r {
            Some(v) => rank_list_view(*l).len() > 0 && v == rank_list_view(*l)[rank_list_view(
                *l,
            ).len() - 1],
            None => rank_list_view(*l).len() == 0,
        },
{
    l.last().copied()
}

} // verus!
