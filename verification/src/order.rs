//! Sorting of directory entries by name.

use crate::compat::{comes_before, compat_views, is_stable_sort, name_before, CompatDirEntry};
use std::cmp::Ordering;
use vstd::prelude::*;

verus! {

/// Compares two names by the bytes of their UTF-8 encodings, in
/// lexicographic order.
pub fn name_order(a: &str, b: &str) -> (r: Ordering)
    ensures
        (r == Ordering::Less) == name_before(a@, b@),
        (r == Ordering::Greater) == (!name_before(a@, b@) && name_before(b@, a@)),
{
    if comes_before(a, b) {
        Ordering::Less
    } else if comes_before(b, a) {
        Ordering::Greater
    } else {
        Ordering::Equal
    }
}

/// `<[T]>::sort_by`, with `name_order` on the names to compare by: a stable
/// sort. So the entries come out rearranged, none before one that stands
/// earlier, and those of one name in the order that they had.
#[verifier::external_body]
pub(crate) fn sort_by_name(v: &mut Vec<CompatDirEntry>)
    ensures
        is_stable_sort(compat_views(old(v)@), compat_views(final(v)@)),
{
    v.sort_by(|a, b| name_order(&a.name, &b.name));
}

} // verus!
