//! What collections and optional values stand for.

use vstd::prelude::*;

verus! {

/// The views of the elements of a sequence.
pub open spec fn each<T: View>(items: Seq<T>) -> Seq<T::V> {
    Seq::new(items.len(), |i: int| items[i]@)
}

/// The view of a value that may be missing.
pub open spec fn maybe<T: View>(value: Option<T>) -> Option<T::V> {
    match value {
        Some(v) => Some(v@),
        None => None,
    }
}

/// The views of elements stand in the order of the elements.
pub proof fn views_keep_places<T: View>(items: Seq<T>, i: int)
    requires
        0 <= i < items.len(),
    ensures
        each(items).len() == items.len(),
        each(items)[i] == items[i]@,
{
}

/// A value that is there has its view, and one that is missing has none.
pub proof fn views_keep_what_is_missing<T: View>(value: T)
    ensures
        maybe(Some(value)) == Some(value@),
        maybe(None::<T>) is None,
{
}

} // verus!
