use vstd::prelude::*;
use core::cmp::Ordering;
use crate::compare::{Comparator, NaturalOrd};

verus! {

/// The slice is non-decreasing under the strategy: no element compares
/// `Less` than its predecessor.
pub fn is_sorted_with_comparator<T, C: Comparator<T>>(arr: &[T], is_less: &C) -> (r: bool)
    ensures
        r == (forall|i: int|
            1 <= i < arr@.len() ==> #[trigger] is_less.cmp_spec(arr@[i], arr@[i - 1])
                != Ordering::Less),
{
    let n = arr.len();
    let mut i: usize = 1;
    while i < n
        invariant
            1 <= i,
            n == arr@.len(),
            i <= n || n == 0,
            forall|j: int|
                1 <= j < i ==> #[trigger] is_less.cmp_spec(arr@[j], arr@[j - 1])
                    != Ordering::Less,
        decreases n - i,
    {
        let c = is_less.compare(&arr[i], &arr[i - 1]);
        match c {
            Ordering::Less => {
                return false;
            },
            _ => {},
        }
        i = i + 1;
    }
    true
}

/// The slice is non-decreasing under the natural order of its elements.
pub fn is_sorted<T>(arr: &[T]) -> (r: bool) where NaturalOrd: Comparator<T>
    ensures
        r == (forall|i: int|
            1 <= i < arr@.len() ==> #[trigger] NaturalOrd.cmp_spec(arr@[i], arr@[i - 1])
                != Ordering::Less),
{
    is_sorted_with_comparator(arr, &NaturalOrd)
}

} // verus!
