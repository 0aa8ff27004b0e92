use vstd::prelude::*;

mod bubblesort;
mod heapsort;
mod key;
mod mergesort;
mod quicksort;
mod radixsort;

pub use bubblesort::BubbleSort;
pub use heapsort::HeapSort;
pub use heapsort::heapify;
pub use key::SortKey;
pub use key::exchange;
pub use key::lemma_sort_of_short_is_identity;
pub use key::lemma_sorted_permutation_unique;
pub use key::sorted;
pub use key::sorted_between;
pub use mergesort::MergeSort;
pub use quicksort::QuickSort;
pub use quicksort::quicksort;
pub use radixsort::Bytify;
pub use radixsort::RadixSort;
pub use radixsort::radix_sort;

verus! {

use core::cmp::Ordering;

/// The shared capability: reorder a sequence in place into non-decreasing key
/// order, keeping exactly the elements it started with.
pub trait Sorter<T: SortKey> {
    fn sort(&self, v: &mut Vec<T>)
        ensures
            sorted(final(v)@),
            final(v)@.to_multiset() == old(v)@.to_multiset(),
    ;
}

/// Compare two values by their mathematical keys. The result is a total
/// order, so it is fit to hand to the standard sorts.
fn key_cmp<T: SortKey>(a: &T, b: &T) -> (o: Ordering)
    ensures
        o == Ordering::Less <==> a.key() < b.key(),
        o == Ordering::Equal <==> a.key() == b.key(),
        o == Ordering::Greater <==> a.key() > b.key(),
{
    if a.le(b) {
        if b.le(a) {
            Ordering::Equal
        } else {
            Ordering::Less
        }
    } else {
        Ordering::Greater
    }
}

/// Relies on `<[T]>::sort_by`: the slice is reordered, stably, into the
/// order that the comparator decides; `key_cmp` is a total order by `key`.
#[verifier::external_body]
fn std_stable_sort<T: SortKey>(v: &mut Vec<T>)
    ensures
        sorted(final(v)@),
        final(v)@.to_multiset() == old(v)@.to_multiset(),
{
    v.sort_by(|a, b| key_cmp(a, b));
}

/// Relies on `<[T]>::sort_unstable_by`: the slice is reordered into the
/// order that the comparator decides; `key_cmp` is a total order by `key`.
#[verifier::external_body]
fn std_unstable_sort<T: SortKey>(v: &mut Vec<T>)
    ensures
        sorted(final(v)@),
        final(v)@.to_multiset() == old(v)@.to_multiset(),
{
    v.sort_unstable_by(|a, b| key_cmp(a, b));
}

pub struct StdSorter;

impl<T: SortKey> Sorter<T> for StdSorter {
    fn sort(&self, v: &mut Vec<T>) {
        std_stable_sort(v);
    }
}

pub struct StdUnstableSorter;

impl<T: SortKey> Sorter<T> for StdUnstableSorter {
    fn sort(&self, v: &mut Vec<T>) {
        std_unstable_sort(v);
    }
}

} // verus!
