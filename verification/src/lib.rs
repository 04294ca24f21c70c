//! A small library of interchangeable mergeable min-heaps: an array-based
//! binary heap, an eager binomial heap, and a lazy one-pass binomial heap,
//! all exposed behind the [`MinHeap`] contract, together with a heap-sort
//! driver built on that contract.

use vstd::multiset::Multiset;
use vstd::prelude::*;

mod binary_heap;
mod byte_array;
mod nodes;
mod lazy_binomial;
mod binomial_heap;
mod sorting;


pub use binary_heap::BinaryHeap;
pub use byte_array::ByteArray;
pub use nodes::IntoIterList;
pub use nodes::List;
pub use nodes::ListNode;
pub use nodes::Tree;
pub use nodes::TreeNode;
pub use lazy_binomial::LazyBinomialHeap;
pub use binomial_heap::all_at_least;
pub use binomial_heap::binomial_chain;
pub use binomial_heap::binomial_tree;
pub use binomial_heap::degree_after;
pub use binomial_heap::forest_len;
pub use binomial_heap::forest_ms;
pub use binomial_heap::forest_wf;
pub use binomial_heap::has_root_item;
pub use binomial_heap::head_degree;
pub use binomial_heap::lemma_binomial_chain_size;
pub use binomial_heap::lemma_binomial_tree_size;
pub use binomial_heap::lemma_two_item_heap_shape;
pub use binomial_heap::roots_increasing_from;
pub use binomial_heap::run_up_to;
pub use binomial_heap::tree_ms;
pub use binomial_heap::tree_wf;
pub use binomial_heap::BinomialHeap;
pub use binomial_heap::BinomialTreeNode;
pub use sorting::heap_sort;
pub use sorting::lemma_drain_is_sort_of_input;
pub use sorting::lemma_drain_of_meld;
pub use sorting::lemma_drain_of_meld_with_empty;
pub use sorting::lemma_drain_preserves_counts;
pub use sorting::sort_ascending;
pub use sorting::sorted_ascending;

verus! {

/// The capability a value must have to be stored in one of the heaps:
/// a total, consistent order that never changes while the item is stored.
///
/// The heaps in this crate deliberately fix the item type to `u64`, whose
/// standard order has exactly these properties and is fully known to the
/// verifier. The alternative — an ordering trait whose implementations
/// promise the order laws — would let any unverified implementation
/// outside this crate carry proof obligations that nothing here checks;
/// with a fixed machine-integer item, every obligation is discharged
/// inside the crate. Wider keys are handled by encoding: [`ByteArray`]
/// shows the pattern, carrying this capability through a verified
/// most-significant-byte-first comparison.
pub trait Item {

}

impl Item for u64 {

}

/// `m` is the least value of the multiset `s`: it occurs in `s` and is
/// less than or equal to every value occurring in `s`.
pub open spec fn is_min_of(m: u64, s: Multiset<u64>) -> bool {
    s.contains(m) && forall|x: u64| #[trigger] s.contains(x) ==> m <= x
}

/// The least value of a multiset is unique: any two values that both
/// satisfy [`is_min_of`] are equal. Together with `peek_min` taking `&self`,
/// this is why consecutive `peek_min` calls with no intervening mutation
/// return equal values.
pub proof fn lemma_min_of_unique(s: Multiset<u64>, a: u64, b: u64)
    requires
        is_min_of(a, s),
        is_min_of(b, s),
    ensures
        a == b,
{
}

/// The shared contract of every heap variant. A heap is specified by the
/// multiset of items it holds (`contents`) and a well-formedness invariant
/// (`wf`) that every operation preserves.
///
/// `meld` consumes both operand heaps, so no aliasing between the operands
/// and the result is possible. `peek_min` and `extract_min` signal an empty
/// heap by returning `None`, never by failing.
pub trait MinHeap: Sized {
    /// The multiset of items currently stored in the heap.
    spec fn contents(&self) -> Multiset<u64>;

    /// The variant's internal invariant.
    spec fn wf(&self) -> bool;

    /// Creates an empty heap.
    fn make_heap() -> (h: Self)
        ensures
            h.wf(),
            h.contents() == Multiset::<u64>::empty(),
    ;

    /// Returns the least item without removing it, or `None` on an empty
    /// heap. Takes `&self`: it can never mutate the heap.
    fn peek_min(&self) -> (r: Option<u64>)
        requires
            self.wf(),
        ensures
            match r {
                None => self.contents() == Multiset::<u64>::empty(),
                Some(m) => is_min_of(m, self.contents()),
            },
    ;

    /// Removes and returns the least item, or returns `None` and leaves the
    /// heap unchanged when it is empty.
    fn extract_min(&mut self) -> (r: Option<u64>)
        requires
            old(self).wf(),
        ensures
            final(self).wf(),
            match r {
                None => {
                    &&& old(self).contents() == Multiset::<u64>::empty()
                    &&& final(self).contents() == old(self).contents()
                },
                Some(m) => {
                    &&& is_min_of(m, old(self).contents())
                    &&& final(self).contents() == old(self).contents().remove(m)
                },
            },
    ;

    /// Adds one item.
    fn insert(&mut self, item: u64)
        requires
            old(self).wf(),
        ensures
            final(self).wf(),
            final(self).contents() == old(self).contents().insert(item),
    ;

    /// Bulk-builds a heap holding exactly the given items, duplicates
    /// preserved in count.
    fn heapify(items: Vec<u64>) -> (h: Self)
        ensures
            h.wf(),
            h.contents() == items@.to_multiset(),
    ;

    /// Combines two heaps into one holding the multiset union of their
    /// contents. Consumes both operands.
    fn meld(heap_a: Self, heap_b: Self) -> (h: Self)
        requires
            heap_a.wf(),
            heap_b.wf(),
        ensures
            h.wf(),
            h.contents() == heap_a.contents().add(heap_b.contents()),
    ;
}

} // verus!
