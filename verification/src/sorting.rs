//! Heap-sort driver over any [`MinHeap`] variant, and the laws that relate
//! draining a heap to sorting the items that were put into it.

use crate::MinHeap;
use vstd::multiset::Multiset;
use vstd::prelude::*;
use vstd::relations::sorted_by;
use vstd::relations::total_ordering;
use vstd::seq_lib::lemma_multiset_commutative;
use vstd::seq_lib::lemma_sorted_unique;

verus! {

broadcast use {
    vstd::seq_lib::group_to_multiset_ensures,
    vstd::multiset::group_multiset_axioms,
};

/// The ascending order on items, as a spec-level relation.
pub open spec fn le_items() -> spec_fn(u64, u64) -> bool {
    |a: u64, b: u64| a <= b
}

/// The sequence is in ascending order.
pub open spec fn sorted_ascending(s: Seq<u64>) -> bool {
    forall|i: int, j: int| 0 <= i <= j < s.len() ==> #[trigger] s[i] <= #[trigger] s[j]
}

/// The ascending sort of a sequence: the unique ascending permutation.
pub open spec fn sort_ascending(s: Seq<u64>) -> Seq<u64> {
    s.sort_by(le_items())
}

/// The ascending order on items is a total ordering.
proof fn lemma_le_items_total_ordering()
    ensures
        total_ordering(le_items()),
{
    let leq = le_items();
    assert forall|x: u64| #[trigger] leq(x, x) by {}
    assert forall|x: u64, y: u64| #[trigger] leq(x, y) && #[trigger] leq(y, x) implies x == y by {}
    assert forall|x: u64, y: u64, z: u64| #[trigger] leq(x, y) && #[trigger] leq(y, z) implies leq(
        x,
        z,
    ) by {}
    assert forall|x: u64, y: u64| #[trigger] leq(x, y) || #[trigger] leq(y, x) by {}
}

/// The two phrasings of ascending order agree.
proof fn lemma_sorted_ascending_iff_sorted_by(s: Seq<u64>)
    ensures
        sorted_ascending(s) <==> sorted_by(s, le_items()),
{
    let leq = le_items();
    if sorted_ascending(s) {
        assert forall|i: int, j: int| 0 <= i < j < s.len() implies #[trigger] leq(s[i], s[j]) by {
            assert(s[i] <= s[j]);
        }
    }
    if sorted_by(s, leq) {
        assert forall|i: int, j: int| 0 <= i <= j < s.len() implies #[trigger] s[i] <= #[trigger] s[j] by {
            if i < j {
                assert(leq(s[i], s[j]));
            }
        }
    }
}

/// Draining a heap built from `items` yields exactly the ascending sort of
/// `items`: any ascending sequence holding the same items as `items`,
/// duplicates included, is that sort.
pub proof fn lemma_drain_is_sort_of_input(items: Seq<u64>, drained: Seq<u64>)
    requires
        sorted_ascending(drained),
        drained.to_multiset() == items.to_multiset(),
    ensures
        drained == sort_ascending(items),
{
    lemma_le_items_total_ordering();
    lemma_sorted_ascending_iff_sorted_by(drained);
    items.lemma_sort_by_ensures(le_items());
    lemma_sorted_unique(drained, sort_ascending(items), le_items());
}

/// Draining the meld of two heaps yields the ascending sort of the multiset
/// union of their contents: it equals the sort of the two individual drains
/// laid end to end, duplicates preserved.
pub proof fn lemma_drain_of_meld(
    contents_a: Multiset<u64>,
    contents_b: Multiset<u64>,
    drain_a: Seq<u64>,
    drain_b: Seq<u64>,
    drain_meld: Seq<u64>,
)
    requires
        sorted_ascending(drain_a),
        drain_a.to_multiset() == contents_a,
        sorted_ascending(drain_b),
        drain_b.to_multiset() == contents_b,
        sorted_ascending(drain_meld),
        drain_meld.to_multiset() == contents_a.add(contents_b),
    ensures
        drain_meld == sort_ascending(drain_a + drain_b),
{
    lemma_multiset_commutative(drain_a, drain_b);
    lemma_drain_is_sort_of_input(drain_a + drain_b, drain_meld);
}

/// Melding a heap with an empty heap drains identically to the heap alone,
/// and melding two empty heaps drains to nothing.
pub proof fn lemma_drain_of_meld_with_empty(
    contents_a: Multiset<u64>,
    drain_meld: Seq<u64>,
    drain_a: Seq<u64>,
)
    requires
        sorted_ascending(drain_meld),
        drain_meld.to_multiset() == contents_a.add(Multiset::<u64>::empty()),
        sorted_ascending(drain_a),
        drain_a.to_multiset() == contents_a,
    ensures
        drain_meld == drain_a,
        contents_a == Multiset::<u64>::empty() ==> drain_meld == Seq::<u64>::empty(),
{
    lemma_le_items_total_ordering();
    lemma_sorted_ascending_iff_sorted_by(drain_meld);
    lemma_sorted_ascending_iff_sorted_by(drain_a);
    assert(contents_a.add(Multiset::<u64>::empty()) =~= contents_a);
    lemma_sorted_unique(drain_meld, drain_a, le_items());
    assert(drain_meld =~= drain_a);
    if contents_a == Multiset::<u64>::empty() {
        assert(drain_meld.to_multiset() =~= Multiset::<u64>::empty());
        assert(Multiset::<u64>::empty().len() == 0) by {
            vstd::multiset::lemma_multiset_empty_len(Multiset::<u64>::empty());
        }
        assert(drain_meld.len() == 0);
        assert(drain_meld =~= Seq::<u64>::empty());
    }
}

/// How often a value occurs in a sequence, counted by the multiset.
proof fn lemma_count_is_filter_len(s: Seq<u64>, x: u64)
    ensures
        s.to_multiset().count(x) == s.filter(|y: u64| y == x).len(),
    decreases s.len(),
{
    reveal(Seq::filter);
    if s.len() == 0 {
    } else {
        lemma_count_is_filter_len(s.drop_last(), x);
        assert(s =~= s.drop_last().push(s.last()));
        assert(s.to_multiset() =~= s.drop_last().push(s.last()).to_multiset());
    }
}

/// Duplicate items are preserved in count: every value occurs in the drain
/// of a heap exactly as often as it occurred among the items the heap was
/// built from.
pub proof fn lemma_drain_preserves_counts(items: Seq<u64>, drained: Seq<u64>, x: u64)
    requires
        drained.to_multiset() == items.to_multiset(),
    ensures
        drained.filter(|y: u64| y == x).len() == items.filter(|y: u64| y == x).len(),
{
    lemma_count_is_filter_len(items, x);
    lemma_count_is_filter_len(drained, x);
}

/// Sorts the items ascending by building a heap of the chosen variant and
/// repeatedly extracting the minimum until the heap reports empty.
pub fn heap_sort<H: MinHeap>(items: Vec<u64>) -> (r: Vec<u64>)
    ensures
        sorted_ascending(r@),
        r@.to_multiset() == items@.to_multiset(),
        r@ == sort_ascending(items@),
{
    let ghost items_view = items@;
    let ghost total = items@.to_multiset();
    let mut heap = H::heapify(items);
    let mut out: Vec<u64> = Vec::new();
    proof {
        assert(out@.to_multiset() =~= Multiset::<u64>::empty());
        assert(out@.to_multiset().add(heap.contents()) =~= total);
    }
    loop
        invariant
            heap.wf(),
            out@.to_multiset().add(heap.contents()) == total,
            sorted_ascending(out@),
            forall|x: u64| #[trigger]
                heap.contents().contains(x) ==> out@.len() == 0 || out@.last() <= x,
        ensures
            heap.contents() == Multiset::<u64>::empty(),
            out@.to_multiset().add(heap.contents()) == total,
            sorted_ascending(out@),
        decreases heap.contents().len(),
    {
        let ghost pre_contents = heap.contents();
        let ghost pre_out = out@;
        match heap.extract_min() {
            None => {
                break ;
            },
            Some(x) => {
                out.push(x);
                proof {
                    assert(out@ =~= pre_out.push(x));
                    assert(out@.to_multiset() =~= pre_out.to_multiset().insert(x));
                    assert(pre_contents.contains(x));
                    assert(out@.to_multiset().add(heap.contents()) =~= total);
                    assert forall|i: int, j: int| 0 <= i <= j < out@.len() implies #[trigger] out@[i]
                        <= #[trigger] out@[j] by {
                        if j == out@.len() - 1 && i < j {
                            assert(out@[i] == pre_out[i]);
                            assert(pre_out[i] <= pre_out.last());
                        }
                    }
                    assert forall|y: u64| #[trigger] heap.contents().contains(y) implies out@.len()
                        == 0 || out@.last() <= y by {
                        assert(pre_contents.contains(y));
                    }
                }
            },
        }
    }
    proof {
        assert(out@.to_multiset() =~= total);
        lemma_drain_is_sort_of_input(items_view, out@);
    }
    out
}

} // verus!
