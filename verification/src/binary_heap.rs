//! Array-based binary min-heap: a dense array whose positions encode an
//! implicit tree, kept in heap order by in-place sift operations.

use crate::MinHeap;
use vstd::multiset::Multiset;
use vstd::prelude::*;
use vstd::seq_lib::lemma_multiset_commutative;

verus! {

broadcast use {
    vstd::seq_lib::group_to_multiset_ensures,
    vstd::seq_lib::to_multiset_update,
    vstd::multiset::group_multiset_axioms,
};

/// The index of the parent of the node stored at index `j`, for `j >= 1`.
pub open spec fn parent_idx(j: int) -> int {
    (j - 1) / 2
}

/// Every parent-child edge whose parent index is at least `k` respects the
/// heap order: the parent's item is not greater than the child's.
pub open spec fn heap_from(s: Seq<u64>, k: int) -> bool {
    forall|j: int|
        0 < j < s.len() && parent_idx(j) >= k ==> s[parent_idx(j)] <= #[trigger] s[j]
}

/// The heap-order invariant of the whole array: for every index `j > 0`,
/// the item at `parent_idx(j)` is not greater than the item at `j`.
pub open spec fn heap_ordered(s: Seq<u64>) -> bool {
    heap_from(s, 0)
}

/// Index `j` lies in the subtree rooted at index `i` of the implicit tree.
pub open spec fn in_subtree(i: int, j: int) -> bool
    decreases (if j > i {
        j - i
    } else {
        0
    }),
{
    if j == i {
        true
    } else if j > i && i >= 0 {
        in_subtree(i, parent_idx(j))
    } else {
        false
    }
}

/// Heap order holds for every edge except possibly the edge into index `c`.
spec fn heap_except_at(s: Seq<u64>, c: int) -> bool {
    forall|j: int| 0 < j < s.len() && j != c ==> s[parent_idx(j)] <= #[trigger] s[j]
}

/// The grandparent condition used while sifting up: the parent of the hole
/// `c` is already not greater than every child of `c`.
spec fn grandparent_le_children(s: Seq<u64>, c: int) -> bool {
    forall|j: int|
        0 < j < s.len() && c > 0 && parent_idx(j) == c ==> s[parent_idx(c)] <= #[trigger] s[j]
}

/// In a heap-ordered array the root item is a lower bound for every item.
proof fn lemma_root_le(s: Seq<u64>, i: int)
    requires
        heap_ordered(s),
        0 <= i < s.len(),
    ensures
        s[0] <= s[i],
    decreases i,
{
    if i > 0 {
        lemma_root_le(s, parent_idx(i));
    }
}

/// Exchanging two positions of a sequence leaves its multiset unchanged.
proof fn lemma_swap_multiset(s: Seq<u64>, i: int, j: int)
    requires
        0 <= i < s.len(),
        0 <= j < s.len(),
    ensures
        s.update(i, s[j]).update(j, s[i]).to_multiset() == s.to_multiset(),
{
    if i == j {
        assert(s.update(i, s[j]).update(j, s[i]) =~= s);
    } else {
        let s1 = s.update(i, s[j]);
        let s2 = s1.update(j, s[i]);
        assert(s1.to_multiset() =~= s.to_multiset().remove(s[i]).insert(s[j]));
        assert(s2.to_multiset() =~= s1.to_multiset().remove(s1[j]).insert(s[i]));
        assert(s1[j] == s[j]);
        assert(s2.to_multiset() =~= s.to_multiset());
    }
}

/// Swaps the items stored at indices `i` and `j`.
fn swap_items(v: &mut Vec<u64>, i: usize, j: usize)
    requires
        i < old(v).len(),
        j < old(v).len(),
    ensures
        final(v)@ == old(v)@.update(i as int, old(v)@[j as int]).update(j as int, old(v)@[i as int]),
        final(v)@.to_multiset() == old(v)@.to_multiset(),
        final(v)@.len() == old(v)@.len(),
{
    proof {
        lemma_swap_multiset(v@, i as int, j as int);
    }
    let a = v[i];
    let b = v[j];
    v.set(i, b);
    v.set(j, a);
}

/// The index of the parent of the node stored at index `i`.
fn parent(i: usize) -> (p: usize)
    requires
        i >= 1,
    ensures
        p == parent_idx(i as int),
{
    (i - 1) / 2
}

/// The index where a left child of index `i` would be stored.
fn left(i: usize) -> (l: usize)
    requires
        2 * i + 1 <= usize::MAX,
    ensures
        l == 2 * i + 1,
{
    2 * i + 1
}

/// The index where a right child of index `i` would be stored.
fn right(i: usize) -> (r: usize)
    requires
        2 * i + 2 <= usize::MAX,
    ensures
        r == 2 * i + 2,
{
    2 * i + 2
}

/// The index of the child of `i` holding the smaller item, or `i` itself
/// when `i` has no children.
fn min_child(items: &Vec<u64>, i: usize) -> (c: usize)
    requires
        i < items.len(),
    ensures
        c == i <==> 2 * i + 1 >= items@.len(),
        2 * i + 1 < items@.len() ==> {
            &&& c == 2 * i + 1 || c == 2 * i + 2
            &&& c < items@.len()
            &&& items@[c as int] <= items@[2 * i + 1]
            &&& (2 * i + 2 < items@.len() ==> items@[c as int] <= items@[2 * i + 2])
        },
{
    let n = items.len();
    if i >= n / 2 {
        return i;
    }
    let l = left(i);
    let r = right(i);
    if r >= n || items[l] < items[r] {
        l
    } else {
        r
    }
}

/// A min-heap stored as a single growable array; position encodes the tree
/// structure, and the heap-order invariant makes index 0 the minimum.
pub struct BinaryHeap {
    array: Vec<u64>,
}

impl BinaryHeap {
    /// Restores heap order after the item at `i` may have become too large:
    /// repeatedly swaps it with its smaller child.
    fn sift_down(&mut self, i: usize)
        requires
            i < old(self).array.len(),
            heap_from(old(self).array@, i + 1),
        ensures
            heap_from(final(self).array@, i as int),
            final(self).array@.to_multiset() == old(self).array@.to_multiset(),
            final(self).array@.len() == old(self).array@.len(),
            forall|j: int|
                0 <= j < old(self).array@.len() && !in_subtree(i as int, j)
                    ==> final(self).array@[j] == #[trigger] old(self).array@[j],
    {
        let ghost orig = self.array@;
        let mut cur = i;
        let mut child = min_child(&self.array, cur);
        while self.array[cur] > self.array[child]
            invariant
                i <= cur < self.array@.len(),
                child == cur || cur < child < self.array@.len(),
                self.array@.len() == orig.len(),
                self.array@.to_multiset() == orig.to_multiset(),
                cur == i || parent_idx(cur as int) >= i,
                in_subtree(i as int, cur as int),
                forall|j: int|
                    0 <= j < orig.len() && !in_subtree(i as int, j) ==> self.array@[j]
                        == #[trigger] orig[j],
                // heap order except for edges out of the hole `cur`
                forall|j: int|
                    0 < j < self.array@.len() && parent_idx(j) >= i && parent_idx(j) != cur ==>
                        self.array@[parent_idx(j)] <= #[trigger] self.array@[j],
                // the hole's parent is a lower bound for the hole's children
                forall|j: int|
                    0 < j < self.array@.len() && cur != i && #[trigger] parent_idx(j) == cur ==>
                        self.array@[parent_idx(cur as int)] <= self.array@[j],
                // what min_child established about `child`
                child == cur <==> 2 * cur + 1 >= self.array@.len(),
                2 * cur + 1 < self.array@.len() ==> {
                    &&& child == 2 * cur + 1 || child == 2 * cur + 2
                    &&& self.array@[child as int] <= self.array@[2 * cur + 1]
                    &&& (2 * cur + 2 < self.array@.len() ==> self.array@[child as int]
                        <= self.array@[2 * cur + 2])
                },
            decreases self.array@.len() - cur,
        {
            let ghost pre = self.array@;
            swap_items(&mut self.array, cur, child);
            proof {
                let s = self.array@;
                assert(parent_idx(child as int) == cur);
                assert(in_subtree(i as int, child as int));
                assert forall|j: int|
                    0 <= j < orig.len() && !in_subtree(i as int, j) implies s[j]
                    == #[trigger] orig[j] by {
                    assert(j != cur && j != child);
                    assert(s[j] == pre[j]);
                }
                assert forall|j: int|
                    0 < j < s.len() && parent_idx(j) >= i && parent_idx(j) != child implies
                    s[parent_idx(j)] <= s[j] by {
                    if parent_idx(j) == cur {
                        if j == child {
                            assert(s[j] == pre[cur as int]);
                        } else {
                            assert(s[j] == pre[j]);
                            assert(pre[child as int] <= pre[j]);
                        }
                    } else if j == cur as int {
                        assert(s[j] == pre[child as int]);
                        assert(pre[parent_idx(cur as int)] <= pre[child as int]);
                    } else {
                        assert(s[j] == pre[j] && s[parent_idx(j)] == pre[parent_idx(j)]);
                    }
                }
                assert forall|j: int|
                    0 < j < s.len() && child != i && #[trigger] parent_idx(j) == child implies
                    s[parent_idx(child as int)] <= s[j] by {
                    assert(parent_idx(child as int) == cur);
                    assert(s[cur as int] == pre[child as int]);
                    assert(parent_idx(j) == child && child != cur);
                    assert(pre[child as int] <= pre[j]);
                    assert(s[j] == pre[j]);
                }
            }
            cur = child;
            child = min_child(&self.array, cur);
        }
        proof {
            let s = self.array@;
            assert forall|j: int| 0 < j < s.len() && parent_idx(j) >= i implies s[parent_idx(j)]
                <= s[j] by {
                if parent_idx(j) == cur {
                    assert(j == 2 * cur + 1 || j == 2 * cur + 2);
                    assert(s[cur as int] <= s[child as int]);
                }
            }
        }
    }

    /// Restores heap order after the item at `i` may have become too small:
    /// repeatedly swaps it with its parent while the parent is greater.
    fn sift_up(&mut self, i: usize)
        requires
            i < old(self).array.len(),
            heap_except_at(old(self).array@, i as int),
            grandparent_le_children(old(self).array@, i as int),
        ensures
            heap_ordered(final(self).array@),
            final(self).array@.to_multiset() == old(self).array@.to_multiset(),
            final(self).array@.len() == old(self).array@.len(),
    {
        let ghost orig = self.array@;
        let mut cur = i;
        while cur != 0 && self.array[parent(cur)] > self.array[cur]
            invariant
                cur < self.array@.len(),
                self.array@.len() == orig.len(),
                self.array@.to_multiset() == orig.to_multiset(),
                heap_except_at(self.array@, cur as int),
                grandparent_le_children(self.array@, cur as int),
            decreases cur,
        {
            let ghost pre = self.array@;
            let p = parent(cur);
            swap_items(&mut self.array, p, cur);
            proof {
                let s = self.array@;
                let pi = p as int;
                let ci = cur as int;
                assert forall|j: int| 0 < j < s.len() && j != pi implies s[parent_idx(j)]
                    <= s[j] by {
                    if j == ci {
                        assert(s[pi] == pre[ci] && s[ci] == pre[pi]);
                    } else if parent_idx(j) == pi {
                        assert(s[j] == pre[j]);
                        assert(pre[pi] <= pre[j]);
                        assert(s[pi] == pre[ci]);
                    } else if parent_idx(j) == ci {
                        assert(s[j] == pre[j]);
                        assert(pre[parent_idx(ci)] <= pre[j]);
                        assert(s[ci] == pre[pi]);
                    } else {
                        assert(s[j] == pre[j] && s[parent_idx(j)] == pre[parent_idx(j)]);
                    }
                }
                assert forall|j: int|
                    0 < j < s.len() && pi > 0 && parent_idx(j) == pi implies s[parent_idx(pi)]
                    <= s[j] by {
                    assert(s[parent_idx(pi)] == pre[parent_idx(pi)]);
                    assert(pre[parent_idx(pi)] <= pre[pi]);
                    if j == ci {
                        assert(s[j] == pre[pi]);
                    } else {
                        assert(s[j] == pre[j]);
                        assert(pre[pi] <= pre[j]);
                    }
                }
            }
            cur = p;
        }
    }
}


impl Default for BinaryHeap {
    fn default() -> (h: Self)
        ensures
            h.wf(),
            h.contents() == Multiset::<u64>::empty(),
    {
        Self::make_heap()
    }
}

impl MinHeap for BinaryHeap {
    closed spec fn contents(&self) -> Multiset<u64> {
        self.array@.to_multiset()
    }

    closed spec fn wf(&self) -> bool {
        heap_ordered(self.array@)
    }

    fn make_heap() -> (h: Self) {
        let h = BinaryHeap { array: Vec::new() };
        proof {
            assert(h.array@.to_multiset() =~= Multiset::<u64>::empty());
        }
        h
    }

    fn peek_min(&self) -> (r: Option<u64>) {
        if self.array.len() == 0 {
            proof {
                assert(self.array@.to_multiset() =~= Multiset::<u64>::empty());
            }
            None
        } else {
            proof {
                assert forall|x: u64| #[trigger]
                    self.array@.to_multiset().contains(x) implies self.array@[0] <= x by {
                    assert(self.array@.contains(x));
                    let k = choose|k: int| 0 <= k < self.array@.len() && self.array@[k] == x;
                    lemma_root_le(self.array@, k);
                }
                assert(self.array@.to_multiset().contains(self.array@[0])) by {
                    assert(self.array@.contains(self.array@[0]));
                }
            }
            Some(self.array[0])
        }
    }

    fn extract_min(&mut self) -> (r: Option<u64>) {
        if self.array.len() == 0 {
            proof {
                assert(self.array@.to_multiset() =~= Multiset::<u64>::empty());
            }
            return None;
        }
        let ghost s = self.array@;
        proof {
            assert forall|x: u64| #[trigger] s.to_multiset().contains(x) implies s[0] <= x by {
                assert(s.contains(x));
                let k = choose|k: int| 0 <= k < s.len() && s[k] == x;
                lemma_root_le(s, k);
            }
            assert(s.to_multiset().contains(s[0])) by {
                assert(s.contains(s[0]));
            }
        }
        let m = self.array.swap_remove(0);
        proof {
            let s2 = self.array@;
            let upd = s.update(0, s.last());
            assert(s2 =~= upd.remove(upd.len() - 1));
            assert(upd.to_multiset() =~= s.to_multiset().remove(s[0]).insert(s.last()));
            assert(upd[upd.len() - 1] == s.last());
            assert(s2.to_multiset() =~= upd.to_multiset().remove(s.last()));
            assert(s2.to_multiset() =~= s.to_multiset().remove(s[0]));
            // heap order still holds for every edge whose parent is not the root
            assert forall|j: int| 0 < j < s2.len() && parent_idx(j) >= 1 implies s2[parent_idx(j)]
                <= s2[j] by {
                assert(s2[j] == s[j] && s2[parent_idx(j)] == s[parent_idx(j)]);
            }
        }
        if self.array.len() > 0 {
            self.sift_down(0);
        }
        Some(m)
    }

    fn insert(&mut self, item: u64) {
        let ghost s = self.array@;
        self.array.push(item);
        let idx = self.array.len() - 1;
        proof {
            let s2 = self.array@;
            assert forall|j: int| 0 < j < s2.len() && j != idx implies s2[parent_idx(j)]
                <= s2[j] by {
                assert(s2[j] == s[j] && s2[parent_idx(j)] == s[parent_idx(j)]);
            }
            assert forall|j: int|
                0 < j < s2.len() && idx > 0 && parent_idx(j) == idx implies s2[parent_idx(
                idx as int,
            )] <= s2[j] by {
                assert(j >= 2 * idx + 1);
                assert(false);
            }
        }
        self.sift_up(idx);
    }

    fn heapify(items: Vec<u64>) -> (h: Self) {
        let mut heap = BinaryHeap { array: items };
        let ghost orig = heap.array@;
        let n = heap.array.len();
        proof {
            assert forall|j: int|
                0 < j < orig.len() && parent_idx(j) >= n / 2 implies orig[parent_idx(j)]
                <= orig[j] by {
                assert(parent_idx(j) <= (orig.len() - 2) / 2);
                assert(false);
            }
        }
        let mut k = n / 2;
        while k > 0
            invariant
                k <= n,
                n == heap.array@.len(),
                heap.array@.len() == orig.len(),
                heap.array@.to_multiset() == orig.to_multiset(),
                heap_from(heap.array@, k as int),
            decreases k,
        {
            k = k - 1;
            heap.sift_down(k);
        }
        heap
    }

    fn meld(heap_a: Self, heap_b: Self) -> (h: Self) {
        let mut items = heap_a.array;
        let mut rest = heap_b.array;
        proof {
            lemma_multiset_commutative(items@, rest@);
        }
        items.append(&mut rest);
        Self::heapify(items)
    }
}

} // verus!
