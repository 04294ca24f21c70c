use heaps::heap_sort;
use heaps::BinaryHeap;
use heaps::BinomialHeap;
use heaps::BinomialTreeNode;
use heaps::ByteArray;
use heaps::LazyBinomialHeap;
use heaps::List;
use heaps::MinHeap;
use heaps::Tree;

fn simple_impl<H: MinHeap>() {
    let mut heap = H::make_heap();
    heap.insert(3);
    heap.insert(2);
    heap.insert(1);

    assert_eq!(heap.peek_min(), Some(1));

    assert_eq!(heap.extract_min(), Some(1));
    assert_eq!(heap.extract_min(), Some(2));
    assert_eq!(heap.peek_min(), Some(3));
    assert_eq!(heap.extract_min(), Some(3));
    assert_eq!(heap.peek_min(), None);
    assert_eq!(heap.extract_min(), None);
}

fn empty_heap_impl<H: MinHeap>() {
    let mut heap = H::make_heap();

    assert_eq!(heap.peek_min(), None);
    assert_eq!(heap.extract_min(), None);
}

fn insert_after_extract_impl<H: MinHeap>() {
    let mut heap = H::make_heap();

    heap.insert(5);
    heap.insert(3);
    heap.insert(8);

    assert_eq!(heap.extract_min(), Some(3));

    heap.insert(2);

    assert_eq!(heap.extract_min(), Some(2));
    assert_eq!(heap.extract_min(), Some(5));
    assert_eq!(heap.extract_min(), Some(8));
    assert_eq!(heap.extract_min(), None);
}

fn duplicate_items_impl<H: MinHeap>() {
    let mut heap = H::make_heap();

    heap.insert(5);
    heap.insert(5);
    heap.insert(5);

    assert_eq!(heap.peek_min(), Some(5));
    assert_eq!(heap.extract_min(), Some(5));
    assert_eq!(heap.extract_min(), Some(5));
    assert_eq!(heap.extract_min(), Some(5));
    assert_eq!(heap.extract_min(), None);
}

fn mixed_insertions_and_extractions_impl<H: MinHeap>() {
    let mut heap = H::make_heap();

    heap.insert(10);
    heap.insert(20);
    heap.insert(5);

    assert_eq!(heap.extract_min(), Some(5));

    heap.insert(15);
    heap.insert(30);

    assert_eq!(heap.extract_min(), Some(10));
    assert_eq!(heap.extract_min(), Some(15));
    assert_eq!(heap.extract_min(), Some(20));
    assert_eq!(heap.extract_min(), Some(30));
    assert_eq!(heap.extract_min(), None);
}

fn meld_impl<H: MinHeap>() {
    let mut heap_a = H::make_heap();
    heap_a.insert(0);
    heap_a.insert(3);
    heap_a.insert(6);

    let mut heap_b = H::make_heap();
    heap_b.insert(1);
    heap_b.insert(4);
    heap_b.insert(7);

    let mut heap_c = H::make_heap();
    heap_c.insert(2);
    heap_c.insert(5);
    heap_c.insert(8);

    let heap_ac = H::meld(heap_a, heap_c);
    let mut heap_abc = H::meld(heap_ac, heap_b);

    assert_eq!(heap_abc.extract_min(), Some(0));
    assert_eq!(heap_abc.extract_min(), Some(1));
    assert_eq!(heap_abc.extract_min(), Some(2));
    assert_eq!(heap_abc.extract_min(), Some(3));
    assert_eq!(heap_abc.extract_min(), Some(4));
    assert_eq!(heap_abc.extract_min(), Some(5));
    assert_eq!(heap_abc.extract_min(), Some(6));
    assert_eq!(heap_abc.extract_min(), Some(7));
    assert_eq!(heap_abc.extract_min(), Some(8));
    assert_eq!(heap_abc.extract_min(), None);

    let heap_a = H::make_heap();
    let heap_b = H::make_heap();
    let mut heap_ab = H::meld(heap_a, heap_b);
    assert_eq!(heap_ab.extract_min(), None);
}

fn heapify_impl<H: MinHeap>() {
    let mut heap = H::heapify(vec![3, 2, 1]);
    assert_eq!(heap.extract_min(), Some(1));
    assert_eq!(heap.extract_min(), Some(2));
    assert_eq!(heap.extract_min(), Some(3));
    assert_eq!(heap.extract_min(), None);

    heap = H::heapify(vec![]);
    assert_eq!(heap.extract_min(), None);
}

fn heapify_duplicates_impl<H: MinHeap>() {
    let mut heap = H::heapify(vec![5, 1, 5, 2, 5, 3, 5]);

    assert_eq!(heap.extract_min(), Some(1));
    assert_eq!(heap.extract_min(), Some(2));
    assert_eq!(heap.extract_min(), Some(3));
    assert_eq!(heap.extract_min(), Some(5));
    assert_eq!(heap.extract_min(), Some(5));
    assert_eq!(heap.extract_min(), Some(5));
    assert_eq!(heap.extract_min(), Some(5));
    assert_eq!(heap.extract_min(), None);
}

fn large_input_impl<H: MinHeap>() {
    let mut heap = H::heapify((1..=10000).rev().collect::<Vec<u64>>());

    for i in 1..=10000 {
        assert_eq!(heap.extract_min(), Some(i));
    }

    assert_eq!(heap.extract_min(), None);
}

fn meld_empty_and_non_empty_impl<H: MinHeap>() {
    let mut heap_a = H::make_heap();
    heap_a.insert(3);
    heap_a.insert(7);

    let mut heap_b = H::make_heap();
    heap_b.insert(1);
    heap_b.insert(5);

    let mut heap_a_and_empty = H::meld(heap_a, H::make_heap());
    let mut heap_empty_and_b = H::meld(H::make_heap(), heap_b);

    assert_eq!(heap_a_and_empty.extract_min(), Some(3));
    assert_eq!(heap_a_and_empty.extract_min(), Some(7));
    assert_eq!(heap_a_and_empty.extract_min(), None);
    assert_eq!(heap_empty_and_b.extract_min(), Some(1));
    assert_eq!(heap_empty_and_b.extract_min(), Some(5));
    assert_eq!(heap_empty_and_b.extract_min(), None);
}

fn meld_two_empty_heaps_impl<H: MinHeap>() {
    let heap_a = H::make_heap();
    let heap_b = H::make_heap();

    let mut heap_ab = H::meld(heap_a, heap_b);

    assert_eq!(heap_ab.extract_min(), None);
}

fn sort_small_list_impl<H: MinHeap>() {
    let items = vec![4, 6, 3, 2, 5, 64, 2, 1];
    let sorted = heap_sort::<H>(items);
    assert!(sorted.is_sorted());
    assert_eq!(sorted, [1, 2, 2, 3, 4, 5, 6, 64]);
}

#[test]
fn binary_heap_simple() {
    simple_impl::<BinaryHeap>();
}

#[test]
fn binary_heap_empty_heap() {
    empty_heap_impl::<BinaryHeap>();
}

#[test]
fn binary_heap_insert_after_extract() {
    insert_after_extract_impl::<BinaryHeap>();
}

#[test]
fn binary_heap_duplicate_items() {
    duplicate_items_impl::<BinaryHeap>();
}

#[test]
fn binary_heap_mixed_insertions_and_extractions() {
    mixed_insertions_and_extractions_impl::<BinaryHeap>();
}

#[test]
fn binary_heap_meld() {
    meld_impl::<BinaryHeap>();
}

#[test]
fn binary_heap_heapify() {
    heapify_impl::<BinaryHeap>();
}

#[test]
fn binary_heap_heapify_duplicates() {
    heapify_duplicates_impl::<BinaryHeap>();
}

#[test]
fn binary_heap_large_input() {
    large_input_impl::<BinaryHeap>();
}

#[test]
fn binary_heap_meld_empty_and_non_empty() {
    meld_empty_and_non_empty_impl::<BinaryHeap>();
}

#[test]
fn binary_heap_meld_two_empty_heaps() {
    meld_two_empty_heaps_impl::<BinaryHeap>();
}

#[test]
fn binomial_insertion() {
    let mut heap = BinomialHeap::make_heap();
    heap.insert(10);
    let head = heap.head.as_ref().unwrap();
    assert_eq!(head.degree, 0);
    assert_eq!(head.item, 10);
    assert!(head.next_sibling.is_none());
    assert!(head.left_child.is_none());
    heap.insert(5);
    let head = heap.head.as_ref().unwrap();
    assert_eq!(head.degree, 1);
    assert_eq!(head.item, 5);
    assert!(head.next_sibling.is_none());
    let child = head.left_child.as_ref().unwrap();
    assert_eq!(child.degree, 0);
    assert_eq!(child.item, 10);
    assert!(child.left_child.is_none());
    assert!(child.next_sibling.is_none());
    assert_eq!(heap.extract_min().unwrap(), 5);
    assert_eq!(heap.extract_min().unwrap(), 10);
}

#[test]
fn binomial_heap_binomial_heap_split() {
    let x = Box::new(BinomialTreeNode {
        item: 1,
        degree: 0,
        next_sibling: None,
        left_child: None,
    });
    let y = Box::new(BinomialTreeNode {
        item: 2,
        degree: 0,
        next_sibling: Some(x),
        left_child: None,
    });
    let z = Box::new(BinomialTreeNode {
        item: 3,
        degree: 0,
        next_sibling: Some(y),
        left_child: None,
    });
    let parent = BinomialTreeNode {
        item: 0,
        degree: 3,
        next_sibling: None,
        left_child: Some(z),
    };
    let (num, rest) = parent.split_remove_root();
    let first = rest.head.as_ref().unwrap();
    let second = first.next_sibling.as_ref().unwrap();
    let third = second.next_sibling.as_ref().unwrap();
    assert_eq!(0, num);
    assert_eq!(1, first.item);
    assert_eq!(2, second.item);
    assert_eq!(3, third.item);
}

#[test]
fn binomial_heap_simple() {
    simple_impl::<BinomialHeap>();
}

#[test]
fn binomial_heap_heapify() {
    heapify_impl::<BinomialHeap>();
}

#[test]
fn binomial_heap_meld() {
    meld_impl::<BinomialHeap>();
}

#[test]
fn binomial_heap_sort() {
    sort_small_list_impl::<BinomialHeap>();
}

#[test]
fn lazy_binomial_simple() {
    simple_impl::<LazyBinomialHeap>();
}

#[test]
fn lazy_binomial_empty_heap() {
    empty_heap_impl::<LazyBinomialHeap>();
}

#[test]
fn lazy_binomial_insert_after_extract() {
    insert_after_extract_impl::<LazyBinomialHeap>();
}

#[test]
fn lazy_binomial_duplicate_items() {
    duplicate_items_impl::<LazyBinomialHeap>();
}

#[test]
fn lazy_binomial_mixed_insertions_and_extractions() {
    mixed_insertions_and_extractions_impl::<LazyBinomialHeap>();
}

#[test]
fn lazy_binomial_meld() {
    meld_impl::<LazyBinomialHeap>();
}

#[test]
fn lazy_binomial_heapify() {
    heapify_impl::<LazyBinomialHeap>();
}

#[test]
fn lazy_binomial_heapify_duplicates() {
    heapify_duplicates_impl::<LazyBinomialHeap>();
}

#[test]
fn lazy_binomial_large_input() {
    large_input_impl::<LazyBinomialHeap>();
}

#[test]
fn lazy_binomial_meld_empty_and_non_empty() {
    meld_empty_and_non_empty_impl::<LazyBinomialHeap>();
}

#[test]
fn lazy_binomial_meld_two_empty_heaps() {
    meld_two_empty_heaps_impl::<LazyBinomialHeap>();
}

#[test]
fn binomial_heap_empty_heap() {
    empty_heap_impl::<BinomialHeap>();
}

#[test]
fn binomial_heap_duplicate_items() {
    duplicate_items_impl::<BinomialHeap>();
}

#[test]
fn binomial_heap_large_input() {
    large_input_impl::<BinomialHeap>();
}

#[test]
fn heap_sort_small_list_every_variant() {
    sort_small_list_impl::<BinaryHeap>();
    sort_small_list_impl::<BinomialHeap>();
    sort_small_list_impl::<LazyBinomialHeap>();
}

#[test]
fn heap_sort_empty_and_singleton() {
    assert_eq!(heap_sort::<BinaryHeap>(vec![]), Vec::<u64>::new());
    assert_eq!(heap_sort::<BinomialHeap>(vec![]), Vec::<u64>::new());
    assert_eq!(heap_sort::<LazyBinomialHeap>(vec![]), Vec::<u64>::new());
    assert_eq!(heap_sort::<BinaryHeap>(vec![7]), [7]);
    assert_eq!(heap_sort::<BinomialHeap>(vec![7]), [7]);
    assert_eq!(heap_sort::<LazyBinomialHeap>(vec![7]), [7]);
}

#[test]
fn peek_min_is_stable_without_mutation() {
    let mut binary = BinaryHeap::heapify(vec![9, 4, 7]);
    assert_eq!(binary.peek_min(), binary.peek_min());
    assert_eq!(binary.peek_min(), Some(4));
    assert_eq!(binary.extract_min(), Some(4));

    let mut binomial = BinomialHeap::heapify(vec![9, 4, 7]);
    assert_eq!(binomial.peek_min(), binomial.peek_min());
    assert_eq!(binomial.peek_min(), Some(4));
    assert_eq!(binomial.extract_min(), Some(4));

    let mut lazy = LazyBinomialHeap::heapify(vec![9, 4, 7]);
    assert_eq!(lazy.peek_min(), lazy.peek_min());
    assert_eq!(lazy.peek_min(), Some(4));
    assert_eq!(lazy.extract_min(), Some(4));
}

#[test]
fn heapify_triple_duplicate_extracts_three_times() {
    let mut binary = BinaryHeap::heapify(vec![5, 5, 5]);
    assert_eq!(binary.extract_min(), Some(5));
    assert_eq!(binary.extract_min(), Some(5));
    assert_eq!(binary.extract_min(), Some(5));
    assert_eq!(binary.extract_min(), None);

    let mut binomial = BinomialHeap::heapify(vec![5, 5, 5]);
    assert_eq!(binomial.extract_min(), Some(5));
    assert_eq!(binomial.extract_min(), Some(5));
    assert_eq!(binomial.extract_min(), Some(5));
    assert_eq!(binomial.extract_min(), None);

    let mut lazy = LazyBinomialHeap::heapify(vec![5, 5, 5]);
    assert_eq!(lazy.extract_min(), Some(5));
    assert_eq!(lazy.extract_min(), Some(5));
    assert_eq!(lazy.extract_min(), Some(5));
    assert_eq!(lazy.extract_min(), None);
}

#[test]
fn lazy_binomial_with_item_and_is_empty() {
    let mut heap = LazyBinomialHeap::with_item(42);
    assert!(!heap.is_empty());
    assert_eq!(heap.extract_min(), Some(42));
    assert!(heap.is_empty());
}

#[test]
fn list_with_item_and_iteration() {
    let list = List::with_item(7u64);
    let mut iter = list.into_iter();
    let node = iter.next().unwrap();
    assert_eq!(node.item, 7);
    assert!(node.next.is_none());
    assert!(iter.next().is_none());
}

#[test]
fn list_nodes_chain_in_order() {
    let mut list = List::with_item(1u64);
    let tail = list.head.take().unwrap();
    list.head = Some(Box::new(heaps::ListNode { item: 0, next: Some(tail) }));
    let mut iter = list.into_iter();
    assert_eq!(iter.next().unwrap().item, 0);
    assert_eq!(iter.next().unwrap().item, 1);
    assert!(iter.next().is_none());
}

#[test]
fn tree_with_item_shape() {
    let tree = Tree::with_item(9u64);
    assert_eq!(tree.degree, 0);
    let root = tree.root.as_ref().unwrap();
    assert_eq!(root.item, 9);
    assert!(root.child.is_none());
    assert!(root.sibling.is_none());
}

#[test]
fn byte_array_zero_and_from_usize() {
    let zero = ByteArray::<4>::zero();
    let also_zero = ByteArray::<4>::from_usize(0);
    assert!(!zero.lt(&also_zero));
    assert!(!also_zero.lt(&zero));

    let value = ByteArray::<4>::from_bytes([0x01, 0x02, 0x00, 0x00]);
    let encoded = ByteArray::<4>::from_usize(0x0201);
    assert!(!value.lt(&encoded));
    assert!(!encoded.lt(&value));
}

#[test]
fn byte_array_orders_by_most_significant_byte() {
    let small = ByteArray::<4>::from_bytes([0xff, 0xff, 0x00, 0x00]);
    let large = ByteArray::<4>::from_bytes([0x00, 0x00, 0x01, 0x00]);
    assert!(small.lt(&large));
    assert!(!large.lt(&small));

    let a = ByteArray::<2>::from_usize(300);
    let b = ByteArray::<2>::from_usize(301);
    assert!(a.lt(&b));
    assert!(!b.lt(&a));
}
