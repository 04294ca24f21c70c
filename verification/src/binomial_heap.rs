//! Eager binomial min-heap: a singly-linked root list of heap-ordered
//! binomial trees. `meld` merges the two root lists by degree and then runs
//! a consolidation pass that links trees of equal degree, the step analogous
//! to carrying a bit in binary addition.

use crate::is_min_of;
use crate::MinHeap;
use vstd::multiset::Multiset;
use vstd::prelude::*;
use vstd::arithmetic::power2::lemma_pow2_unfold;
use vstd::arithmetic::power2::pow2;
use vstd::seq_lib::lemma_multiset_commutative;

verus! {

broadcast use {
    vstd::seq_lib::group_to_multiset_ensures,
    vstd::multiset::group_multiset_axioms,
};

/// One node of a binomial tree: an item, the number of children (`degree`),
/// the owned leftmost child, and the owned next sibling. For a forest root,
/// `next_sibling` is the next tree in the root list.
pub struct BinomialTreeNode {
    /// Item the node holds.
    pub item: u64,
    /// Number of children the node has.
    pub degree: usize,
    /// Right sibling of the node, or the next tree of the root list.
    pub next_sibling: Option<Box<BinomialTreeNode>>,
    /// Leftmost (most recently attached) child of the node.
    pub left_child: Option<Box<BinomialTreeNode>>,
}

/// The multiset of all items stored in the forest hanging off `link`,
/// following both child and sibling links.
pub open spec fn forest_ms(link: Option<Box<BinomialTreeNode>>) -> Multiset<u64>
    decreases link,
{
    match link {
        None => Multiset::<u64>::empty(),
        Some(n) => forest_ms(n.left_child).add(forest_ms(n.next_sibling)).insert(n.item),
    }
}

/// The number of trees in the sibling chain starting at `link`.
pub open spec fn forest_len(link: Option<Box<BinomialTreeNode>>) -> nat
    decreases link,
{
    match link {
        None => 0,
        Some(n) => 1 + forest_len(n.next_sibling),
    }
}

/// Every item of the multiset is at least `b`.
pub open spec fn all_at_least(m: Multiset<u64>, b: u64) -> bool {
    forall|x: u64| #[trigger] m.contains(x) ==> b <= x
}

/// Well-formedness of a whole forest, recursively along both links: every
/// node's item is a lower bound for the subtree hanging off its child link,
/// and every node's `degree` is the number of children it actually has.
pub open spec fn forest_wf(link: Option<Box<BinomialTreeNode>>) -> bool
    decreases link,
{
    match link {
        None => true,
        Some(n) => {
            &&& forest_wf(n.left_child)
            &&& forest_wf(n.next_sibling)
            &&& all_at_least(forest_ms(n.left_child), n.item)
            &&& n.degree == forest_len(n.left_child)
        },
    }
}

/// The multiset of items of the single tree rooted at `n`, ignoring any
/// sibling of `n`.
pub open spec fn tree_ms(n: BinomialTreeNode) -> Multiset<u64> {
    forest_ms(n.left_child).insert(n.item)
}

/// Well-formedness of the single tree rooted at `n`: heap order, and a
/// truthful `degree` field.
pub open spec fn tree_wf(n: BinomialTreeNode) -> bool {
    &&& forest_wf(n.left_child)
    &&& all_at_least(forest_ms(n.left_child), n.item)
    &&& n.degree == forest_len(n.left_child)
}

/// The least degree allowed after a root of degree `d` in a strictly
/// increasing root list. A machine-width degree counter cannot be
/// incremented past usize::MAX, so roots whose counter has reached that
/// value may repeat; no buildable heap comes near that bound.
pub open spec fn degree_after(d: int) -> int {
    if d == usize::MAX as int {
        d
    } else {
        d + 1
    }
}

/// The degree of the first tree of a root list, or a value above every
/// possible degree when the list is empty.
pub open spec fn head_degree(link: Option<Box<BinomialTreeNode>>) -> int {
    match link {
        None => usize::MAX as int + 1,
        Some(n) => n.degree as int,
    }
}

/// The chain hanging off a node's child link is the child list of a
/// binomial tree of degree `d`: trees of degrees d-1, d-2, ..., 0, most
/// recently attached first, each itself binomial.
pub open spec fn binomial_chain(link: Option<Box<BinomialTreeNode>>, d: nat) -> bool
    decreases link,
{
    match link {
        None => d == 0,
        Some(n) => {
            &&& d >= 1
            &&& n.degree == d - 1
            &&& binomial_chain(n.left_child, (d - 1) as nat)
            &&& binomial_chain(n.next_sibling, (d - 1) as nat)
        },
    }
}

/// `n` is structurally a binomial tree of its own degree.
pub open spec fn binomial_tree(n: BinomialTreeNode) -> bool {
    binomial_chain(n.left_child, n.degree as nat)
}

/// The binomial-heap invariant of a root list: every tree is a binomial
/// tree and degrees strictly increase along the list, starting at or
/// above `lo` (with the machine-width allowance of [`degree_after`]).
pub open spec fn roots_increasing_from(link: Option<Box<BinomialTreeNode>>, lo: int) -> bool
    decreases link,
{
    match link {
        None => true,
        Some(n) => {
            &&& lo <= n.degree
            &&& binomial_tree(*n)
            &&& roots_increasing_from(n.next_sibling, degree_after(n.degree as int))
        },
    }
}

/// A root list of binomial trees whose degrees are exactly lo, lo+1, ...,
/// d-1: the shape of a reversed child list of a degree-d binomial tree.
pub open spec fn run_up_to(link: Option<Box<BinomialTreeNode>>, lo: nat, d: nat) -> bool
    decreases link,
{
    match link {
        None => lo == d,
        Some(n) => {
            &&& lo < d
            &&& n.degree == lo
            &&& binomial_tree(*n)
            &&& run_up_to(n.next_sibling, lo + 1, d)
        },
    }
}

/// The shape of a degree-merged root list, walked while consolidation is
/// still owed: every tree is binomial, degrees are non-decreasing and at
/// least `lo`, the degree `lo` itself occurs at most `budget` more times,
/// and every later degree occurs at most twice. Degrees that have
/// saturated the machine word may repeat without bound.
spec fn merged_ok(link: Option<Box<BinomialTreeNode>>, lo: int, budget: nat) -> bool
    decreases link,
{
    match link {
        None => true,
        Some(n) => {
            &&& binomial_tree(*n)
            &&& n.degree >= lo
            &&& if n.degree == lo && lo < usize::MAX as int {
                budget >= 1 && merged_ok(n.next_sibling, lo, (budget - 1) as nat)
            } else if n.degree == lo {
                merged_ok(n.next_sibling, lo, 1)
            } else {
                merged_ok(n.next_sibling, n.degree as int, 1)
            }
        },
    }
}

/// The budget of a merged list can be enlarged.
proof fn lemma_merged_ok_budget_up(
    link: Option<Box<BinomialTreeNode>>,
    lo: int,
    b1: nat,
    b2: nat,
)
    requires
        merged_ok(link, lo, b1),
        b1 <= b2,
    ensures
        merged_ok(link, lo, b2),
    decreases link,
{
    match link {
        None => {},
        Some(n) => {
            if n.degree == lo && lo < usize::MAX as int {
                lemma_merged_ok_budget_up(n.next_sibling, lo, (b1 - 1) as nat, (b2 - 1) as nat);
            }
        },
    }
}

/// At a saturated anchor the budget is never consumed, so it is arbitrary.
proof fn lemma_merged_ok_at_max(link: Option<Box<BinomialTreeNode>>, b1: nat, b2: nat)
    requires
        merged_ok(link, usize::MAX as int, b1),
    ensures
        merged_ok(link, usize::MAX as int, b2),
{
}

/// The anchor of a merged list can be raised up to the degree of its first
/// tree, leaving room for two trees of the new anchor degree.
proof fn lemma_merged_ok_anchor_up(
    link: Option<Box<BinomialTreeNode>>,
    lo: int,
    budget: nat,
    m: int,
)
    requires
        merged_ok(link, lo, budget),
        budget <= 2,
        lo <= m,
        m <= head_degree(link),
    ensures
        merged_ok(link, m, 2),
{
    match link {
        None => {},
        Some(n) => {
            if n.degree == lo && lo < usize::MAX as int {
                lemma_merged_ok_budget_up(n.next_sibling, lo, (budget - 1) as nat, 1);
            }
        },
    }
}

/// A merged list holds no degree below its anchor, so the anchor can be
/// lowered to any smaller degree with no budget at all.
proof fn lemma_merged_ok_anchor_down_zero(
    link: Option<Box<BinomialTreeNode>>,
    lo: int,
    budget: nat,
    g: int,
)
    requires
        merged_ok(link, lo, budget),
        budget <= 2,
        g < lo,
    ensures
        merged_ok(link, g, 0),
{
    match link {
        None => {},
        Some(n) => {
            if n.degree == lo && lo < usize::MAX as int {
                lemma_merged_ok_budget_up(n.next_sibling, lo, (budget - 1) as nat, 1);
            }
        },
    }
}

/// A strictly increasing root list is a merged list that will use its
/// head's degree at most once more.
proof fn lemma_increasing_merged_ok(link: Option<Box<BinomialTreeNode>>)
    requires
        roots_increasing_from(link, 0),
    ensures
        merged_ok(link, head_degree(link), 1),
    decreases link,
{
    match link {
        None => {},
        Some(n) => {
            let h = n.degree as int;
            lemma_roots_increasing_weaken(n.next_sibling, 0, degree_after(h));
            lemma_increasing_merged_ok(n.next_sibling);
            match n.next_sibling {
                None => {},
                Some(nn) => {
                    assert(roots_increasing_from(n.next_sibling, degree_after(h)));
                    assert(degree_after(h) <= nn.degree);
                    if h < usize::MAX as int {
                        assert(h < head_degree(n.next_sibling));
                        lemma_merged_ok_anchor_down_zero(
                            n.next_sibling,
                            head_degree(n.next_sibling),
                            1,
                            h,
                        );
                    } else {
                        assert(nn.degree == usize::MAX);
                        assert(head_degree(n.next_sibling) == usize::MAX as int);
                    }
                },
            }
            assert(head_degree(link) == h);
            assert(binomial_tree(*n));
            if h < usize::MAX as int {
                assert(merged_ok(n.next_sibling, h, 0));
            } else {
                assert(merged_ok(n.next_sibling, usize::MAX as int, 1));
            }
            assert(merged_ok(link, h, 1));
        },
    }
}

/// Some root of the list holds the item `m`.
pub open spec fn has_root_item(link: Option<Box<BinomialTreeNode>>, m: u64) -> bool
    decreases link,
{
    match link {
        None => false,
        Some(n) => n.item == m || has_root_item(n.next_sibling, m),
    }
}

/// The bound below a strictly increasing root list can be lowered.
proof fn lemma_roots_increasing_weaken(link: Option<Box<BinomialTreeNode>>, lo1: int, lo2: int)
    requires
        roots_increasing_from(link, lo2),
        lo1 <= lo2,
    ensures
        roots_increasing_from(link, lo1),
{
}

/// A degree-run is in particular a strictly increasing root list.
proof fn lemma_run_up_to_increasing(link: Option<Box<BinomialTreeNode>>, lo: nat, d: nat)
    requires
        run_up_to(link, lo, d),
    ensures
        roots_increasing_from(link, lo as int),
    decreases link,
{
    match link {
        None => {},
        Some(n) => {
            lemma_run_up_to_increasing(n.next_sibling, lo + 1, d);
            assert(degree_after(n.degree as int) <= lo + 1);
            lemma_roots_increasing_weaken(
                n.next_sibling,
                degree_after(n.degree as int),
                lo as int + 1,
            );
        },
    }
}

/// A binomial chain of degree `d` has exactly `d` trees.
proof fn lemma_binomial_chain_len(link: Option<Box<BinomialTreeNode>>, d: nat)
    requires
        binomial_chain(link, d),
    ensures
        forest_len(link) == d,
    decreases link,
{
    match link {
        None => {},
        Some(n) => {
            lemma_binomial_chain_len(n.next_sibling, (d - 1) as nat);
        },
    }
}

/// A binomial chain of degree `d` stores exactly 2^d - 1 items.
pub proof fn lemma_binomial_chain_size(link: Option<Box<BinomialTreeNode>>, d: nat)
    requires
        binomial_chain(link, d),
    ensures
        forest_ms(link).len() + 1 == pow2(d),
    decreases link,
{
    match link {
        None => {
            assert(pow2(0) == 1) by {
                vstd::arithmetic::power2::lemma2_to64();
            }
        },
        Some(n) => {
            lemma_binomial_chain_size(n.left_child, (d - 1) as nat);
            lemma_binomial_chain_size(n.next_sibling, (d - 1) as nat);
            lemma_pow2_unfold(d);
        },
    }
}

/// A binomial tree of degree `d` stores exactly 2^d items: the defining
/// size property of the structure.
pub proof fn lemma_binomial_tree_size(n: BinomialTreeNode)
    requires
        binomial_tree(n),
    ensures
        tree_ms(n).len() == pow2(n.degree as nat),
{
    lemma_binomial_chain_size(n.left_child, n.degree as nat);
}

impl BinomialTreeNode {
    /// Wraps an item as a degree-0 singleton tree.
    pub fn with_item(item: u64) -> (r: Box<BinomialTreeNode>)
        ensures
            r.item == item,
            r.degree == 0,
            r.next_sibling is None,
            r.left_child is None,
            tree_wf(*r),
            binomial_tree(*r),
            tree_ms(*r) == Multiset::<u64>::empty().insert(item),
    {
        Box::new(BinomialTreeNode { item, degree: 0, next_sibling: None, left_child: None })
    }

    /// Removes the root of a detached tree and returns its item together
    /// with a heap made of the root's children. The child list is reversed,
    /// so that children stored most-recently-attached-first come out in
    /// increasing degree order.
    pub fn split_remove_root(self) -> (r: (u64, BinomialHeap))
        requires
            self.next_sibling is None,
            tree_wf(self),
        ensures
            r.0 == self.item,
            forest_wf(r.1.head),
            tree_ms(self) == r.1.contents().insert(r.0),
            all_at_least(r.1.contents(), r.0),
            binomial_tree(self) ==> run_up_to(r.1.head, 0, self.degree as nat),
            binomial_tree(self) ==> r.1.wf(),
    {
        let ghost d0 = self.degree as nat;
        let ghost shaped = binomial_tree(self);
        let BinomialTreeNode { item, degree: _, next_sibling: _, left_child } = self;
        let ghost orig = forest_ms(left_child);
        let mut cur = left_child;
        let mut rev: Option<Box<BinomialTreeNode>> = None;
        proof {
            assert(forest_ms(cur).add(forest_ms(rev)) =~= orig);
            if shaped {
                lemma_binomial_chain_len(cur, d0);
            }
        }
        while cur.is_some()
            invariant
                forest_wf(cur),
                forest_wf(rev),
                forest_ms(cur).add(forest_ms(rev)) == orig,
                shaped ==> binomial_chain(cur, forest_len(cur)) && run_up_to(
                    rev,
                    forest_len(cur),
                    d0,
                ) && forest_len(cur) <= d0,
            decreases forest_len(cur),
        {
            let ghost pre_cur = cur;
            let ghost pre_rev = rev;
            let ghost pre_len = forest_len(cur);
            let mut boxed = cur.take().unwrap();
            cur = boxed.next_sibling.take();
            boxed.next_sibling = rev;
            rev = Some(boxed);
            proof {
                assert(forest_ms(rev) =~= forest_ms(boxed.left_child).add(
                    forest_ms(pre_rev),
                ).insert(boxed.item));
                assert(forest_ms(cur).add(forest_ms(rev)) =~= orig);
                if shaped {
                    assert(binomial_chain(pre_cur, pre_len));
                    assert(forest_len(cur) == pre_len - 1);
                    assert(boxed.degree == pre_len - 1);
                    assert(binomial_chain(boxed.left_child, (pre_len - 1) as nat));
                    assert(binomial_tree(*boxed));
                    assert(run_up_to(rev, forest_len(cur), d0));
                }
            }
        }
        let heap = BinomialHeap { head: rev };
        proof {
            assert(heap.contents() =~= orig);
            assert(tree_ms(self) == orig.insert(item));
            if shaped {
                assert(run_up_to(heap.head, 0, d0));
                lemma_run_up_to_increasing(heap.head, 0, d0);
            }
        }
        (item, heap)
    }
}

/// Links two detached trees of equal degree: the tree with the not-smaller
/// root becomes the new leftmost child of the other, whose degree grows by
/// one.
fn link(a: Box<BinomialTreeNode>, b: Box<BinomialTreeNode>) -> (r: Box<BinomialTreeNode>)
    requires
        tree_wf(*a),
        tree_wf(*b),
        a.next_sibling is None,
        b.next_sibling is None,
        a.degree == b.degree,
        a.degree < usize::MAX,
        binomial_tree(*a),
        binomial_tree(*b),
    ensures
        tree_wf(*r),
        binomial_tree(*r),
        r.next_sibling is None,
        tree_ms(*r) == tree_ms(*a).add(tree_ms(*b)),
        r.degree == a.degree + 1,
        r.item == if a.item <= b.item {
            a.item
        } else {
            b.item
        },
{
    let ghost ta = tree_ms(*a);
    let ghost tb = tree_ms(*b);
    let (mut winner, mut loser) = if a.item <= b.item {
        (a, b)
    } else {
        (b, a)
    };
    let ghost old_winner_children = winner.left_child;
    loser.next_sibling = winner.left_child.take();
    winner.left_child = Some(loser);
    winner.degree = winner.degree + 1;
    proof {
        assert(forest_len(winner.left_child) == 1 + forest_len(old_winner_children));
        assert(binomial_chain(loser.left_child, loser.degree as nat));
        assert(binomial_chain(old_winner_children, loser.degree as nat));
        assert(binomial_chain(winner.left_child, winner.degree as nat));
        assert(forest_ms(winner.left_child) =~= forest_ms(loser.left_child).add(
            forest_ms(old_winner_children),
        ).insert(loser.item));
        assert(tree_ms(*winner) =~= ta.add(tb));
        assert forall|x: u64| #[trigger]
            forest_ms(winner.left_child).contains(x) implies winner.item <= x by {
            if forest_ms(loser.left_child).contains(x) {
                assert(loser.item <= x);
            } else if forest_ms(old_winner_children).contains(x) {
            } else {
                assert(x == loser.item);
            }
        }
    }
    winner
}

/// Merges two root lists the way two sorted sequences are merged: a single
/// pass that repeatedly takes the head of smaller degree.
fn merge_by_degree(
    list_a: Option<Box<BinomialTreeNode>>,
    list_b: Option<Box<BinomialTreeNode>>,
) -> (r: Option<Box<BinomialTreeNode>>)
    requires
        forest_wf(list_a),
        forest_wf(list_b),
        roots_increasing_from(list_a, 0),
        roots_increasing_from(list_b, 0),
    ensures
        forest_wf(r),
        forest_ms(r) == forest_ms(list_a).add(forest_ms(list_b)),
        head_degree(list_a) < head_degree(list_b) ==> merged_ok(r, head_degree(list_a), 1),
        head_degree(list_b) < head_degree(list_a) ==> merged_ok(r, head_degree(list_b), 1),
        head_degree(list_a) == head_degree(list_b) ==> merged_ok(r, head_degree(list_a), 2),
    decreases forest_len(list_a) + forest_len(list_b),
{
    match (list_a, list_b) {
        (None, b) => {
            proof {
                assert(forest_ms(None::<Box<BinomialTreeNode>>).add(forest_ms(b)) =~= forest_ms(
                    b,
                ));
                lemma_increasing_merged_ok(b);
            }
            b
        },
        (a, None) => {
            proof {
                assert(forest_ms(a).add(forest_ms(None::<Box<BinomialTreeNode>>)) =~= forest_ms(
                    a,
                ));
                lemma_increasing_merged_ok(a);
            }
            a
        },
        (Some(mut a), Some(b)) => {
            if a.degree <= b.degree {
                let ghost da = a.degree as int;
                let ghost db = b.degree as int;
                let rest = a.next_sibling.take();
                proof {
                    lemma_roots_increasing_weaken(rest, 0, degree_after(da));
                }
                let merged = merge_by_degree(rest, Some(b));
                proof {
                    let ha2 = head_degree(rest);
                    if rest is Some {
                        assert(roots_increasing_from(rest, degree_after(da)));
                        assert(degree_after(da) <= rest.unwrap().degree);
                    }
                    assert(ha2 >= degree_after(da));
                    if da < db {
                        // the merged tail holds no tree of degree da
                        if ha2 < db {
                            lemma_merged_ok_anchor_down_zero(merged, ha2, 1, da);
                        } else if db < ha2 {
                            lemma_merged_ok_anchor_down_zero(merged, db, 1, da);
                        } else {
                            lemma_merged_ok_anchor_down_zero(merged, ha2, 2, da);
                        }
                        assert(merged_ok(merged, da, 0));
                    } else {
                        // da == db
                        if da == usize::MAX as int {
                            assert(ha2 >= usize::MAX as int);
                            if ha2 == usize::MAX as int {
                                assert(merged_ok(merged, usize::MAX as int, 2));
                                lemma_merged_ok_at_max(merged, 2, 1);
                            } else {
                                assert(merged_ok(merged, db, 1));
                            }
                        } else {
                            assert(db < ha2);
                            assert(merged_ok(merged, db, 1));
                        }
                        assert(merged_ok(merged, da, 1));
                    }
                }
                a.next_sibling = merged;
                let r = Some(a);
                proof {
                    assert(forest_ms(r) =~= forest_ms(a.left_child).add(
                        forest_ms(rest).add(forest_ms(Some(b))),
                    ).insert(a.item));
                    assert(binomial_tree(*a));
                    if da < db {
                        assert(merged_ok(r, da, 1));
                    } else {
                        assert(merged_ok(r, da, 2));
                    }
                }
                r
            } else {
                let ghost da = a.degree as int;
                let ghost db = b.degree as int;
                let mut b = b;
                let rest = b.next_sibling.take();
                proof {
                    lemma_roots_increasing_weaken(rest, 0, degree_after(db));
                }
                let merged = merge_by_degree(Some(a), rest);
                proof {
                    let hb2 = head_degree(rest);
                    if rest is Some {
                        assert(roots_increasing_from(rest, degree_after(db)));
                        assert(degree_after(db) <= rest.unwrap().degree);
                    }
                    assert(hb2 >= degree_after(db));
                    assert(db < usize::MAX as int);
                    if da < hb2 {
                        lemma_merged_ok_anchor_down_zero(merged, da, 1, db);
                    } else if hb2 < da {
                        lemma_merged_ok_anchor_down_zero(merged, hb2, 1, db);
                    } else {
                        lemma_merged_ok_anchor_down_zero(merged, da, 2, db);
                    }
                    assert(merged_ok(merged, db, 0));
                }
                b.next_sibling = merged;
                let r = Some(b);
                proof {
                    assert(forest_ms(r) =~= forest_ms(b.left_child).add(
                        forest_ms(Some(a)).add(forest_ms(rest)),
                    ).insert(b.item));
                    assert(binomial_tree(*b));
                    assert(merged_ok(r, db, 1));
                }
                r
            }
        },
    }
}

/// The consolidation pass: walks the degree-merged root list and links the
/// current tree with the next one whenever exactly two consecutive trees
/// share a degree, so that duplicate degrees are carried away like bits in
/// binary addition and the resulting root list is back in strictly
/// increasing degree order.
fn consolidate(
    mut x: Box<BinomialTreeNode>,
    rest: Option<Box<BinomialTreeNode>>,
    Ghost(budget): Ghost<nat>,
) -> (r: Option<Box<BinomialTreeNode>>)
    requires
        tree_wf(*x),
        binomial_tree(*x),
        x.next_sibling is None,
        forest_wf(rest),
        merged_ok(rest, x.degree as int, budget),
        budget <= 2,
    ensures
        forest_wf(r),
        forest_ms(r) == tree_ms(*x).add(forest_ms(rest)),
        r is Some,
        roots_increasing_from(r, x.degree as int),
        match rest {
            Some(n) => (n.degree == x.degree && x.degree < usize::MAX && head_degree(
                n.next_sibling,
            ) != x.degree as int) ==> roots_increasing_from(r, x.degree as int + 1),
            None => true,
        },
    decreases forest_len(rest),
{
    match rest {
        None => {
            let r = Some(x);
            proof {
                assert(forest_ms(r) =~= tree_ms(*x).add(forest_ms(
                    None::<Box<BinomialTreeNode>>,
                )));
                assert(roots_increasing_from(x.next_sibling, degree_after(x.degree as int)));
                assert(roots_increasing_from(r, x.degree as int));
            }
            r
        },
        Some(mut next) => {
            let ghost d = x.degree as int;
            let ghost nd = next.degree as int;
            let next_rest = next.next_sibling.take();
            let third_shares_degree = match &next_rest {
                Some(nn) => nn.degree == x.degree,
                None => false,
            };
            // linking increments the winner's degree, so it needs headroom
            // in the machine-width degree counter
            if x.degree == next.degree && !third_shares_degree && x.degree < usize::MAX {
                proof {
                    // two trees of degree d meet and no third follows, so
                    // everything left is of degree at least d + 1
                    assert(merged_ok(next_rest, d, (budget - 1) as nat));
                    if next_rest is Some {
                        assert(next_rest.unwrap().degree != d);
                        assert(next_rest.unwrap().degree >= d);
                    }
                    assert(head_degree(next_rest) >= d + 1);
                    lemma_merged_ok_anchor_up(next_rest, d, (budget - 1) as nat, d + 1);
                }
                let linked = link(x, next);
                let r = consolidate(linked, next_rest, Ghost(2nat));
                proof {
                    assert(forest_ms(r) =~= tree_ms(*x).add(
                        forest_ms(next.left_child).add(forest_ms(next_rest)).insert(next.item),
                    ));
                    lemma_roots_increasing_weaken(r, d, d + 1);
                }
                r
            } else {
                let ghost tail_budget: nat = if nd == d && d < usize::MAX as int {
                    (budget - 1) as nat
                } else {
                    1nat
                };
                proof {
                    if nd == d && d < usize::MAX as int {
                        assert(merged_ok(next_rest, d, tail_budget));
                    } else if nd == d {
                        assert(merged_ok(next_rest, d, 1));
                    } else {
                        assert(merged_ok(next_rest, nd, 1));
                    }
                }
                let tail = consolidate(next, next_rest, Ghost(tail_budget));
                proof {
                    if nd == d && d < usize::MAX as int {
                        // a third tree of degree d follows; the budget shows
                        // it is the last one, so the recursive call links it
                        // and its result starts strictly above d
                        assert(third_shares_degree);
                        let nn = *next_rest.unwrap();
                        assert(nn.degree == d);
                        assert(merged_ok(next_rest, d, tail_budget));
                        assert(tail_budget >= 1);
                        assert(budget == 2 && tail_budget == 1);
                        assert(merged_ok(nn.next_sibling, d, 0));
                        if nn.next_sibling is Some {
                            assert(nn.next_sibling.unwrap().degree != d);
                        }
                        assert(head_degree(nn.next_sibling) != d);
                        assert(roots_increasing_from(tail, d + 1));
                    }
                }
                x.next_sibling = tail;
                let r = Some(x);
                proof {
                    assert(forest_ms(r) =~= tree_ms(*x).add(
                        forest_ms(next.left_child).add(forest_ms(next_rest)).insert(next.item),
                    ));
                    if nd == d && d < usize::MAX as int {
                        assert(roots_increasing_from(r, d));
                    } else if nd == d {
                        // saturated degrees may repeat
                        assert(degree_after(d) == d);
                        lemma_roots_increasing_weaken(tail, degree_after(d), nd);
                        assert(roots_increasing_from(r, d));
                    } else {
                        assert(nd >= d + 1);
                        lemma_roots_increasing_weaken(tail, degree_after(d), nd);
                        assert(roots_increasing_from(r, d));
                    }
                }
                r
            }
        },
    }
}

/// Returns the least item of all the roots of the forest, which by heap
/// order is the least item of the whole forest.
fn find_min_item(link: &Option<Box<BinomialTreeNode>>) -> (r: Option<u64>)
    requires
        forest_wf(*link),
    ensures
        match r {
            None => link is None,
            Some(m) => is_min_of(m, forest_ms(*link)) && has_root_item(*link, m),
        },
    decreases forest_len(*link),
{
    match link {
        None => None,
        Some(n) => {
            let rest_min = find_min_item(&n.next_sibling);
            let m = match rest_min {
                None => n.item,
                Some(m) => if n.item <= m {
                    n.item
                } else {
                    m
                },
            };
            proof {
                let whole = forest_ms(*link);
                assert(whole.contains(n.item));
                if rest_min is Some && rest_min.unwrap() < n.item {
                    assert(forest_ms(n.next_sibling).contains(m));
                    assert(whole.contains(m));
                }
                assert forall|x: u64| #[trigger] whole.contains(x) implies m <= x by {
                    if forest_ms(n.left_child).contains(x) {
                        assert(n.item <= x);
                    } else if forest_ms(n.next_sibling).contains(x) {
                        assert(rest_min is Some);
                    } else {
                        assert(x == n.item);
                    }
                }
            }
            Some(m)
        },
    }
}

/// Detaches the first root-list tree whose root holds the item `m`,
/// returning it with its sibling link cleared, together with the remaining
/// root list with the other trees' order untouched.
fn remove_root_with_item(link: Option<Box<BinomialTreeNode>>, m: u64) -> (r: (
    Box<BinomialTreeNode>,
    Option<Box<BinomialTreeNode>>,
))
    requires
        forest_wf(link),
        roots_increasing_from(link, 0),
        has_root_item(link, m),
    ensures
        r.0.item == m,
        r.0.next_sibling is None,
        tree_wf(*r.0),
        binomial_tree(*r.0),
        forest_wf(r.1),
        forest_ms(link) == tree_ms(*r.0).add(forest_ms(r.1)),
        forall|lo: int| #[trigger]
            roots_increasing_from(link, lo) ==> roots_increasing_from(r.1, lo),
    decreases forest_len(link),
{
    let ghost whole = forest_ms(link);
    let mut x = link.unwrap();
    let rest = x.next_sibling.take();
    if x.item == m {
        proof {
            assert(whole =~= tree_ms(*x).add(forest_ms(rest)));
            assert forall|lo: int| #[trigger]
                roots_increasing_from(link, lo) implies roots_increasing_from(rest, lo) by {
                lemma_roots_increasing_weaken(rest, lo, degree_after(x.degree as int));
            }
        }
        (x, rest)
    } else {
        proof {
            lemma_roots_increasing_weaken(rest, 0, degree_after(x.degree as int));
        }
        let (t, others) = remove_root_with_item(rest, m);
        x.next_sibling = others;
        let r = (t, Some(x));
        proof {
            assert(whole =~= tree_ms(*x).add(forest_ms(rest)));
            assert(forest_ms(rest) == tree_ms(*t).add(forest_ms(others)));
            assert(forest_ms(Some(x)) =~= forest_ms(x.left_child).add(forest_ms(others)).insert(
                x.item,
            ));
            assert(whole =~= tree_ms(*t).add(forest_ms(Some(x))));
            assert forall|lo: int| #[trigger]
                roots_increasing_from(link, lo) implies roots_increasing_from(
                Some(x),
                lo,
            ) by {
                assert(roots_increasing_from(rest, degree_after(x.degree as int)));
                assert(roots_increasing_from(others, degree_after(x.degree as int)));
            }
        }
        r
    }
}

/// A well-formed binomial heap holding exactly two items has exactly one
/// possible forest: a single degree-1 tree whose root holds the smaller
/// item and whose sole child holds the larger. In particular, inserting
/// two items into an empty heap always produces this forest.
pub proof fn lemma_two_item_heap_shape(h: BinomialHeap)
    requires
        h.wf(),
        h.contents().len() == 2,
    ensures
        h.head is Some,
        h.head.unwrap().degree == 1,
        h.head.unwrap().next_sibling is None,
        h.head.unwrap().left_child is Some,
        h.head.unwrap().left_child.unwrap().degree == 0,
        h.head.unwrap().left_child.unwrap().left_child is None,
        h.head.unwrap().left_child.unwrap().next_sibling is None,
        h.head.unwrap().item <= h.head.unwrap().left_child.unwrap().item,
        h.contents() == Multiset::<u64>::empty().insert(h.head.unwrap().item).insert(
            h.head.unwrap().left_child.unwrap().item,
        ),
{
    vstd::arithmetic::power2::lemma2_to64();
    assert(h.head is Some) by {
        if h.head is None {
            assert(h.contents() =~= Multiset::<u64>::empty());
            vstd::multiset::lemma_multiset_empty_len(Multiset::<u64>::empty());
        }
    }
    let n = *h.head.unwrap();
    lemma_binomial_tree_size(n);
    assert(h.contents().len() == tree_ms(n).len() + forest_ms(n.next_sibling).len());
    assert(n.next_sibling is None) by {
        if n.next_sibling is Some {
            let n2 = *n.next_sibling.unwrap();
            assert(roots_increasing_from(n.next_sibling, degree_after(n.degree as int)));
            assert(binomial_tree(n2));
            lemma_binomial_tree_size(n2);
            assert(forest_ms(n.next_sibling).len() == tree_ms(n2).len() + forest_ms(
                n2.next_sibling,
            ).len());
            assert(n2.degree >= 1) by {
                assert(degree_after(n.degree as int) <= n2.degree);
                if n.degree == usize::MAX {
                    assert(n2.degree == usize::MAX);
                } else {
                    assert(n2.degree >= n.degree + 1);
                }
            }
            assert(pow2(n2.degree as nat) >= 2) by {
                vstd::arithmetic::power2::lemma_pow2_strictly_increases(0, n2.degree as nat);
            }
            assert(pow2(n.degree as nat) >= 1) by {
                vstd::arithmetic::power2::lemma_pow2_pos(n.degree as nat);
            }
            assert(h.contents().len() >= 3);
        }
    }
    assert(tree_ms(n).len() == 2);
    assert(n.degree == 1) by {
        if n.degree == 0 {
            assert(pow2(0) == 1);
        } else if n.degree >= 2 {
            assert(pow2(n.degree as nat) >= 4) by {
                if n.degree > 2 {
                    vstd::arithmetic::power2::lemma_pow2_strictly_increases(
                        2,
                        n.degree as nat,
                    );
                }
            }
        }
    }
    assert(binomial_chain(n.left_child, 1));
    let c = *n.left_child.unwrap();
    assert(c.degree == 0);
    assert(binomial_chain(c.left_child, 0));
    assert(binomial_chain(c.next_sibling, 0));
    assert(c.left_child is None && c.next_sibling is None);
    assert(forest_ms(c.left_child) =~= Multiset::<u64>::empty());
    assert(forest_ms(n.left_child) =~= Multiset::<u64>::empty().insert(c.item));
    assert(h.contents() =~= Multiset::<u64>::empty().insert(n.item).insert(c.item));
    assert(n.item <= c.item) by {
        assert(forest_ms(n.left_child).contains(c.item));
    }
}

/// A binomial min-heap: an owned root list of heap-ordered binomial trees
/// in strictly increasing degree order, the invariant analogous to the
/// bits of a binary counter.
pub struct BinomialHeap {
    /// The head of the root list.
    pub head: Option<Box<BinomialTreeNode>>,
}

impl BinomialHeap {
    /// A heap holding exactly one item.
    fn with_item(item: u64) -> (h: Self)
        ensures
            h.wf(),
            h.contents() == Multiset::<u64>::empty().insert(item),
    {
        let h = BinomialHeap { head: Some(BinomialTreeNode::with_item(item)) };
        proof {
            let node = h.head.unwrap();
            assert(roots_increasing_from(node.next_sibling, degree_after(node.degree as int)));
            assert(roots_increasing_from(h.head, 0));
        }
        h
    }

    /// Recursively heapifies by splitting the items in half and melding the
    /// two heapified halves.
    fn heapify_rec(items: Vec<u64>) -> (h: Self)
        ensures
            h.wf(),
            h.contents() == items@.to_multiset(),
        decreases items@.len(),
    {
        if items.len() == 0 {
            let h = BinomialHeap { head: None };
            proof {
                assert(h.contents() =~= items@.to_multiset());
            }
            h
        } else if items.len() == 1 {
            let h = Self::with_item(items[0]);
            proof {
                assert(items@ =~= Seq::<u64>::empty().push(items@[0]));
                assert(items@.to_multiset() =~= Multiset::<u64>::empty().insert(items@[0]));
            }
            h
        } else {
            let mut left = items;
            let ghost orig = left@;
            let mid = left.len() / 2;
            let right = left.split_off(mid);
            proof {
                assert(orig =~= left@ + right@);
                lemma_multiset_commutative(left@, right@);
            }
            let ha = Self::heapify_rec(left);
            let hb = Self::heapify_rec(right);
            Self::meld(ha, hb)
        }
    }
}


impl Default for BinomialHeap {
    fn default() -> (h: Self)
        ensures
            h.wf(),
            h.contents() == Multiset::<u64>::empty(),
    {
        Self::make_heap()
    }
}

impl MinHeap for BinomialHeap {
    open spec fn contents(&self) -> Multiset<u64> {
        forest_ms(self.head)
    }

    open spec fn wf(&self) -> bool {
        forest_wf(self.head) && roots_increasing_from(self.head, 0)
    }

    fn make_heap() -> (h: Self) {
        BinomialHeap { head: None }
    }

    fn peek_min(&self) -> (r: Option<u64>) {
        find_min_item(&self.head)
    }

    fn extract_min(&mut self) -> (r: Option<u64>) {
        let min_item = match find_min_item(&self.head) {
            None => {
                return None;
            },
            Some(m) => m,
        };
        let ghost before = self.contents();
        let head = self.head.take();
        let (min_tree, rest) = remove_root_with_item(head, min_item);
        proof {
            assert(roots_increasing_from(head, 0));
            assert(roots_increasing_from(rest, 0));
        }
        let (m, sub_heap) = (*min_tree).split_remove_root();
        let rest_heap = BinomialHeap { head: rest };
        let ghost sub_contents = sub_heap.contents();
        let ghost rest_contents = rest_heap.contents();
        proof {
            assert(sub_heap.wf());
        }
        *self = Self::meld(rest_heap, sub_heap);
        proof {
            assert(before =~= sub_contents.insert(m).add(rest_contents));
            assert(self.contents() =~= before.remove(m));
        }
        Some(m)
    }

    fn insert(&mut self, item: u64) {
        let current = BinomialHeap { head: self.head.take() };
        let single = Self::with_item(item);
        let ghost cur_contents = current.contents();
        *self = Self::meld(current, single);
        proof {
            assert(self.contents() =~= cur_contents.insert(item));
        }
    }

    fn heapify(items: Vec<u64>) -> (h: Self) {
        Self::heapify_rec(items)
    }

    fn meld(heap_a: Self, heap_b: Self) -> (h: Self) {
        let ghost ca = heap_a.contents();
        let ghost cb = heap_b.contents();
        let ghost ha = head_degree(heap_a.head);
        let ghost hb = head_degree(heap_b.head);
        let merged = merge_by_degree(heap_a.head, heap_b.head);
        match merged {
            None => {
                let h = BinomialHeap { head: None };
                proof {
                    assert(h.contents() =~= ca.add(cb));
                }
                h
            },
            Some(mut x) => {
                let ghost d = x.degree as int;
                proof {
                    // normalize whatever the merge promised into a budget
                    // of two at the head tree's own degree
                    let anchor: int = if ha < hb {
                        ha
                    } else {
                        hb
                    };
                    let c: nat = if ha == hb {
                        2nat
                    } else {
                        1nat
                    };
                    assert(merged_ok(merged, anchor, c));
                    assert(binomial_tree(*x));
                    assert(d >= anchor);
                    if d == anchor && anchor < usize::MAX as int {
                        assert(merged_ok(x.next_sibling, anchor, (c - 1) as nat));
                        lemma_merged_ok_budget_up(x.next_sibling, d, (c - 1) as nat, 2);
                    } else if d == anchor {
                        assert(merged_ok(x.next_sibling, anchor, 1));
                        lemma_merged_ok_at_max(x.next_sibling, 1, 2);
                    } else {
                        assert(merged_ok(x.next_sibling, d, 1));
                        lemma_merged_ok_budget_up(x.next_sibling, d, 1, 2);
                    }
                    assert(merged_ok(x.next_sibling, d, 2));
                }
                let rest = x.next_sibling.take();
                proof {
                    assert(forest_ms(merged) =~= tree_ms(*x).add(forest_ms(rest)));
                }
                let head = consolidate(x, rest, Ghost(2nat));
                let h = BinomialHeap { head };
                proof {
                    assert(h.contents() =~= ca.add(cb));
                    lemma_roots_increasing_weaken(head, 0, d);
                }
                h
            },
        }
    }
}

} // verus!
