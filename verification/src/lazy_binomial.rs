//! Lazy one-pass binomial min-heap. The root forest may hold several trees
//! of the same degree: `insert` and `meld` only splice roots together and
//! track the minimum through a plain index, deferring all consolidation to
//! `extract_min`, which runs a single degree-matching pass over the roots.
//!
//! This structure is often written with raw back-references to the minimum
//! root, its list predecessor and the list tail. Here the root list is an
//! owned vector and the minimum is a plain index into it, which removes any
//! dangling-reference risk while keeping `insert` and `meld` free of
//! consolidation work.

use crate::binomial_heap::all_at_least;
use crate::MinHeap;
use vstd::multiset::Multiset;
use vstd::prelude::*;

verus! {

broadcast use {
    vstd::seq_lib::group_to_multiset_ensures,
    vstd::multiset::group_multiset_axioms,
};

/// One node of a lazy binomial tree: `left` is the leftmost child, `right`
/// the next sibling among its parent's children. Roots live in the heap's
/// root vector, with `right` unused (`None`) there.
struct LeftTreeNode {
    item: u64,
    degree: usize,
    /// Leftmost child.
    left: Option<Box<LeftTreeNode>>,
    /// Right sibling.
    right: Option<Box<LeftTreeNode>>,
}

/// The multiset of all items in the chain of trees starting at `link`,
/// following both child and sibling links.
spec fn chain_ms(link: Option<Box<LeftTreeNode>>) -> Multiset<u64>
    decreases link,
{
    match link {
        None => Multiset::<u64>::empty(),
        Some(n) => chain_ms(n.left).add(chain_ms(n.right)).insert(n.item),
    }
}

/// The number of trees in the sibling chain starting at `link`.
spec fn chain_len(link: Option<Box<LeftTreeNode>>) -> nat
    decreases link,
{
    match link {
        None => 0,
        Some(n) => 1 + chain_len(n.right),
    }
}

/// Well-formedness along a whole chain: every node's item is a lower bound
/// for the subtree hanging off its child link, and every node's `degree` is
/// the number of children it actually has.
spec fn chain_wf(link: Option<Box<LeftTreeNode>>) -> bool
    decreases link,
{
    match link {
        None => true,
        Some(n) => {
            &&& chain_wf(n.left)
            &&& chain_wf(n.right)
            &&& all_at_least(chain_ms(n.left), n.item)
            &&& n.degree == chain_len(n.left)
        },
    }
}

/// The items of the single tree rooted at `n`, ignoring `n`'s sibling.
spec fn ltree_ms(n: LeftTreeNode) -> Multiset<u64> {
    chain_ms(n.left).insert(n.item)
}

/// Well-formedness of the single tree rooted at `n`: heap order, and a
/// truthful `degree` field.
spec fn ltree_wf(n: LeftTreeNode) -> bool {
    &&& chain_wf(n.left)
    &&& all_at_least(chain_ms(n.left), n.item)
    &&& n.degree == chain_len(n.left)
}

/// The items of all trees held in a root vector.
spec fn roots_ms(s: Seq<Box<LeftTreeNode>>) -> Multiset<u64>
    decreases s.len(),
{
    if s.len() == 0 {
        Multiset::<u64>::empty()
    } else {
        roots_ms(s.drop_last()).add(ltree_ms(*s.last()))
    }
}

/// Every entry of a root vector is a well-formed detached tree.
spec fn roots_wf(s: Seq<Box<LeftTreeNode>>) -> bool {
    forall|i: int| 0 <= i < s.len() ==> ltree_wf(*#[trigger] s[i]) && s[i].right is None
}

/// The items of a tree held in one consolidation slot, if any.
spec fn opt_tree_ms(o: Option<Box<LeftTreeNode>>) -> Multiset<u64> {
    match o {
        None => Multiset::<u64>::empty(),
        Some(t) => ltree_ms(*t),
    }
}

/// The items of all trees held in the consolidation slots.
spec fn slots_ms(s: Seq<Option<Box<LeftTreeNode>>>) -> Multiset<u64>
    decreases s.len(),
{
    if s.len() == 0 {
        Multiset::<u64>::empty()
    } else {
        slots_ms(s.drop_last()).add(opt_tree_ms(s.last()))
    }
}

/// Slot `d` of the consolidation map holds at most one detached tree, and
/// that tree has degree exactly `d`.
spec fn slots_wf(s: Seq<Option<Box<LeftTreeNode>>>) -> bool {
    forall|i: int|
        0 <= i < s.len() ==> match #[trigger] s[i] {
            None => true,
            Some(t) => ltree_wf(*t) && t.right is None && t.degree == i,
        }
}

/// Adding the same multiset on both sides of an equation can be undone.
proof fn lemma_add_cancel(m1: Multiset<u64>, m2: Multiset<u64>, n: Multiset<u64>)
    requires
        m1.add(n) == m2.add(n),
    ensures
        m1 == m2,
{
    assert forall|x: u64| #[trigger] m1.count(x) == m2.count(x) by {
        assert(m1.add(n).count(x) == m1.count(x) + n.count(x));
        assert(m2.add(n).count(x) == m2.count(x) + n.count(x));
    }
    assert(m1 =~= m2);
}

proof fn lemma_roots_ms_push(s: Seq<Box<LeftTreeNode>>, t: Box<LeftTreeNode>)
    ensures
        roots_ms(s.push(t)) == roots_ms(s).add(ltree_ms(*t)),
{
    assert(s.push(t).drop_last() =~= s);
    assert(s.push(t).last() == t);
}

proof fn lemma_roots_ms_update(s: Seq<Box<LeftTreeNode>>, i: int, t: Box<LeftTreeNode>)
    requires
        0 <= i < s.len(),
    ensures
        roots_ms(s.update(i, t)).add(ltree_ms(*s[i])) == roots_ms(s).add(ltree_ms(*t)),
    decreases s.len(),
{
    let u = s.update(i, t);
    if i == s.len() - 1 {
        assert(u.drop_last() =~= s.drop_last());
        assert(u.last() == t);
        assert(roots_ms(u).add(ltree_ms(*s[i])) =~= roots_ms(s).add(ltree_ms(*t)));
    } else {
        assert(u.drop_last() =~= s.drop_last().update(i, t));
        assert(u.last() == s.last());
        lemma_roots_ms_update(s.drop_last(), i, t);
        assert(s.drop_last()[i] == s[i]);
        let last_ms = ltree_ms(*s.last());
        assert(roots_ms(u) == roots_ms(u.drop_last()).add(last_ms));
        assert(roots_ms(s) == roots_ms(s.drop_last()).add(last_ms));
        assert(roots_ms(u.drop_last()).add(ltree_ms(*s[i])) == roots_ms(s.drop_last()).add(
            ltree_ms(*t),
        ));
        assert(roots_ms(u).add(ltree_ms(*s[i])) =~= (roots_ms(u.drop_last()).add(
            ltree_ms(*s[i]),
        )).add(last_ms));
        assert((roots_ms(s.drop_last()).add(ltree_ms(*t))).add(last_ms) =~= roots_ms(s).add(
            ltree_ms(*t),
        ));
    }
}

/// Decomposes a root vector into the tree at index `i` and what
/// `swap_remove(i)` leaves behind.
proof fn lemma_roots_ms_select(s: Seq<Box<LeftTreeNode>>, i: int)
    requires
        0 <= i < s.len(),
    ensures
        roots_ms(s) == roots_ms(s.update(i, s.last()).drop_last()).add(ltree_ms(*s[i])),
{
    let u = s.update(i, s.last());
    let last_ms = ltree_ms(*s.last());
    lemma_roots_ms_update(s, i, s.last());
    assert(u.last() == s.last());
    assert(roots_ms(u) == roots_ms(u.drop_last()).add(last_ms));
    assert(roots_ms(u).add(ltree_ms(*s[i])) == roots_ms(s).add(last_ms));
    assert((roots_ms(u.drop_last()).add(last_ms)).add(ltree_ms(*s[i])) =~= (roots_ms(
        u.drop_last(),
    ).add(ltree_ms(*s[i]))).add(last_ms));
    lemma_add_cancel(roots_ms(u.drop_last()).add(ltree_ms(*s[i])), roots_ms(s), last_ms);
}

proof fn lemma_slots_ms_push(s: Seq<Option<Box<LeftTreeNode>>>, o: Option<Box<LeftTreeNode>>)
    ensures
        slots_ms(s.push(o)) == slots_ms(s).add(opt_tree_ms(o)),
{
    assert(s.push(o).drop_last() =~= s);
    assert(s.push(o).last() == o);
}

proof fn lemma_slots_ms_update(
    s: Seq<Option<Box<LeftTreeNode>>>,
    i: int,
    o: Option<Box<LeftTreeNode>>,
)
    requires
        0 <= i < s.len(),
    ensures
        slots_ms(s.update(i, o)).add(opt_tree_ms(s[i])) == slots_ms(s).add(opt_tree_ms(o)),
    decreases s.len(),
{
    let u = s.update(i, o);
    if i == s.len() - 1 {
        assert(u.drop_last() =~= s.drop_last());
        assert(u.last() == o);
        assert(slots_ms(u).add(opt_tree_ms(s[i])) =~= slots_ms(s).add(opt_tree_ms(o)));
    } else {
        assert(u.drop_last() =~= s.drop_last().update(i, o));
        assert(u.last() == s.last());
        lemma_slots_ms_update(s.drop_last(), i, o);
        assert(s.drop_last()[i] == s[i]);
        let last_ms = opt_tree_ms(s.last());
        assert(slots_ms(u) == slots_ms(u.drop_last()).add(last_ms));
        assert(slots_ms(s) == slots_ms(s.drop_last()).add(last_ms));
        assert(slots_ms(u.drop_last()).add(opt_tree_ms(s[i])) == slots_ms(s.drop_last()).add(
            opt_tree_ms(o),
        ));
        assert(slots_ms(u).add(opt_tree_ms(s[i])) =~= (slots_ms(u.drop_last()).add(
            opt_tree_ms(s[i]),
        )).add(last_ms));
        assert((slots_ms(s.drop_last()).add(opt_tree_ms(o))).add(last_ms) =~= slots_ms(s).add(
            opt_tree_ms(o),
        ));
    }
}

/// The items of two root vectors laid end to end.
proof fn lemma_roots_ms_concat(a: Seq<Box<LeftTreeNode>>, b: Seq<Box<LeftTreeNode>>)
    ensures
        roots_ms(a + b) == roots_ms(a).add(roots_ms(b)),
    decreases b.len(),
{
    if b.len() == 0 {
        assert(a + b =~= a);
        assert(roots_ms(a).add(roots_ms(b)) =~= roots_ms(a));
    } else {
        lemma_roots_ms_concat(a, b.drop_last());
        assert((a + b).drop_last() =~= a + b.drop_last());
        assert((a + b).last() == b.last());
        let last_ms = ltree_ms(*b.last());
        assert(roots_ms(a + b) == roots_ms(a + b.drop_last()).add(last_ms));
        assert(roots_ms(b) == roots_ms(b.drop_last()).add(last_ms));
        assert((roots_ms(a).add(roots_ms(b.drop_last()))).add(last_ms) =~= roots_ms(a).add(
            roots_ms(b.drop_last()).add(last_ms),
        ));
    }
}

/// A well-formed tree's root item is a lower bound for all of its items.
proof fn lemma_ltree_min(n: LeftTreeNode)
    requires
        ltree_wf(n),
    ensures
        all_at_least(ltree_ms(n), n.item),
        ltree_ms(n).contains(n.item),
{
    assert forall|x: u64| #[trigger] ltree_ms(n).contains(x) implies n.item <= x by {
        if chain_ms(n.left).contains(x) {
        } else {
            assert(x == n.item);
        }
    }
}

/// A bound below every root item of a well-formed root vector is a bound
/// below every item stored in it.
proof fn lemma_roots_lower(s: Seq<Box<LeftTreeNode>>, b: u64)
    requires
        roots_wf(s),
        forall|i: int| 0 <= i < s.len() ==> b <= (#[trigger] s[i]).item,
    ensures
        all_at_least(roots_ms(s), b),
    decreases s.len(),
{
    if s.len() == 0 {
    } else {
        assert(forall|i: int|
            0 <= i < s.drop_last().len() ==> ltree_wf(*#[trigger] s.drop_last()[i])
                && s.drop_last()[i].right is None && b <= s.drop_last()[i].item);
        lemma_roots_lower(s.drop_last(), b);
        lemma_ltree_min(*s.last());
        assert(b <= s[s.len() - 1].item);
        assert forall|x: u64| #[trigger] roots_ms(s).contains(x) implies b <= x by {
            if roots_ms(s.drop_last()).contains(x) {
            } else {
                assert(ltree_ms(*s.last()).contains(x));
                assert(s.last().item <= x);
            }
        }
    }
}

impl LeftTreeNode {
    /// Wraps an item as a degree-0 singleton tree.
    fn with_item(item: u64) -> (r: Box<LeftTreeNode>)
        ensures
            r.item == item,
            r.degree == 0,
            r.left is None,
            r.right is None,
            ltree_wf(*r),
            ltree_ms(*r) == Multiset::<u64>::empty().insert(item),
    {
        Box::new(LeftTreeNode { item, degree: 0, left: None, right: None })
    }
}

/// Links two detached trees of equal degree: the tree with the not-smaller
/// root becomes the new leftmost child of the other.
fn link(a: Box<LeftTreeNode>, b: Box<LeftTreeNode>) -> (r: Box<LeftTreeNode>)
    requires
        ltree_wf(*a),
        ltree_wf(*b),
        a.right is None,
        b.right is None,
        a.degree == b.degree,
        a.degree < usize::MAX,
    ensures
        ltree_wf(*r),
        r.right is None,
        ltree_ms(*r) == ltree_ms(*a).add(ltree_ms(*b)),
        r.degree == a.degree + 1,
{
    let ghost ta = ltree_ms(*a);
    let ghost tb = ltree_ms(*b);
    let (mut winner, mut loser) = if a.item <= b.item {
        (a, b)
    } else {
        (b, a)
    };
    let ghost old_children = winner.left;
    loser.right = winner.left.take();
    winner.left = Some(loser);
    winner.degree = winner.degree + 1;
    proof {
        assert(chain_len(winner.left) == 1 + chain_len(old_children));
        assert(chain_ms(winner.left) =~= chain_ms(loser.left).add(chain_ms(old_children)).insert(
            loser.item,
        ));
        assert(ltree_ms(*winner) =~= ta.add(tb));
        assert forall|x: u64| #[trigger] chain_ms(winner.left).contains(x) implies winner.item
            <= x by {
            if chain_ms(loser.left).contains(x) {
                assert(loser.item <= x);
            } else if chain_ms(old_children).contains(x) {
            } else {
                assert(x == loser.item);
            }
        }
    }
    winner
}

/// Hands one detached tree to the consolidation pass: if the slot for its
/// degree already holds a tree, the two are linked and the result is
/// emitted to the output list; otherwise the tree is stored in its slot to
/// await a future match.
fn stash_or_link(
    t: Box<LeftTreeNode>,
    slots: &mut Vec<Option<Box<LeftTreeNode>>>,
    out: &mut Vec<Box<LeftTreeNode>>,
)
    requires
        ltree_wf(*t),
        t.right is None,
        slots_wf(old(slots)@),
        roots_wf(old(out)@),
    ensures
        slots_wf(final(slots)@),
        roots_wf(final(out)@),
        roots_ms(final(out)@).add(slots_ms(final(slots)@)) == roots_ms(old(out)@).add(
            slots_ms(old(slots)@),
        ).add(ltree_ms(*t)),
{
    let ghost t_ms = ltree_ms(*t);
    let ghost pre_slots = slots@;
    let ghost pre_out = out@;
    let d = t.degree;
    if d < slots.len() {
        let mut taken: Option<Box<LeftTreeNode>> = None;
        slots.set_and_swap(d, &mut taken);
        proof {
            lemma_slots_ms_update(pre_slots, d as int, None);
            assert(slots_ms(pre_slots).add(opt_tree_ms(None)) =~= slots_ms(pre_slots));
            assert(slots_ms(slots@).add(opt_tree_ms(pre_slots[d as int])) == slots_ms(pre_slots));
            assert forall|i: int| 0 <= i < slots@.len() implies match #[trigger] slots@[i] {
                None => true,
                Some(tr) => ltree_wf(*tr) && tr.right is None && tr.degree == i,
            } by {
                if i != d {
                    assert(slots@[i] == pre_slots[i]);
                }
            }
        }
        match taken {
            Some(matching) => {
                proof {
                    assert(pre_slots[d as int] == Some(matching));
                }
                let linked = link(t, matching);
                let ghost mid_out = out@;
                out.push(linked);
                proof {
                    lemma_roots_ms_push(mid_out, linked);
                    let m_ms = ltree_ms(*matching);
                    let s_new = slots_ms(slots@);
                    let o_old = roots_ms(pre_out);
                    assert(opt_tree_ms(pre_slots[d as int]) == m_ms);
                    assert(roots_ms(out@) == o_old.add(t_ms.add(m_ms)));
                    assert(roots_ms(out@).add(s_new) =~= (o_old.add(t_ms)).add(s_new.add(m_ms)));
                    assert(s_new.add(m_ms) == slots_ms(pre_slots));
                    assert((o_old.add(t_ms)).add(slots_ms(pre_slots)) =~= (o_old.add(
                        slots_ms(pre_slots),
                    )).add(t_ms));
                    assert(roots_ms(out@).add(slots_ms(slots@)) == (roots_ms(pre_out).add(
                        slots_ms(pre_slots),
                    )).add(t_ms));
                    assert forall|i: int| 0 <= i < out@.len() implies ltree_wf(
                        *#[trigger] out@[i],
                    ) && out@[i].right is None by {
                        if i < mid_out.len() {
                            assert(out@[i] == mid_out[i]);
                        }
                    }
                }
            },
            None => {
                proof {
                    assert(pre_slots[d as int] is None);
                }
                let ghost mid_slots = slots@;
                slots.set(d, Some(t));
                proof {
                    assert(mid_slots =~= pre_slots);
                    lemma_slots_ms_update(mid_slots, d as int, Some(t));
                    assert(opt_tree_ms(mid_slots[d as int]) == Multiset::<u64>::empty());
                    assert(slots_ms(slots@).add(Multiset::<u64>::empty()) =~= slots_ms(slots@));
                    assert(opt_tree_ms(Some(t)) == t_ms);
                    assert(slots_ms(slots@) == slots_ms(pre_slots).add(t_ms));
                    assert(roots_ms(out@).add(slots_ms(slots@)) == roots_ms(pre_out).add(
                        slots_ms(pre_slots).add(t_ms),
                    ));
                    assert(roots_ms(pre_out).add(slots_ms(pre_slots).add(t_ms)) =~= (roots_ms(
                        pre_out,
                    ).add(slots_ms(pre_slots))).add(t_ms));
                    assert forall|i: int| 0 <= i < slots@.len() implies match #[trigger] slots@[i] {
                        None => true,
                        Some(tr) => ltree_wf(*tr) && tr.right is None && tr.degree == i,
                    } by {
                        if i != d {
                            assert(slots@[i] == pre_slots[i]);
                        }
                    }
                }
            },
        }
    } else {
        while slots.len() < d
            invariant
                slots_wf(slots@),
                slots_ms(slots@) == slots_ms(pre_slots),
                slots@.len() <= d,
            decreases d - slots@.len(),
        {
            let ghost pre = slots@;
            slots.push(None);
            proof {
                lemma_slots_ms_push(pre, None);
                assert(slots_ms(pre).add(opt_tree_ms(None)) =~= slots_ms(pre));
                assert forall|i: int| 0 <= i < slots@.len() implies match #[trigger] slots@[i] {
                    None => true,
                    Some(tr) => ltree_wf(*tr) && tr.right is None && tr.degree == i,
                } by {
                    if i < pre.len() {
                        assert(slots@[i] == pre[i]);
                    }
                }
            }
        }
        let ghost grown = slots@;
        slots.push(Some(t));
        proof {
            lemma_slots_ms_push(grown, Some(t));
            assert(opt_tree_ms(Some(t)) == t_ms);
            assert(slots_ms(slots@) == slots_ms(pre_slots).add(t_ms));
            assert(roots_ms(out@).add(slots_ms(slots@)) == roots_ms(pre_out).add(
                slots_ms(pre_slots).add(t_ms),
            ));
            assert(roots_ms(pre_out).add(slots_ms(pre_slots).add(t_ms)) =~= (roots_ms(pre_out).add(
                slots_ms(pre_slots),
            )).add(t_ms));
            assert forall|i: int| 0 <= i < slots@.len() implies match #[trigger] slots@[i] {
                None => true,
                Some(tr) => ltree_wf(*tr) && tr.right is None && tr.degree == i,
            } by {
                if i < grown.len() {
                    assert(slots@[i] == grown[i]);
                }
            }
        }
    }
}

/// The one-pass degree-matching merge. Feeds every tree of the remaining
/// root list and of the extracted node's child chain through the slot map,
/// linking equal-degree pairs as they meet, then emits every tree still
/// held in a slot. The resulting list may still repeat degrees.
fn merge_matches_one_pass(
    list: Vec<Box<LeftTreeNode>>,
    extra: Option<Box<LeftTreeNode>>,
) -> (out: Vec<Box<LeftTreeNode>>)
    requires
        roots_wf(list@),
        chain_wf(extra),
    ensures
        roots_wf(out@),
        roots_ms(out@) == roots_ms(list@).add(chain_ms(extra)),
{
    let ghost total = roots_ms(list@).add(chain_ms(extra));
    let mut input = list;
    let mut out: Vec<Box<LeftTreeNode>> = Vec::new();
    let mut slots: Vec<Option<Box<LeftTreeNode>>> = Vec::new();
    proof {
        assert(roots_ms(out@) =~= Multiset::<u64>::empty());
        assert(slots_ms(slots@) =~= Multiset::<u64>::empty());
        assert(roots_ms(input@).add(slots_ms(slots@)).add(roots_ms(out@)).add(chain_ms(extra))
            =~= total);
    }
    while input.len() > 0
        invariant
            roots_wf(input@),
            roots_wf(out@),
            slots_wf(slots@),
            chain_wf(extra),
            roots_ms(input@).add(slots_ms(slots@)).add(roots_ms(out@)).add(chain_ms(extra))
                == total,
        decreases input@.len(),
    {
        let ghost pre_input = input@;
        let ghost pre_slots_ms = slots_ms(slots@);
        let ghost pre_out_ms = roots_ms(out@);
        let t = input.pop().unwrap();
        let ghost t_ms = ltree_ms(*t);
        proof {
            assert(pre_input.drop_last() =~= input@);
            assert(pre_input.last() == t);
            assert(roots_ms(pre_input) == roots_ms(input@).add(t_ms));
            assert(pre_input[pre_input.len() - 1] == t);
            assert(ltree_wf(*t) && t.right is None);
        }
        stash_or_link(t, &mut slots, &mut out);
        proof {
            let in2 = roots_ms(input@);
            let s2 = slots_ms(slots@);
            let o2 = roots_ms(out@);
            let c = chain_ms(extra);
            assert(in2.add(s2).add(o2) =~= in2.add(o2.add(s2)));
            assert(o2.add(s2) == pre_out_ms.add(pre_slots_ms).add(t_ms));
            assert(in2.add(pre_out_ms.add(pre_slots_ms).add(t_ms)) =~= ((in2.add(t_ms)).add(
                pre_slots_ms,
            )).add(pre_out_ms));
            assert(in2.add(t_ms) == roots_ms(pre_input));
            assert(roots_ms(pre_input).add(pre_slots_ms).add(pre_out_ms).add(c) == total);
            assert(in2.add(s2).add(o2).add(c) == total);
        }
    }
    let mut chain = extra;
    proof {
        assert(roots_ms(input@) =~= Multiset::<u64>::empty());
        assert(Multiset::<u64>::empty().add(slots_ms(slots@)) =~= slots_ms(slots@));
        assert(slots_ms(slots@).add(roots_ms(out@)).add(chain_ms(chain)) == total);
    }
    while chain.is_some()
        invariant
            roots_wf(out@),
            slots_wf(slots@),
            chain_wf(chain),
            slots_ms(slots@).add(roots_ms(out@)).add(chain_ms(chain)) == total,
        decreases chain_len(chain),
    {
        let ghost pre_chain = chain;
        let ghost pre_slots_ms = slots_ms(slots@);
        let ghost pre_out_ms = roots_ms(out@);
        let mut node = chain.take().unwrap();
        chain = node.right.take();
        let ghost n_ms = ltree_ms(*node);
        proof {
            assert(chain_ms(pre_chain) == chain_ms(node.left).add(chain_ms(chain)).insert(
                node.item,
            ));
            assert(n_ms == chain_ms(node.left).insert(node.item));
            assert(chain_ms(node.left).add(chain_ms(chain)).insert(node.item) =~= n_ms.add(
                chain_ms(chain),
            ));
        }
        stash_or_link(node, &mut slots, &mut out);
        proof {
            let s2 = slots_ms(slots@);
            let o2 = roots_ms(out@);
            let c2 = chain_ms(chain);
            assert(o2.add(s2) == pre_out_ms.add(pre_slots_ms).add(n_ms));
            assert(s2.add(o2).add(c2) =~= (o2.add(s2)).add(c2));
            assert((pre_out_ms.add(pre_slots_ms).add(n_ms)).add(c2) =~= pre_slots_ms.add(
                pre_out_ms,
            ).add(n_ms.add(c2)));
            assert(n_ms.add(c2) == chain_ms(pre_chain));
            assert(pre_slots_ms.add(pre_out_ms).add(chain_ms(pre_chain)) == total);
            assert(s2.add(o2).add(c2) == total);
        }
    }
    proof {
        assert(chain_ms(chain) =~= Multiset::<u64>::empty());
        assert(slots_ms(slots@).add(roots_ms(out@)).add(Multiset::<u64>::empty()) =~= slots_ms(
            slots@,
        ).add(roots_ms(out@)));
    }
    while slots.len() > 0
        invariant
            roots_wf(out@),
            slots_wf(slots@),
            slots_ms(slots@).add(roots_ms(out@)) == total,
        decreases slots@.len(),
    {
        let ghost pre_slots = slots@;
        let ghost pre_out = out@;
        let slot = slots.pop().unwrap();
        proof {
            assert(pre_slots.drop_last() =~= slots@);
            assert(pre_slots.last() == slot);
            assert(slots_ms(pre_slots) == slots_ms(slots@).add(opt_tree_ms(slot)));
            assert(pre_slots[pre_slots.len() - 1] == slot);
        }
        match slot {
            Some(t) => {
                out.push(t);
                proof {
                    lemma_roots_ms_push(pre_out, t);
                    let s2 = slots_ms(slots@);
                    let o1 = roots_ms(pre_out);
                    let t_ms = ltree_ms(*t);
                    assert(roots_ms(out@) == o1.add(t_ms));
                    assert(s2.add(o1.add(t_ms)) =~= (s2.add(t_ms)).add(o1));
                    assert(s2.add(t_ms) == slots_ms(pre_slots));
                    assert(slots_ms(slots@).add(roots_ms(out@)) == total);
                    assert forall|i: int| 0 <= i < out@.len() implies ltree_wf(
                        *#[trigger] out@[i],
                    ) && out@[i].right is None by {
                        if i < pre_out.len() {
                            assert(out@[i] == pre_out[i]);
                        }
                    }
                }
            },
            None => {
                proof {
                    assert(slots_ms(slots@).add(Multiset::<u64>::empty()) =~= slots_ms(slots@));
                    assert(slots_ms(slots@).add(roots_ms(out@)) == total);
                }
            },
        }
    }
    proof {
        assert(slots_ms(slots@) =~= Multiset::<u64>::empty());
        assert(Multiset::<u64>::empty().add(roots_ms(out@)) =~= roots_ms(out@));
        assert(roots_ms(out@) == total);
    }
    out
}

/// A lazy binomial min-heap: an owned vector of heap-ordered trees whose
/// degrees may repeat, plus the index of the root holding the least item.
pub struct LazyBinomialHeap {
    roots: Vec<Box<LeftTreeNode>>,
    min_idx: usize,
}

impl LazyBinomialHeap {
    /// A heap holding exactly one item.
    pub fn with_item(item: u64) -> (h: Self)
        ensures
            h.wf(),
            h.contents() == Multiset::<u64>::empty().insert(item),
    {
        let roots: Vec<Box<LeftTreeNode>> = Vec::new();
        let ghost empty_roots = roots@;
        let mut roots = roots;
        let node = LeftTreeNode::with_item(item);
        roots.push(node);
        proof {
            lemma_roots_ms_push(empty_roots, node);
            assert(roots_ms(empty_roots) =~= Multiset::<u64>::empty());
            assert(Multiset::<u64>::empty().add(ltree_ms(*node)) =~= ltree_ms(*node));
        }
        LazyBinomialHeap { roots, min_idx: 0 }
    }

    /// Whether the heap holds no items.
    pub fn is_empty(&self) -> (r: bool)
        requires
            self.wf(),
        ensures
            r <==> self.contents() == Multiset::<u64>::empty(),
    {
        proof {
            if self.roots@.len() > 0 {
                let s = self.roots@;
                assert(roots_ms(s) == roots_ms(s.drop_last()).add(ltree_ms(*s.last())));
                assert(ltree_ms(*s.last()).contains(s.last().item));
                assert(roots_ms(s.drop_last()).add(ltree_ms(*s.last())).count(s.last().item)
                    == roots_ms(s.drop_last()).count(s.last().item) + ltree_ms(*s.last()).count(
                    s.last().item,
                ));
                assert(roots_ms(s).contains(s.last().item));
            } else {
                assert(roots_ms(self.roots@) =~= Multiset::<u64>::empty());
            }
        }
        self.roots.len() == 0
    }

    /// Rebuilds a heap state from a list of detached trees by scanning for
    /// the index of the least root.
    fn from_list(list: Vec<Box<LeftTreeNode>>) -> (h: Self)
        requires
            roots_wf(list@),
        ensures
            h.wf(),
            h.contents() == roots_ms(list@),
    {
        if list.len() == 0 {
            return LazyBinomialHeap { roots: list, min_idx: 0 };
        }
        let mut best: usize = 0;
        let mut i: usize = 1;
        while i < list.len()
            invariant
                roots_wf(list@),
                list@.len() > 0,
                best < i <= list@.len(),
                forall|j: int| 0 <= j < i ==> list@[best as int].item <= (#[trigger] list@[j]).item,
            decreases list@.len() - i,
        {
            if list[i].item < list[best].item {
                best = i;
            }
            i = i + 1;
        }
        LazyBinomialHeap { roots: list, min_idx: best }
    }
}


impl Default for LazyBinomialHeap {
    fn default() -> (h: Self)
        ensures
            h.wf(),
            h.contents() == Multiset::<u64>::empty(),
    {
        Self::make_heap()
    }
}

impl MinHeap for LazyBinomialHeap {
    closed spec fn contents(&self) -> Multiset<u64> {
        roots_ms(self.roots@)
    }

    closed spec fn wf(&self) -> bool {
        &&& roots_wf(self.roots@)
        &&& (self.roots@.len() > 0 ==> self.min_idx < self.roots@.len() && forall|i: int|
            0 <= i < self.roots@.len() ==> self.roots@[self.min_idx as int].item
                <= (#[trigger] self.roots@[i]).item)
    }

    fn make_heap() -> (h: Self) {
        let roots: Vec<Box<LeftTreeNode>> = Vec::new();
        proof {
            assert(roots_ms(roots@) =~= Multiset::<u64>::empty());
        }
        LazyBinomialHeap { roots, min_idx: 0 }
    }

    fn peek_min(&self) -> (r: Option<u64>) {
        if self.roots.len() == 0 {
            proof {
                assert(roots_ms(self.roots@) =~= Multiset::<u64>::empty());
            }
            None
        } else {
            let m = self.roots[self.min_idx].item;
            proof {
                let s = self.roots@;
                let i = self.min_idx as int;
                lemma_roots_ms_select(s, i);
                lemma_ltree_min(*s[i]);
                let rest_ms = roots_ms(s.update(i, s.last()).drop_last());
                assert(rest_ms.add(ltree_ms(*s[i])).count(m) == rest_ms.count(m) + ltree_ms(
                    *s[i],
                ).count(m));
                assert(roots_ms(s).contains(m));
                lemma_roots_lower(s, m);
            }
            Some(m)
        }
    }

    fn extract_min(&mut self) -> (r: Option<u64>) {
        if self.roots.len() == 0 {
            proof {
                assert(roots_ms(self.roots@) =~= Multiset::<u64>::empty());
            }
            return None;
        }
        let ghost before = self.contents();
        let min_idx = self.min_idx;
        let mut rest: Vec<Box<LeftTreeNode>> = Vec::new();
        core::mem::swap(&mut rest, &mut self.roots);
        let ghost whole = rest@;
        proof {
            lemma_roots_ms_select(whole, min_idx as int);
            lemma_ltree_min(*whole[min_idx as int]);
            lemma_roots_lower(whole, whole[min_idx as int].item);
        }
        let min_tree = rest.swap_remove(min_idx);
        let ghost mt = *min_tree;
        let ghost rest_ms = roots_ms(rest@);
        proof {
            assert(rest@ =~= whole.update(min_idx as int, whole.last()).drop_last());
            assert(before == rest_ms.add(ltree_ms(mt)));
            assert(rest_ms.add(ltree_ms(mt)).count(mt.item) == rest_ms.count(mt.item) + ltree_ms(
                mt,
            ).count(mt.item));
            assert(before.contains(mt.item));
            assert forall|i: int| 0 <= i < rest@.len() implies ltree_wf(*#[trigger] rest@[i])
                && rest@[i].right is None by {
                assert(rest@[i] == whole[i] || rest@[i] == whole[whole.len() - 1]);
            }
        }
        let m = min_tree.item;
        let mut boxed = min_tree;
        let children = boxed.left.take();
        proof {
            assert(ltree_ms(mt) == chain_ms(children).insert(m));
        }
        let merged = merge_matches_one_pass(rest, children);
        let rebuilt = Self::from_list(merged);
        *self = rebuilt;
        proof {
            assert(self.contents() == rest_ms.add(chain_ms(children)));
            assert(rest_ms.add(chain_ms(children).insert(m)) =~= (rest_ms.add(chain_ms(
                children,
            ))).insert(m));
            assert(before == self.contents().insert(m));
            assert(self.contents().insert(m).remove(m) =~= self.contents());
            assert(self.contents() == before.remove(m));
        }
        Some(m)
    }

    fn insert(&mut self, item: u64) {
        let mut current = Self::make_heap();
        core::mem::swap(&mut current, self);
        let single = Self::with_item(item);
        let ghost cur_contents = current.contents();
        *self = Self::meld(current, single);
        proof {
            assert(cur_contents.add(Multiset::<u64>::empty().insert(item)) =~= cur_contents.insert(
                item,
            ));
        }
    }

    fn heapify(items: Vec<u64>) -> (h: Self) {
        let mut heap = Self::make_heap();
        let mut i: usize = 0;
        proof {
            assert(items@.subrange(0, 0).to_multiset() =~= Multiset::<u64>::empty());
        }
        while i < items.len()
            invariant
                heap.wf(),
                i <= items@.len(),
                heap.contents() == items@.subrange(0, i as int).to_multiset(),
            decreases items@.len() - i,
        {
            let ghost pre = items@.subrange(0, i as int);
            heap.insert(items[i]);
            proof {
                assert(items@.subrange(0, i + 1) =~= pre.push(items@[i as int]));
                assert(pre.push(items@[i as int]).to_multiset() =~= pre.to_multiset().insert(
                    items@[i as int],
                ));
            }
            i = i + 1;
        }
        proof {
            assert(items@.subrange(0, items@.len() as int) =~= items@);
        }
        heap
    }

    /// Splices the second heap's roots after the first's and keeps the
    /// smaller of the two minima, with no consolidation. With the root
    /// list held in a vector, the splice copies the second heap's root
    /// handles: linear in that heap's root count (not its item count),
    /// where a linked list with a tail pointer would splice in constant
    /// time.
    fn meld(heap_a: Self, heap_b: Self) -> (h: Self) {
        let ghost ca = heap_a.contents();
        let ghost cb = heap_b.contents();
        if heap_a.roots.len() == 0 {
            proof {
                assert(ca =~= Multiset::<u64>::empty());
                assert(ca.add(cb) =~= cb);
            }
            return heap_b;
        }
        if heap_b.roots.len() == 0 {
            proof {
                assert(cb =~= Multiset::<u64>::empty());
                assert(ca.add(cb) =~= ca);
            }
            return heap_a;
        }
        let LazyBinomialHeap { roots: mut roots_a, min_idx: min_a } = heap_a;
        let LazyBinomialHeap { roots: mut roots_b, min_idx: min_b } = heap_b;
        let ghost sa = roots_a@;
        let ghost sb = roots_b@;
        let a_min_item = roots_a[min_a].item;
        let b_min_item = roots_b[min_b].item;
        let b_len = roots_b.len();
        roots_a.append(&mut roots_b);
        proof {
            lemma_roots_ms_concat(sa, sb);
            assert(roots_a@ =~= sa + sb);
        }
        let total_len = roots_a.len();
        let min_idx = if a_min_item <= b_min_item {
            min_a
        } else {
            total_len - (b_len - min_b)
        };
        let h = LazyBinomialHeap { roots: roots_a, min_idx };
        proof {
            let s = h.roots@;
            assert forall|i: int| 0 <= i < s.len() implies ltree_wf(*#[trigger] s[i])
                && s[i].right is None by {
                if i < sa.len() {
                    assert(s[i] == sa[i]);
                } else {
                    assert(s[i] == sb[i - sa.len()]);
                }
            }
            assert forall|i: int| 0 <= i < s.len() implies s[h.min_idx as int].item
                <= (#[trigger] s[i]).item by {
                if a_min_item <= b_min_item {
                    assert(s[h.min_idx as int] == sa[min_a as int]);
                } else {
                    assert(h.min_idx == sa.len() + min_b);
                    assert(s[h.min_idx as int] == sb[min_b as int]);
                }
                if i < sa.len() {
                    assert(s[i] == sa[i]);
                } else {
                    assert(s[i] == sb[i - sa.len()]);
                }
            }
        }
        h
    }
}

} // verus!
