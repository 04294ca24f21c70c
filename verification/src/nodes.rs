//! Linked-structure primitives: a singly-linked list node and a
//! sibling/child tree node, each exclusively owned by its predecessor or
//! parent.

use vstd::prelude::*;

verus! {

/// An owned singly-linked list.
pub struct List<I> {
    /// The first node, owning the rest of the list.
    pub head: ListLink<I>,
}

/// One node of a [`List`], owning its successor.
pub struct ListNode<I> {
    /// The item stored in this node.
    pub item: I,
    /// The next node.
    pub next: ListLink<I>,
}

/// An optional owned link to a list node.
pub type ListLink<I> = Option<Box<ListNode<I>>>;

/// An owned tree with a degree: the root's children are linked through
/// `child`, and each child's further siblings through `sibling`.
pub struct Tree<I> {
    /// The root node, owning the whole tree.
    pub root: TreeLink<I>,
    /// The number of children of the root.
    pub degree: usize,
}

/// One node of a [`Tree`], owning its leftmost child and its next sibling.
pub struct TreeNode<I> {
    /// The item stored in this node.
    pub item: I,
    /// The leftmost child.
    pub child: TreeLink<I>,
    /// The next sibling.
    pub sibling: TreeLink<I>,
}

/// An optional owned link to a tree node.
pub type TreeLink<I> = Option<Box<TreeNode<I>>>;

/// The number of nodes in a linked list.
pub open spec fn list_len<I>(link: ListLink<I>) -> nat
    decreases link,
{
    match link {
        None => 0,
        Some(n) => 1 + list_len(n.next),
    }
}

/// The number of nodes in a tree forest, following both links.
pub open spec fn tree_node_count<I>(link: TreeLink<I>) -> nat
    decreases link,
{
    match link {
        None => 0,
        Some(n) => 1 + tree_node_count(n.child) + tree_node_count(n.sibling),
    }
}

/// The items of a linked list, front to back.
pub open spec fn list_items<I>(link: ListLink<I>) -> Seq<I>
    decreases link,
{
    match link {
        None => Seq::<I>::empty(),
        Some(n) => Seq::<I>::empty().push(n.item) + list_items(n.next),
    }
}

impl<I> View for List<I> {
    type V = Seq<I>;

    open spec fn view(&self) -> Seq<I> {
        list_items(self.head)
    }
}

impl<I> List<I> {
    /// A list holding exactly one item.
    pub fn with_item(item: I) -> (r: Self)
        ensures
            r@ == seq![item],
    {
        let r = List { head: Some(Box::new(ListNode { item, next: None })) };
        proof {
            let n = r.head.unwrap();
            assert(list_items(n.next) =~= Seq::<I>::empty());
            assert(r@ =~= Seq::<I>::empty().push(item) + Seq::<I>::empty());
            assert(r@ =~= seq![item]);
        }
        r
    }

    /// Turns the list into an iterator over its owned nodes.
    pub fn into_iter(self) -> (it: IntoIterList<I>)
        ensures
            it@ == self@,
    {
        let mut this = self;
        IntoIterList(this.head.take())
    }
}

impl<I> Drop for List<I> {
    /// Tears the list down iteratively: each turn frees exactly one node,
    /// so that dropping a long list never recurses down the chain.
    fn drop(&mut self)
        opens_invariants none
        no_unwind
    {
        let mut curr: ListLink<I> = None;
        core::mem::swap(&mut curr, &mut self.head);
        loop
            decreases list_len(curr),
        {
            let mut node_opt: ListLink<I> = None;
            core::mem::swap(&mut node_opt, &mut curr);
            match node_opt {
                None => {
                    break ;
                },
                Some(mut boxed) => {
                    core::mem::swap(&mut curr, &mut boxed.next);
                },
            }
        }
    }
}

impl<I> Default for List<I> {
    fn default() -> (r: Self)
        ensures
            r@ == Seq::<I>::empty(),
    {
        List { head: None }
    }
}

impl<I> Tree<I> {
    /// A degree-0 tree holding exactly one item.
    pub fn with_item(item: I) -> (r: Self)
        ensures
            r.root is Some,
            r.root.unwrap().item == item,
            r.root.unwrap().child is None,
            r.root.unwrap().sibling is None,
            r.degree == 0,
    {
        Tree { root: Some(Box::new(TreeNode { item, child: None, sibling: None })), degree: 0 }
    }
}

impl<I> Drop for Tree<I> {
    /// Tears the tree down with an explicit work list: walks the child
    /// spine, draining each sibling chain as it goes, so that neither a
    /// long sibling chain nor a deep child spine makes drop recurse along
    /// it.
    fn drop(&mut self)
        opens_invariants none
        no_unwind
    {
        let mut curr_vert: TreeLink<I> = None;
        core::mem::swap(&mut curr_vert, &mut self.root);
        loop
            decreases tree_node_count(curr_vert),
        {
            let mut vert_opt: TreeLink<I> = None;
            core::mem::swap(&mut vert_opt, &mut curr_vert);
            match vert_opt {
                None => {
                    break ;
                },
                Some(mut boxed_vert) => {
                    let mut curr_hor: TreeLink<I> = None;
                    core::mem::swap(&mut curr_hor, &mut boxed_vert.sibling);
                    loop
                        decreases tree_node_count(curr_hor),
                    {
                        let mut hor_opt: TreeLink<I> = None;
                        core::mem::swap(&mut hor_opt, &mut curr_hor);
                        match hor_opt {
                            None => {
                                break ;
                            },
                            Some(mut boxed_hor) => {
                                core::mem::swap(&mut curr_hor, &mut boxed_hor.sibling);
                            },
                        }
                    }
                    core::mem::swap(&mut curr_vert, &mut boxed_vert.child);
                },
            }
        }
    }
}

impl<I> Default for Tree<I> {
    fn default() -> (r: Self)
        ensures
            r.root is None,
            r.degree == 0,
    {
        Tree { root: None, degree: 0 }
    }
}

/// An owning iterator over the nodes of a [`List`], handing each node out
/// with its successor link already detached.
pub struct IntoIterList<I>(pub ListLink<I>);

impl<I> View for IntoIterList<I> {
    type V = Seq<I>;

    open spec fn view(&self) -> Seq<I> {
        list_items(self.0)
    }
}

impl<I> IntoIterList<I> {
    /// Detaches and returns the front node, or `None` when the list is
    /// exhausted.
    pub fn next(&mut self) -> (r: Option<Box<ListNode<I>>>)
        ensures
            match r {
                None => {
                    &&& old(self)@.len() == 0
                    &&& final(self)@ == old(self)@
                },
                Some(node) => {
                    &&& old(self)@.len() > 0
                    &&& node.item == old(self)@[0]
                    &&& node.next is None
                    &&& final(self)@ == old(self)@.drop_first()
                },
            },
    {
        match self.0.take() {
            None => None,
            Some(mut node) => {
                self.0 = node.next.take();
                proof {
                    assert(self@ =~= old(self)@.drop_first());
                }
                Some(node)
            },
        }
    }
}

} // verus!
