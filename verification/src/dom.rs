//! The plain model of a parsed DOM, and the arena that it is copied into.
use crate::tree::{root_only, with_child, NodeDataView, NodeView};
use vstd::prelude::*;

verus! {

/// What stands at and below a node of a DOM: what the node is, and the same of each of
/// its children, in order.
pub ghost struct DomTree {
    pub data: NodeDataView,
    pub children: Seq<DomTree>,
}

/// The arena `t` with the nodes of `tree` added in document order, the root of `tree`
/// as the last child of `parent`.
pub open spec fn with_subtree(t: Seq<NodeView>, parent: usize, tree: DomTree) -> Seq<NodeView>
    decreases tree,
{
    with_subtrees(with_child(t, parent as int, tree.data), t.len() as usize, tree.children)
}

/// The arena `t` with the nodes of each of `trees` added, one tree after the other, all
/// below `parent`.
pub open spec fn with_subtrees(t: Seq<NodeView>, parent: usize, trees: Seq<DomTree>) -> Seq<
    NodeView,
>
    decreases trees,
{
    if trees.len() == 0 {
        t
    } else {
        with_subtrees(with_subtree(t, parent, trees[0]), parent, trees.drop_first())
    }
}

/// The arena of a whole DOM: the root is the document node, and the nodes below it
/// follow in document order.
pub open spec fn arena_of(tree: DomTree) -> Seq<NodeView> {
    with_subtrees(root_only(), 0, tree.children)
}

/// The arena `t` with the trees of a stack added, the last entry of the stack first,
/// each below the node that its entry names.
pub open spec fn with_pending(t: Seq<NodeView>, stack: Seq<(DomTree, usize)>) -> Seq<NodeView>
    decreases stack.len(),
{
    if stack.len() == 0 {
        t
    } else {
        with_pending(with_subtree(t, stack.last().1, stack.last().0), stack.drop_last())
    }
}

/// The entries that put `trees` on a stack, all below `parent`, the first tree last.
pub open spec fn reversed_below(trees: Seq<DomTree>, parent: usize) -> Seq<(DomTree, usize)> {
    Seq::new(trees.len(), |i: int| (trees[trees.len() - 1 - i], parent))
}

/// Trees that are put on a stack, the first on top, are added as the children of
/// their parent before what the stack held.
pub proof fn lemma_pending_children(
    t: Seq<NodeView>,
    rest: Seq<(DomTree, usize)>,
    trees: Seq<DomTree>,
    parent: usize,
)
    ensures
        with_pending(t, rest + reversed_below(trees, parent)) == with_pending(
            with_subtrees(t, parent, trees),
            rest,
        ),
    decreases trees.len(),
{
    let stack = rest + reversed_below(trees, parent);
    if trees.len() == 0 {
        assert(stack =~= rest);
    } else {
        let tail = trees.drop_first();
        assert(stack.last() == (trees[0], parent));
        assert(stack.drop_last() =~= rest + reversed_below(tail, parent));
        lemma_pending_children(with_subtree(t, parent, trees[0]), rest, tail, parent);
    }
}

/// Adding a tree makes an arena longer.
pub proof fn lemma_subtree_grows(t: Seq<NodeView>, parent: usize, tree: DomTree)
    requires
        parent < t.len(),
    ensures
        with_subtree(t, parent, tree).len() > t.len(),
    decreases tree,
{
    let next = with_child(t, parent as int, tree.data);
    assert(next.len() == t.len() + 1);
    lemma_subtrees_grow(next, t.len() as usize, tree.children);
}

/// Adding trees makes an arena no shorter.
pub proof fn lemma_subtrees_grow(t: Seq<NodeView>, parent: usize, trees: Seq<DomTree>)
    requires
        parent < t.len(),
    ensures
        with_subtrees(t, parent, trees).len() >= t.len(),
    decreases trees,
{
    if trees.len() > 0 {
        lemma_subtree_grows(t, parent, trees[0]);
        lemma_subtrees_grow(with_subtree(t, parent, trees[0]), parent, trees.drop_first());
    }
}

/// An arena with the trees of a stack added has a node more for each entry, at least.
pub proof fn lemma_pending_grows(t: Seq<NodeView>, stack: Seq<(DomTree, usize)>)
    requires
        forall|j: int| 0 <= j < stack.len() ==> (#[trigger] stack[j]).1 < t.len(),
    ensures
        with_pending(t, stack).len() >= t.len() + stack.len(),
    decreases stack.len(),
{
    if stack.len() > 0 {
        let next = with_subtree(t, stack.last().1, stack.last().0);
        lemma_subtree_grows(t, stack.last().1, stack.last().0);
        let rest = stack.drop_last();
        assert forall|j: int| 0 <= j < rest.len() implies (#[trigger] rest[j]).1 < next.len() by {
            assert(rest[j] == stack[j]);
        }
        lemma_pending_grows(next, rest);
    }
}

} // verus!
