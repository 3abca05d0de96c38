//! Document order: the list of the nodes of a tree, each node before its children, holds
//! every node of the tree exactly once.
use crate::query::{descendants_from, lemma_subtree_within, subtree};
use crate::tree::{is_tree, NodeView};
use vstd::prelude::*;
use vstd::seq_lib::lemma_no_dup_in_concat;

verus! {

/// Whether the node `a` is the node `i` or stands above it: `i` is reached from `a` by
/// going from a node to one of its children, any number of times.
pub open spec fn is_above_or_self(t: Seq<NodeView>, a: usize, i: usize) -> bool
    decreases i,
{
    i == a || (i < t.len() && match t[i as int].parent {
        Some(p) => p < i && is_above_or_self(t, a, p),
        None => false,
    })
}

/// The node on the way up from `x` whose parent is `r`; `x` itself if the way does not
/// pass `r`.
pub open spec fn child_toward(t: Seq<NodeView>, r: usize, x: usize) -> usize
    decreases x,
{
    match t[x as int].parent {
        Some(p) => if p == r || p >= x || x >= t.len() {
            x
        } else {
            child_toward(t, r, p)
        },
        None => x,
    }
}

/// A node that stands above another has the smaller index.
pub proof fn lemma_above_is_smaller(t: Seq<NodeView>, a: usize, i: usize)
    requires
        is_above_or_self(t, a, i),
    ensures
        a <= i,
    decreases i,
{
    if i != a {
        lemma_above_is_smaller(t, a, t[i as int].parent->0);
    }
}

/// What stands at or below a child of a node stands below the node.
pub proof fn lemma_above_parent(t: Seq<NodeView>, r: usize, c: usize, x: usize)
    requires
        is_tree(t),
        c < t.len(),
        t[c as int].parent == Some(r),
        is_above_or_self(t, c, x),
    ensures
        is_above_or_self(t, r, x),
        r < c,
    decreases x,
{
    assert(r < c) by {
        assert(c != 0);
        assert(t[c as int].parent matches Some(p) && p < c);
    }
    if x != c {
        lemma_above_parent(t, r, c, t[x as int].parent->0);
    } else {
        assert(is_above_or_self(t, r, r));
    }
}

/// At most one child of a node stands at or above a given node.
pub proof fn lemma_one_child_above(t: Seq<NodeView>, r: usize, c: usize, x: usize)
    requires
        is_tree(t),
        c < t.len(),
        x < t.len(),
        t[c as int].parent == Some(r),
        is_above_or_self(t, c, x),
    ensures
        child_toward(t, r, x) == c,
    decreases x,
{
    if x != c {
        let p = t[x as int].parent->0;
        if p == r {
            lemma_above_is_smaller(t, c, r);
            lemma_above_parent(t, r, c, c);
        } else {
            lemma_one_child_above(t, r, c, p);
        }
    }
}

/// A node that stands below another stands at or below one of its children.
pub proof fn lemma_some_child_above(t: Seq<NodeView>, r: usize, x: usize)
    requires
        is_tree(t),
        x < t.len(),
        x != r,
        is_above_or_self(t, r, x),
    ensures
        child_toward(t, r, x) < t.len(),
        t[child_toward(t, r, x) as int].parent == Some(r),
        is_above_or_self(t, child_toward(t, r, x), x),
    decreases x,
{
    let p = t[x as int].parent->0;
    if p != r {
        lemma_some_child_above(t, r, p);
    }
}

/// An entry of two joined lists is an entry of one of them.
pub proof fn lemma_contains_add(a: Seq<usize>, b: Seq<usize>, x: usize)
    ensures
        (a + b).contains(x) <==> a.contains(x) || b.contains(x),
{
    if (a + b).contains(x) {
        let i = choose|i: int| 0 <= i < (a + b).len() && (a + b)[i] == x;
        if i < a.len() {
            assert(a[i] == x);
        } else {
            assert(b[i - a.len()] == x);
        }
    }
    if a.contains(x) {
        let i = choose|i: int| 0 <= i < a.len() && a[i] == x;
        assert((a + b)[i] == x);
    }
    if b.contains(x) {
        let i = choose|i: int| 0 <= i < b.len() && b[i] == x;
        assert((a + b)[a.len() + i] == x);
    }
}

/// What is listed in the subtree of a node is the node or stands below it.
pub proof fn lemma_listed_is_below(t: Seq<NodeView>, r: usize, x: usize)
    requires
        is_tree(t),
        r < t.len(),
        subtree(t, r).contains(x),
    ensures
        is_above_or_self(t, r, x),
    decreases t.len() - r, t[r as int].children.len() + 1,
{
    let below = descendants_from(t, r, 0);
    lemma_contains_add(seq![r], below, x);
    if seq![r].contains(x) {
        let i = choose|i: int| 0 <= i < seq![r].len() && seq![r][i] == x;
        assert(x == r);
    } else {
        lemma_listed_is_below_child(t, r, 0, x);
        let j = choose|j: int|
            0 <= j < t[r as int].children.len() && is_above_or_self(
                t,
                #[trigger] t[r as int].children[j],
                x,
            );
        lemma_above_parent(t, r, t[r as int].children[j], x);
    }
}

/// What is listed below a node stands at or below one of its children.
pub proof fn lemma_listed_is_below_child(t: Seq<NodeView>, r: usize, k: int, x: usize)
    requires
        is_tree(t),
        r < t.len(),
        0 <= k,
        descendants_from(t, r, k).contains(x),
    ensures
        exists|j: int|
            k <= j < t[r as int].children.len() && is_above_or_self(
                t,
                #[trigger] t[r as int].children[j],
                x,
            ),
    decreases t.len() - r, t[r as int].children.len() - k,
{
    let children = t[r as int].children;
    if k < children.len() {
        let child = children[k];
        assert(r < child < t.len());
        lemma_contains_add(subtree(t, child), descendants_from(t, r, k + 1), x);
        if subtree(t, child).contains(x) {
            lemma_listed_is_below(t, child, x);
            assert(is_above_or_self(t, children[k], x));
        } else {
            lemma_listed_is_below_child(t, r, k + 1, x);
            let j = choose|j: int|
                k + 1 <= j < children.len() && is_above_or_self(t, #[trigger] children[j], x);
            assert(is_above_or_self(t, children[j], x));
        }
    } else {
        assert(descendants_from(t, r, k) =~= Seq::<usize>::empty());
        let i = choose|i: int|
            0 <= i < descendants_from(t, r, k).len() && descendants_from(t, r, k)[i] == x;
    }
}

/// What is listed in the subtree of a child is listed below the parent.
pub proof fn lemma_child_listed(t: Seq<NodeView>, r: usize, k: int, j: int, x: usize)
    requires
        is_tree(t),
        r < t.len(),
        0 <= k <= j < t[r as int].children.len(),
        subtree(t, t[r as int].children[j]).contains(x),
    ensures
        descendants_from(t, r, k).contains(x),
    decreases j - k,
{
    let child = t[r as int].children[k];
    assert(r < child < t.len());
    lemma_contains_add(subtree(t, child), descendants_from(t, r, k + 1), x);
    if k < j {
        lemma_child_listed(t, r, k + 1, j, x);
    }
}

/// A node, and what stands below it, is listed in its subtree.
pub proof fn lemma_below_is_listed(t: Seq<NodeView>, r: usize, x: usize)
    requires
        is_tree(t),
        r < t.len(),
        x < t.len(),
        is_above_or_self(t, r, x),
    ensures
        subtree(t, r).contains(x),
    decreases t.len() - r,
{
    let below = descendants_from(t, r, 0);
    lemma_contains_add(seq![r], below, x);
    if x == r {
        assert(seq![r][0] == x);
    } else {
        lemma_some_child_above(t, r, x);
        let c = child_toward(t, r, x);
        assert(c != 0);
        assert(t[r as int].children.contains(c));
        let j = choose|j: int| 0 <= j < t[r as int].children.len() && t[r as int].children[j] == c;
        assert(r < t[r as int].children[j]);
        lemma_below_is_listed(t, c, x);
        lemma_child_listed(t, r, 0, j, x);
    }
}

/// No node is listed twice in a subtree.
pub proof fn lemma_listed_once(t: Seq<NodeView>, r: usize)
    requires
        is_tree(t),
        r < t.len(),
    ensures
        subtree(t, r).no_duplicates(),
    decreases t.len() - r, t[r as int].children.len() + 1,
{
    let below = descendants_from(t, r, 0);
    lemma_listed_once_below(t, r, 0);
    assert forall|i: int, j: int| 0 <= i < seq![r].len() && 0 <= j < below.len() implies seq![r][i]
        != below[j] by {
        if below[j] == r {
            assert(below.contains(r));
            lemma_listed_is_below_child(t, r, 0, r);
            let c = choose|c: int|
                0 <= c < t[r as int].children.len() && is_above_or_self(
                    t,
                    #[trigger] t[r as int].children[c],
                    r,
                );
            lemma_above_is_smaller(t, t[r as int].children[c], r);
        }
    }
    lemma_no_dup_in_concat(seq![r], below);
}

/// No node is listed twice below a node.
pub proof fn lemma_listed_once_below(t: Seq<NodeView>, r: usize, k: int)
    requires
        is_tree(t),
        r < t.len(),
        0 <= k,
    ensures
        descendants_from(t, r, k).no_duplicates(),
    decreases t.len() - r, t[r as int].children.len() - k,
{
    let children = t[r as int].children;
    if k < children.len() {
        let child = children[k];
        assert(r < child < t.len());
        assert(t[child as int].parent == Some(r));
        let first = subtree(t, child);
        let rest = descendants_from(t, r, k + 1);
        lemma_listed_once(t, child);
        lemma_listed_once_below(t, r, k + 1);
        lemma_subtree_within(t, child);
        assert forall|i: int, j: int| 0 <= i < first.len() && 0 <= j < rest.len() implies first[i]
            != rest[j] by {
            if first[i] == rest[j] {
                let x = first[i];
                assert(first.contains(x));
                assert(rest.contains(x));
                lemma_listed_is_below(t, child, x);
                lemma_listed_is_below_child(t, r, k + 1, x);
                let l = choose|l: int|
                    k + 1 <= l < children.len() && is_above_or_self(t, #[trigger] children[l], x);
                assert(r < children[l] < t.len());
                assert(t[children[l] as int].parent == Some(r));
                lemma_one_child_above(t, r, child, x);
                lemma_one_child_above(t, r, children[l], x);
                assert(children[k] < children[l]);
            }
        }
        lemma_no_dup_in_concat(first, rest);
    }
}

/// The root stands at or above every node of a tree.
pub proof fn lemma_root_is_above(t: Seq<NodeView>, i: usize)
    requires
        is_tree(t),
        i < t.len(),
    ensures
        is_above_or_self(t, 0, i),
    decreases i,
{
    if i != 0 {
        assert(t[i as int].parent matches Some(p) && p < i);
        lemma_root_is_above(t, t[i as int].parent->0);
    }
}

/// The document order of a tree lists every node of the tree, and none twice.
pub proof fn law_document_order(t: Seq<NodeView>)
    requires
        is_tree(t),
    ensures
        subtree(t, 0).no_duplicates(),
        forall|i: usize| i < t.len() <==> #[trigger] subtree(t, 0).contains(i),
{
    lemma_listed_once(t, 0);
    lemma_subtree_within(t, 0);
    assert forall|i: usize| i < t.len() <==> #[trigger] subtree(t, 0).contains(i) by {
        if i < t.len() {
            lemma_root_is_above(t, i);
            lemma_below_is_listed(t, 0, i);
        }
        if subtree(t, 0).contains(i) {
            let k = choose|k: int| 0 <= k < subtree(t, 0).len() && subtree(t, 0)[k] == i;
            assert(subtree(t, 0)[k] < t.len());
        }
    }
}

} // verus!
