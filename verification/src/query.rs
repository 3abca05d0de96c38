//! The query engine: what a selector finds in a tree, and the search that finds it.
//!
//! A search carries a working set of nodes from one matcher of the selector to the next.
//! A compound matcher replaces the set by the accepted nodes among the set's nodes and
//! all their descendants, in document order. The direct-child marker replaces the set by
//! the children of its nodes, and the compound matcher behind it then only keeps the
//! accepted nodes of the set.
use crate::element::Element;
use crate::matcher::{Matcher, MatcherView};
use crate::selector::Selector;
use crate::tree::{is_tree, Document, NodeData, NodeDataView, NodeView};
use vstd::prelude::*;

verus! {

/// The nodes of the subtree rooted at `i`, in document order: the node itself, then
/// the subtrees of its children.
pub open spec fn subtree(t: Seq<NodeView>, i: usize) -> Seq<usize>
    decreases t.len() - i, t[i as int].children.len() + 1,
{
    if i < t.len() {
        seq![i] + descendants_from(t, i, 0)
    } else {
        Seq::empty()
    }
}

/// The nodes of the subtrees of the children of `i`, from the child at position `k` on.
pub open spec fn descendants_from(t: Seq<NodeView>, i: usize, k: int) -> Seq<usize>
    decreases t.len() - i, t[i as int].children.len() - k,
{
    if i < t.len() && 0 <= k < t[i as int].children.len() {
        let child = t[i as int].children[k];
        if i < child < t.len() {
            subtree(t, child) + descendants_from(t, i, k + 1)
        } else {
            descendants_from(t, i, k + 1)
        }
    } else {
        Seq::empty()
    }
}

/// The nodes of the subtrees rooted at `roots`, one subtree after the other.
pub open spec fn forest(t: Seq<NodeView>, roots: Seq<usize>) -> Seq<usize>
    decreases roots.len(),
{
    if roots.len() == 0 {
        Seq::empty()
    } else {
        forest(t, roots.drop_last()) + subtree(t, roots.last())
    }
}

/// The children of the nodes `work`, those of one node after those of the other.
pub open spec fn children_of_all(t: Seq<NodeView>, work: Seq<usize>) -> Seq<usize>
    decreases work.len(),
{
    if work.len() == 0 {
        Seq::empty()
    } else {
        children_of_all(t, work.drop_last()) + t[work.last() as int].children
    }
}

/// Whether the node `i` is an element that the matcher accepts.
pub open spec fn node_accepted(t: Seq<NodeView>, m: MatcherView, i: usize) -> bool {
    &&& i < t.len()
    &&& t[i as int].data matches NodeDataView::Element { name, attrs }
    &&& m.accepts(name, attrs)
}

/// [`node_accepted`] as a property of nodes.
pub open spec fn accepted(t: Seq<NodeView>, m: MatcherView) -> spec_fn(usize) -> bool {
    |i: usize| node_accepted(t, m, i)
}

/// What a compound matcher keeps of the working set `work`: in direct mode the accepted
/// nodes of the set, otherwise the accepted nodes of the subtrees rooted at its nodes.
pub open spec fn found_nodes(t: Seq<NodeView>, m: MatcherView, work: Seq<usize>, direct: bool) -> Seq<
    usize,
> {
    if direct {
        work.filter(accepted(t, m))
    } else {
        forest(t, work).filter(accepted(t, m))
    }
}

/// The working set behind one matcher of the selector.
pub open spec fn step(t: Seq<NodeView>, m: MatcherView, work: Seq<usize>, direct: bool) -> Seq<
    usize,
> {
    if m.direct_match {
        children_of_all(t, work)
    } else {
        found_nodes(t, m, work, direct)
    }
}

/// The working set behind all of `matchers`, from the working set `work`. Direct mode
/// holds for the one matcher that follows a marker.
pub open spec fn run(t: Seq<NodeView>, matchers: Seq<MatcherView>, work: Seq<usize>, direct: bool) -> Seq<
    usize,
>
    decreases matchers.len(),
{
    if matchers.len() == 0 {
        work
    } else {
        run(
            t,
            matchers.drop_first(),
            step(t, matchers[0], work, direct),
            matchers[0].direct_match,
        )
    }
}

/// What a selector finds below the node `scope`: the search starts from the children
/// of `scope`.
pub open spec fn selection(t: Seq<NodeView>, scope: usize, matchers: Seq<MatcherView>) -> Seq<
    usize,
> {
    run(t, matchers, t[scope as int].children, false)
}

/// Whether all of `nodes` are nodes of `t`.
pub open spec fn all_within(t: Seq<NodeView>, nodes: Seq<usize>) -> bool {
    forall|k: int| 0 <= k < nodes.len() ==> (#[trigger] nodes[k]) < t.len()
}

/// The nodes that wait on a stack, the top being its last entry: the subtree of the
/// top first.
pub open spec fn pending(t: Seq<NodeView>, stack: Seq<usize>) -> Seq<usize>
    decreases stack.len(),
{
    if stack.len() == 0 {
        Seq::empty()
    } else {
        subtree(t, stack.last()) + pending(t, stack.drop_last())
    }
}

/// The indices of a list of elements.
pub open spec fn indices(elements: Seq<Element>) -> Seq<usize> {
    elements.map_values(|e: Element| e.index())
}

/// The nodes of a subtree are nodes of the tree.
pub proof fn lemma_subtree_within(t: Seq<NodeView>, i: usize)
    ensures
        all_within(t, subtree(t, i)),
    decreases t.len() - i, t[i as int].children.len() + 1,
{
    if i < t.len() {
        lemma_descendants_within(t, i, 0);
    }
}

/// The nodes below a node are nodes of the tree.
pub proof fn lemma_descendants_within(t: Seq<NodeView>, i: usize, k: int)
    ensures
        all_within(t, descendants_from(t, i, k)),
    decreases t.len() - i, t[i as int].children.len() - k,
{
    if i < t.len() && 0 <= k < t[i as int].children.len() {
        let child = t[i as int].children[k];
        lemma_descendants_within(t, i, k + 1);
        if i < child < t.len() {
            lemma_subtree_within(t, child);
        }
    }
}

/// The nodes of a forest are nodes of the tree.
pub proof fn lemma_forest_within(t: Seq<NodeView>, roots: Seq<usize>)
    ensures
        all_within(t, forest(t, roots)),
    decreases roots.len(),
{
    if roots.len() > 0 {
        lemma_forest_within(t, roots.drop_last());
        lemma_subtree_within(t, roots.last());
    }
}

/// The children of nodes of a tree are nodes of the tree.
pub proof fn lemma_children_within(t: Seq<NodeView>, work: Seq<usize>)
    requires
        is_tree(t),
        all_within(t, work),
    ensures
        all_within(t, children_of_all(t, work)),
    decreases work.len(),
{
    if work.len() > 0 {
        let front = work.drop_last();
        assert forall|k: int| 0 <= k < front.len() implies (#[trigger] front[k]) < t.len() by {
            assert(front[k] == work[k]);
        }
        lemma_children_within(t, front);
        let i = work.last();
        assert(i == work[work.len() - 1]);
        assert forall|k: int| 0 <= k < t[i as int].children.len() implies (
        #[trigger] t[i as int].children[k]) < t.len() by {}
    }
}

/// What is kept of a list of nodes of the tree are nodes of the tree.
pub proof fn lemma_filter_within(t: Seq<NodeView>, nodes: Seq<usize>, keep: spec_fn(usize) -> bool)
    requires
        all_within(t, nodes),
    ensures
        all_within(t, nodes.filter(keep)),
{
    let kept = nodes.filter(keep);
    assert forall|k: int| 0 <= k < kept.len() implies (#[trigger] kept[k]) < t.len() by {
        nodes.lemma_filter_contains_rev(keep, kept[k]);
        let j = choose|j: int| 0 <= j < nodes.len() && nodes[j] == kept[k];
        assert(nodes[j] < t.len());
    }
}

/// Every step of a search leaves nodes of the tree in the working set.
pub proof fn lemma_step_within(t: Seq<NodeView>, m: MatcherView, work: Seq<usize>, direct: bool)
    requires
        is_tree(t),
        all_within(t, work),
    ensures
        all_within(t, step(t, m, work, direct)),
{
    if m.direct_match {
        lemma_children_within(t, work);
    } else if direct {
        lemma_filter_within(t, work, accepted(t, m));
    } else {
        lemma_forest_within(t, work);
        lemma_filter_within(t, forest(t, work), accepted(t, m));
    }
}

/// Tests the node `index` of `doc` against `matcher`.
pub fn node_matches(doc: &Document, matcher: &Matcher, index: usize) -> (b: bool)
    requires
        matcher.well_formed(),
        index < doc@.len(),
    ensures
        b == node_accepted(doc@, matcher@, index),
{
    match doc.data(index) {
        NodeData::Element { name, attrs } => matcher.matches(name.as_str(), attrs),
        _ => false,
    }
}

/// Puts the children of the node `index` on the stack, the first child on top.
fn push_children(doc: &Document, index: usize, stack: &mut Vec<usize>)
    requires
        doc.well_formed(),
        index < doc@.len(),
        all_within(doc@, old(stack)@),
    ensures
        all_within(doc@, final(stack)@),
        pending(doc@, final(stack)@) == descendants_from(doc@, index, 0) + pending(
            doc@,
            old(stack)@,
        ),
{
    let children = doc.children_of(index);
    let mut k: usize = children.len();
    assert(descendants_from(doc@, index, k as int) + pending(doc@, stack@) =~= pending(
        doc@,
        stack@,
    ));
    while k > 0
        invariant
            doc.well_formed(),
            index < doc@.len(),
            children@ == doc@[index as int].children,
            k <= children@.len(),
            all_within(doc@, stack@),
            pending(doc@, stack@) == descendants_from(doc@, index, k as int) + pending(
                doc@,
                old(stack)@,
            ),
        decreases k,
    {
        k = k - 1;
        let child: usize = children[k];
        let ghost below = stack@;
        assert(index < child < doc@.len()) by {
            assert(doc@[index as int].children[k as int] == child);
        }
        stack.push(child);
        proof {
            assert(stack@.drop_last() =~= below);
            assert(stack@.last() == child);
            assert(pending(doc@, stack@) =~= subtree(doc@, child) + (descendants_from(
                doc@,
                index,
                k + 1,
            ) + pending(doc@, old(stack)@)));
            assert forall|j: int| 0 <= j < stack@.len() implies (#[trigger] stack@[j]) < doc@.len() by {
                if j < below.len() {
                    assert(stack@[j] == below[j]);
                }
            }
        }
    }
}

impl Selector {
    /// Applies one compound matcher to the working set `elements`: it keeps the accepted
    /// nodes of the set if `direct_match` holds, and otherwise the accepted nodes among
    /// the nodes of the set and all their descendants, in document order. A node that
    /// stands below two nodes of the set is found twice.
    pub fn find_nodes(
        &self,
        doc: &Document,
        matcher: &Matcher,
        elements: Vec<usize>,
        direct_match: bool,
    ) -> (found: Vec<usize>)
        requires
            doc.well_formed(),
            matcher.well_formed(),
            all_within(doc@, elements@),
        ensures
            found@ == found_nodes(doc@, matcher@, elements@, direct_match),
            all_within(doc@, found@),
    {
        let ghost keep = accepted(doc@, matcher@);
        let mut acc: Vec<usize> = Vec::new();
        let ghost mut seen: Seq<usize> = Seq::empty();
        let mut j: usize = 0;
        proof {
            assert(elements@.take(0) =~= Seq::empty());
            assert(seen.filter(keep) =~= Seq::empty()) by {
                reveal(Seq::filter);
            }
        }
        while j < elements.len()
            invariant
                doc.well_formed(),
                matcher.well_formed(),
                all_within(doc@, elements@),
                keep == accepted(doc@, matcher@),
                j <= elements@.len(),
                acc@ == seen.filter(keep),
                all_within(doc@, acc@),
                direct_match ==> seen == elements@.take(j as int),
                !direct_match ==> seen == forest(doc@, elements@.take(j as int)),
            decreases elements@.len() - j,
        {
            let root: usize = elements[j];
            proof {
                assert(elements@.take(j + 1).drop_last() =~= elements@.take(j as int));
                assert(elements@.take(j + 1).last() == root);
            }
            if direct_match {
                proof {
                    seen.lemma_filter_push(root, keep);
                    assert(elements@.take(j + 1) =~= elements@.take(j as int).push(root));
                    seen = seen.push(root);
                }
                if node_matches(doc, matcher, root) {
                    acc.push(root);
                }
            } else {
                let ghost base = seen;
                let mut stack: Vec<usize> = Vec::new();
                stack.push(root);
                proof {
                    assert(stack@.drop_last() =~= Seq::<usize>::empty());
                    assert(stack@.last() == root);
                    assert(pending(doc@, Seq::<usize>::empty()) =~= Seq::<usize>::empty());
                    assert(pending(doc@, stack@) =~= subtree(doc@, root));
                }
                while stack.len() > 0
                    invariant
                        doc.well_formed(),
                        matcher.well_formed(),
                        keep == accepted(doc@, matcher@),
                        all_within(doc@, stack@),
                        acc@ == seen.filter(keep),
                        all_within(doc@, acc@),
                        seen + pending(doc@, stack@) == base + subtree(doc@, root),
                    decreases pending(doc@, stack@).len(),
                {
                    let ghost before = stack@;
                    let node: usize = stack.pop().unwrap();
                    proof {
                        assert(node == before.last());
                        assert(stack@ =~= before.drop_last());
                        assert(node < doc@.len());
                        assert(all_within(doc@, stack@)) by {
                            assert forall|k: int| 0 <= k < stack@.len() implies (
                            #[trigger] stack@[k]) < doc@.len() by {
                                assert(stack@[k] == before[k]);
                            }
                        }
                    }
                    push_children(doc, node, &mut stack);
                    proof {
                        seen.lemma_filter_push(node, keep);
                        assert(seen.push(node) + pending(doc@, stack@) =~= seen + pending(
                            doc@,
                            before,
                        ));
                        seen = seen.push(node);
                    }
                    if node_matches(doc, matcher, node) {
                        acc.push(node);
                    }
                }
                proof {
                    assert(seen =~= base + subtree(doc@, root));
                }
            }
            j = j + 1;
        }
        proof {
            assert(elements@.take(j as int) =~= elements@);
        }
        acc
    }

    /// Runs the selector from the working set `elements` and hands out what is left of
    /// it as elements of `doc`.
    pub fn find<'a>(&self, doc: &'a Document, elements: &Vec<usize>) -> (found: Vec<Element<'a>>)
        requires
            doc.well_formed(),
            self.well_formed(),
            all_within(doc@, elements@),
        ensures
            indices(found@) == run(doc@, self@, elements@, false),
            forall|k: int| 0 <= k < found@.len() ==> (#[trigger] found@[k]).is_element_of(doc),
    {
        let mut work: Vec<usize> = elements.clone();
        let mut direct_match = false;
        let mut k: usize = 0;
        proof {
            assert(self@.skip(0) =~= self@);
        }
        while k < self.matchers.len()
            invariant
                doc.well_formed(),
                self.well_formed(),
                k <= self.matchers@.len(),
                self@.len() == self.matchers@.len(),
                all_within(doc@, work@),
                run(doc@, self@.skip(k as int), work@, direct_match) == run(
                    doc@,
                    self@,
                    elements@,
                    false,
                ),
            decreases self.matchers@.len() - k,
        {
            let matcher = &self.matchers[k];
            proof {
                assert(self@.skip(k as int)[0] == matcher@);
                assert(self@.skip(k as int).drop_first() =~= self@.skip(k + 1));
                lemma_step_within(doc@, matcher@, work@, direct_match);
            }
            if matcher.direct_match {
                work = all_children(doc, &work);
                direct_match = true;
            } else {
                work = self.find_nodes(doc, matcher, work, direct_match);
                direct_match = false;
            }
            k = k + 1;
        }
        let mut found: Vec<Element<'a>> = Vec::new();
        let mut j: usize = 0;
        while j < work.len()
            invariant
                doc.well_formed(),
                all_within(doc@, work@),
                j <= work@.len(),
                indices(found@) == work@.take(j as int),
                forall|k: int| 0 <= k < found@.len() ==> (#[trigger] found@[k]).is_element_of(doc),
            decreases work@.len() - j,
        {
            let ghost before = found@;
            found.push(Element::from(doc, work[j]));
            proof {
                assert(indices(found@) =~= indices(before).push(work@[j as int]));
                assert(work@.take(j + 1) =~= work@.take(j as int).push(work@[j as int]));
                assert forall|k: int| 0 <= k < found@.len() implies (
                #[trigger] found@[k]).is_element_of(doc) by {
                    if k < before.len() {
                        assert(found@[k] == before[k]);
                    }
                }
            }
            j = j + 1;
        }
        proof {
            assert(work@.take(j as int) =~= work@);
        }
        found
    }
}

/// The children of the nodes `work`, those of one node after those of the other.
pub fn all_children(doc: &Document, work: &Vec<usize>) -> (children: Vec<usize>)
    requires
        doc.well_formed(),
        all_within(doc@, work@),
    ensures
        children@ == children_of_all(doc@, work@),
{
    let mut out: Vec<usize> = Vec::new();
    let mut j: usize = 0;
    proof {
        assert(work@.take(0) =~= Seq::empty());
    }
    while j < work.len()
        invariant
            doc.well_formed(),
            all_within(doc@, work@),
            j <= work@.len(),
            out@ == children_of_all(doc@, work@.take(j as int)),
        decreases work@.len() - j,
    {
        let kids = doc.children_of(work[j]);
        let ghost base = out@;
        let mut c: usize = 0;
        while c < kids.len()
            invariant
                c <= kids@.len(),
                out@ == base + kids@.take(c as int),
            decreases kids@.len() - c,
        {
            out.push(kids[c]);
            proof {
                assert(kids@.take(c + 1) =~= kids@.take(c as int).push(kids@[c as int]));
            }
            c = c + 1;
        }
        proof {
            assert(kids@.take(c as int) =~= kids@);
            assert(work@.take(j + 1).drop_last() =~= work@.take(j as int));
            assert(work@.take(j + 1).last() == work@[j as int]);
        }
        j = j + 1;
    }
    proof {
        assert(work@.take(j as int) =~= work@);
    }
    out
}

} // verus!
