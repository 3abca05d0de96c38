//! Reading a document from HTML text.
//!
//! The text is parsed by `html5ever` into a reference-counted DOM. That DOM is walked
//! once, in document order, and every node is copied into the arena of a [`Document`].
use crate::dom::{
    arena_of, lemma_pending_children, lemma_pending_grows, reversed_below, with_pending, with_subtree,
    with_subtrees, DomTree,
};
use crate::tree::{Attribute, Document, NodeData};
use html5ever::tendril::TendrilSink;
use std::sync::Arc;
use vstd::prelude::*;

verus! {

/// A node of the DOM that the parser builds. It is known by [`node_tree`] alone.
#[verifier::external_type_specification]
#[verifier::external_body]
pub struct ExDomNode(markup5ever_arcdom::Node);

/// The tree that `html5ever::parse_document` builds from a text, with or without its
/// doctype. The parser works on the text alone, so one text gives one tree.
pub uninterp spec fn html_tree(text: Seq<char>, drop_doctype: bool) -> DomTree;

/// What stands at and below a node of the DOM: the data that [`dom_data`] reads of the
/// node, and the same of every child that [`dom_children`] hands out, in order. A DOM
/// is not changed once it is parsed, and this library never changes one.
pub uninterp spec fn node_tree(node: markup5ever_arcdom::Node) -> DomTree;

/// The longest text, in characters, that [`Document::from`] takes. The parser counts
/// the bytes of a text in 32 bits.
pub const MAX_INPUT_CHARS: usize = 0x0fff_ffff;

/// How a text is parsed.
#[derive(Debug, Clone, Copy, PartialEq, Eq)]
pub struct ParseOptions {
    /// Whether a `<!DOCTYPE>` is left out of the tree.
    pub drop_doctype: bool,
}

/// The options that [`Document::from`] parses with: the doctype is dropped.
pub fn default_parse_opts() -> (opts: ParseOptions)
    ensures
        opts.drop_doctype,
{
    ParseOptions { drop_doctype: true }
}

/// Calls `html5ever::parse_document` with a fresh `ArcDom` as the sink, feeds it the
/// whole text through `Parser::from_utf8` and `TendrilSink::one`, and returns the
/// `document` handle of the DOM. The parser recovers from any malformed markup, so there
/// is no error. The contract names the tree that the parser builds: it depends on the
/// text and the option alone. The bound keeps every text that the parser holds within
/// the 32 bits in which `tendril` counts.
#[verifier::external_body]
fn parse_html(input: &str, drop_doctype: bool) -> (root: Arc<markup5ever_arcdom::Node>)
    requires
        input@.len() <= MAX_INPUT_CHARS,
    ensures
        node_tree(*root) == html_tree(input@, drop_doctype),
{
    let tree_builder = html5ever::tree_builder::TreeBuilderOpts { drop_doctype, ..Default::default() };
    let opts = html5ever::ParseOpts { tree_builder, ..Default::default() };
    let sink = markup5ever_arcdom::ArcDom::default();
    html5ever::parse_document(sink, opts).from_utf8().one(input.as_bytes()).document
}

/// Reads the field `children` of a DOM node: the handles of its children, in order.
/// What stands below each of them is what the tree of the node holds at that place.
#[verifier::external_body]
fn dom_children(node: &Arc<markup5ever_arcdom::Node>) -> (children: Vec<
    Arc<markup5ever_arcdom::Node>,
>)
    ensures
        children@.len() == node_tree(**node).children.len(),
        forall|i: int|
            0 <= i < children@.len() ==> node_tree(*#[trigger] children@[i]) == node_tree(
                **node,
            ).children[i],
{
    node.children.borrow().iter().map(Arc::clone).collect()
}

/// Reads the field `data` of a DOM node and copies what this library keeps of it: of an
/// element its local name and its attributes' local names and values, of a text node its
/// contents. Every other kind of node becomes `Other`. This is what the tree of the
/// node holds as the node's data.
#[verifier::external_body]
fn dom_data(node: &Arc<markup5ever_arcdom::Node>) -> (data: NodeData)
    ensures
        data@ == node_tree(**node).data,
{
    match node.data {
        markup5ever_arcdom::NodeData::Element { ref name, ref attrs, .. } => NodeData::Element {
            name: name.local.to_string(),
            attrs: attrs.borrow().iter().map(
                |a| Attribute { name: a.name.local.to_string(), value: a.value.to_string() },
            ).collect(),
        },
        markup5ever_arcdom::NodeData::Text { ref contents } => NodeData::Text {
            contents: contents.borrow().to_string(),
        },
        _ => NodeData::Other,
    }
}

/// What stands at and below the node of a handle.
pub open spec fn tree_at(handle: Arc<markup5ever_arcdom::Node>) -> DomTree {
    node_tree(*handle)
}

/// The trees of a list of handles.
pub open spec fn trees_of(handles: Seq<Arc<markup5ever_arcdom::Node>>) -> Seq<DomTree> {
    Seq::new(handles.len(), |i: int| tree_at(handles[i]))
}

/// The trees that wait on a stack of handles.
pub open spec fn stack_trees(stack: Seq<(Arc<markup5ever_arcdom::Node>, usize)>) -> Seq<
    (DomTree, usize),
> {
    Seq::new(stack.len(), |i: int| (tree_at(stack[i].0), stack[i].1))
}

/// Whether every entry of the stack names a node of an arena of `count` nodes.
pub open spec fn parents_below(stack: Seq<(Arc<markup5ever_arcdom::Node>, usize)>, count: nat) -> bool {
    forall|j: int| 0 <= j < stack.len() ==> (#[trigger] stack[j]).1 < count
}

impl Document {
    /// Parses HTML text into a document. The parser repairs malformed markup, and the
    /// doctype is dropped. The document holds the nodes of the parser's tree in document
    /// order: its root is the document node, and the top-level elements are the
    /// children of the root.
    pub fn from(input: &str) -> (doc: Document)
        requires
            input@.len() <= MAX_INPUT_CHARS,
        ensures
            doc.well_formed(),
            arena_of(html_tree(input@, true)).len() <= usize::MAX ==> doc@ == arena_of(
                html_tree(input@, true),
            ),
    {
        let opts = default_parse_opts();
        let root = parse_html(input, opts.drop_doctype);
        let ghost tree = html_tree(input@, true);
        let ghost target = arena_of(tree);
        let mut doc = Document::new();
        let mut stack: Vec<(Arc<markup5ever_arcdom::Node>, usize)> = Vec::new();
        let children = dom_children(&root);
        proof {
            assert(trees_of(children@) =~= tree.children);
            assert(stack_trees(stack@) =~= Seq::empty());
        }
        push_handles(&mut stack, children, 0, Ghost(doc@.len()));
        proof {
            lemma_pending_children(doc@, Seq::empty(), tree.children, 0);
            assert(Seq::<(DomTree, usize)>::empty() + reversed_below(tree.children, 0)
                =~= stack_trees(stack@));
            assert(with_pending(target, Seq::empty()) == target);
        }
        while stack.len() > 0 && doc.len() < usize::MAX
            invariant
                doc.well_formed(),
                parents_below(stack@, doc@.len()),
                with_pending(doc@, stack_trees(stack@)) == target,
            decreases usize::MAX - doc@.len(),
        {
            let ghost before = stack_trees(stack@);
            let ghost old_arena = doc@;
            let ghost old_stack = stack@;
            let (handle, parent) = stack.pop().unwrap();
            let ghost sub = tree_at(handle);
            proof {
                assert(old_stack.last() == (handle, parent));
                assert(before.last() == (sub, parent));
                assert(stack_trees(stack@) =~= before.drop_last());
                assert(parents_below(stack@, doc@.len())) by {
                    assert forall|j: int| 0 <= j < stack@.len() implies (#[trigger] stack@[j]).1
                        < doc@.len() by {
                        assert(stack@[j] == old_stack[j]);
                    }
                }
                assert(old_stack[old_stack.len() - 1].1 < doc@.len());
            }
            let ghost rest = stack_trees(stack@);
            let index = doc.append(parent, dom_data(&handle));
            let children = dom_children(&handle);
            proof {
                assert(trees_of(children@) =~= sub.children);
            }
            push_handles(&mut stack, children, index, Ghost(doc@.len()));
            proof {
                lemma_pending_children(doc@, rest, sub.children, index);
                assert(stack_trees(stack@) =~= rest + reversed_below(sub.children, index));
                assert(with_subtrees(doc@, index, sub.children) == with_subtree(
                    old_arena,
                    parent,
                    sub,
                ));
            }
        }
        proof {
            if stack.len() > 0 {
                lemma_pending_grows(doc@, stack_trees(stack@));
            } else {
                assert(stack_trees(stack@) =~= Seq::empty());
            }
        }
        doc
    }
}

/// Puts `children` on the stack, each with `parent` as the index of its parent, the
/// first child on top.
fn push_handles(
    stack: &mut Vec<(Arc<markup5ever_arcdom::Node>, usize)>,
    children: Vec<Arc<markup5ever_arcdom::Node>>,
    parent: usize,
    Ghost(count): Ghost<nat>,
)
    requires
        parent < count,
        parents_below(old(stack)@, count),
    ensures
        parents_below(final(stack)@, count),
        stack_trees(final(stack)@) == stack_trees(old(stack)@) + reversed_below(
            trees_of(children@),
            parent,
        ),
{
    let mut children = children;
    let ghost all = children@;
    let ghost n = all.len() as int;
    proof {
        assert(stack_trees(stack@) + reversed_below(trees_of(all).subrange(n, n), parent)
            =~= stack_trees(stack@));
    }
    while children.len() > 0
        invariant
            n == all.len(),
            children@ == all.take(children@.len() as int),
            children@.len() <= n,
            parent < count,
            parents_below(stack@, count),
            stack_trees(stack@) == stack_trees(old(stack)@) + reversed_below(
                trees_of(all).subrange(children@.len() as int, n),
                parent,
            ),
        decreases children@.len(),
    {
        let ghost k = children@.len() as int;
        let ghost below = stack@;
        let child = children.pop().unwrap();
        stack.push((child, parent));
        proof {
            assert(child == all[k - 1]);
            assert(children@ =~= all.take(k - 1));
            assert(stack_trees(stack@) =~= stack_trees(below).push((tree_at(child), parent)));
            assert(reversed_below(trees_of(all).subrange(k - 1, n), parent) =~= reversed_below(
                trees_of(all).subrange(k, n),
                parent,
            ).push((tree_at(child), parent)));
            assert forall|j: int| 0 <= j < stack@.len() implies (#[trigger] stack@[j]).1 < count by {
                if j < below.len() {
                    assert(stack@[j] == below[j]);
                }
            }
        }
    }
    proof {
        assert(trees_of(all).subrange(0, n) =~= trees_of(all));
    }
}

} // verus!
