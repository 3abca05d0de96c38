//! Elements: read-only views of the nodes of a document.
use crate::error::ParseError;
use crate::matcher::MatcherView;
use crate::query::{indices, selection};
use crate::selector::{parse_selector, Selector};
use crate::tree::{attr_value, get_attr, is_tree, text_view, Document, NodeData, NodeDataView, NodeView};
use vstd::pervasive::unreached;
use vstd::prelude::*;
use vstd::string::StringExecFns;

verus! {

/// A view of one node of a document. It borrows the document and cannot outlive it.
#[derive(Debug, Clone, Copy)]
pub struct Element<'a> {
    doc: &'a Document,
    node: usize,
}

/// The tag name of a node, if it is an element.
pub open spec fn node_tag(t: Seq<NodeView>, i: usize) -> Option<Seq<char>> {
    match t[i as int].data {
        NodeDataView::Element { name, attrs } => Some(name),
        _ => None,
    }
}

/// The value of the first attribute named `name` of a node, if it is an element that
/// has one.
pub open spec fn node_attr(t: Seq<NodeView>, i: usize, name: Seq<char>) -> Option<Seq<char>> {
    match t[i as int].data {
        NodeDataView::Element { name: tag, attrs } => attr_value(attrs, name),
        _ => None,
    }
}

/// The character data of a node, if it is a text node; the empty text otherwise.
pub open spec fn own_text(t: Seq<NodeView>, i: usize) -> Seq<char> {
    match t[i as int].data {
        NodeDataView::Text { contents } => contents,
        _ => Seq::empty(),
    }
}

/// The character data of the text nodes among `nodes`, joined in order.
pub open spec fn joined_text(t: Seq<NodeView>, nodes: Seq<usize>) -> Seq<char>
    decreases nodes.len(),
{
    if nodes.len() == 0 {
        Seq::empty()
    } else {
        joined_text(t, nodes.drop_last()) + own_text(t, nodes.last())
    }
}

/// Whether the node `i` is an element.
pub open spec fn node_is_element(t: Seq<NodeView>, i: usize) -> bool {
    t[i as int].data is Element
}

/// [`node_is_element`] as a property of nodes.
pub open spec fn is_element(t: Seq<NodeView>) -> spec_fn(usize) -> bool {
    |i: usize| node_is_element(t, i)
}

/// Whether `found` is what the selector `selector` finds below the node `scope` of
/// `doc`: the selector can be read, and `found` are the views of the nodes of its
/// selection, in order.
pub open spec fn is_selection(
    doc: &Document,
    scope: usize,
    selector: Seq<char>,
    found: Seq<Element>,
) -> bool {
    &&& parse_selector(selector) is Ok
    &&& indices(found) == selection(doc@, scope, parse_selector(selector)->Ok_0)
    &&& forall|k: int| 0 <= k < found.len() ==> (#[trigger] found[k]).is_element_of(doc)
}

impl<'a> Element<'a> {
    /// The document that the element belongs to.
    pub closed spec fn document(&self) -> Document {
        *self.doc
    }

    /// The tree of that document.
    pub open spec fn tree(&self) -> Seq<NodeView> {
        self.document()@
    }

    /// The index of the element's node in that tree.
    pub closed spec fn index(&self) -> usize {
        self.node
    }

    /// The invariant of an element: it is a node of a tree.
    pub open spec fn well_formed(&self) -> bool {
        is_tree(self.tree()) && self.index() < self.tree().len()
    }

    /// Whether this is a view of a node of `doc`.
    pub open spec fn is_element_of(&self, doc: &Document) -> bool {
        self.document() == *doc && self.well_formed()
    }

    /// Two views of one node of one document are equal.
    pub proof fn lemma_same_element(self, other: Element<'a>)
        requires
            self.document() == other.document(),
            self.index() == other.index(),
        ensures
            self == other,
    {
    }

    /// The view of the node `index` of `doc`.
    pub fn from(doc: &'a Document, index: usize) -> (element: Element<'a>)
        requires
            doc.well_formed(),
            index < doc@.len(),
        ensures
            element.is_element_of(doc),
            element.index() == index,
    {
        Element { doc, node: index }
    }

    /// The index of the element's node.
    pub fn node_index(&self) -> (index: usize)
        ensures
            index == self.index(),
    {
        self.node
    }

    /// The local tag name, or `None` for a node that is no element.
    pub fn tag(&self) -> (tag: Option<String>)
        requires
            self.well_formed(),
        ensures
            text_view(tag) == node_tag(self.tree(), self.index()),
    {
        match self.doc.data(self.node) {
            NodeData::Element { name, attrs } => Some(name.clone()),
            _ => None,
        }
    }

    /// The value of the first attribute whose name is exactly `name`, or `None` if
    /// there is none or the node is no element.
    pub fn attr(&self, name: &str) -> (value: Option<String>)
        requires
            self.well_formed(),
        ensures
            text_view(value) == node_attr(self.tree(), self.index(), name@),
    {
        match self.doc.data(self.node) {
            NodeData::Element { name: tag, attrs } => get_attr(attrs, name),
            _ => None,
        }
    }

    /// The character data of the text nodes among the children, joined in order. It is
    /// always `Some`, and empty where no child is a text node.
    pub fn text(&self) -> (text: Option<String>)
        requires
            self.well_formed(),
        ensures
            text_view(text) == Some(joined_text(self.tree(), self.tree()[self.index() as int].children)),
    {
        let mut res = String::new();
        let children = self.doc.children_of(self.node);
        let mut j: usize = 0;
        proof {
            assert(children@.take(0) =~= Seq::empty());
        }
        while j < children.len()
            invariant
                self.well_formed(),
                children@ == self.doc@[self.node as int].children,
                j <= children@.len(),
                res@ == joined_text(self.doc@, children@.take(j as int)),
            decreases children@.len() - j,
        {
            let child: usize = children[j];
            proof {
                assert(children@.take(j + 1).drop_last() =~= children@.take(j as int));
                assert(children@.take(j + 1).last() == child);
                assert(self.doc@[self.node as int].children[j as int] == child);
            }
            match self.doc.data(child) {
                NodeData::Text { contents } => {
                    res.append(contents.as_str());
                },
                _ => {
                    assert(res@ + Seq::<char>::empty() =~= res@);
                },
            }
            j = j + 1;
        }
        proof {
            assert(children@.take(j as int) =~= children@);
        }
        Some(res)
    }

    /// The children that are elements, in source order.
    pub fn children(&self) -> (children: Vec<Element<'a>>)
        requires
            self.well_formed(),
        ensures
            indices(children@) == self.tree()[self.index() as int].children.filter(
                is_element(self.tree()),
            ),
            forall|k: int|
                0 <= k < children@.len() ==> (#[trigger] children@[k]).document() == self.document()
                    && children@[k].well_formed(),
    {
        let ghost keep = is_element(self.doc@);
        let nodes = self.doc.children_of(self.node);
        let mut out: Vec<Element<'a>> = Vec::new();
        let mut j: usize = 0;
        proof {
            assert(nodes@.take(0) =~= Seq::empty());
            assert(nodes@.take(0).filter(keep) =~= Seq::empty()) by {
                reveal(Seq::filter);
            }
            assert(indices(out@) =~= Seq::empty());
        }
        while j < nodes.len()
            invariant
                self.well_formed(),
                keep == is_element(self.doc@),
                nodes@ == self.doc@[self.node as int].children,
                j <= nodes@.len(),
                indices(out@) == nodes@.take(j as int).filter(keep),
                forall|k: int|
                    0 <= k < out@.len() ==> (#[trigger] out@[k]).document() == self.document()
                        && out@[k].well_formed(),
            decreases nodes@.len() - j,
        {
            let child: usize = nodes[j];
            proof {
                assert(self.doc@[self.node as int].children[j as int] == child);
                assert(nodes@.take(j + 1) =~= nodes@.take(j as int).push(child));
                nodes@.take(j as int).lemma_filter_push(child, keep);
            }
            match self.doc.data(child) {
                NodeData::Element { name, attrs } => {
                    let ghost before = out@;
                    out.push(Element::from(self.doc, child));
                    proof {
                        assert(indices(out@) =~= indices(before).push(child));
                        assert forall|k: int| 0 <= k < out@.len() implies (#[trigger] out@[k]).document()
                            == self.document() && out@[k].well_formed() by {
                            if k < before.len() {
                                assert(out@[k] == before[k]);
                            }
                        }
                    }
                },
                _ => {},
            }
            j = j + 1;
        }
        proof {
            assert(nodes@.take(j as int) =~= nodes@);
        }
        out
    }

    /// The parent, or `None` at the root of the tree.
    pub fn parent(&self) -> (parent: Option<Element<'a>>)
        requires
            self.well_formed(),
        ensures
            match self.tree()[self.index() as int].parent {
                Some(p) => parent matches Some(e) && e.index() == p && e.document() == self.document()
                    && e.well_formed(),
                None => parent is None,
            },
    {
        match self.doc.parent_of(self.node) {
            Some(p) => {
                assert(self.node != 0 && p < self.node) by {
                    assert(self.doc@[self.node as int].parent is Some);
                }
                Some(Element::from(self.doc, p))
            },
            None => None,
        }
    }

    /// Selects, among the nodes below this element, those that `selector` finds. The
    /// search starts from the element's children. The selector must be one that can be
    /// read; [`Element::try_select`] takes any.
    pub fn select(&self, selector: &str) -> (found: Vec<Element<'a>>)
        requires
            self.well_formed(),
            parse_selector(selector@) is Ok,
        ensures
            is_selection(&self.document(), self.index(), selector@, found@),
    {
        match self.try_select(selector) {
            Ok(found) => found,
            Err(_) => unreached(),
        }
    }

    /// Selects as [`Element::select`] does, and returns the error of a selector that
    /// cannot be read.
    pub fn try_select(&self, selector: &str) -> (result: Result<Vec<Element<'a>>, ParseError>)
        requires
            self.well_formed(),
        ensures
            match result {
                Ok(found) => is_selection(&self.document(), self.index(), selector@, found@),
                Err(e) => parse_selector(selector@) == Err::<Seq<MatcherView>, _>(e@),
            },
    {
        match Selector::parse(selector) {
            Ok(sel) => {
                let scope = self.doc.children_of(self.node);
                proof {
                    assert forall|k: int| 0 <= k < scope@.len() implies (#[trigger] scope@[k])
                        < self.doc@.len() by {
                        assert(self.doc@[self.node as int].children[k] == scope@[k]);
                    }
                }
                Ok(sel.find(self.doc, scope))
            },
            Err(e) => Err(e),
        }
    }
}

impl Document {
    /// The root of the tree: the document itself, a node that is no element.
    pub fn root(&self) -> (root: Element<'_>)
        requires
            self.well_formed(),
        ensures
            root.is_element_of(self),
            root.index() == 0,
    {
        Element::from(self, 0)
    }

    /// Selects the nodes of the document that `selector` finds. The search starts from
    /// the children of the root. The selector must be one that can be read;
    /// [`Document::try_select`] takes any.
    pub fn select(&self, selector: &str) -> (found: Vec<Element<'_>>)
        requires
            self.well_formed(),
            parse_selector(selector@) is Ok,
        ensures
            is_selection(self, 0, selector@, found@),
    {
        self.root().select(selector)
    }

    /// Selects as [`Document::select`] does, and returns the error of a selector that
    /// cannot be read.
    pub fn try_select(&self, selector: &str) -> (result: Result<Vec<Element<'_>>, ParseError>)
        requires
            self.well_formed(),
        ensures
            match result {
                Ok(found) => is_selection(self, 0, selector@, found@),
                Err(e) => parse_selector(selector@) == Err::<Seq<MatcherView>, _>(e@),
            },
    {
        self.root().try_select(selector)
    }
}

} // verus!
