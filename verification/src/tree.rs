//! The document tree: an arena of nodes, each addressed by its index.
//!
//! The node at index 0 is the root, the document itself. Every other node has a parent
//! with a smaller index, and stands once in the list of its parent's children.
use vstd::prelude::*;

verus! {

/// One attribute of an element.
#[derive(Debug)]
pub struct Attribute {
    pub name: String,
    pub value: String,
}

/// The model of an [`Attribute`].
pub ghost struct AttributeView {
    pub name: Seq<char>,
    pub value: Seq<char>,
}

impl View for Attribute {
    type V = AttributeView;

    open spec fn view(&self) -> AttributeView {
        AttributeView { name: self.name@, value: self.value@ }
    }
}

/// What a node is.
#[derive(Debug)]
pub enum NodeData {
    /// An element, with its local tag name and its attributes in source order.
    Element { name: String, attrs: Vec<Attribute> },
    /// Character data.
    Text { contents: String },
    /// Anything else: the document itself, a comment, a processing instruction.
    Other,
}

/// The model of a [`NodeData`].
pub ghost enum NodeDataView {
    Element { name: Seq<char>, attrs: Seq<AttributeView> },
    Text { contents: Seq<char> },
    Other,
}

impl View for NodeData {
    type V = NodeDataView;

    open spec fn view(&self) -> NodeDataView {
        match self {
            NodeData::Element { name, attrs } => NodeDataView::Element {
                name: name@,
                attrs: attributes_view(attrs@),
            },
            NodeData::Text { contents } => NodeDataView::Text { contents: contents@ },
            NodeData::Other => NodeDataView::Other,
        }
    }
}

/// The model of a node of the tree: what it is, its parent and its children in order.
pub ghost struct NodeView {
    pub data: NodeDataView,
    pub parent: Option<usize>,
    pub children: Seq<usize>,
}

/// The models of a list of attributes.
pub open spec fn attributes_view(attrs: Seq<Attribute>) -> Seq<AttributeView> {
    attrs.map_values(|a: Attribute| a@)
}

/// The model of a text that may be absent.
pub open spec fn text_view(text: Option<String>) -> Option<Seq<char>> {
    match text {
        Some(s) => Some(s@),
        None => None,
    }
}

/// The value of the first attribute at or after position `i` whose name is `name`.
pub open spec fn attr_value_from(attrs: Seq<AttributeView>, name: Seq<char>, i: int) -> Option<
    Seq<char>,
>
    decreases attrs.len() - i,
{
    if i < 0 || i >= attrs.len() {
        None
    } else if attrs[i].name == name {
        Some(attrs[i].value)
    } else {
        attr_value_from(attrs, name, i + 1)
    }
}

/// The value of the first attribute whose name is `name`.
pub open spec fn attr_value(attrs: Seq<AttributeView>, name: Seq<char>) -> Option<Seq<char>> {
    attr_value_from(attrs, name, 0)
}

/// Whether the nodes `t` form a tree rooted at index 0: the root is the document node
/// and has no parent, every other node stands once among the children of its parent,
/// and children have greater indices than their parents.
pub open spec fn is_tree(t: Seq<NodeView>) -> bool {
    &&& t.len() > 0
    &&& t[0].parent is None
    &&& t[0].data == NodeDataView::Other
    &&& forall|i: int|
        0 < i < t.len() ==> ((#[trigger] t[i]).parent matches Some(p) && p < i
            && t[p as int].children.contains(i as usize))
    &&& forall|i: int, k: int|
        0 <= i < t.len() && 0 <= k < t[i].children.len() ==> i < (#[trigger] t[i].children[k])
            < t.len() && t[t[i].children[k] as int].parent == Some(i as usize)
    &&& forall|i: int, k: int, l: int|
        0 <= i < t.len() && 0 <= k < l < t[i].children.len() ==> (#[trigger] t[i].children[k])
            < (#[trigger] t[i].children[l])
}

/// The tree `t` with one more node, of kind `data`, as the last child of `parent`.
pub open spec fn with_child(t: Seq<NodeView>, parent: int, data: NodeDataView) -> Seq<NodeView> {
    let child = NodeView { data, parent: Some(parent as usize), children: Seq::empty() };
    let above = NodeView { children: t[parent].children.push(t.len() as usize), ..t[parent] };
    t.update(parent, above).push(child)
}

/// The tree that holds the root alone.
pub open spec fn root_only() -> Seq<NodeView> {
    seq![NodeView { data: NodeDataView::Other, parent: None, children: Seq::empty() }]
}

/// Adding a child to a tree gives a tree.
pub proof fn lemma_with_child_is_tree(t: Seq<NodeView>, parent: int, data: NodeDataView)
    requires
        is_tree(t),
        0 <= parent < t.len(),
        t.len() < usize::MAX,
    ensures
        is_tree(with_child(t, parent, data)),
{
    let u = with_child(t, parent, data);
    let n = t.len() as int;
    assert(u.len() == n + 1);
    assert(u[parent].children == t[parent].children.push(n as usize));
    assert(u[parent].children[t[parent].children.len() as int] == n as usize);
    assert forall|i: int| 0 < i < u.len() implies ((#[trigger] u[i]).parent matches Some(p) && p < i
        && u[p as int].children.contains(i as usize)) by {
        if i < n {
            let p = t[i].parent->0;
            assert(t[p as int].children.contains(i as usize));
            let k = choose|k: int|
                0 <= k < t[p as int].children.len() && t[p as int].children[k] == i as usize;
            assert(u[p as int].children[k] == i as usize);
        }
    }
    assert forall|i: int, k: int| 0 <= i < u.len() && 0 <= k < u[i].children.len() implies i < (
    #[trigger] u[i].children[k]) < u.len() && u[u[i].children[k] as int].parent == Some(
        i as usize,
    ) by {
        if i == parent && k < t[parent].children.len() {
            assert(u[i].children[k] == t[i].children[k]);
        } else if i != parent {
            assert(u[i].children[k] == t[i].children[k]);
        }
    }
    assert forall|i: int, k: int, l: int|
        0 <= i < u.len() && 0 <= k < l < u[i].children.len() implies (#[trigger] u[i].children[k])
        < (#[trigger] u[i].children[l]) by {
        if i == parent {
            assert(u[i].children[k] == t[i].children[k]);
            if l < t[parent].children.len() {
                assert(u[i].children[l] == t[i].children[l]);
            }
        } else {
            assert(u[i].children[k] == t[i].children[k]);
            assert(u[i].children[l] == t[i].children[l]);
        }
    }
}

/// Looks up the value of the first attribute named `name`.
pub fn get_attr(attrs: &Vec<Attribute>, name: &str) -> (value: Option<String>)
    ensures
        text_view(value) == attr_value(attributes_view(attrs@), name@),
{
    let key = name.to_owned();
    let mut i: usize = 0;
    while i < attrs.len()
        invariant
            i <= attrs@.len(),
            key@ == name@,
            attr_value(attributes_view(attrs@), name@) == attr_value_from(
                attributes_view(attrs@),
                name@,
                i as int,
            ),
        decreases attrs@.len() - i,
    {
        if attrs[i].name == key {
            return Some(attrs[i].value.clone());
        }
        i = i + 1;
    }
    None
}

/// A node of the arena.
#[derive(Debug)]
pub struct TreeNode {
    pub data: NodeData,
    pub parent: Option<usize>,
    pub children: Vec<usize>,
}

impl View for TreeNode {
    type V = NodeView;

    open spec fn view(&self) -> NodeView {
        NodeView { data: self.data@, parent: self.parent, children: self.children@ }
    }
}

/// A parsed document: the owner of the tree.
#[derive(Debug)]
pub struct Document {
    nodes: Vec<TreeNode>,
}

impl View for Document {
    type V = Seq<NodeView>;

    /// The nodes of the document, by index.
    closed spec fn view(&self) -> Seq<NodeView> {
        self.nodes@.map_values(|n: TreeNode| n@)
    }
}

impl Document {
    /// The invariant of a document: its nodes form a tree.
    pub open spec fn well_formed(&self) -> bool {
        is_tree(self@)
    }

    /// The document that holds the root alone.
    pub fn new() -> (doc: Document)
        ensures
            doc.well_formed(),
            doc@ == root_only(),
    {
        let mut nodes: Vec<TreeNode> = Vec::new();
        nodes.push(TreeNode { data: NodeData::Other, parent: None, children: Vec::new() });
        let doc = Document { nodes };
        assert(doc@ =~= root_only());
        doc
    }

    /// The number of nodes, the root included.
    pub fn len(&self) -> (n: usize)
        ensures
            n == self@.len(),
    {
        self.nodes.len()
    }

    /// What the node at `index` is.
    pub fn data(&self, index: usize) -> (data: &NodeData)
        requires
            index < self@.len(),
        ensures
            data@ == self@[index as int].data,
    {
        &self.nodes[index].data
    }

    /// The parent of the node at `index`.
    pub fn parent_of(&self, index: usize) -> (parent: Option<usize>)
        requires
            index < self@.len(),
        ensures
            parent == self@[index as int].parent,
    {
        self.nodes[index].parent
    }

    /// The children of the node at `index`, in order.
    pub fn children_of(&self, index: usize) -> (children: &Vec<usize>)
        requires
            index < self@.len(),
        ensures
            children@ == self@[index as int].children,
    {
        &self.nodes[index].children
    }

    /// Adds a node of kind `data` as the last child of `parent`, and returns its index.
    pub fn append(&mut self, parent: usize, data: NodeData) -> (index: usize)
        requires
            old(self).well_formed(),
            parent < old(self)@.len(),
            old(self)@.len() < usize::MAX,
        ensures
            final(self).well_formed(),
            index == old(self)@.len(),
            final(self)@ == with_child(old(self)@, parent as int, data@),
    {
        let index: usize = self.nodes.len();
        self.nodes.push(TreeNode { data, parent: Some(parent), children: Vec::new() });
        self.nodes[parent].children.push(index);
        proof {
            assert(self@ =~= with_child(old(self)@, parent as int, data@));
            lemma_with_child_is_tree(old(self)@, parent as int, data@);
        }
        index
    }
}

} // verus!
