//! The document tree: nodes held in one arena and linked by their indices.

use vstd::prelude::*;
use vstd::string::StringExecFns;

use crate::renderer::html::attribute::{duplicate_attributes, Attribute, AttributeView};
use crate::text::{same_text, views};

verus! {

/// The index of a node in the arena of its window.
pub type NodeId = usize;

#[derive(Debug, Clone, Copy, PartialEq, Eq, Structural)]
pub enum ElementKind {
    Html,
    Head,
    Style,
    Script,
    Body,
    P,
    H1,
    H2,
    A,
    Span,
}

impl ElementKind {
    /// The tag name of this kind of element.
    pub open spec fn name(self) -> Seq<char> {
        match self {
            ElementKind::Html => "html"@,
            ElementKind::Head => "head"@,
            ElementKind::Style => "style"@,
            ElementKind::Script => "script"@,
            ElementKind::Body => "body"@,
            ElementKind::P => "p"@,
            ElementKind::H1 => "h1"@,
            ElementKind::H2 => "h2"@,
            ElementKind::A => "a"@,
            ElementKind::Span => "span"@,
        }
    }

    /// The kind of element that a tag name stands for, if it is a known one.
    pub open spec fn named(name: Seq<char>) -> Option<ElementKind> {
        if name == "html"@ {
            Some(ElementKind::Html)
        } else if name == "head"@ {
            Some(ElementKind::Head)
        } else if name == "style"@ {
            Some(ElementKind::Style)
        } else if name == "script"@ {
            Some(ElementKind::Script)
        } else if name == "body"@ {
            Some(ElementKind::Body)
        } else if name == "p"@ {
            Some(ElementKind::P)
        } else if name == "h1"@ {
            Some(ElementKind::H1)
        } else if name == "h2"@ {
            Some(ElementKind::H2)
        } else if name == "a"@ {
            Some(ElementKind::A)
        } else if name == "span"@ {
            Some(ElementKind::Span)
        } else {
            None
        }
    }

    /// Whether elements of this kind are laid out as blocks by default.
    pub open spec fn is_block(self) -> bool {
        self == ElementKind::Body || self == ElementKind::H1 || self == ElementKind::H2 || self
            == ElementKind::P
    }

    /// A name stands for a kind exactly if it is that kind's tag name.
    pub proof fn lemma_named_iff_name(name: Seq<char>, kind: ElementKind)
        ensures
            (Self::named(name) == Some(kind)) <==> (name == kind.name()),
    {
        reveal_strlit("html");
        reveal_strlit("head");
        reveal_strlit("style");
        reveal_strlit("script");
        reveal_strlit("body");
        reveal_strlit("p");
        reveal_strlit("h1");
        reveal_strlit("h2");
        reveal_strlit("a");
        reveal_strlit("span");
        assert("html"@.len() == 4 && "head"@.len() == 4 && "body"@.len() == 4 && "span"@.len()
            == 4);
        assert("style"@.len() == 5 && "script"@.len() == 6);
        assert("p"@.len() == 1 && "a"@.len() == 1 && "h1"@.len() == 2 && "h2"@.len() == 2);
        assert("h1"@[1] != "h2"@[1]);
        assert("html"@[1] != "head"@[1]);
        assert("html"@[0] != "body"@[0]);
        assert("html"@[0] != "span"@[0]);
        assert("head"@[0] != "body"@[0]);
        assert("head"@[0] != "span"@[0]);
        assert("body"@[0] != "span"@[0]);
        assert("p"@[0] != "a"@[0]);
    }

    pub fn from_str(s: &str) -> (kind: Option<ElementKind>)
        ensures
            kind == Self::named(s@),
    {
        if same_text(s, "html") {
            Some(ElementKind::Html)
        } else if same_text(s, "head") {
            Some(ElementKind::Head)
        } else if same_text(s, "style") {
            Some(ElementKind::Style)
        } else if same_text(s, "script") {
            Some(ElementKind::Script)
        } else if same_text(s, "body") {
            Some(ElementKind::Body)
        } else if same_text(s, "p") {
            Some(ElementKind::P)
        } else if same_text(s, "h1") {
            Some(ElementKind::H1)
        } else if same_text(s, "h2") {
            Some(ElementKind::H2)
        } else if same_text(s, "a") {
            Some(ElementKind::A)
        } else if same_text(s, "span") {
            Some(ElementKind::Span)
        } else {
            None
        }
    }

    /// The tag name as a string.
    pub fn to_string(&self) -> (s: String)
        ensures
            s@ == self.name(),
    {
        match self {
            ElementKind::Html => String::from_str("html"),
            ElementKind::Head => String::from_str("head"),
            ElementKind::Style => String::from_str("style"),
            ElementKind::Script => String::from_str("script"),
            ElementKind::Body => String::from_str("body"),
            ElementKind::P => String::from_str("p"),
            ElementKind::H1 => String::from_str("h1"),
            ElementKind::H2 => String::from_str("h2"),
            ElementKind::A => String::from_str("a"),
            ElementKind::Span => String::from_str("span"),
        }
    }

    pub fn same(&self, other: ElementKind) -> (r: bool)
        ensures
            r == (*self == other),
    {
        *self == other
    }
}

/// What an element is: its kind and its attributes in order.
pub struct ElementView {
    pub kind: ElementKind,
    pub attributes: Seq<AttributeView>,
}

/// The value of the first attribute called `name`, searching from index
/// `from`.
pub open spec fn attribute_value_from(attributes: Seq<AttributeView>, name: Seq<char>, from: int) -> Option<
    Seq<char>,
>
    decreases attributes.len() - from,
{
    if from < 0 || from >= attributes.len() {
        None
    } else if attributes[from].name == name {
        Some(attributes[from].value)
    } else {
        attribute_value_from(attributes, name, from + 1)
    }
}

impl ElementView {
    /// The value of the first attribute called `name`.
    pub open spec fn attribute(self, name: Seq<char>) -> Option<Seq<char>> {
        attribute_value_from(self.attributes, name, 0)
    }

    /// Whether some attribute has this name and this value.
    pub open spec fn has_attribute(self, name: Seq<char>, value: Seq<char>) -> bool {
        exists|i: int|
            0 <= i < self.attributes.len() && (#[trigger] self.attributes[i]).name == name
                && self.attributes[i].value == value
    }
}

#[derive(Debug, Clone, PartialEq, Eq)]
pub struct Element {
    kind: ElementKind,
    attributes: Vec<Attribute>,
}

impl View for Element {
    type V = ElementView;

    closed spec fn view(&self) -> ElementView {
        ElementView { kind: self.kind, attributes: views(self.attributes@) }
    }
}

impl Element {
    pub fn new(kind: ElementKind, attributes: Vec<Attribute>) -> (e: Self)
        ensures
            e@ == (ElementView { kind, attributes: views(attributes@) }),
    {
        Element { kind, attributes }
    }

    pub fn kind(&self) -> (kind: ElementKind)
        ensures
            kind == self@.kind,
    {
        self.kind
    }

    pub fn attributes(&self) -> (attributes: Vec<Attribute>)
        ensures
            views(attributes@) == self@.attributes,
    {
        duplicate_attributes(&self.attributes)
    }

    /// The value of the first attribute called `name`.
    pub fn get_attribute(&self, name: &str) -> (value: Option<String>)
        ensures
            match value {
                Some(v) => self@.attribute(name@) == Some(v@),
                None => self@.attribute(name@) is None,
            },
    {
        let mut i: usize = 0;
        while i < self.attributes.len()
            invariant
                i <= self.attributes@.len(),
                self@.attribute(name@) == attribute_value_from(self@.attributes, name@, i as int),
            decreases self.attributes@.len() - i,
        {
            let attribute_name = self.attributes[i].name();
            if same_text(attribute_name.as_str(), name) {
                return Some(self.attributes[i].value());
            }
            i += 1;
        }
        None
    }

    /// Whether some attribute has this name and this value.
    pub fn has_attribute(&self, name: &str, value: &str) -> (r: bool)
        ensures
            r == self@.has_attribute(name@, value@),
    {
        let mut i: usize = 0;
        while i < self.attributes.len()
            invariant
                i <= self.attributes@.len(),
                forall|k: int|
                    0 <= k < i ==> !((#[trigger] self@.attributes[k]).name == name@
                        && self@.attributes[k].value == value@),
            decreases self.attributes@.len() - i,
        {
            let n = self.attributes[i].name();
            let v = self.attributes[i].value();
            if same_text(n.as_str(), name) && same_text(v.as_str(), value) {
                assert(self@.attributes[i as int].name == name@ && self@.attributes[i as int].value
                    == value@);
                return true;
            }
            i += 1;
        }
        false
    }

    pub fn is_block_element(&self) -> (r: bool)
        ensures
            r == self@.kind.is_block(),
    {
        match self.kind {
            ElementKind::Body | ElementKind::H1 | ElementKind::H2 | ElementKind::P => true,
            _ => false,
        }
    }

    /// A copy of this element.
    pub fn duplicate(&self) -> (e: Self)
        ensures
            e@ == self@,
    {
        Element { kind: self.kind, attributes: duplicate_attributes(&self.attributes) }
    }
}

#[derive(Debug, Clone, PartialEq, Eq)]
pub enum NodeKind {
    Document,
    Element(Element),
    Text(String),
}

/// What a node holds, apart from its place in the tree.
pub enum NodeKindView {
    Document,
    Element(ElementView),
    Text(Seq<char>),
}

impl View for NodeKind {
    type V = NodeKindView;

    open spec fn view(&self) -> NodeKindView {
        match *self {
            NodeKind::Document => NodeKindView::Document,
            NodeKind::Element(e) => NodeKindView::Element(e@),
            NodeKind::Text(s) => NodeKindView::Text(s@),
        }
    }
}

impl NodeKind {
    /// A copy of this value.
    pub fn duplicate(&self) -> (k: Self)
        ensures
            k@ == self@,
    {
        match self {
            NodeKind::Document => NodeKind::Document,
            NodeKind::Element(e) => NodeKind::Element(e.duplicate()),
            NodeKind::Text(s) => NodeKind::Text(s.clone()),
        }
    }
}

impl NodeKindView {
    /// The kind of element, where this is an element.
    pub open spec fn element_kind(self) -> Option<ElementKind> {
        match self {
            NodeKindView::Element(e) => Some(e.kind),
            _ => None,
        }
    }
}

/// A node as a mathematical value: what it holds and the indices of its
/// neighbours in the tree.
pub struct NodeView {
    pub kind: NodeKindView,
    pub parent: Option<NodeId>,
    pub first_child: Option<NodeId>,
    pub last_child: Option<NodeId>,
    pub previous_sibling: Option<NodeId>,
    pub next_sibling: Option<NodeId>,
}

#[derive(Debug, Clone, PartialEq, Eq)]
pub struct Node {
    kind: NodeKind,
    parent: Option<NodeId>,
    first_child: Option<NodeId>,
    last_child: Option<NodeId>,
    previous_sibling: Option<NodeId>,
    next_sibling: Option<NodeId>,
}

impl View for Node {
    type V = NodeView;

    closed spec fn view(&self) -> NodeView {
        NodeView {
            kind: self.kind@,
            parent: self.parent,
            first_child: self.first_child,
            last_child: self.last_child,
            previous_sibling: self.previous_sibling,
            next_sibling: self.next_sibling,
        }
    }
}

impl Node {
    /// A node that is linked to no other.
    pub fn new(kind: NodeKind) -> (n: Self)
        ensures
            n@ == (NodeView {
                kind: kind@,
                parent: None,
                first_child: None,
                last_child: None,
                previous_sibling: None,
                next_sibling: None,
            }),
    {
        Node {
            kind,
            parent: None,
            first_child: None,
            last_child: None,
            previous_sibling: None,
            next_sibling: None,
        }
    }

    pub fn kind(&self) -> (kind: NodeKind)
        ensures
            kind@ == self@.kind,
    {
        self.kind.duplicate()
    }

    /// The kind of element, where this node is an element.
    pub fn element_kind(&self) -> (kind: Option<ElementKind>)
        ensures
            kind == self@.kind.element_kind(),
    {
        match &self.kind {
            NodeKind::Element(e) => Some(e.kind()),
            _ => None,
        }
    }

    /// The element, where this node is one.
    pub fn get_element(&self) -> (element: Option<Element>)
        ensures
            match element {
                Some(e) => self@.kind == NodeKindView::Element(e@),
                None => !(self@.kind is Element),
            },
    {
        match &self.kind {
            NodeKind::Element(e) => Some(e.duplicate()),
            _ => None,
        }
    }

    /// The characters of this node, where it is a text node.
    pub fn text(&self) -> (text: Option<String>)
        ensures
            match text {
                Some(s) => self@.kind == NodeKindView::Text(s@),
                None => !(self@.kind is Text),
            },
    {
        match &self.kind {
            NodeKind::Text(s) => Some(s.clone()),
            _ => None,
        }
    }

    pub fn is_text(&self) -> (r: bool)
        ensures
            r == (self@.kind is Text),
    {
        match &self.kind {
            NodeKind::Text(_) => true,
            _ => false,
        }
    }

    pub fn parent(&self) -> (id: Option<NodeId>)
        ensures
            id == self@.parent,
    {
        self.parent
    }

    pub fn first_child(&self) -> (id: Option<NodeId>)
        ensures
            id == self@.first_child,
    {
        self.first_child
    }

    pub fn last_child(&self) -> (id: Option<NodeId>)
        ensures
            id == self@.last_child,
    {
        self.last_child
    }

    pub fn previous_sibling(&self) -> (id: Option<NodeId>)
        ensures
            id == self@.previous_sibling,
    {
        self.previous_sibling
    }

    pub fn next_sibling(&self) -> (id: Option<NodeId>)
        ensures
            id == self@.next_sibling,
    {
        self.next_sibling
    }
}

/// The document tree as a mathematical value: the nodes in the order of
/// their creation, the document node first.
pub struct DomView {
    pub nodes: Seq<NodeView>,
}

impl DomView {
    /// The tree that holds the document node alone.
    pub open spec fn empty() -> DomView {
        DomView {
            nodes: seq![
                NodeView {
                    kind: NodeKindView::Document,
                    parent: None,
                    first_child: None,
                    last_child: None,
                    previous_sibling: None,
                    next_sibling: None,
                },
            ],
        }
    }

    pub open spec fn has(self, id: NodeId) -> bool {
        id < self.nodes.len()
    }

    /// The links of node `i` agree with those of its neighbours: its parent
    /// was made before it and its children and later siblings after it; its
    /// first child has no previous sibling and its last child no next one; a
    /// next sibling has the same parent and points back; a node without a
    /// previous (next) sibling is the first (last) child of its parent.
    pub open spec fn links_agree(self, i: int) -> bool {
        let n = self.nodes[i];
        &&& match n.parent {
            Some(p) => {
                &&& p < i
                &&& !(n.kind is Document)
                &&& (n.previous_sibling is None ==> self.nodes[p as int].first_child == Some(
                    i as usize,
                ))
                &&& (n.next_sibling is None ==> self.nodes[p as int].last_child == Some(
                    i as usize,
                ))
            },
            None => i == 0 && n.previous_sibling is None && n.next_sibling is None,
        }
        &&& match n.first_child {
            Some(c) => {
                &&& i < c < self.nodes.len()
                &&& self.nodes[c as int].parent == Some(i as usize)
                &&& self.nodes[c as int].previous_sibling is None
            },
            None => n.last_child is None,
        }
        &&& match n.last_child {
            Some(c) => {
                &&& i < c < self.nodes.len()
                &&& self.nodes[c as int].parent == Some(i as usize)
                &&& self.nodes[c as int].next_sibling is None
            },
            None => n.first_child is None,
        }
        &&& match n.next_sibling {
            Some(s) => {
                &&& i < s < self.nodes.len()
                &&& self.nodes[s as int].parent == n.parent
                &&& self.nodes[s as int].previous_sibling == Some(i as usize)
            },
            None => true,
        }
        &&& match n.previous_sibling {
            Some(s) => {
                &&& s < i
                &&& self.nodes[s as int].parent == n.parent
                &&& self.nodes[s as int].next_sibling == Some(i as usize)
            },
            None => true,
        }
    }

    /// The invariant of the tree: it starts with the one document node, and
    /// the links of every node agree with those of its neighbours. Owning
    /// links (first child, next sibling) lead to greater indices only, so
    /// they form no cycle.
    pub open spec fn wf(self) -> bool {
        &&& self.nodes.len() >= 1
        &&& self.nodes.len() <= usize::MAX
        &&& self.nodes[0].kind is Document
        &&& forall|i: int| 0 <= i < self.nodes.len() ==> #[trigger] self.links_agree(i)
    }

    /// The first child of node `id`, as far as it was made after `id`
    /// (which in a well-formed tree every first child is).
    pub open spec fn first_child_of(self, id: NodeId) -> Option<NodeId> {
        match self.nodes[id as int].first_child {
            Some(c) if id < c < self.nodes.len() => Some(c),
            _ => None,
        }
    }

    /// The next sibling of node `id`, as far as it was made after `id`
    /// (which in a well-formed tree every next sibling is).
    pub open spec fn next_sibling_of(self, id: NodeId) -> Option<NodeId> {
        match self.nodes[id as int].next_sibling {
            Some(c) if id < c < self.nodes.len() => Some(c),
            _ => None,
        }
    }

    /// The parent of node `id`, as far as it was made before `id` (which in
    /// a well-formed tree every parent is).
    pub open spec fn parent_of(self, id: NodeId) -> Option<NodeId> {
        match self.nodes[id as int].parent {
            Some(p) if p < id => Some(p),
            _ => None,
        }
    }

    /// In a well-formed tree the links of a node are those that its fields
    /// hold.
    pub proof fn lemma_links(self, id: NodeId)
        requires
            self.wf(),
            self.has(id),
        ensures
            self.first_child_of(id) == self.nodes[id as int].first_child,
            self.next_sibling_of(id) == self.nodes[id as int].next_sibling,
            self.parent_of(id) == self.nodes[id as int].parent,
            self.first_child_of(id) is Some ==> self.has(self.first_child_of(id)->0),
            self.next_sibling_of(id) is Some ==> self.has(self.next_sibling_of(id)->0),
            self.parent_of(id) is Some ==> self.has(self.parent_of(id)->0),
    {
        assert(self.links_agree(id as int));
    }

    /// The nodes from `start` on along the next-sibling links.
    pub open spec fn siblings_from(self, start: Option<NodeId>) -> Seq<NodeId>
        decreases
            match start {
                Some(s) => self.nodes.len() - s,
                None => 0,
            },
    {
        match start {
            Some(s) => {
                if s < self.nodes.len() {
                    seq![s] + self.siblings_from(self.next_sibling_of(s))
                } else {
                    Seq::empty()
                }
            },
            None => Seq::empty(),
        }
    }

    /// The children of node `id`, first to last.
    pub open spec fn children(self, id: NodeId) -> Seq<NodeId> {
        self.siblings_from(self.first_child_of(id))
    }

    /// The tree with a new node of the given kind added as the last child of
    /// `parent`. The new node gets the next free index.
    pub open spec fn appended(self, parent: NodeId, kind: NodeKindView) -> DomView {
        let new = self.nodes.len() as usize;
        let last = self.nodes[parent as int].last_child;
        let linked = match last {
            Some(l) => self.nodes.update(
                l as int,
                NodeView { next_sibling: Some(new), ..self.nodes[l as int] },
            ),
            None => self.nodes,
        };
        let p = linked[parent as int];
        let adopted = linked.update(
            parent as int,
            NodeView {
                first_child: if last is None {
                    Some(new)
                } else {
                    p.first_child
                },
                last_child: Some(new),
                ..p
            },
        );
        DomView {
            nodes: adopted.push(
                NodeView {
                    kind,
                    parent: Some(parent),
                    first_child: None,
                    last_child: None,
                    previous_sibling: last,
                    next_sibling: None,
                },
            ),
        }
    }

    /// The tree with `c` added to the text of node `id`. A node that holds
    /// no text is left as it is.
    pub open spec fn text_pushed(self, id: NodeId, c: char) -> DomView {
        match self.nodes[id as int].kind {
            NodeKindView::Text(s) => DomView {
                nodes: self.nodes.update(
                    id as int,
                    NodeView { kind: NodeKindView::Text(s.push(c)), ..self.nodes[id as int] },
                ),
            },
            _ => self,
        }
    }

    /// Adding a last child keeps the tree well formed, and leaves what the
    /// nodes that were there hold.
    pub proof fn lemma_appended_wf(self, parent: NodeId, kind: NodeKindView)
        requires
            self.wf(),
            self.has(parent),
            self.nodes.len() < usize::MAX,
            !(kind is Document),
        ensures
            self.appended(parent, kind).wf(),
            self.appended(parent, kind).nodes.len() == self.nodes.len() + 1,
            forall|i: int|
                0 <= i < self.nodes.len() ==> (#[trigger] self.appended(parent, kind).nodes[i]).kind
                    == self.nodes[i].kind,
    {
        let after = self.appended(parent, kind);
        assert(self.links_agree(parent as int));
        assert forall|i: int| 0 <= i < after.nodes.len() implies #[trigger] after.links_agree(
            i,
        ) by {
            if i < self.nodes.len() {
                assert(self.links_agree(i));
            }
        }
    }

    /// Along the next-sibling links the indices grow: a chain of siblings
    /// starts with `start`, holds only nodes of the tree, and holds no node
    /// twice.
    pub proof fn lemma_siblings_increase(self, start: NodeId)
        requires
            self.has(start),
        ensures
            self.siblings_from(Some(start)).len() >= 1,
            self.siblings_from(Some(start))[0] == start,
            forall|i: int|
                0 <= i < self.siblings_from(Some(start)).len() ==> self.has(
                    #[trigger] self.siblings_from(Some(start))[i],
                ) && start <= self.siblings_from(Some(start))[i],
            forall|i: int, j: int|
                0 <= i < j < self.siblings_from(Some(start)).len() ==> self.siblings_from(
                    Some(start),
                )[i] < self.siblings_from(Some(start))[j],
        decreases self.nodes.len() - start,
    {
        let chain = self.siblings_from(Some(start));
        match self.next_sibling_of(start) {
            Some(n) => {
                self.lemma_siblings_increase(n);
                let rest = self.siblings_from(Some(n));
                assert(chain =~= seq![start] + rest);
                assert forall|i: int, j: int| 0 <= i < j < chain.len() implies chain[i]
                    < chain[j] by {
                    assert(chain[j] == rest[j - 1]);
                    if i > 0 {
                        assert(chain[i] == rest[i - 1]);
                    }
                }
                assert forall|i: int| 0 <= i < chain.len() implies self.has(#[trigger] chain[i])
                    && start <= chain[i] by {
                    if i > 0 {
                        assert(chain[i] == rest[i - 1]);
                    }
                }
            },
            None => {
                assert(self.siblings_from(None) =~= Seq::<NodeId>::empty());
                assert(chain =~= seq![start]);
            },
        }
    }

    /// A chain of siblings holds, with each of its nodes, the next sibling
    /// of that node.
    pub proof fn lemma_siblings_closed(self, start: NodeId, member: NodeId)
        requires
            self.has(start),
            self.siblings_from(Some(start)).contains(member),
            self.next_sibling_of(member) is Some,
        ensures
            self.siblings_from(Some(start)).contains(self.next_sibling_of(member)->0),
        decreases self.nodes.len() - start,
    {
        let chain = self.siblings_from(Some(start));
        let next = self.next_sibling_of(member)->0;
        match self.next_sibling_of(start) {
            Some(n) => {
                let rest = self.siblings_from(Some(n));
                assert(chain =~= seq![start] + rest);
                self.lemma_siblings_increase(n);
                if member == start {
                    assert(chain[1] == rest[0]);
                } else {
                    let k = choose|k: int| 0 <= k < chain.len() && chain[k] == member;
                    assert(rest[k - 1] == member);
                    self.lemma_siblings_closed(n, member);
                    let m = choose|m: int| 0 <= m < rest.len() && rest[m] == next;
                    assert(chain[m + 1] == next);
                }
            },
            None => {
                assert(self.siblings_from(None) =~= Seq::<NodeId>::empty());
                assert(chain =~= seq![start]);
                let k = choose|k: int| 0 <= k < chain.len() && chain[k] == member;
                assert(member == start);
            },
        }
    }

    /// In a well-formed tree every node but the document node is a child
    /// of its parent, and is so once: the children of a node are distinct,
    /// and each of them names that node as its parent.
    pub proof fn lemma_child_of_its_parent(self, id: NodeId)
        requires
            self.wf(),
            self.has(id),
            id != 0,
        ensures
            self.nodes[id as int].parent is Some,
            self.has(self.nodes[id as int].parent->0),
            self.children(self.nodes[id as int].parent->0).contains(id),
            forall|i: int, j: int|
                0 <= i < j < self.children(self.nodes[id as int].parent->0).len()
                    ==> self.children(self.nodes[id as int].parent->0)[i] != self.children(
                    self.nodes[id as int].parent->0,
                )[j],
        decreases id,
    {
        assert(self.links_agree(id as int));
        let parent = self.nodes[id as int].parent->0;
        assert(self.links_agree(parent as int));
        self.lemma_links(parent);
        let first = self.first_child_of(parent);
        match self.nodes[id as int].previous_sibling {
            None => {
                self.lemma_siblings_increase(id);
                assert(self.children(parent)[0] == id);
            },
            Some(before) => {
                assert(self.links_agree(before as int));
                self.lemma_child_of_its_parent(before);
                self.lemma_links(before);
                self.lemma_siblings_closed(first->0, before);
            },
        }
        self.lemma_siblings_increase(first->0);
    }

    /// Adding a last child lengthens the chains of siblings that lead to
    /// the place of the new node, and no others: the siblings from a child
    /// of `parent` on are followed by the new node, and the siblings from
    /// any other node on are what they were.
    pub proof fn lemma_appended_siblings(self, parent: NodeId, kind: NodeKindView, start: NodeId)
        requires
            self.wf(),
            self.has(parent),
            self.has(start),
            self.nodes.len() < usize::MAX,
        ensures
            self.nodes[start as int].parent == Some(parent) ==> self.appended(
                parent,
                kind,
            ).siblings_from(Some(start)) == self.siblings_from(Some(start)).push(
                self.nodes.len() as usize,
            ),
            self.nodes[start as int].parent != Some(parent) ==> self.appended(
                parent,
                kind,
            ).siblings_from(Some(start)) == self.siblings_from(Some(start)),
        decreases self.nodes.len() - start,
    {
        let after = self.appended(parent, kind);
        let new = self.nodes.len() as usize;
        let last = self.nodes[parent as int].last_child;
        assert(self.links_agree(start as int));
        assert(self.links_agree(parent as int));
        assert(self.siblings_from(None) =~= Seq::<NodeId>::empty());
        assert(after.siblings_from(None) =~= Seq::<NodeId>::empty());
        if last == Some(start) {
            assert(after.nodes[start as int].next_sibling == Some(new));
            assert(after.nodes[new as int].next_sibling is None);
            assert(after.siblings_from(Some(new)) =~= seq![new]);
            assert(self.siblings_from(Some(start)) =~= seq![start]);
            assert(after.siblings_from(Some(start)) =~= seq![start, new]);
        } else {
            assert(after.nodes[start as int].next_sibling == self.nodes[start as int].next_sibling);
            match self.nodes[start as int].next_sibling {
                Some(n) => {
                    self.lemma_appended_siblings(parent, kind, n);
                    assert(self.siblings_from(Some(start)) =~= seq![start] + self.siblings_from(
                        Some(n),
                    ));
                    assert(after.siblings_from(Some(start)) =~= seq![start] + after.siblings_from(
                        Some(n),
                    ));
                },
                None => {
                    assert(self.siblings_from(Some(start)) =~= seq![start]);
                    assert(after.siblings_from(Some(start)) =~= seq![start]);
                },
            }
        }
    }

    /// A node that is added as the last child of `parent` comes last among
    /// the children of `parent`, behind those that were there; the
    /// children of every other node stay what they were, and the new node
    /// has none.
    pub proof fn lemma_appended_children(self, parent: NodeId, kind: NodeKindView)
        requires
            self.wf(),
            self.has(parent),
            self.nodes.len() < usize::MAX,
        ensures
            self.appended(parent, kind).children(parent) == self.children(parent).push(
                self.nodes.len() as usize,
            ),
            forall|other: NodeId|
                self.has(other) && other != parent ==> #[trigger] self.appended(
                    parent,
                    kind,
                ).children(other) == self.children(other),
            self.appended(parent, kind).children(self.nodes.len() as usize) == Seq::<
                NodeId,
            >::empty(),
            self.appended(parent, kind).nodes[self.nodes.len() as int].kind == kind,
            self.appended(parent, kind).nodes[self.nodes.len() as int].parent == Some(parent),
    {
        let after = self.appended(parent, kind);
        let new = self.nodes.len() as usize;
        assert(self.links_agree(parent as int));
        assert(self.siblings_from(None) =~= Seq::<NodeId>::empty());
        assert(after.siblings_from(None) =~= Seq::<NodeId>::empty());
        match self.nodes[parent as int].first_child {
            Some(c) => {
                self.lemma_appended_siblings(parent, kind, c);
            },
            None => {
                assert(after.siblings_from(Some(new)) =~= seq![new]);
                assert(self.children(parent) =~= Seq::<NodeId>::empty());
                assert(after.children(parent) =~= seq![new]);
            },
        }
        assert forall|other: NodeId| self.has(other) && other != parent implies #[trigger] after.children(
            other,
        ) == self.children(other) by {
            assert(self.links_agree(other as int));
            match self.nodes[other as int].first_child {
                Some(c) => {
                    self.lemma_appended_siblings(parent, kind, c);
                },
                None => {},
            }
        }
    }

    /// Adding a character to a text keeps the tree well formed.
    pub proof fn lemma_text_pushed_wf(self, id: NodeId, c: char)
        requires
            self.wf(),
            self.has(id),
        ensures
            self.text_pushed(id, c).wf(),
            self.text_pushed(id, c).nodes.len() == self.nodes.len(),
    {
        let after = self.text_pushed(id, c);
        assert forall|i: int| 0 <= i < after.nodes.len() implies #[trigger] after.links_agree(
            i,
        ) by {
            assert(self.links_agree(i));
        }
    }
}

/// The root object of a page: it owns the arena of nodes, of which the
/// first is the document node.
#[derive(Debug, Clone, PartialEq, Eq)]
pub struct Window {
    nodes: Vec<Node>,
}

impl View for Window {
    type V = DomView;

    closed spec fn view(&self) -> DomView {
        DomView { nodes: views(self.nodes@) }
    }
}

impl Window {
    /// A window whose tree is the document node alone.
    pub fn new() -> (w: Self)
        ensures
            w@ == DomView::empty(),
            w@.wf(),
    {
        let mut nodes: Vec<Node> = Vec::new();
        nodes.push(Node::new(NodeKind::Document));
        let w = Window { nodes };
        assert(w@.nodes =~= DomView::empty().nodes);
        assert(w@.links_agree(0));
        w
    }

    /// The document node.
    pub fn document(&self) -> (id: NodeId)
        ensures
            id == 0,
    {
        0
    }

    /// The number of nodes.
    pub fn len(&self) -> (n: usize)
        ensures
            n == self@.nodes.len(),
    {
        self.nodes.len()
    }

    pub fn node(&self, id: NodeId) -> (n: &Node)
        requires
            self@.has(id),
        ensures
            n@ == self@.nodes[id as int],
    {
        &self.nodes[id]
    }

    /// Adds a node of the given kind as the last child of `parent` and
    /// returns its index. Nothing is added, and nothing returned, where the
    /// arena is full.
    pub fn append_child(&mut self, parent: NodeId, kind: NodeKind) -> (id: Option<NodeId>)
        requires
            old(self)@.wf(),
            old(self)@.has(parent),
            !(kind is Document),
        ensures
            final(self)@.wf(),
            old(self)@.nodes.len() < usize::MAX ==> id == Some(old(self)@.nodes.len() as usize)
                && final(self)@ == old(self)@.appended(parent, kind@),
            old(self)@.nodes.len() >= usize::MAX ==> id is None && final(self)@ == old(self)@,
    {
        let new = self.nodes.len();
        if new == usize::MAX {
            return None;
        }
        let ghost before = self@;
        let last = self.nodes[parent].last_child;
        let mut node = Node::new(kind);
        node.parent = Some(parent);
        node.previous_sibling = last;
        proof {
            before.lemma_appended_wf(parent, kind@);
            assert(before.links_agree(parent as int));
        }
        match last {
            Some(l) => {
                self.nodes[l].next_sibling = Some(new);
            },
            None => {
                self.nodes[parent].first_child = Some(new);
            },
        }
        self.nodes[parent].last_child = Some(new);
        self.nodes.push(node);
        assert(self@.nodes =~= before.appended(parent, kind@).nodes);
        Some(new)
    }

    /// Adds `c` to the text of node `id`; a node that holds no text is left
    /// as it is.
    pub fn push_text(&mut self, id: NodeId, c: char)
        requires
            old(self)@.wf(),
            old(self)@.has(id),
        ensures
            final(self)@.wf(),
            final(self)@ == old(self)@.text_pushed(id, c),
    {
        let ghost before = self@;
        proof {
            before.lemma_text_pushed_wf(id, c);
        }
        match &mut self.nodes[id].kind {
            NodeKind::Text(s) => {
                s.push(c);
            },
            _ => {},
        }
        assert(self@.nodes =~= before.text_pushed(id, c).nodes);
    }
}

} // verus!
