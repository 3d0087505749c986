//! Searches in the document tree.

use vstd::prelude::*;

use crate::renderer::dom::node::{DomView, ElementKind, NodeId, NodeKindView, Window};

verus! {

/// The first element of the given kind in document order, among `start`,
/// the nodes below it, and its later siblings with the nodes below them.
pub open spec fn target_element(dom: DomView, start: Option<NodeId>, kind: ElementKind) -> Option<
    NodeId,
>
    decreases
        match start {
            Some(s) => dom.nodes.len() - s,
            None => 0,
        },
{
    match start {
        None => None,
        Some(n) => {
            if !dom.has(n) {
                None
            } else if dom.nodes[n as int].kind.element_kind() == Some(kind) {
                Some(n)
            } else {
                match target_element(dom, dom.first_child_of(n), kind) {
                    Some(found) => Some(found),
                    None => target_element(dom, dom.next_sibling_of(n), kind),
                }
            }
        },
    }
}

/// What is found is a node of the tree, and an element of the kind asked
/// for.
pub proof fn lemma_target_element(dom: DomView, start: Option<NodeId>, kind: ElementKind)
    ensures
        match target_element(dom, start, kind) {
            Some(found) => dom.has(found) && dom.nodes[found as int].kind.element_kind() == Some(
                kind,
            ),
            None => true,
        },
    decreases
        match start {
            Some(s) => dom.nodes.len() - s,
            None => 0,
        },
{
    match start {
        None => {},
        Some(n) => {
            if dom.has(n) && dom.nodes[n as int].kind.element_kind() != Some(kind) {
                lemma_target_element(dom, dom.first_child_of(n), kind);
                lemma_target_element(dom, dom.next_sibling_of(n), kind);
            }
        },
    }
}

pub fn get_target_element_node(dom: &Window, node: Option<NodeId>, element_kind: ElementKind) -> (found:
    Option<NodeId>)
    requires
        dom@.wf(),
        node is Some ==> dom@.has(node->0),
    ensures
        found == target_element(dom@, node, element_kind),
        found is Some ==> dom@.has(found->0),
    decreases
        match node {
            Some(s) => dom@.nodes.len() - s,
            None => 0,
        },
{
    let n = match node {
        Some(n) => n,
        None => {
            return None;
        },
    };
    proof {
        dom@.lemma_links(n);
        lemma_target_element(dom@, node, element_kind);
    }
    if let Some(kind) = dom.node(n).element_kind() {
        if kind.same(element_kind) {
            return Some(n);
        }
    }
    let result1 = get_target_element_node(dom, dom.node(n).first_child(), element_kind);
    if result1.is_some() {
        return result1;
    }
    get_target_element_node(dom, dom.node(n).next_sibling(), element_kind)
}

/// The text of the first `style` element of the document: what its first
/// child holds, where that is a text; else nothing.
pub open spec fn style_content(dom: DomView) -> Seq<char> {
    match target_element(dom, Some(0), ElementKind::Style) {
        Some(style) => match dom.first_child_of(style) {
            Some(child) => match dom.nodes[child as int].kind {
                NodeKindView::Text(s) => s,
                _ => Seq::empty(),
            },
            None => Seq::empty(),
        },
        None => Seq::empty(),
    }
}

pub fn get_style_content(dom: &Window) -> (content: String)
    requires
        dom@.wf(),
    ensures
        content@ == style_content(dom@),
{
    let style_node = match get_target_element_node(dom, Some(dom.document()), ElementKind::Style) {
        Some(node) => node,
        None => {
            return String::new();
        },
    };
    proof {
        dom@.lemma_links(style_node);
    }
    let text_node = match dom.node(style_node).first_child() {
        Some(node) => node,
        None => {
            return String::new();
        },
    };
    match dom.node(text_node).text() {
        Some(s) => s,
        None => String::new(),
    }
}

/// The nearest `a` element among the ancestors of node `id`.
pub open spec fn enclosing_anchor(dom: DomView, id: NodeId) -> Option<NodeId>
    decreases id,
{
    match dom.parent_of(id) {
        Some(p) => if dom.nodes[p as int].kind.element_kind() == Some(ElementKind::A) {
            Some(p)
        } else {
            enclosing_anchor(dom, p)
        },
        None => None,
    }
}

/// The target of the link that node `id` stands in: the value of the
/// attribute `href` of the nearest `a` element among its ancestors.
pub open spec fn link_target(dom: DomView, id: NodeId) -> Option<Seq<char>> {
    match enclosing_anchor(dom, id) {
        Some(a) => match dom.nodes[a as int].kind {
            NodeKindView::Element(e) => e.attribute("href"@),
            _ => None,
        },
        None => None,
    }
}

pub fn get_link_target(dom: &Window, id: NodeId) -> (href: Option<String>)
    requires
        dom@.wf(),
        dom@.has(id),
    ensures
        match href {
            Some(s) => link_target(dom@, id) == Some(s@),
            None => link_target(dom@, id) is None,
        },
{
    let mut current = id;
    loop
        invariant
            dom@.wf(),
            dom@.has(current),
            enclosing_anchor(dom@, current) == enclosing_anchor(dom@, id),
        decreases current,
    {
        proof {
            dom@.lemma_links(current);
        }
        let parent = match dom.node(current).parent() {
            Some(p) => p,
            None => {
                return None;
            },
        };
        if let Some(element) = dom.node(parent).get_element() {
            if element.kind().same(ElementKind::A) {
                return element.get_attribute("href");
            }
        }
        current = parent;
    }
}

} // verus!
