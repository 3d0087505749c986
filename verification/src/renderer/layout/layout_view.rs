//! The layout tree: built from the document and the style sheet, sized,
//! placed, painted and searched.

use vstd::prelude::*;

use crate::constants::CONTENT_AREA_WIDTH;
use crate::display_item::{DisplayItem, DisplayItemView};
use crate::renderer::css::cssom::{
    duplicate_declarations, QualifiedRuleView, StyleSheet, StyleSheetView,
};
use crate::renderer::dom::api::{get_target_element_node, target_element};
use crate::renderer::dom::node::{DomView, ElementKind, NodeId, NodeKindView, Window};
use crate::renderer::layout::computed_style::{ComputedStyle, DisplayType};
use crate::renderer::layout::layout_object::{
    cascaded, lemma_later_declaration_wins, object_ref_view, overlaid, painted, position_of,
    selected, size_of, subtree, LayoutObject, LayoutObjectKind, LayoutObjectView, LayoutPoint,
    LayoutRect, LayoutSize,
};
use crate::text::views;

verus! {

/// A tree of layout objects that may be empty: an object with the objects
/// below it (from `first_child` on) and beside it (from `next_sibling` on).
pub type Tree = Option<Box<LayoutObjectView>>;

/// What a layout object takes from its parent: the node that the parent
/// renders, and the style to inherit from.
pub struct Parent {
    pub node: NodeId,
    pub style: ComputedStyle,
}

/// What an object hands on to its children.
pub open spec fn as_parent(o: LayoutObjectView) -> Parent {
    Parent { node: o.node, style: o.style }
}

/// What the children of an object that may be absent take from it.
pub open spec fn parent_of(o: Option<&LayoutObject>) -> Option<Parent> {
    match o {
        Some(p) => Some(as_parent(p@)),
        None => None,
    }
}

pub open spec fn parent_style(parent: Option<Parent>) -> Option<ComputedStyle> {
    match parent {
        Some(p) => Some(p.style),
        None => None,
    }
}

pub open spec fn parent_node(parent: Option<Parent>) -> Option<NodeId> {
    match parent {
        Some(p) => Some(p.node),
        None => None,
    }
}

/// The style of a node after the rules of a style sheet: the declarations
/// of every rule whose selector matches the node, in the order of the
/// rules. Where two rules set one property, the later one holds.
pub open spec fn rules_applied(
    node: NodeKindView,
    style: ComputedStyle,
    rules: Seq<QualifiedRuleView>,
) -> ComputedStyle
    decreases rules.len(),
{
    if rules.len() == 0 {
        style
    } else {
        let before = rules_applied(node, style, rules.drop_last());
        if selected(node, rules.last().selector) {
            cascaded(before, rules.last().declarations)
        } else {
            before
        }
    }
}

/// The last match wins, property by property: the style after the rules
/// of a sheet is the style before them with the settings of the matching
/// rules laid over it, and a rule that matches overrides, in what it sets,
/// all rules before it.
pub proof fn lemma_later_rule_wins(
    node: NodeKindView,
    style: ComputedStyle,
    rules: Seq<QualifiedRuleView>,
)
    ensures
        rules_applied(node, style, rules) == overlaid(
            style,
            rules_applied(node, ComputedStyle::unset(), rules),
        ),
        rules.len() > 0 && selected(node, rules.last().selector) ==> rules_applied(
            node,
            style,
            rules,
        ) == overlaid(
            rules_applied(node, style, rules.drop_last()),
            cascaded(ComputedStyle::unset(), rules.last().declarations),
        ),
        rules.len() > 0 && !selected(node, rules.last().selector) ==> rules_applied(
            node,
            style,
            rules,
        ) == rules_applied(node, style, rules.drop_last()),
    decreases rules.len(),
{
    if rules.len() > 0 {
        lemma_later_rule_wins(node, style, rules.drop_last());
        lemma_later_declaration_wins(
            rules_applied(node, style, rules.drop_last()),
            rules.last().declarations,
        );
        lemma_later_declaration_wins(
            rules_applied(node, ComputedStyle::unset(), rules.drop_last()),
            rules.last().declarations,
        );
    }
}

/// The style of a node: the rules of the style sheet, and then what they
/// leave unset inherited or set by default.
pub open spec fn resolved_style(node: NodeKindView, parent: Option<Parent>, sheet: StyleSheetView) -> ComputedStyle {
    rules_applied(node, ComputedStyle::unset(), sheet.rules).defaulted(node, parent_style(parent))
}

/// The kind of the object that renders a node with a given display type.
pub open spec fn kind_for(node: NodeKindView, display: Option<DisplayType>) -> LayoutObjectKind {
    match node {
        NodeKindView::Text(_) => LayoutObjectKind::Text,
        _ => if display == Some(DisplayType::Block) {
            LayoutObjectKind::Block
        } else {
            LayoutObjectKind::Inline
        },
    }
}

/// The layout object of node `n`, without children: none for the document
/// node and for a node that is not displayed.
pub open spec fn created(dom: DomView, n: NodeId, parent: Option<Parent>, sheet: StyleSheetView) -> Option<
    LayoutObjectView,
> {
    let node = dom.nodes[n as int].kind;
    let style = resolved_style(node, parent, sheet);
    if node is Document || style.display == Some(DisplayType::DisplayNone) {
        None
    } else {
        Some(
            LayoutObjectView {
                kind: kind_for(node, style.display),
                node: n,
                node_kind: node,
                first_child: None,
                next_sibling: None,
                parent: parent_node(parent),
                style,
                rect: LayoutRect {
                    point: LayoutPoint { x: 0, y: 0 },
                    size: LayoutSize { width: 0, height: 0 },
                },
            },
        )
    }
}

/// The layout tree of the nodes from `node` on: `node`, what is below it,
/// and its later siblings with what is below them. A node that has no
/// layout object is left out with everything below it.
pub open spec fn layout_tree(
    dom: DomView,
    node: Option<NodeId>,
    parent: Option<Parent>,
    sheet: StyleSheetView,
) -> Tree
    decreases
        match node {
            Some(n) => dom.nodes.len() - n,
            None => 0,
        },
{
    match node {
        None => None,
        Some(n) => {
            if !dom.has(n) {
                None
            } else {
                match created(dom, n, parent, sheet) {
                    None => layout_tree(dom, dom.next_sibling_of(n), parent, sheet),
                    Some(o) => Some(
                        Box::new(
                            LayoutObjectView {
                                first_child: layout_tree(
                                    dom,
                                    dom.first_child_of(n),
                                    Some(as_parent(o)),
                                    sheet,
                                ),
                                next_sibling: layout_tree(
                                    dom,
                                    dom.next_sibling_of(n),
                                    parent,
                                    sheet,
                                ),
                                ..o
                            },
                        ),
                    ),
                }
            }
        },
    }
}

/// Whether every object of the tree has its whole style.
pub open spec fn all_resolved(tree: Tree) -> bool
    decreases tree,
{
    match tree {
        None => true,
        Some(o) => o.style.is_resolved() && all_resolved(o.first_child) && all_resolved(
            o.next_sibling,
        ),
    }
}

/// Every object of a layout tree has its whole style.
pub proof fn lemma_layout_tree_resolved(
    dom: DomView,
    node: Option<NodeId>,
    parent: Option<Parent>,
    sheet: StyleSheetView,
)
    ensures
        all_resolved(layout_tree(dom, node, parent, sheet)),
    decreases
        match node {
            Some(n) => dom.nodes.len() - n,
            None => 0,
        },
{
    match node {
        None => {},
        Some(n) => {
            if dom.has(n) {
                match created(dom, n, parent, sheet) {
                    None => {
                        lemma_layout_tree_resolved(dom, dom.next_sibling_of(n), parent, sheet);
                    },
                    Some(o) => {
                        lemma_layout_tree_resolved(
                            dom,
                            dom.first_child_of(n),
                            Some(as_parent(o)),
                            sheet,
                        );
                        lemma_layout_tree_resolved(dom, dom.next_sibling_of(n), parent, sheet);
                    },
                }
            }
        },
    }
}

/// The object with another size.
pub open spec fn with_size(o: LayoutObjectView, size: LayoutSize) -> LayoutObjectView {
    LayoutObjectView { rect: LayoutRect { point: o.rect.point, size }, ..o }
}

/// The object with another place.
pub open spec fn with_point(o: LayoutObjectView, point: LayoutPoint) -> LayoutObjectView {
    LayoutObjectView { rect: LayoutRect { point, size: o.rect.size }, ..o }
}

/// The tree with every size computed. A block gets its width before its
/// children are sized, so that they know how wide they may be; every
/// object gets its size once its children have theirs. The children of an
/// object are sized within the size of that object, its siblings within
/// the size of their common parent.
pub open spec fn sized(tree: Tree, parent_size: LayoutSize) -> Tree
    decreases tree,
{
    match tree {
        None => None,
        Some(o) => {
            let early = if o.kind == LayoutObjectKind::Block {
                with_size(*o, size_of(*o, parent_size))
            } else {
                *o
            };
            let late = LayoutObjectView {
                first_child: sized(o.first_child, early.rect.size),
                next_sibling: sized(o.next_sibling, parent_size),
                ..early
            };
            Some(Box::new(with_size(late, size_of(late, parent_size))))
        },
    }
}

/// The tree with every place computed. An object is placed by the place of
/// its parent and by the kind and the box of the sibling before it; its
/// children start anew at its own place, as if behind a block.
pub open spec fn positioned(
    tree: Tree,
    parent_point: LayoutPoint,
    previous_kind: LayoutObjectKind,
    previous_rect: Option<LayoutRect>,
) -> Tree
    decreases tree,
{
    match tree {
        None => None,
        Some(o) => {
            let placed = with_point(
                *o,
                position_of(o.kind, parent_point, previous_kind, previous_rect),
            );
            Some(
                Box::new(
                    LayoutObjectView {
                        first_child: positioned(
                            o.first_child,
                            placed.rect.point,
                            LayoutObjectKind::Block,
                            None,
                        ),
                        next_sibling: positioned(
                            o.next_sibling,
                            parent_point,
                            o.kind,
                            Some(placed.rect),
                        ),
                        ..placed
                    },
                ),
            )
        },
    }
}

/// The size that the document is laid out in: as wide as the content
/// area.
pub open spec fn viewport() -> LayoutSize {
    LayoutSize { width: CONTENT_AREA_WIDTH, height: 0 }
}

/// The tree with sizes and places: sized within the content area, then
/// placed from the origin.
pub open spec fn laid_out(tree: Tree) -> Tree {
    positioned(
        sized(tree, viewport()),
        LayoutPoint { x: 0, y: 0 },
        LayoutObjectKind::Block,
        None,
    )
}

/// The layout of a document under a style sheet: the tree of the `body`
/// element, with sizes and places.
pub open spec fn layout_of(dom: DomView, sheet: StyleSheetView) -> Tree {
    laid_out(layout_tree(dom, target_element(dom, Some(0), ElementKind::Body), None, sheet))
}

/// What the tree asks the painter to draw: each object before the objects
/// below it, and those before the objects beside it.
pub open spec fn painted_tree(tree: Tree) -> Seq<DisplayItemView>
    decreases tree,
{
    match tree {
        None => Seq::empty(),
        Some(o) => painted(*o) + painted_tree(o.first_child) + painted_tree(o.next_sibling),
    }
}

/// The node under a point: of the objects from `tree` on, in the order of
/// the document, the first whose box holds the point or below which an
/// object is found; and of an object and those below it, the one found
/// below it rather than the object itself.
pub open spec fn node_at(tree: Tree, point: LayoutPoint) -> Option<NodeId>
    decreases tree,
{
    match tree {
        None => None,
        Some(o) => match node_at(o.first_child, point) {
            Some(found) => Some(found),
            None => if o.rect.contains(point) {
                Some(o.node)
            } else {
                node_at(o.next_sibling, point)
            },
        },
    }
}

/// Whether the box of some object of the tree holds the point.
pub open spec fn some_box_holds(tree: Tree, point: LayoutPoint) -> bool
    decreases tree,
{
    match tree {
        None => false,
        Some(o) => o.rect.contains(point) || some_box_holds(o.first_child, point)
            || some_box_holds(o.next_sibling, point),
    }
}

/// Whether some object of the tree renders `node` and holds the point in
/// its box.
pub open spec fn drawn_at(tree: Tree, node: NodeId, point: LayoutPoint) -> bool
    decreases tree,
{
    match tree {
        None => false,
        Some(o) => (o.node == node && o.rect.contains(point)) || drawn_at(
            o.first_child,
            node,
            point,
        ) || drawn_at(o.next_sibling, node, point),
    }
}

/// Whether every object of the tree renders a node of the document: it
/// names a node of `dom` and holds what that node holds; the node is no
/// document node and is displayed; and the kind of the object is the one
/// that its node and its display type ask for.
pub open spec fn renders(tree: Tree, dom: DomView) -> bool
    decreases tree,
{
    match tree {
        None => true,
        Some(o) => {
            &&& dom.has(o.node)
            &&& o.node_kind == dom.nodes[o.node as int].kind
            &&& !(o.node_kind is Document)
            &&& o.style.display != Some(DisplayType::DisplayNone)
            &&& o.kind == kind_for(o.node_kind, o.style.display)
            &&& renders(o.first_child, dom)
            &&& renders(o.next_sibling, dom)
        },
    }
}

/// A node is found under a point exactly if some box holds the point, and
/// the node that is found is drawn there.
pub proof fn lemma_node_at_is_drawn(tree: Tree, point: LayoutPoint)
    ensures
        node_at(tree, point) is Some <==> some_box_holds(tree, point),
        node_at(tree, point) is Some ==> drawn_at(tree, node_at(tree, point)->0, point),
    decreases tree,
{
    match tree {
        None => {},
        Some(o) => {
            lemma_node_at_is_drawn(o.first_child, point);
            lemma_node_at_is_drawn(o.next_sibling, point);
        },
    }
}

/// A point in the box of an object, and in no box of an object below it,
/// is found to be at the node of that object.
pub proof fn lemma_hit_resolves_to_object(o: LayoutObjectView, point: LayoutPoint)
    requires
        o.rect.contains(point),
        !some_box_holds(o.first_child, point),
    ensures
        node_at(Some(Box::new(o)), point) == Some(o.node),
{
    lemma_node_at_is_drawn(o.first_child, point);
}

/// A point in a box below an object is found to be at a node that is drawn
/// below that object, and not at the object itself.
pub proof fn lemma_hit_prefers_what_is_below(o: LayoutObjectView, point: LayoutPoint)
    requires
        some_box_holds(o.first_child, point),
    ensures
        node_at(Some(Box::new(o)), point) == node_at(o.first_child, point),
        node_at(o.first_child, point) is Some,
{
    lemma_node_at_is_drawn(o.first_child, point);
}

/// The node that is found is a node of the document.
pub proof fn lemma_node_at_in_document(tree: Tree, point: LayoutPoint, dom: DomView)
    requires
        renders(tree, dom),
    ensures
        node_at(tree, point) is Some ==> dom.has(node_at(tree, point)->0),
    decreases tree,
{
    match tree {
        None => {},
        Some(o) => {
            lemma_node_at_in_document(o.first_child, point, dom);
            lemma_node_at_in_document(o.next_sibling, point, dom);
        },
    }
}

/// There is one layout object for each node that is to be rendered, and
/// none for any other: every object of a layout tree renders a node of
/// the document that is displayed.
pub proof fn lemma_layout_tree_renders(
    dom: DomView,
    node: Option<NodeId>,
    parent: Option<Parent>,
    sheet: StyleSheetView,
)
    ensures
        renders(layout_tree(dom, node, parent, sheet), dom),
    decreases
        match node {
            Some(n) => dom.nodes.len() - n,
            None => 0,
        },
{
    match node {
        None => {},
        Some(n) => {
            if dom.has(n) {
                match created(dom, n, parent, sheet) {
                    None => {
                        lemma_layout_tree_renders(dom, dom.next_sibling_of(n), parent, sheet);
                    },
                    Some(o) => {
                        lemma_layout_tree_renders(
                            dom,
                            dom.first_child_of(n),
                            Some(as_parent(o)),
                            sheet,
                        );
                        lemma_layout_tree_renders(dom, dom.next_sibling_of(n), parent, sheet);
                    },
                }
            }
        },
    }
}

/// Sizing keeps the node, the kind and the style of every object.
pub proof fn lemma_sized_renders(tree: Tree, parent_size: LayoutSize, dom: DomView)
    requires
        renders(tree, dom),
    ensures
        renders(sized(tree, parent_size), dom),
    decreases tree,
{
    match tree {
        None => {},
        Some(o) => {
            let early = if o.kind == LayoutObjectKind::Block {
                with_size(*o, size_of(*o, parent_size))
            } else {
                *o
            };
            lemma_sized_renders(o.first_child, early.rect.size, dom);
            lemma_sized_renders(o.next_sibling, parent_size, dom);
        },
    }
}

/// Placing keeps the node, the kind and the style of every object.
pub proof fn lemma_positioned_renders(
    tree: Tree,
    parent_point: LayoutPoint,
    previous_kind: LayoutObjectKind,
    previous_rect: Option<LayoutRect>,
    dom: DomView,
)
    requires
        renders(tree, dom),
    ensures
        renders(positioned(tree, parent_point, previous_kind, previous_rect), dom),
    decreases tree,
{
    match tree {
        None => {},
        Some(o) => {
            let placed = with_point(
                *o,
                position_of(o.kind, parent_point, previous_kind, previous_rect),
            );
            lemma_positioned_renders(
                o.first_child,
                placed.rect.point,
                LayoutObjectKind::Block,
                None,
                dom,
            );
            lemma_positioned_renders(o.next_sibling, parent_point, o.kind, Some(placed.rect), dom);
        },
    }
}

/// In the layout of a document every object has its whole style and
/// renders a node of the document that is displayed.
pub proof fn lemma_layout_of(dom: DomView, sheet: StyleSheetView)
    ensures
        all_resolved(layout_of(dom, sheet)),
        renders(layout_of(dom, sheet), dom),
{
    let body = target_element(dom, Some(0), ElementKind::Body);
    let tree = layout_tree(dom, body, None, sheet);
    lemma_layout_tree_resolved(dom, body, None, sheet);
    lemma_layout_tree_renders(dom, body, None, sheet);
    lemma_sized_resolved(tree, viewport());
    lemma_sized_renders(tree, viewport(), dom);
    lemma_positioned_resolved(
        sized(tree, viewport()),
        LayoutPoint { x: 0, y: 0 },
        LayoutObjectKind::Block,
        None,
    );
    lemma_positioned_renders(
        sized(tree, viewport()),
        LayoutPoint { x: 0, y: 0 },
        LayoutObjectKind::Block,
        None,
        dom,
    );
}

/// Sizing keeps the whole style of every object.
pub proof fn lemma_sized_resolved(tree: Tree, parent_size: LayoutSize)
    requires
        all_resolved(tree),
    ensures
        all_resolved(sized(tree, parent_size)),
    decreases tree,
{
    match tree {
        None => {},
        Some(o) => {
            let early = if o.kind == LayoutObjectKind::Block {
                with_size(*o, size_of(*o, parent_size))
            } else {
                *o
            };
            lemma_sized_resolved(o.first_child, early.rect.size);
            lemma_sized_resolved(o.next_sibling, parent_size);
        },
    }
}

/// Placing keeps the whole style of every object.
pub proof fn lemma_positioned_resolved(
    tree: Tree,
    parent_point: LayoutPoint,
    previous_kind: LayoutObjectKind,
    previous_rect: Option<LayoutRect>,
)
    requires
        all_resolved(tree),
    ensures
        all_resolved(positioned(tree, parent_point, previous_kind, previous_rect)),
    decreases tree,
{
    match tree {
        None => {},
        Some(o) => {
            let placed = with_point(
                *o,
                position_of(o.kind, parent_point, previous_kind, previous_rect),
            );
            lemma_positioned_resolved(
                o.first_child,
                placed.rect.point,
                LayoutObjectKind::Block,
                None,
            );
            lemma_positioned_resolved(o.next_sibling, parent_point, o.kind, Some(placed.rect));
        },
    }
}

#[derive(Debug)]
pub struct LayoutView {
    root: Option<Box<LayoutObject>>,
}

impl View for LayoutView {
    type V = Tree;

    closed spec fn view(&self) -> Tree {
        subtree(self.root)
    }
}

impl LayoutView {
    /// What holds of every layout: each of its objects has its whole
    /// style.
    #[verifier::type_invariant]
    spec fn inv(self) -> bool {
        all_resolved(self@)
    }

    /// The layout of the document `dom` under the style sheet `cssom`.
    pub fn new(dom: &Window, cssom: &StyleSheet) -> (view: Self)
        requires
            dom@.wf(),
        ensures
            view@ == layout_of(dom@, cssom@),
            all_resolved(view@),
            renders(view@, dom@),
    {
        let body_root = get_target_element_node(dom, Some(dom.document()), ElementKind::Body);
        let tree = build_layout_tree(dom, body_root, None, cssom);
        proof {
            lemma_layout_tree_resolved(dom@, body_root, None, cssom@);
            lemma_layout_of(dom@, cssom@);
        }
        LayoutView { root: Self::update_layout(tree) }
    }

    pub fn root(&self) -> (root: Option<&LayoutObject>)
        ensures
            object_ref_view(root) == self@,
    {
        match &self.root {
            Some(b) => Some(&**b),
            None => None,
        }
    }

    /// Sizes the tree within the content area and places it from the
    /// origin.
    fn update_layout(root: Option<Box<LayoutObject>>) -> (laid: Option<Box<LayoutObject>>)
        requires
            all_resolved(subtree(root)),
        ensures
            subtree(laid) == laid_out(subtree(root)),
            all_resolved(subtree(laid)),
    {
        proof {
            lemma_sized_resolved(subtree(root), viewport());
            lemma_positioned_resolved(
                sized(subtree(root), viewport()),
                LayoutPoint { x: 0, y: 0 },
                LayoutObjectKind::Block,
                None,
            );
        }
        let root = Self::calculate_node_size(root, LayoutSize::new(CONTENT_AREA_WIDTH, 0));
        Self::calculate_node_position(
            root,
            LayoutPoint::new(0, 0),
            LayoutObjectKind::Block,
            None,
        )
    }

    fn calculate_node_size(node: Option<Box<LayoutObject>>, parent_size: LayoutSize) -> (sized_node:
        Option<Box<LayoutObject>>)
        requires
            all_resolved(subtree(node)),
        ensures
            subtree(sized_node) == sized(subtree(node), parent_size),
        decreases subtree(node),
    {
        let mut node = match node {
            Some(n) => n,
            None => {
                return None;
            },
        };
        if node.kind() == LayoutObjectKind::Block {
            node.compute_size(parent_size);
        }
        let first_child = node.take_first_child();
        let first_child = Self::calculate_node_size(first_child, node.size());
        let next_sibling = node.take_next_sibling();
        let next_sibling = Self::calculate_node_size(next_sibling, parent_size);
        node.set_first_child(first_child);
        node.set_next_sibling(next_sibling);
        node.compute_size(parent_size);
        Some(node)
    }

    fn calculate_node_position(
        node: Option<Box<LayoutObject>>,
        parent_point: LayoutPoint,
        prev_sibling_kind: LayoutObjectKind,
        prev_sibling_rect: Option<LayoutRect>,
    ) -> (placed_node: Option<Box<LayoutObject>>)
        ensures
            subtree(placed_node) == positioned(
                subtree(node),
                parent_point,
                prev_sibling_kind,
                prev_sibling_rect,
            ),
        decreases subtree(node),
    {
        let mut node = match node {
            Some(n) => n,
            None => {
                return None;
            },
        };
        node.compute_position(parent_point, prev_sibling_kind, prev_sibling_rect);
        let first_child = node.take_first_child();
        let first_child = Self::calculate_node_position(
            first_child,
            node.point(),
            LayoutObjectKind::Block,
            None,
        );
        let next_sibling = node.take_next_sibling();
        let next_sibling = Self::calculate_node_position(
            next_sibling,
            parent_point,
            node.kind(),
            Some(node.rect()),
        );
        node.set_first_child(first_child);
        node.set_next_sibling(next_sibling);
        Some(node)
    }

    /// The display items of the whole tree, in the order of the document.
    pub fn paint(&self) -> (items: Vec<DisplayItem>)
        ensures
            views(items@) == painted_tree(self@),
    {
        proof {
            use_type_invariant(self);
        }
        let mut display_items: Vec<DisplayItem> = Vec::new();
        assert(views(display_items@) =~= Seq::<DisplayItemView>::empty());
        Self::paint_node(self.root(), &mut display_items);
        assert(Seq::<DisplayItemView>::empty() + painted_tree(self@) =~= painted_tree(self@));
        display_items
    }

    fn paint_node(node: Option<&LayoutObject>, display_items: &mut Vec<DisplayItem>)
        requires
            all_resolved(object_ref_view(node)),
        ensures
            views(final(display_items)@) == views(old(display_items)@) + painted_tree(
                object_ref_view(node),
            ),
        decreases object_ref_view(node),
    {
        let n = match node {
            Some(n) => n,
            None => {
                assert(views(display_items@) + Seq::<DisplayItemView>::empty() =~= views(
                    display_items@,
                ));
                return ;
            },
        };
        let ghost before = views(display_items@);
        let mut own = n.paint();
        let ghost earlier = display_items@;
        let ghost added = own@;
        display_items.append(&mut own);
        assert(views(display_items@) =~= before + painted(n@)) by {
            assert(display_items@ =~= earlier + added);
            assert(views(earlier + added) =~= views(earlier) + views(added));
        }
        Self::paint_node(n.first_child(), display_items);
        Self::paint_node(n.next_sibling(), display_items);
        assert(views(display_items@) =~= before + painted_tree(object_ref_view(node))) by {
            assert(before + painted(n@) + painted_tree(n@.first_child) + painted_tree(
                n@.next_sibling,
            ) =~= before + (painted(n@) + painted_tree(n@.first_child) + painted_tree(
                n@.next_sibling,
            )));
        }
    }

    /// The node of the document that is drawn at `position`, if there is
    /// one.
    pub fn find_node_by_position(&self, position: (i64, i64)) -> (found: Option<NodeId>)
        ensures
            found == node_at(self@, LayoutPoint { x: position.0, y: position.1 }),
    {
        Self::find_node_by_position_internal(
            self.root(),
            LayoutPoint::new(position.0, position.1),
        )
    }

    fn find_node_by_position_internal(node: Option<&LayoutObject>, point: LayoutPoint) -> (found:
        Option<NodeId>)
        ensures
            found == node_at(object_ref_view(node), point),
        decreases object_ref_view(node),
    {
        let n = match node {
            Some(n) => n,
            None => {
                return None;
            },
        };
        let below = Self::find_node_by_position_internal(n.first_child(), point);
        if below.is_some() {
            return below;
        }
        if n.rect().is_hit(point) {
            return Some(n.node());
        }
        Self::find_node_by_position_internal(n.next_sibling(), point)
    }
}

/// Builds the layout tree of the nodes from `node` on.
pub fn build_layout_tree(
    dom: &Window,
    node: Option<NodeId>,
    parent_obj: Option<&LayoutObject>,
    cssom: &StyleSheet,
) -> (tree: Option<Box<LayoutObject>>)
    requires
        dom@.wf(),
        node is Some ==> dom@.has(node->0),
        parent_obj is Some ==> parent_obj->0@.style.is_resolved(),
    ensures
        subtree(tree) == layout_tree(dom@, node, parent_of(parent_obj), cssom@),
    decreases
        match node {
            Some(n) => dom@.nodes.len() - n,
            None => 0,
        },
{
    let n = match node {
        Some(n) => n,
        None => {
            return None;
        },
    };
    proof {
        dom@.lemma_links(n);
    }
    let original_first_child = dom.node(n).first_child();
    let original_next_sibling = dom.node(n).next_sibling();
    match create_layout_object(dom, node, parent_obj, cssom) {
        None => build_layout_tree(dom, original_next_sibling, parent_obj, cssom),
        Some(mut layout_object) => {
            let first_child = build_layout_tree(
                dom,
                original_first_child,
                Some(&layout_object),
                cssom,
            );
            let next_sibling = build_layout_tree(dom, original_next_sibling, parent_obj, cssom);
            layout_object.set_first_child(first_child);
            layout_object.set_next_sibling(next_sibling);
            Some(Box::new(layout_object))
        },
    }
}

/// The layout object of a node, without children, if it has one.
pub fn create_layout_object(
    dom: &Window,
    node: Option<NodeId>,
    parent_obj: Option<&LayoutObject>,
    cssom: &StyleSheet,
) -> (object: Option<LayoutObject>)
    requires
        node is Some ==> dom@.has(node->0),
        parent_obj is Some ==> parent_obj->0@.style.is_resolved(),
    ensures
        match object {
            Some(o) => node is Some && created(dom@, node->0, parent_of(parent_obj), cssom@)
                == Some(o@),
            None => node is None || created(dom@, node->0, parent_of(parent_obj), cssom@) is None,
        },
{
    let n = match node {
        Some(n) => n,
        None => {
            return None;
        },
    };
    let mut layout_object = LayoutObject::new(dom, n, parent_obj);
    let ghost fresh = layout_object@;
    let mut i: usize = 0;
    assert(cssom@.rules.take(0) =~= Seq::<QualifiedRuleView>::empty());
    while i < cssom.rules.len()
        invariant
            i <= cssom.rules@.len(),
            layout_object@ == (LayoutObjectView {
                style: rules_applied(
                    fresh.node_kind,
                    ComputedStyle::unset(),
                    cssom@.rules.take(i as int),
                ),
                ..fresh
            }),
        decreases cssom.rules@.len() - i,
    {
        let rule = &cssom.rules[i];
        proof {
            assert(cssom@.rules.take(i + 1).drop_last() =~= cssom@.rules.take(i as int));
            assert(cssom@.rules.take(i + 1).last() == rule@);
        }
        if layout_object.is_node_selected(&rule.selector) {
            layout_object.cascading_style(duplicate_declarations(&rule.declarations));
        }
        i += 1;
    }
    assert(cssom@.rules.take(cssom.rules@.len() as int) =~= cssom@.rules);
    let parent_style = match parent_obj {
        Some(p) => Some(p.style()),
        None => None,
    };
    let node_kind = layout_object.node_kind();
    layout_object.defaulting_style(&node_kind, parent_style);
    if layout_object.style().display() == DisplayType::DisplayNone {
        return None;
    }
    if dom.node(n).element_kind().is_none() && !dom.node(n).is_text() {
        return None;
    }
    layout_object.update_kind();
    Some(layout_object)
}

} // verus!
