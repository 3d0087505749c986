//! How large a layout can get: every measure of a layout is bounded by the
//! number of its objects and characters, so that in any layout that fits
//! into memory no measure reaches the limits of the machine and none is
//! clipped.

use vstd::prelude::*;

use crate::constants::{CHAR_HEIGHT_WITH_PADDING, CHAR_WIDTH, CONTENT_AREA_WIDTH};
use crate::renderer::dom::node::NodeKindView;
use crate::renderer::layout::computed_style::FontSize;
use crate::renderer::layout::layout_object::{
    clip, line_count, position_of, size_of, stacked_height, summed_size, text_size, text_width,
    LayoutObjectKind, LayoutObjectView, LayoutPoint, LayoutRect, LayoutSize,
};
use crate::renderer::css::cssom::StyleSheetView;
use crate::renderer::dom::node::{DomView, NodeId};
use crate::renderer::layout::layout_view::{
    all_resolved, as_parent, created, laid_out, layout_tree, lemma_layout_tree_resolved,
    positioned, sized, viewport, with_point, with_size, Parent, Tree,
};

verus! {

/// The greatest width that one object or character adds to a layout.
pub open spec fn width_unit() -> int {
    CONTENT_AREA_WIDTH as int
}

/// The greatest height that one object or character adds to a layout.
pub open spec fn height_unit() -> int {
    3 * CHAR_HEIGHT_WITH_PADDING
}

/// The number of characters that an object holds.
pub open spec fn characters(o: LayoutObjectView) -> nat {
    match o.node_kind {
        NodeKindView::Text(t) => t.len(),
        _ => 0,
    }
}

/// The weight of a tree: the number of its objects and of their
/// characters.
pub open spec fn weight(tree: Tree) -> nat
    decreases tree,
{
    match tree {
        None => 0,
        Some(o) => 1 + characters(*o) + weight(o.first_child) + weight(o.next_sibling),
    }
}

/// The weight of an object with what is below it.
pub open spec fn own_weight(o: LayoutObjectView) -> nat {
    1 + characters(o) + weight(o.first_child)
}

/// Whether no object of the tree has been sized or placed yet.
pub open spec fn fresh(tree: Tree) -> bool
    decreases tree,
{
    match tree {
        None => true,
        Some(o) => o.rect == (LayoutRect {
            point: LayoutPoint { x: 0, y: 0 },
            size: LayoutSize { width: 0, height: 0 },
        }) && fresh(o.first_child) && fresh(o.next_sibling),
    }
}

/// Whether the size of every object of the tree is bounded by its weight:
/// no side is negative, and an object is at most one unit wide and high
/// for each object and character in and below it.
pub open spec fn sizes_bounded(tree: Tree) -> bool
    decreases tree,
{
    match tree {
        None => true,
        Some(o) => {
            &&& 0 <= o.rect.size.width <= width_unit() * own_weight(*o)
            &&& 0 <= o.rect.size.height <= height_unit() * own_weight(*o)
            &&& sizes_bounded(o.first_child)
            &&& sizes_bounded(o.next_sibling)
        },
    }
}

/// Whether every box of the tree lies between two points.
pub open spec fn boxes_between(tree: Tree, low: LayoutPoint, right: int, bottom: int) -> bool
    decreases tree,
{
    match tree {
        None => true,
        Some(o) => {
            &&& low.x <= o.rect.point.x
            &&& low.y <= o.rect.point.y
            &&& o.rect.point.x + o.rect.size.width <= right
            &&& o.rect.point.y + o.rect.size.height <= bottom
            &&& boxes_between(o.first_child, low, right, bottom)
            &&& boxes_between(o.next_sibling, low, right, bottom)
        },
    }
}

/// The size of a text is bounded by the number of its characters.
pub proof fn lemma_text_size_bounded(count: nat, font_size: FontSize)
    requires
        height_unit() * (count + 1) <= i64::MAX,
    ensures
        0 <= text_size(count, font_size).width <= width_unit(),
        0 <= text_size(count, font_size).height <= height_unit() * (count + 1),
{
    let ratio = font_size.spec_ratio();
    let width = text_width(count, font_size);
    assert(0 <= width <= 24 * count) by (nonlinear_arith)
        requires
            width == 8 * ratio * count,
            1 <= ratio <= 3,
            0 <= count,
    ;
    if width > CONTENT_AREA_WIDTH {
        let lines = line_count(width);
        assert(1 <= lines <= count + 1) by (nonlinear_arith)
            requires
                590 < width <= 24 * count,
                lines <= width / 590 + 1,
                lines >= width / 590,
        ;
        assert(0 <= 20 * ratio * lines <= 60 * (count + 1)) by (nonlinear_arith)
            requires
                1 <= ratio <= 3,
                1 <= lines <= count + 1,
        ;
    }
}

/// The height of children that are stacked is bounded by their weight.
pub proof fn lemma_stacked_height_bounded(
    child: Tree,
    previous: LayoutObjectKind,
    so_far: i64,
)
    requires
        sizes_bounded(child),
        0 <= so_far,
        so_far + height_unit() * weight(child) <= i64::MAX,
    ensures
        so_far <= stacked_height(child, previous, so_far) <= so_far + height_unit() * weight(
            child,
        ),
    decreases child,
{
    match child {
        None => {},
        Some(c) => {
            let next = if previous == LayoutObjectKind::Block || c.kind == LayoutObjectKind::Block {
                clip(so_far + c.rect.size.height)
            } else {
                so_far
            };
            assert(height_unit() * weight(child) == height_unit() * own_weight(*c) + height_unit()
                * weight(c.next_sibling)) by (nonlinear_arith)
                requires
                    weight(child) == own_weight(*c) + weight(c.next_sibling),
            ;
            lemma_stacked_height_bounded(c.next_sibling, c.kind, next);
        },
    }
}

/// The size of children that are added up is bounded by their weight.
pub proof fn lemma_summed_size_bounded(child: Tree, so_far: LayoutSize)
    requires
        sizes_bounded(child),
        0 <= so_far.width,
        0 <= so_far.height,
        so_far.width + width_unit() * weight(child) <= i64::MAX,
        so_far.height + height_unit() * weight(child) <= i64::MAX,
    ensures
        so_far.width <= summed_size(child, so_far).width <= so_far.width + width_unit() * weight(
            child,
        ),
        so_far.height <= summed_size(child, so_far).height <= so_far.height + height_unit()
            * weight(child),
    decreases child,
{
    match child {
        None => {},
        Some(c) => {
            let next = LayoutSize {
                width: clip(so_far.width + c.rect.size.width),
                height: clip(so_far.height + c.rect.size.height),
            };
            assert(height_unit() * weight(child) == height_unit() * own_weight(*c) + height_unit()
                * weight(c.next_sibling)) by (nonlinear_arith)
                requires
                    weight(child) == own_weight(*c) + weight(c.next_sibling),
            ;
            assert(width_unit() * weight(child) == width_unit() * own_weight(*c) + width_unit()
                * weight(c.next_sibling)) by (nonlinear_arith)
                requires
                    weight(child) == own_weight(*c) + weight(c.next_sibling),
            ;
            lemma_summed_size_bounded(c.next_sibling, next);
        },
    }
}

/// The size of an object whose children are bounded is bounded.
pub proof fn lemma_size_of_bounded(o: LayoutObjectView, parent_size: LayoutSize)
    requires
        sizes_bounded(o.first_child),
        0 <= parent_size.width <= width_unit(),
        o.kind == LayoutObjectKind::Text ==> o.style.font_size is Some,
        (width_unit() + height_unit()) * own_weight(o) <= i64::MAX,
    ensures
        0 <= size_of(o, parent_size).width <= width_unit() * own_weight(o),
        0 <= size_of(o, parent_size).height <= height_unit() * own_weight(o),
{
    let below = weight(o.first_child);
    assert(width_unit() * below <= width_unit() * own_weight(o) && height_unit() * below
        <= height_unit() * own_weight(o) && width_unit() <= width_unit() * own_weight(o)
        && height_unit() * (characters(o) + 1) <= height_unit() * own_weight(o)
        && width_unit() * own_weight(o) <= i64::MAX && height_unit() * own_weight(o)
        <= i64::MAX) by (nonlinear_arith)
        requires
            own_weight(o) == 1 + characters(o) + below,
            (width_unit() + height_unit()) * own_weight(o) <= i64::MAX,
            width_unit() == 590,
            height_unit() == 60,
    ;
    match o.kind {
        LayoutObjectKind::Block => {
            lemma_stacked_height_bounded(o.first_child, LayoutObjectKind::Block, 0);
        },
        LayoutObjectKind::Inline => {
            lemma_summed_size_bounded(o.first_child, LayoutSize { width: 0, height: 0 });
        },
        LayoutObjectKind::Text => {
            match o.node_kind {
                NodeKindView::Text(t) => {
                    lemma_text_size_bounded(t.len(), o.style.font_size->0);
                },
                _ => {},
            }
        },
    }
}

/// Sizing a fresh tree within a width that is no greater than the content
/// area gives sizes that are bounded by the weights, and leaves the
/// weights and the places as they are.
pub proof fn lemma_sized_bounded(tree: Tree, parent_size: LayoutSize)
    requires
        fresh(tree),
        all_resolved(tree),
        0 <= parent_size.width <= width_unit(),
        (width_unit() + height_unit()) * weight(tree) <= i64::MAX,
    ensures
        sizes_bounded(sized(tree, parent_size)),
        weight(sized(tree, parent_size)) == weight(tree),
        boxes_start_at_origin(sized(tree, parent_size)),
    decreases tree,
{
    match tree {
        None => {},
        Some(o) => {
            let early = if o.kind == LayoutObjectKind::Block {
                with_size(*o, size_of(*o, parent_size))
            } else {
                *o
            };
            let unit = width_unit() + height_unit();
            assert(unit * weight(o.first_child) <= unit * weight(tree) && unit * weight(
                o.next_sibling,
            ) <= unit * weight(tree) && unit * own_weight(*o) <= unit * weight(tree))
                by (nonlinear_arith)
                requires
                    weight(tree) == own_weight(*o) + weight(o.next_sibling),
                    own_weight(*o) == 1 + characters(*o) + weight(o.first_child),
                    unit == 650,
            ;
            lemma_sized_bounded(o.first_child, early.rect.size);
            lemma_sized_bounded(o.next_sibling, parent_size);
            let late = LayoutObjectView {
                first_child: sized(o.first_child, early.rect.size),
                next_sibling: sized(o.next_sibling, parent_size),
                ..early
            };
            lemma_size_of_bounded(late, parent_size);
        },
    }
}

/// Whether every object of the tree stands at the origin.
pub open spec fn boxes_start_at_origin(tree: Tree) -> bool
    decreases tree,
{
    match tree {
        None => true,
        Some(o) => o.rect.point == (LayoutPoint { x: 0, y: 0 }) && boxes_start_at_origin(
            o.first_child,
        ) && boxes_start_at_origin(o.next_sibling),
    }
}

/// The right edge of the box before an object, or the left edge of the
/// parent where there is none.
pub open spec fn right_of(parent_point: LayoutPoint, previous_rect: Option<LayoutRect>) -> int {
    match previous_rect {
        Some(r) => r.point.x + r.size.width,
        None => parent_point.x as int,
    }
}

/// The lower edge of the box before an object, or the upper edge of the
/// parent where there is none.
pub open spec fn below(parent_point: LayoutPoint, previous_rect: Option<LayoutRect>) -> int {
    match previous_rect {
        Some(r) => r.point.y + r.size.height,
        None => parent_point.y as int,
    }
}

/// Placing a tree whose sizes are bounded puts every box to the right of
/// and below the origin of the parent, and no further right and down from
/// the box before it than the weight of the tree allows.
pub proof fn lemma_positioned_bounded(
    tree: Tree,
    parent_point: LayoutPoint,
    previous_kind: LayoutObjectKind,
    previous_rect: Option<LayoutRect>,
)
    requires
        sizes_bounded(tree),
        previous_rect is Some ==> parent_point.x <= previous_rect->0.point.x && parent_point.y
            <= previous_rect->0.point.y && 0 <= previous_rect->0.size.width && 0
            <= previous_rect->0.size.height,
        right_of(parent_point, previous_rect) + width_unit() * weight(tree) <= i64::MAX,
        below(parent_point, previous_rect) + height_unit() * weight(tree) <= i64::MAX,
    ensures
        boxes_between(
            positioned(tree, parent_point, previous_kind, previous_rect),
            parent_point,
            right_of(parent_point, previous_rect) + width_unit() * weight(tree),
            below(parent_point, previous_rect) + height_unit() * weight(tree),
        ),
    decreases tree,
{
    match tree {
        None => {},
        Some(o) => {
            let point = position_of(o.kind, parent_point, previous_kind, previous_rect);
            let placed = with_point(*o, point);
            let right = right_of(parent_point, previous_rect);
            let bottom = below(parent_point, previous_rect);
            let w = weight(tree);
            let own = own_weight(*o);
            let kids = weight(o.first_child);
            let rest = weight(o.next_sibling);
            assert(width_unit() * w == width_unit() * own + width_unit() * rest && height_unit()
                * w == height_unit() * own + height_unit() * rest && width_unit() * kids
                <= width_unit() * own && height_unit() * kids <= height_unit() * own && 0
                <= width_unit() * rest && 0 <= height_unit() * rest) by (nonlinear_arith)
                requires
                    w == own + rest,
                    own == 1 + characters(*o) + kids,
                    width_unit() == 590,
                    height_unit() == 60,
            ;
            assert(parent_point.x <= point.x <= right);
            assert(parent_point.y <= point.y <= bottom);
            lemma_positioned_bounded(o.first_child, point, LayoutObjectKind::Block, None);
            lemma_positioned_bounded(o.next_sibling, parent_point, o.kind, Some(placed.rect));
            lemma_boxes_between_wider(
                positioned(o.first_child, point, LayoutObjectKind::Block, None),
                point,
                point.x + width_unit() * kids,
                point.y + height_unit() * kids,
                parent_point,
                right + width_unit() * w,
                bottom + height_unit() * w,
            );
            lemma_boxes_between_wider(
                positioned(o.next_sibling, parent_point, o.kind, Some(placed.rect)),
                parent_point,
                right_of(parent_point, Some(placed.rect)) + width_unit() * rest,
                below(parent_point, Some(placed.rect)) + height_unit() * rest,
                parent_point,
                right + width_unit() * w,
                bottom + height_unit() * w,
            );
        },
    }
}

/// Boxes that lie between two points lie between any two points that are
/// further apart.
pub proof fn lemma_boxes_between_wider(
    tree: Tree,
    low: LayoutPoint,
    right: int,
    bottom: int,
    lower: LayoutPoint,
    further_right: int,
    further_down: int,
)
    requires
        boxes_between(tree, low, right, bottom),
        lower.x <= low.x,
        lower.y <= low.y,
        right <= further_right,
        bottom <= further_down,
    ensures
        boxes_between(tree, lower, further_right, further_down),
    decreases tree,
{
    match tree {
        None => {},
        Some(o) => {
            lemma_boxes_between_wider(
                o.first_child,
                low,
                right,
                bottom,
                lower,
                further_right,
                further_down,
            );
            lemma_boxes_between_wider(
                o.next_sibling,
                low,
                right,
                bottom,
                lower,
                further_right,
                further_down,
            );
        },
    }
}

/// Placing leaves the sizes and the weights as they are.
pub proof fn lemma_positioned_keeps_sizes(
    tree: Tree,
    parent_point: LayoutPoint,
    previous_kind: LayoutObjectKind,
    previous_rect: Option<LayoutRect>,
)
    requires
        sizes_bounded(tree),
    ensures
        sizes_bounded(positioned(tree, parent_point, previous_kind, previous_rect)),
        weight(positioned(tree, parent_point, previous_kind, previous_rect)) == weight(tree),
    decreases tree,
{
    match tree {
        None => {},
        Some(o) => {
            let point = position_of(o.kind, parent_point, previous_kind, previous_rect);
            let placed = with_point(*o, point);
            lemma_positioned_keeps_sizes(o.first_child, point, LayoutObjectKind::Block, None);
            lemma_positioned_keeps_sizes(
                o.next_sibling,
                parent_point,
                o.kind,
                Some(placed.rect),
            );
        },
    }
}

/// A layout tree is fresh when it has been built.
pub proof fn lemma_layout_tree_fresh(
    dom: DomView,
    node: Option<NodeId>,
    parent: Option<Parent>,
    sheet: StyleSheetView,
)
    ensures
        fresh(layout_tree(dom, node, parent, sheet)),
    decreases
        match node {
            Some(n) => dom.nodes.len() - n,
            None => 0,
        },
{
    match node {
        None => {},
        Some(n) => {
            if dom.has(n) {
                match created(dom, n, parent, sheet) {
                    None => {
                        lemma_layout_tree_fresh(dom, dom.next_sibling_of(n), parent, sheet);
                    },
                    Some(o) => {
                        lemma_layout_tree_fresh(
                            dom,
                            dom.first_child_of(n),
                            Some(as_parent(o)),
                            sheet,
                        );
                        lemma_layout_tree_fresh(dom, dom.next_sibling_of(n), parent, sheet);
                    },
                }
            }
        },
    }
}

/// The layout of the nodes of a document stays within what its weight
/// allows.
pub proof fn lemma_layout_of_nodes_bounded(
    dom: DomView,
    node: Option<NodeId>,
    sheet: StyleSheetView,
)
    requires
        (width_unit() + height_unit()) * weight(layout_tree(dom, node, None, sheet))
            <= i64::MAX,
    ensures
        ({
            let tree = layout_tree(dom, node, None, sheet);
            &&& sizes_bounded(laid_out(tree))
            &&& boxes_between(
                laid_out(tree),
                LayoutPoint { x: 0, y: 0 },
                width_unit() * weight(tree),
                height_unit() * weight(tree),
            )
        }),
{
    lemma_layout_tree_fresh(dom, node, None, sheet);
    lemma_layout_tree_resolved(dom, node, None, sheet);
    lemma_layout_bounded(layout_tree(dom, node, None, sheet));
}

/// The layout of a fresh tree stays within what its weight allows: every
/// box lies to the right of and below the origin, no further right than
/// one width unit and no further down than one height unit for each
/// object and character of the tree. A tree whose weight times the sum of
/// the two units the machine can hold is therefore laid out without any
/// measure being clipped.
pub proof fn lemma_layout_bounded(tree: Tree)
    requires
        fresh(tree),
        all_resolved(tree),
        (width_unit() + height_unit()) * weight(tree) <= i64::MAX,
    ensures
        sizes_bounded(laid_out(tree)),
        weight(laid_out(tree)) == weight(tree),
        boxes_between(
            laid_out(tree),
            LayoutPoint { x: 0, y: 0 },
            width_unit() * weight(tree),
            height_unit() * weight(tree),
        ),
{
    let w = weight(tree);
    assert(width_unit() * w <= i64::MAX && height_unit() * w <= i64::MAX) by (nonlinear_arith)
        requires
            (width_unit() + height_unit()) * w <= i64::MAX,
            width_unit() == 590,
            height_unit() == 60,
            0 <= w,
    ;
    lemma_sized_bounded(tree, viewport());
    let origin = LayoutPoint { x: 0, y: 0 };
    lemma_positioned_bounded(sized(tree, viewport()), origin, LayoutObjectKind::Block, None);
    lemma_positioned_keeps_sizes(sized(tree, viewport()), origin, LayoutObjectKind::Block, None);
}

} // verus!
