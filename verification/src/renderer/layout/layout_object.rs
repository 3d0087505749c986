//! The layout object: the renderable counterpart of a node of the document,
//! with its style and its box.

use vstd::prelude::*;

use crate::constants::{CHAR_HEIGHT_WITH_PADDING, CHAR_WIDTH, CONTENT_AREA_WIDTH};
use crate::display_item::{DisplayItem, DisplayItemView};
use crate::renderer::css::cssom::{Declaration, DeclarationView, Selector, SelectorView};
use crate::renderer::css::token::{CssToken, CssTokenView};
use crate::renderer::dom::node::{NodeId, NodeKind, NodeKindView, Window};
use crate::renderer::layout::computed_style::{Color, ComputedStyle, DisplayType, FontSize};
use crate::renderer::layout::line_wrap::{normalize, normalized, split_text, wrapped};
use crate::text::{same_text, views};

verus! {

#[derive(Debug, Copy, Clone, PartialEq, Eq, Structural)]
pub enum LayoutObjectKind {
    Block,
    Inline,
    Text,
}

#[derive(Debug, Copy, Clone, PartialEq, Eq, Structural)]
pub struct LayoutPoint {
    pub x: i64,
    pub y: i64,
}

impl LayoutPoint {
    pub fn new(x: i64, y: i64) -> (p: Self)
        ensures
            p == (LayoutPoint { x, y }),
    {
        LayoutPoint { x, y }
    }
}

#[derive(Debug, Copy, Clone, PartialEq, Eq, Structural)]
pub struct LayoutSize {
    pub width: i64,
    pub height: i64,
}

impl LayoutSize {
    pub fn new(width: i64, height: i64) -> (s: Self)
        ensures
            s == (LayoutSize { width, height }),
    {
        LayoutSize { width, height }
    }
}

#[derive(Debug, Copy, Clone, PartialEq, Eq, Structural)]
pub struct LayoutRect {
    pub point: LayoutPoint,
    pub size: LayoutSize,
}

impl LayoutRect {
    /// Whether the point lies in the rectangle, its four edges included.
    pub open spec fn contains(self, point: LayoutPoint) -> bool {
        &&& self.point.x <= point.x <= self.point.x + self.size.width
        &&& self.point.y <= point.y <= self.point.y + self.size.height
    }

    pub fn is_hit(&self, point: LayoutPoint) -> (hit: bool)
        ensures
            hit == self.contains(point),
    {
        let right: i128 = self.point.x as i128 + self.size.width as i128;
        let bottom: i128 = self.point.y as i128 + self.size.height as i128;
        let is_hit_x = self.point.x <= point.x && point.x as i128 <= right;
        let is_hit_y = self.point.y <= point.y && point.y as i128 <= bottom;
        is_hit_x && is_hit_y
    }
}

/// The pixel measure nearest to `x` that the machine can hold.
pub open spec fn clip(x: int) -> i64 {
    if x > i64::MAX {
        i64::MAX
    } else if x < i64::MIN {
        i64::MIN
    } else {
        x as i64
    }
}

/// A measure that the machine can hold is not changed by clipping.
pub proof fn lemma_clip_keeps_what_fits(x: int)
    requires
        i64::MIN <= x <= i64::MAX,
    ensures
        clip(x) == x,
{
}

fn clipped(x: i128) -> (r: i64)
    ensures
        r == clip(x as int),
{
    if x > i64::MAX as i128 {
        i64::MAX
    } else if x < i64::MIN as i128 {
        i64::MIN
    } else {
        x as i64
    }
}

/// The sum of two measures, held within what the machine can hold.
fn plus(a: i64, b: i64) -> (r: i64)
    ensures
        r == clip(a + b),
{
    clipped(a as i128 + b as i128)
}

/// A layout object as a mathematical value, with the objects below and
/// beside it.
pub struct LayoutObjectView {
    pub kind: LayoutObjectKind,
    /// The node of the document that this object renders.
    pub node: NodeId,
    /// What that node holds.
    pub node_kind: NodeKindView,
    pub first_child: Option<Box<LayoutObjectView>>,
    pub next_sibling: Option<Box<LayoutObjectView>>,
    /// The node that the parent object renders.
    pub parent: Option<NodeId>,
    pub style: ComputedStyle,
    pub rect: LayoutRect,
}

#[derive(Debug)]
pub struct LayoutObject {
    kind: LayoutObjectKind,
    node: NodeId,
    node_kind: NodeKind,
    first_child: Option<Box<LayoutObject>>,
    next_sibling: Option<Box<LayoutObject>>,
    parent: Option<NodeId>,
    style: ComputedStyle,
    rect: LayoutRect,
}

/// The object as a mathematical value.
pub closed spec fn object_view(o: LayoutObject) -> LayoutObjectView
    decreases o,
{
    LayoutObjectView {
        kind: o.kind,
        node: o.node,
        node_kind: o.node_kind@,
        first_child: match o.first_child {
            Some(b) => Some(Box::new(object_view(*b))),
            None => None,
        },
        next_sibling: match o.next_sibling {
            Some(b) => Some(Box::new(object_view(*b))),
            None => None,
        },
        parent: o.parent,
        style: o.style,
        rect: o.rect,
    }
}

impl View for LayoutObject {
    type V = LayoutObjectView;

    closed spec fn view(&self) -> LayoutObjectView {
        object_view(*self)
    }
}

/// The view of a tree of objects that may be empty.
pub open spec fn subtree(o: Option<Box<LayoutObject>>) -> Option<Box<LayoutObjectView>> {
    match o {
        Some(b) => Some(Box::new((*b)@)),
        None => None,
    }
}

/// The view of an object that may be absent.
pub open spec fn object_ref_view(o: Option<&LayoutObject>) -> Option<Box<LayoutObjectView>> {
    match o {
        Some(b) => Some(Box::new((*b)@)),
        None => None,
    }
}

/// Whether a selector matches a node: a type selector by the tag name, a
/// class or id selector by the value of the attribute `class` or `id`.
/// Nothing but an element is ever matched.
pub open spec fn selected(node: NodeKindView, selector: SelectorView) -> bool {
    match node {
        NodeKindView::Element(e) => match selector {
            SelectorView::TypeSelector(name) => e.kind.name() == name,
            SelectorView::ClassSelector(name) => e.has_attribute("class"@, name),
            SelectorView::IdSelector(name) => e.has_attribute("id"@, name),
            SelectorView::UnknownSelector => false,
        },
        _ => false,
    }
}

/// The colour that the value of a declaration stands for: a name or a
/// code, `fallback` where neither is known; nothing where the value is no
/// name and no hash token.
pub open spec fn color_value(value: CssTokenView, fallback: Color) -> Option<Color> {
    match value {
        CssTokenView::Ident(name) => Some(
            match Color::named(name) {
                Some(c) => c,
                None => fallback,
            },
        ),
        CssTokenView::HashToken(code) => Some(
            match Color::coded(code) {
                Some(c) => c,
                None => fallback,
            },
        ),
        _ => None,
    }
}

/// The style after one declaration: `background-color`, `color` and
/// `display` set their property, where the value is of a form that the
/// property takes; everything else leaves the style as it is.
pub open spec fn declared(style: ComputedStyle, declaration: DeclarationView) -> ComputedStyle {
    if declaration.property == "background-color"@ {
        match color_value(declaration.value, Color::spec_white()) {
            Some(c) => ComputedStyle { background_color: Some(c), ..style },
            None => style,
        }
    } else if declaration.property == "color"@ {
        match color_value(declaration.value, Color::spec_black()) {
            Some(c) => ComputedStyle { color: Some(c), ..style },
            None => style,
        }
    } else if declaration.property == "display"@ {
        match declaration.value {
            CssTokenView::Ident(keyword) => ComputedStyle {
                display: Some(
                    match DisplayType::named(keyword) {
                        Some(d) => d,
                        None => DisplayType::DisplayNone,
                    },
                ),
                ..style
            },
            _ => style,
        }
    } else {
        style
    }
}

/// The style after the declarations of a rule, applied first to last.
pub open spec fn cascaded(style: ComputedStyle, declarations: Seq<DeclarationView>) -> ComputedStyle
    decreases declarations.len(),
{
    if declarations.len() == 0 {
        style
    } else {
        declared(cascaded(style, declarations.drop_last()), declarations.last())
    }
}

/// The height of a block: the heights of its children from `child` on,
/// added to `so_far`. A child counts if it is a block or follows one;
/// `previous` is the kind of the child before.
pub open spec fn stacked_height(
    child: Option<Box<LayoutObjectView>>,
    previous: LayoutObjectKind,
    so_far: i64,
) -> i64
    decreases child,
{
    match child {
        None => so_far,
        Some(c) => stacked_height(
            c.next_sibling,
            c.kind,
            if previous == LayoutObjectKind::Block || c.kind == LayoutObjectKind::Block {
                clip(so_far + c.rect.size.height)
            } else {
                so_far
            },
        ),
    }
}

/// The size of an inline object: the widths and the heights of its
/// children from `child` on, added to `so_far`.
pub open spec fn summed_size(child: Option<Box<LayoutObjectView>>, so_far: LayoutSize) -> LayoutSize
    decreases child,
{
    match child {
        None => so_far,
        Some(c) => summed_size(
            c.next_sibling,
            LayoutSize {
                width: clip(so_far.width + c.rect.size.width),
                height: clip(so_far.height + c.rect.size.height),
            },
        ),
    }
}

/// The width that a text of `count` characters takes on one line.
pub open spec fn text_width(count: nat, font_size: FontSize) -> int {
    CHAR_WIDTH * font_size.spec_ratio() * count
}

/// The number of lines that a text of the given width is set in: the width
/// divided by the width of the content area, rounded up.
pub open spec fn line_count(width: int) -> int {
    if width % (CONTENT_AREA_WIDTH as int) == 0 {
        width / (CONTENT_AREA_WIDTH as int)
    } else {
        width / (CONTENT_AREA_WIDTH as int) + 1
    }
}

/// The size of a text: one line as wide as the text where that fits into
/// the content area, else as many lines as it takes, each as wide as the
/// content area.
pub open spec fn text_size(count: nat, font_size: FontSize) -> LayoutSize {
    let width = text_width(count, font_size);
    if width > CONTENT_AREA_WIDTH {
        LayoutSize {
            width: CONTENT_AREA_WIDTH,
            height: clip(CHAR_HEIGHT_WITH_PADDING * font_size.spec_ratio() * line_count(width)),
        }
    } else {
        LayoutSize {
            width: width as i64,
            height: (CHAR_HEIGHT_WITH_PADDING * font_size.spec_ratio()) as i64,
        }
    }
}

/// The size of an object whose children have their sizes, in a parent of
/// the given size. A block is as wide as its parent and as high as its
/// children stacked; an inline object is as wide and as high as its
/// children together; a text has the size of its characters.
pub open spec fn size_of(o: LayoutObjectView, parent_size: LayoutSize) -> LayoutSize {
    match o.kind {
        LayoutObjectKind::Block => LayoutSize {
            width: parent_size.width,
            height: stacked_height(o.first_child, LayoutObjectKind::Block, 0),
        },
        LayoutObjectKind::Inline => summed_size(o.first_child, LayoutSize { width: 0, height: 0 }),
        LayoutObjectKind::Text => match o.node_kind {
            NodeKindView::Text(t) => text_size(t.len(), o.style.font_size->0),
            _ => LayoutSize { width: 0, height: 0 },
        },
    }
}

/// The place of an object. A block, and what follows a block, stands below
/// the sibling before it, or at the top of its parent where it is the
/// first, at the left edge of the parent. An inline object that follows
/// one stands to the right of it, on the same line. Anything else stands
/// at the origin of its parent.
pub open spec fn position_of(
    kind: LayoutObjectKind,
    parent_point: LayoutPoint,
    previous_kind: LayoutObjectKind,
    previous_rect: Option<LayoutRect>,
) -> LayoutPoint {
    if kind == LayoutObjectKind::Block || previous_kind == LayoutObjectKind::Block {
        LayoutPoint {
            x: parent_point.x,
            y: match previous_rect {
                Some(r) => clip(r.point.y + r.size.height),
                None => parent_point.y,
            },
        }
    } else if kind == LayoutObjectKind::Inline && previous_kind == LayoutObjectKind::Inline {
        match previous_rect {
            Some(r) => LayoutPoint { x: clip(r.point.x + r.size.width), y: r.point.y },
            None => parent_point,
        }
    } else {
        parent_point
    }
}

/// The display items of the lines of a text: line `i` stands `i` line
/// heights below the origin.
pub open spec fn text_items(lines: Seq<Seq<char>>, style: ComputedStyle, origin: LayoutPoint) -> Seq<
    DisplayItemView,
> {
    Seq::new(
        lines.len(),
        |i: int|
            DisplayItemView::Text {
                text: lines[i],
                style,
                layout_point: LayoutPoint {
                    x: origin.x,
                    y: clip(origin.y + CHAR_HEIGHT_WITH_PADDING * i),
                },
            },
    )
}

/// What one object asks the painter to draw: a block that renders an
/// element its box; a text its lines, white space normalised and wrapped;
/// an inline object, and an object that is not displayed, nothing.
pub open spec fn painted(o: LayoutObjectView) -> Seq<DisplayItemView> {
    if o.style.display == Some(DisplayType::DisplayNone) {
        Seq::empty()
    } else {
        match o.kind {
            LayoutObjectKind::Block => if o.node_kind is Element {
                seq![DisplayItemView::Rect { style: o.style, layout_rect: o.rect }]
            } else {
                Seq::empty()
            },
            LayoutObjectKind::Inline => Seq::empty(),
            LayoutObjectKind::Text => match o.node_kind {
                NodeKindView::Text(t) => text_items(
                    wrapped(normalized(t), CHAR_WIDTH * o.style.font_size->0.spec_ratio()),
                    o.style,
                    o.rect.point,
                ),
                _ => Seq::empty(),
            },
        }
    }
}

/// The number of lines is the width divided by the width of the content
/// area, rounded up: so many lines hold the text, and one less would not.
pub proof fn lemma_line_count_rounds_up(width: int)
    requires
        width > 0,
    ensures
        (line_count(width) - 1) * CONTENT_AREA_WIDTH < width <= line_count(width)
            * CONTENT_AREA_WIDTH,
{
}

/// A text that is wider than the content area is as wide as that area and
/// as high as its lines: their number is the width of the text divided by
/// the width of the area, rounded up.
pub proof fn lemma_wide_text_is_split(count: nat, font_size: FontSize)
    requires
        text_width(count, font_size) > CONTENT_AREA_WIDTH,
    ensures
        text_size(count, font_size).width == CONTENT_AREA_WIDTH,
        text_size(count, font_size).height == clip(
            CHAR_HEIGHT_WITH_PADDING * font_size.spec_ratio() * line_count(
                text_width(count, font_size),
            ),
        ),
        (line_count(text_width(count, font_size)) - 1) * CONTENT_AREA_WIDTH < text_width(
            count,
            font_size,
        ) <= line_count(text_width(count, font_size)) * CONTENT_AREA_WIDTH,
{
    lemma_line_count_rounds_up(text_width(count, font_size));
}

/// The lines of a text are painted one below the other: each stands one
/// line height below the one before it, at the same distance from the
/// left, as long as the machine can hold the measure.
pub proof fn lemma_lines_one_line_height_apart(
    lines: Seq<Seq<char>>,
    style: ComputedStyle,
    origin: LayoutPoint,
    i: int,
)
    requires
        0 <= i,
        i + 1 < lines.len(),
        origin.y + CHAR_HEIGHT_WITH_PADDING * (i + 1) <= i64::MAX,
    ensures
        text_items(lines, style, origin)[i + 1]->Text_layout_point.y == text_items(
            lines,
            style,
            origin,
        )[i]->Text_layout_point.y + CHAR_HEIGHT_WITH_PADDING,
        text_items(lines, style, origin)[i + 1]->Text_layout_point.x == text_items(
            lines,
            style,
            origin,
        )[i]->Text_layout_point.x,
        text_items(lines, style, origin)[0]->Text_layout_point == origin,
{
}

/// The three properties that a declaration can set are told apart by
/// their names: a declaration of `background-color`, of `color` or of
/// `display` sets that property and no other, to the value that it
/// names, or to the fallback of the property where it names none.
pub proof fn lemma_declared_by_property(style: ComputedStyle, value: CssTokenView)
    ensures
        declared(style, DeclarationView { property: "background-color"@, value }) == match color_value(
            value,
            Color::spec_white(),
        ) {
            Some(c) => ComputedStyle { background_color: Some(c), ..style },
            None => style,
        },
        declared(style, DeclarationView { property: "color"@, value }) == match color_value(
            value,
            Color::spec_black(),
        ) {
            Some(c) => ComputedStyle { color: Some(c), ..style },
            None => style,
        },
        declared(style, DeclarationView { property: "display"@, value }) == match value {
            CssTokenView::Ident(keyword) => ComputedStyle {
                display: Some(
                    match DisplayType::named(keyword) {
                        Some(d) => d,
                        None => DisplayType::DisplayNone,
                    },
                ),
                ..style
            },
            _ => style,
        },
{
    reveal_strlit("background-color");
    reveal_strlit("color");
    reveal_strlit("display");
    assert("background-color"@.len() == 16 && "color"@.len() == 5 && "display"@.len() == 7);
}

/// One style laid over another: each property has the value of the upper
/// style where that sets it, and the value of the lower style where it
/// does not.
pub open spec fn overlaid(lower: ComputedStyle, upper: ComputedStyle) -> ComputedStyle {
    ComputedStyle {
        background_color: if upper.background_color is Some {
            upper.background_color
        } else {
            lower.background_color
        },
        color: if upper.color is Some {
            upper.color
        } else {
            lower.color
        },
        display: if upper.display is Some {
            upper.display
        } else {
            lower.display
        },
        font_size: if upper.font_size is Some {
            upper.font_size
        } else {
            lower.font_size
        },
    }
}

/// A declaration sets what it sets whatever was set before: the style
/// after it is the style before it with the settings of the declaration
/// laid over it.
pub proof fn lemma_declaration_overrides(style: ComputedStyle, declaration: DeclarationView)
    ensures
        declared(style, declaration) == overlaid(
            style,
            declared(ComputedStyle::unset(), declaration),
        ),
{
}

/// The last declaration wins, property by property: the style after a
/// run of declarations is the style before them with their settings laid
/// over it, and of two declarations that set one property the later one
/// holds.
pub proof fn lemma_later_declaration_wins(style: ComputedStyle, declarations: Seq<DeclarationView>)
    ensures
        cascaded(style, declarations) == overlaid(
            style,
            cascaded(ComputedStyle::unset(), declarations),
        ),
        declarations.len() > 0 ==> cascaded(style, declarations) == overlaid(
            cascaded(style, declarations.drop_last()),
            declared(ComputedStyle::unset(), declarations.last()),
        ),
    decreases declarations.len(),
{
    if declarations.len() > 0 {
        lemma_later_declaration_wins(style, declarations.drop_last());
        lemma_declaration_overrides(
            cascaded(style, declarations.drop_last()),
            declarations.last(),
        );
        lemma_declaration_overrides(
            cascaded(ComputedStyle::unset(), declarations.drop_last()),
            declarations.last(),
        );
    }
}

impl LayoutObject {
    /// A block without children, unset style and an empty box at the
    /// origin, for the node `node` of `dom`, below `parent_obj`.
    pub fn new(dom: &Window, node: NodeId, parent_obj: Option<&LayoutObject>) -> (o: Self)
        requires
            dom@.has(node),
        ensures
            o@ == (LayoutObjectView {
                kind: LayoutObjectKind::Block,
                node,
                node_kind: dom@.nodes[node as int].kind,
                first_child: None,
                next_sibling: None,
                parent: match parent_obj {
                    Some(p) => Some(p@.node),
                    None => None,
                },
                style: ComputedStyle::unset(),
                rect: LayoutRect {
                    point: LayoutPoint { x: 0, y: 0 },
                    size: LayoutSize { width: 0, height: 0 },
                },
            }),
    {
        let parent = match parent_obj {
            Some(p) => Some(p.node),
            None => None,
        };
        LayoutObject {
            kind: LayoutObjectKind::Block,
            node,
            node_kind: dom.node(node).kind(),
            first_child: None,
            next_sibling: None,
            parent,
            style: ComputedStyle::default(),
            rect: LayoutRect {
                point: LayoutPoint { x: 0, y: 0 },
                size: LayoutSize { width: 0, height: 0 },
            },
        }
    }

    pub fn kind(&self) -> (kind: LayoutObjectKind)
        ensures
            kind == self@.kind,
    {
        self.kind
    }

    /// The node of the document that this object renders.
    pub fn node(&self) -> (node: NodeId)
        ensures
            node == self@.node,
    {
        self.node
    }

    pub fn node_kind(&self) -> (kind: NodeKind)
        ensures
            kind@ == self@.node_kind,
    {
        self.node_kind.duplicate()
    }

    pub fn set_first_child(&mut self, first_child: Option<Box<LayoutObject>>)
        ensures
            final(self)@ == (LayoutObjectView { first_child: subtree(first_child), ..old(self)@ }),
    {
        self.first_child = first_child;
    }

    pub fn first_child(&self) -> (child: Option<&LayoutObject>)
        ensures
            object_ref_view(child) == self@.first_child,
    {
        match &self.first_child {
            Some(b) => Some(&**b),
            None => None,
        }
    }

    /// Takes the children out of this object.
    pub fn take_first_child(&mut self) -> (child: Option<Box<LayoutObject>>)
        ensures
            subtree(child) == old(self)@.first_child,
            final(self)@ == (LayoutObjectView { first_child: None, ..old(self)@ }),
    {
        self.first_child.take()
    }

    pub fn set_next_sibling(&mut self, next_sibling: Option<Box<LayoutObject>>)
        ensures
            final(self)@ == (LayoutObjectView {
                next_sibling: subtree(next_sibling),
                ..old(self)@
            }),
    {
        self.next_sibling = next_sibling;
    }

    pub fn next_sibling(&self) -> (sibling: Option<&LayoutObject>)
        ensures
            object_ref_view(sibling) == self@.next_sibling,
    {
        match &self.next_sibling {
            Some(b) => Some(&**b),
            None => None,
        }
    }

    /// Takes the siblings that follow out of this object.
    pub fn take_next_sibling(&mut self) -> (sibling: Option<Box<LayoutObject>>)
        ensures
            subtree(sibling) == old(self)@.next_sibling,
            final(self)@ == (LayoutObjectView { next_sibling: None, ..old(self)@ }),
    {
        self.next_sibling.take()
    }

    /// The node that the parent object renders.
    pub fn parent(&self) -> (parent: Option<NodeId>)
        ensures
            parent == self@.parent,
    {
        self.parent
    }

    pub fn style(&self) -> (style: ComputedStyle)
        ensures
            style == self@.style,
    {
        self.style
    }

    pub fn rect(&self) -> (rect: LayoutRect)
        ensures
            rect == self@.rect,
    {
        self.rect
    }

    pub fn point(&self) -> (point: LayoutPoint)
        ensures
            point == self@.rect.point,
    {
        self.rect.point
    }

    pub fn size(&self) -> (size: LayoutSize)
        ensures
            size == self@.rect.size,
    {
        self.rect.size
    }

    pub fn is_node_selected(&self, selector: &Selector) -> (r: bool)
        ensures
            r == selected(self@.node_kind, selector@),
    {
        let element = match &self.node_kind {
            NodeKind::Element(e) => e,
            _ => {
                return false;
            },
        };
        match selector {
            Selector::TypeSelector(tag_name) => {
                let name = element.kind().to_string();
                name == *tag_name
            },
            Selector::ClassSelector(class_name) => element.has_attribute(
                "class",
                class_name.as_str(),
            ),
            Selector::IdSelector(id_name) => element.has_attribute("id", id_name.as_str()),
            Selector::UnknownSelector => false,
        }
    }

    /// Applies the declarations of a rule to the style, first to last.
    pub fn cascading_style(&mut self, declarations: Vec<Declaration>)
        ensures
            final(self)@ == (LayoutObjectView {
                style: cascaded(old(self)@.style, views(declarations@)),
                ..old(self)@
            }),
    {
        let mut i: usize = 0;
        assert(views(declarations@).take(0) =~= Seq::<DeclarationView>::empty());
        while i < declarations.len()
            invariant
                i <= declarations@.len(),
                self@ == (LayoutObjectView {
                    style: cascaded(old(self)@.style, views(declarations@).take(i as int)),
                    ..old(self)@
                }),
            decreases declarations@.len() - i,
        {
            let declaration = &declarations[i];
            proof {
                let all = views(declarations@);
                assert(all.take(i + 1).drop_last() =~= all.take(i as int));
                assert(all.take(i + 1).last() == declaration@);
            }
            self.style = apply_declaration(self.style, declaration);
            i += 1;
        }
        assert(views(declarations@).take(declarations@.len() as int) =~= views(declarations@));
    }

    /// Fills in what the rules have left unset, from the style of the
    /// parent or by the kind of `node`.
    pub fn defaulting_style(&mut self, node: &NodeKind, parent_style: Option<ComputedStyle>)
        requires
            parent_style is Some ==> parent_style->0.is_resolved(),
        ensures
            final(self)@ == (LayoutObjectView {
                style: old(self)@.style.defaulted(node@, parent_style),
                ..old(self)@
            }),
            final(self)@.style.is_resolved(),
    {
        self.style.defaulting(node, parent_style);
    }

    /// Sets the kind of the object by its node and its display type: a
    /// text is of kind `Text` whatever its display type; an element is a
    /// block or an inline object as its display type says. There is no
    /// object for the document node, nor for an element that is not
    /// displayed.
    pub fn update_kind(&mut self)
        requires
            !(old(self)@.node_kind is Document),
            old(self)@.node_kind is Element ==> old(self)@.style.display is Some
                && old(self)@.style.display != Some(DisplayType::DisplayNone),
        ensures
            final(self)@ == (LayoutObjectView {
                kind: match old(self)@.node_kind {
                    NodeKindView::Text(_) => LayoutObjectKind::Text,
                    _ => if old(self)@.style.display == Some(DisplayType::Block) {
                        LayoutObjectKind::Block
                    } else {
                        LayoutObjectKind::Inline
                    },
                },
                ..old(self)@
            }),
    {
        self.kind = match &self.node_kind {
            NodeKind::Text(_) => LayoutObjectKind::Text,
            _ => match self.style.display() {
                DisplayType::Block => LayoutObjectKind::Block,
                _ => LayoutObjectKind::Inline,
            },
        };
    }

    /// Sets the size of the object from the sizes of its children and the
    /// size of its parent.
    pub fn compute_size(&mut self, parent_size: LayoutSize)
        requires
            old(self)@.kind == LayoutObjectKind::Text ==> old(self)@.style.font_size is Some,
        ensures
            final(self)@ == (LayoutObjectView {
                rect: LayoutRect {
                    point: old(self)@.rect.point,
                    size: size_of(old(self)@, parent_size),
                },
                ..old(self)@
            }),
    {
        let mut size = LayoutSize { width: 0, height: 0 };
        match self.kind {
            LayoutObjectKind::Block => {
                size.width = parent_size.width;
                let mut height: i64 = 0;
                let mut child: &Option<Box<LayoutObject>> = &self.first_child;
                let mut prev_child_kind = LayoutObjectKind::Block;
                loop
                    invariant
                        stacked_height(subtree(*child), prev_child_kind, height) == stacked_height(
                            self@.first_child,
                            LayoutObjectKind::Block,
                            0,
                        ),
                    ensures
                        height == stacked_height(self@.first_child, LayoutObjectKind::Block, 0),
                    decreases subtree(*child),
                {
                    match child {
                        None => {
                            break ;
                        },
                        Some(c) => {
                            if prev_child_kind == LayoutObjectKind::Block || c.kind
                                == LayoutObjectKind::Block {
                                height = plus(height, c.rect.size.height);
                            }
                            prev_child_kind = c.kind;
                            child = &c.next_sibling;
                        },
                    }
                }
                size.height = height;
            },
            LayoutObjectKind::Inline => {
                let mut child: &Option<Box<LayoutObject>> = &self.first_child;
                loop
                    invariant
                        summed_size(subtree(*child), size) == summed_size(
                            self@.first_child,
                            LayoutSize { width: 0, height: 0 },
                        ),
                    ensures
                        size == summed_size(
                            self@.first_child,
                            LayoutSize { width: 0, height: 0 },
                        ),
                    decreases subtree(*child),
                {
                    match child {
                        None => {
                            break ;
                        },
                        Some(c) => {
                            size.width = plus(size.width, c.rect.size.width);
                            size.height = plus(size.height, c.rect.size.height);
                            child = &c.next_sibling;
                        },
                    }
                }
            },
            LayoutObjectKind::Text => {
                if let NodeKind::Text(t) = &self.node_kind {
                    size = measure_text(t.as_str(), self.style.font_size());
                }
            },
        }
        self.rect.size = size;
    }

    /// Sets the place of the object from the place of its parent and the
    /// box of the sibling before it.
    pub fn compute_position(
        &mut self,
        parent_point: LayoutPoint,
        prev_sibling_kind: LayoutObjectKind,
        prev_sibling_rect: Option<LayoutRect>,
    )
        ensures
            final(self)@ == (LayoutObjectView {
                rect: LayoutRect {
                    point: position_of(
                        old(self)@.kind,
                        parent_point,
                        prev_sibling_kind,
                        prev_sibling_rect,
                    ),
                    size: old(self)@.rect.size,
                },
                ..old(self)@
            }),
    {
        let mut point = LayoutPoint { x: 0, y: 0 };
        if self.kind == LayoutObjectKind::Block || prev_sibling_kind == LayoutObjectKind::Block {
            if let Some(LayoutRect { point: pos, size }) = prev_sibling_rect {
                point.y = plus(pos.y, size.height);
            } else {
                point.y = parent_point.y;
            }
            point.x = parent_point.x;
        } else if self.kind == LayoutObjectKind::Inline && prev_sibling_kind
            == LayoutObjectKind::Inline {
            if let Some(LayoutRect { point: pos, size }) = prev_sibling_rect {
                point.x = plus(pos.x, size.width);
                point.y = pos.y;
            } else {
                point.x = parent_point.x;
                point.y = parent_point.y;
            }
        } else {
            point.x = parent_point.x;
            point.y = parent_point.y;
        }
        self.rect.point = point;
    }

    /// What this object asks the painter to draw.
    pub fn paint(&self) -> (items: Vec<DisplayItem>)
        requires
            self@.style.is_resolved(),
        ensures
            views(items@) == painted(self@),
    {
        let mut v: Vec<DisplayItem> = Vec::new();
        assert(views(v@) =~= Seq::<DisplayItemView>::empty());
        if self.style.display() == DisplayType::DisplayNone {
            return v;
        }
        match self.kind {
            LayoutObjectKind::Block => {
                if let NodeKind::Element(_) = &self.node_kind {
                    v.push(DisplayItem::Rect { style: self.style, layout_rect: self.rect });
                    assert(views(v@) =~= painted(self@));
                }
            },
            LayoutObjectKind::Inline => {},
            LayoutObjectKind::Text => {
                if let NodeKind::Text(t) = &self.node_kind {
                    let ratio = self.style.font_size().ratio();
                    let plain_text = normalize(t.as_str());
                    let lines = split_text(plain_text, CHAR_WIDTH * ratio);
                    let ghost wanted = text_items(views(lines@), self.style, self.rect.point);
                    let mut i: usize = 0;
                    while i < lines.len()
                        invariant
                            i <= lines@.len(),
                            v@.len() == i,
                            wanted == text_items(views(lines@), self.style, self.rect.point),
                            forall|k: int| 0 <= k < i ==> (#[trigger] v@[k])@ == wanted[k],
                        decreases lines@.len() - i,
                    {
                        let offset: i128 = CHAR_HEIGHT_WITH_PADDING as i128 * (i as i128);
                        let item = DisplayItem::Text {
                            text: lines[i].clone(),
                            style: self.style,
                            layout_point: LayoutPoint {
                                x: self.rect.point.x,
                                y: clipped(self.rect.point.y as i128 + offset),
                            },
                        };
                        v.push(item);
                        i += 1;
                    }
                    assert(views(v@) =~= wanted);
                }
            },
        }
        v
    }
}

/// The style after one declaration, as `declared` says.
fn apply_declaration(style: ComputedStyle, declaration: &Declaration) -> (r: ComputedStyle)
    ensures
        r == declared(style, declaration@),
{
    let mut style = style;
    if same_text(declaration.property.as_str(), "background-color") {
        match color_of(&declaration.value, Color::white()) {
            Some(c) => style.set_background_color(c),
            None => {},
        }
    } else if same_text(declaration.property.as_str(), "color") {
        match color_of(&declaration.value, Color::black()) {
            Some(c) => style.set_color(c),
            None => {},
        }
    } else if same_text(declaration.property.as_str(), "display") {
        if let CssToken::Ident(value) = &declaration.value {
            let display_type = match DisplayType::from_str(value.as_str()) {
                Some(d) => d,
                None => DisplayType::DisplayNone,
            };
            style.set_display(display_type);
        }
    }
    style
}

/// The colour that a value stands for, as `color_value` says.
fn color_of(value: &CssToken, fallback: Color) -> (color: Option<Color>)
    ensures
        color == color_value(value@, fallback),
{
    match value {
        CssToken::Ident(name) => Some(
            match Color::from_name(name.as_str()) {
                Some(c) => c,
                None => fallback,
            },
        ),
        CssToken::HashToken(code) => Some(
            match Color::from_code(code.as_str()) {
                Some(c) => c,
                None => fallback,
            },
        ),
        _ => None,
    }
}

/// The size of a text, as `text_size` says.
fn measure_text(text: &str, font_size: FontSize) -> (size: LayoutSize)
    ensures
        size == text_size(text@.len(), font_size),
{
    let ratio: i128 = font_size.ratio() as i128;
    let count: i128 = text.unicode_len() as i128;
    let char_width: i128 = CHAR_WIDTH as i128 * ratio;
    let line_height: i128 = CHAR_HEIGHT_WITH_PADDING as i128 * ratio;
    assert(0 <= char_width * count <= 24 * 0xffff_ffff_ffff_ffff) by (nonlinear_arith)
        requires
            0 <= char_width <= 24,
            0 <= count <= 0xffff_ffff_ffff_ffff,
    ;
    let width: i128 = char_width * count;
    let area: i128 = CONTENT_AREA_WIDTH as i128;
    if width > area {
        let line_num = if width % area == 0 {
            width / area
        } else {
            width / area + 1
        };
        assert(0 <= line_height * line_num <= 60 * 24 * 0xffff_ffff_ffff_ffff) by (nonlinear_arith)
            requires
                0 <= line_height <= 60,
                0 <= line_num <= width / 590 + 1,
                590 < width <= 24 * 0xffff_ffff_ffff_ffff,
        ;
        LayoutSize { width: CONTENT_AREA_WIDTH, height: clipped(line_height * line_num) }
    } else {
        LayoutSize { width: width as i64, height: line_height as i64 }
    }
}

} // verus!
