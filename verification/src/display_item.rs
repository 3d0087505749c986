//! What the painter is asked to draw.

use vstd::prelude::*;

use crate::renderer::layout::computed_style::ComputedStyle;
use crate::renderer::layout::layout_object::{LayoutPoint, LayoutRect};

verus! {

#[derive(Debug, Clone, PartialEq, Eq)]
pub enum DisplayItem {
    /// The box of an element.
    Rect { style: ComputedStyle, layout_rect: LayoutRect },
    /// One line of text, drawn from the given point.
    Text { text: String, style: ComputedStyle, layout_point: LayoutPoint },
}

/// What a display item is, over sequences of characters.
pub enum DisplayItemView {
    Rect { style: ComputedStyle, layout_rect: LayoutRect },
    Text { text: Seq<char>, style: ComputedStyle, layout_point: LayoutPoint },
}

impl View for DisplayItem {
    type V = DisplayItemView;

    open spec fn view(&self) -> DisplayItemView {
        match *self {
            DisplayItem::Rect { style, layout_rect } => DisplayItemView::Rect {
                style,
                layout_rect,
            },
            DisplayItem::Text { text, style, layout_point } => DisplayItemView::Text {
                text: text@,
                style,
                layout_point,
            },
        }
    }
}

} // verus!
