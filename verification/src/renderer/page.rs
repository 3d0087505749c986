//! A page: the document that was received, with its style sheet, its
//! layout and what is to be painted.

use vstd::prelude::*;

use crate::display_item::{DisplayItem, DisplayItemView};
use crate::renderer::css::cssom::{stylesheet_of, CssParser, StyleSheet, StyleSheetView};
use crate::renderer::css::token::CssTokenizer;
use crate::renderer::dom::api::{get_link_target, get_style_content, link_target, style_content};
use crate::renderer::dom::node::{DomView, Window};
use crate::renderer::html::parser::{document_tree, lemma_document_tree_wf, HtmlParser};
use crate::renderer::html::token::HtmlTokenizer;
use crate::renderer::layout::layout_object::LayoutPoint;
use crate::renderer::layout::layout_view::{
    all_resolved, layout_of, lemma_layout_of, lemma_node_at_in_document, node_at, painted_tree,
    renders, LayoutView, Tree,
};
use crate::text::views;

verus! {

/// A page as a mathematical value. Every part is absent until a document
/// has been received.
pub struct PageView {
    pub frame: Option<DomView>,
    pub style: Option<StyleSheetView>,
    pub layout: Option<Tree>,
    pub display_items: Seq<DisplayItemView>,
}

/// The page that a document makes: its tree; the style sheet that its
/// first `style` element holds; the layout of the tree under that style
/// sheet; and what the layout asks the painter to draw.
pub open spec fn rendered(html: Seq<char>) -> PageView {
    let dom = document_tree(html);
    let sheet = stylesheet_of(style_content(dom));
    let layout = layout_of(dom, sheet);
    PageView {
        frame: Some(dom),
        style: Some(sheet),
        layout: Some(layout),
        display_items: painted_tree(layout),
    }
}

/// The target of the link that is drawn at `point`: the node under the
/// point, and the `href` of the `a` element that it stands in.
pub open spec fn link_at(page: PageView, point: LayoutPoint) -> Option<Seq<char>> {
    match (page.frame, page.layout) {
        (Some(dom), Some(layout)) => match node_at(layout, point) {
            Some(node) => link_target(dom, node),
            None => None,
        },
        _ => None,
    }
}

/// Whatever the document, its page is well formed.
pub proof fn lemma_rendered_wf(html: Seq<char>)
    ensures
        rendered(html).wf(),
{
    let dom = document_tree(html);
    lemma_document_tree_wf(html);
    lemma_layout_of(dom, stylesheet_of(style_content(dom)));
}

/// Rendering has no memory: whatever two pages held before, once each has
/// received the same document, they hold the same tree, the same style
/// sheet, the same layout and the same display items.
pub proof fn lemma_same_document_same_page(html: Seq<char>, first: PageView, second: PageView)
    requires
        first == rendered(html),
        second == rendered(html),
    ensures
        first.frame == second.frame,
        first.style == second.style,
        first.layout == second.layout,
        first.display_items == second.display_items,
{
}

#[derive(Debug)]
pub struct Page {
    frame: Option<Window>,
    style: Option<StyleSheet>,
    layout_view: Option<LayoutView>,
    display_items: Vec<DisplayItem>,
}

impl View for Page {
    type V = PageView;

    closed spec fn view(&self) -> PageView {
        PageView {
            frame: match self.frame {
                Some(w) => Some(w@),
                None => None,
            },
            style: match self.style {
                Some(s) => Some(s@),
                None => None,
            },
            layout: match self.layout_view {
                Some(l) => Some(l@),
                None => None,
            },
            display_items: views(self.display_items@),
        }
    }
}

impl PageView {
    /// The page before any document has been received.
    pub open spec fn empty() -> PageView {
        PageView { frame: None, style: None, layout: None, display_items: Seq::empty() }
    }

    /// The tree of the page is well formed, and every object of its layout
    /// has its whole style and renders a node of that tree.
    pub open spec fn wf(self) -> bool {
        &&& match self.frame {
            Some(dom) => dom.wf(),
            None => true,
        }
        &&& match self.layout {
            Some(layout) => all_resolved(layout) && self.frame is Some && renders(
                layout,
                self.frame->0,
            ),
            None => true,
        }
    }
}

impl Default for Page {
    fn default() -> (page: Self)
        ensures
            page@ == PageView::empty(),
    {
        let page = Page { frame: None, style: None, layout_view: None, display_items: Vec::new() };
        assert(views(page.display_items@) =~= Seq::<DisplayItemView>::empty());
        page
    }
}

impl Page {
    /// What holds of every page: its view is well formed.
    #[verifier::type_invariant]
    spec fn inv(self) -> bool {
        self@.wf()
    }

    pub fn new() -> (page: Self)
        ensures
            page@ == PageView::empty(),
    {
        Page::default()
    }

    /// Takes the text of a document and makes the page from it. What the
    /// page held before is dropped.
    pub fn recieve_response(&mut self, html: String)
        ensures
            final(self)@ == rendered(html@),
            final(self)@.wf(),
    {
        let (frame, style) = Self::create_frame(html);
        let layout_view = LayoutView::new(&frame, &style);
        let display_items = layout_view.paint();
        *self = Page {
            frame: Some(frame),
            style: Some(style),
            layout_view: Some(layout_view),
            display_items,
        };
    }

    /// The tree of a document and the style sheet that it holds.
    fn create_frame(html: String) -> (made: (Window, StyleSheet))
        ensures
            made.0@ == document_tree(html@),
            made.0@.wf(),
            made.1@ == stylesheet_of(style_content(document_tree(html@))),
    {
        let html_tokenizer = HtmlTokenizer::new(html);
        let frame = HtmlParser::new(html_tokenizer).construct_tree();
        let style = get_style_content(&frame);
        let css_tokenizer = CssTokenizer::new(style);
        let cssom = CssParser::new(css_tokenizer).parse_stylesheet();
        (frame, cssom)
    }

    /// The tree of the document, once one has been received.
    pub fn frame(&self) -> (frame: Option<&Window>)
        ensures
            match frame {
                Some(w) => self@.frame == Some(w@),
                None => self@.frame is None,
            },
    {
        self.frame.as_ref()
    }

    /// The style sheet of the document, once one has been received.
    pub fn style(&self) -> (style: Option<&StyleSheet>)
        ensures
            match style {
                Some(s) => self@.style == Some(s@),
                None => self@.style is None,
            },
    {
        self.style.as_ref()
    }

    /// The layout of the document, once one has been received.
    pub fn layout_view(&self) -> (layout: Option<&LayoutView>)
        ensures
            match layout {
                Some(l) => self@.layout == Some(l@),
                None => self@.layout is None,
            },
    {
        self.layout_view.as_ref()
    }

    /// What is to be painted, in the order of the document.
    pub fn display_items(&self) -> (items: &Vec<DisplayItem>)
        ensures
            views(items@) == self@.display_items,
    {
        &self.display_items
    }

    /// The target of the link that is drawn at `position`, if a link is
    /// drawn there.
    pub fn clicked(&self, position: (i64, i64)) -> (href: Option<String>)
        ensures
            match href {
                Some(s) => link_at(self@, LayoutPoint { x: position.0, y: position.1 }) == Some(
                    s@,
                ),
                None => link_at(self@, LayoutPoint { x: position.0, y: position.1 }) is None,
            },
    {
        proof {
            use_type_invariant(self);
        }
        let view = match &self.layout_view {
            Some(v) => v,
            None => {
                return None;
            },
        };
        let dom = match &self.frame {
            Some(w) => w,
            None => {
                return None;
            },
        };
        match view.find_node_by_position(position) {
            Some(node) => {
                proof {
                    lemma_node_at_in_document(
                        view@,
                        LayoutPoint { x: position.0, y: position.1 },
                        dom@,
                    );
                }
                get_link_target(dom, node)
            },
            None => None,
        }
    }
}

} // verus!
