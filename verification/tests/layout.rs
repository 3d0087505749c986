use saba_core::constants::{
    CHAR_HEIGHT, CHAR_HEIGHT_WITH_PADDING, CHAR_WIDTH, CONTENT_AREA_HRIGHT, CONTENT_AREA_WIDTH,
    TITLE_BAR_HEIGHT, TOOLBAR_HEIGHT, WINDOW_HEIGHT, WINDOW_PADDING, WINDOW_WIDTH,
};
use saba_core::display_item::DisplayItem;
use saba_core::renderer::css::cssom::{CssParser, StyleSheet};
use saba_core::renderer::css::token::CssTokenizer;
use saba_core::renderer::dom::api::get_style_content;
use saba_core::renderer::dom::node::{NodeKind, Window};
use saba_core::renderer::html::parser::HtmlParser;
use saba_core::renderer::html::token::HtmlTokenizer;
use saba_core::renderer::layout::computed_style::{Color, ComputedStyle, DisplayType, FontSize};
use saba_core::renderer::layout::layout_object::{
    LayoutObject, LayoutObjectKind, LayoutPoint, LayoutRect, LayoutSize,
};
use saba_core::renderer::layout::layout_view::{build_layout_tree, create_layout_object, LayoutView};
use saba_core::renderer::layout::line_wrap::{find_index_for_line_break, normalize, split_text};

fn parse(html: &str) -> (Window, StyleSheet) {
    let t = HtmlTokenizer::new(html.to_string());
    let window = HtmlParser::new(t).construct_tree();
    let css = get_style_content(&window);
    let cssom = CssParser::new(CssTokenizer::new(css)).parse_stylesheet();
    (window, cssom)
}

fn create_layout_view(html: &str) -> (Window, LayoutView) {
    let (window, cssom) = parse(html);
    let view = LayoutView::new(&window, &cssom);
    (window, view)
}

fn rect(x: i64, y: i64, width: i64, height: i64) -> LayoutRect {
    LayoutRect {
        point: LayoutPoint { x, y },
        size: LayoutSize { width, height },
    }
}

fn style(display: DisplayType, font_size: FontSize) -> ComputedStyle {
    ComputedStyle {
        background_color: Some(Color::white()),
        color: Some(Color::black()),
        display: Some(display),
        font_size: Some(font_size),
    }
}

/// The objects of a tree in the order of the document: kind, what the node
/// holds, and the box.
fn boxes(window: &Window, object: Option<&LayoutObject>, out: &mut Vec<(LayoutObjectKind, String, LayoutRect)>) {
    if let Some(o) = object {
        let name = match window.node(o.node()).kind() {
            NodeKind::Document => "#document".to_string(),
            NodeKind::Element(e) => e.kind().to_string(),
            NodeKind::Text(t) => format!("'{}'", t),
        };
        out.push((o.kind(), name, o.rect()));
        boxes(window, o.first_child(), out);
        boxes(window, o.next_sibling(), out);
    }
}

fn boxes_of(html: &str) -> Vec<(LayoutObjectKind, String, LayoutRect)> {
    let (window, view) = create_layout_view(html);
    let mut out = Vec::new();
    boxes(&window, view.root(), &mut out);
    out
}

#[test]
fn test_constants() {
    assert_eq!(WINDOW_WIDTH, 600);
    assert_eq!(WINDOW_HEIGHT, 400);
    assert_eq!(WINDOW_PADDING, 5);
    assert_eq!(TITLE_BAR_HEIGHT, 24);
    assert_eq!(TOOLBAR_HEIGHT, 26);
    assert_eq!(CONTENT_AREA_WIDTH, WINDOW_WIDTH - WINDOW_PADDING * 2);
    assert_eq!(
        CONTENT_AREA_HRIGHT,
        WINDOW_HEIGHT - TITLE_BAR_HEIGHT - TOOLBAR_HEIGHT - WINDOW_PADDING * 2
    );
    assert_eq!(CHAR_WIDTH, 8);
    assert_eq!(CHAR_HEIGHT, 16);
    assert_eq!(CHAR_HEIGHT_WITH_PADDING, CHAR_HEIGHT + 4);
}

#[test]
fn test_layout_of_empty_document() {
    let (_, view) = create_layout_view("");
    assert!(view.root().is_none());
    assert_eq!(view.paint(), Vec::<DisplayItem>::new());
    assert_eq!(view.find_node_by_position((0, 0)), None);
}

#[test]
fn test_layout_of_body_alone() {
    assert_eq!(
        boxes_of("<html><head></head><body></body></html>"),
        vec![(LayoutObjectKind::Block, "body".to_string(), rect(0, 0, 590, 0))]
    );
}

#[test]
fn test_blocks_stack_and_text_is_measured() {
    assert_eq!(
        boxes_of("<html><head></head><body><p>hello</p><h1>Title</h1><h2>ab</h2></body></html>"),
        vec![
            (LayoutObjectKind::Block, "body".to_string(), rect(0, 0, 590, 120)),
            (LayoutObjectKind::Block, "p".to_string(), rect(0, 0, 590, 20)),
            (LayoutObjectKind::Text, "'hello'".to_string(), rect(0, 0, 40, 20)),
            (LayoutObjectKind::Block, "h1".to_string(), rect(0, 20, 590, 60)),
            (LayoutObjectKind::Text, "'Title'".to_string(), rect(0, 20, 120, 60)),
            (LayoutObjectKind::Block, "h2".to_string(), rect(0, 80, 590, 40)),
            (LayoutObjectKind::Text, "'ab'".to_string(), rect(0, 80, 32, 40)),
        ]
    );
}

#[test]
fn test_inline_objects_flow_to_the_right() {
    assert_eq!(
        boxes_of("<body><a>x</a><span>yy</span><span>z</span></body>"),
        vec![
            (LayoutObjectKind::Block, "body".to_string(), rect(0, 0, 590, 20)),
            (LayoutObjectKind::Inline, "a".to_string(), rect(0, 0, 8, 20)),
            (LayoutObjectKind::Text, "'x'".to_string(), rect(0, 0, 8, 20)),
            (LayoutObjectKind::Inline, "span".to_string(), rect(8, 0, 16, 20)),
            (LayoutObjectKind::Text, "'yy'".to_string(), rect(8, 0, 16, 20)),
            (LayoutObjectKind::Inline, "span".to_string(), rect(24, 0, 8, 20)),
            (LayoutObjectKind::Text, "'z'".to_string(), rect(24, 0, 8, 20)),
        ]
    );
}

#[test]
fn test_inline_after_block_and_block_after_inline() {
    assert_eq!(
        boxes_of("<body><p>a</p><span>b</span><span>c</span><p>d</p></body>"),
        vec![
            (LayoutObjectKind::Block, "body".to_string(), rect(0, 0, 590, 60)),
            (LayoutObjectKind::Block, "p".to_string(), rect(0, 0, 590, 20)),
            (LayoutObjectKind::Text, "'a'".to_string(), rect(0, 0, 8, 20)),
            (LayoutObjectKind::Inline, "span".to_string(), rect(0, 20, 8, 20)),
            (LayoutObjectKind::Text, "'b'".to_string(), rect(0, 20, 8, 20)),
            (LayoutObjectKind::Inline, "span".to_string(), rect(8, 20, 8, 20)),
            (LayoutObjectKind::Text, "'c'".to_string(), rect(8, 20, 8, 20)),
            (LayoutObjectKind::Block, "p".to_string(), rect(0, 40, 590, 20)),
            (LayoutObjectKind::Text, "'d'".to_string(), rect(0, 40, 8, 20)),
        ]
    );
}

#[test]
fn test_display_none_hides_the_subtree() {
    let html = "<html><head><style>.hidden { display: none; }</style></head><body><p class=hidden>a<span>b</span></p><p>c</p><h1 class=\"hidden\">d</h1></body></html>";
    assert_eq!(
        boxes_of(html),
        vec![
            (LayoutObjectKind::Block, "body".to_string(), rect(0, 0, 590, 20)),
            (LayoutObjectKind::Block, "p".to_string(), rect(0, 0, 590, 20)),
            (LayoutObjectKind::Text, "'c'".to_string(), rect(0, 0, 8, 20)),
        ]
    );
    assert_eq!(
        boxes_of("<html><head><style>body { display: none; }</style></head><body><p>c</p></body></html>"),
        vec![]
    );
}

#[test]
fn test_display_can_be_changed_by_a_rule() {
    let html = "<html><head><style>p { display: inline; } #b { display: block }</style></head><body><p>a</p><span id=b>c</span></body></html>";
    assert_eq!(
        boxes_of(html),
        vec![
            (LayoutObjectKind::Block, "body".to_string(), rect(0, 0, 590, 40)),
            (LayoutObjectKind::Inline, "p".to_string(), rect(0, 0, 8, 20)),
            (LayoutObjectKind::Text, "'a'".to_string(), rect(0, 0, 8, 20)),
            (LayoutObjectKind::Block, "span".to_string(), rect(0, 20, 590, 20)),
            (LayoutObjectKind::Text, "'c'".to_string(), rect(0, 20, 8, 20)),
        ]
    );
}

#[test]
fn test_wide_text_takes_the_lines_it_needs() {
    let text = "a".repeat(100);
    let html = format!("<body><p>{}</p></body>", text);
    let (window, view) = create_layout_view(&html);
    let mut out = Vec::new();
    boxes(&window, view.root(), &mut out);
    assert_eq!(out[2].0, LayoutObjectKind::Text);
    assert_eq!(out[2].2, rect(0, 0, 590, 40));
    assert_eq!(out[1].2, rect(0, 0, 590, 40));

    let items = view.paint();
    assert_eq!(items.len(), 4);
    assert_eq!(
        items[2],
        DisplayItem::Text {
            text: "a".repeat(75),
            style: style(DisplayType::Inline, FontSize::Medium),
            layout_point: LayoutPoint { x: 0, y: 0 },
        }
    );
    assert_eq!(
        items[3],
        DisplayItem::Text {
            text: "a".repeat(25),
            style: style(DisplayType::Inline, FontSize::Medium),
            layout_point: LayoutPoint { x: 0, y: 20 },
        }
    );
}

#[test]
fn test_text_size_at_the_width_of_the_content_area() {
    // 73 characters are 584 pixels wide, 74 are 592: one line and two.
    let one = boxes_of(&format!("<body>{}</body>", "a".repeat(73)));
    assert_eq!(one[1].2, rect(0, 0, 584, 20));
    let two = boxes_of(&format!("<body>{}</body>", "a".repeat(74)));
    assert_eq!(two[1].2, rect(0, 0, 590, 40));
    // In a heading a character is 24 pixels wide and a line 60 pixels high:
    // 50 characters are 1200 pixels, which takes three lines.
    let heading = boxes_of(&format!("<body><h1>{}</h1></body>", "a".repeat(50)));
    assert_eq!(heading[2].2, rect(0, 0, 590, 180));
    // 295 characters are 2360 pixels: four lines exactly. One more
    // character takes a fifth line.
    let exact = boxes_of(&format!("<body>{}</body>", "a".repeat(295)));
    assert_eq!(exact[1].2, rect(0, 0, 590, 80));
    let more = boxes_of(&format!("<body>{}</body>", "a".repeat(296)));
    assert_eq!(more[1].2, rect(0, 0, 590, 100));
}

#[test]
fn test_paint_gives_rects_and_texts_in_document_order() {
    let html = "<html><head><style>p { color: red; background-color: #00ff00; }</style></head><body><p>hello\n  world</p><a>x</a></body></html>";
    let (_, view) = create_layout_view(html);
    let green = Color { red: 0, green: 255, blue: 0 };
    let red = Color { red: 255, green: 0, blue: 0 };
    let p_style = ComputedStyle {
        background_color: Some(green),
        color: Some(red),
        display: Some(DisplayType::Block),
        font_size: Some(FontSize::Medium),
    };
    assert_eq!(
        view.paint(),
        vec![
            DisplayItem::Rect {
                style: style(DisplayType::Block, FontSize::Medium),
                layout_rect: rect(0, 0, 590, 40),
            },
            DisplayItem::Rect { style: p_style, layout_rect: rect(0, 0, 590, 20) },
            DisplayItem::Text {
                text: "hello world".to_string(),
                style: ComputedStyle { display: Some(DisplayType::Inline), ..p_style },
                layout_point: LayoutPoint { x: 0, y: 0 },
            },
            DisplayItem::Text {
                text: "x".to_string(),
                style: style(DisplayType::Inline, FontSize::Medium),
                layout_point: LayoutPoint { x: 0, y: 20 },
            },
        ]
    );
}

#[test]
fn test_later_rule_overrides_earlier_rule() {
    let html = "<html><head><style>p { color: red; } .x { color: blue; } p { background-color: yellow; }</style></head><body><p class=x>a</p></body></html>";
    let (_, view) = create_layout_view(html);
    let p = view.root().unwrap().first_child().unwrap();
    assert_eq!(p.style().color, Some(Color { red: 0, green: 0, blue: 255 }));
    assert_eq!(p.style().background_color, Some(Color { red: 255, green: 255, blue: 0 }));
    let text = p.first_child().unwrap();
    assert_eq!(text.style().color, Some(Color { red: 0, green: 0, blue: 255 }));
    assert_eq!(text.parent(), Some(p.node()));
    assert_eq!(p.parent(), Some(view.root().unwrap().node()));
    assert_eq!(view.root().unwrap().parent(), None);
}

#[test]
fn test_hit_test_finds_the_innermost_object() {
    let html = "<body><p>hello</p><p><a href=u>x</a><span>yy</span></p></body>";
    let (window, view) = create_layout_view(html);
    let name = |position: (i64, i64)| {
        view.find_node_by_position(position).map(|id| match window.node(id).kind() {
            NodeKind::Document => "#document".to_string(),
            NodeKind::Element(e) => e.kind().to_string(),
            NodeKind::Text(t) => format!("'{}'", t),
        })
    };
    assert_eq!(name((0, 0)), Some("'hello'".to_string()));
    assert_eq!(name((40, 20)), Some("'hello'".to_string()));
    assert_eq!(name((41, 10)), Some("p".to_string()));
    assert_eq!(name((590, 0)), Some("p".to_string()));
    assert_eq!(name((4, 30)), Some("'x'".to_string()));
    assert_eq!(name((8, 30)), Some("'x'".to_string()));
    assert_eq!(name((9, 30)), Some("'yy'".to_string()));
    assert_eq!(name((24, 40)), Some("'yy'".to_string()));
    assert_eq!(name((25, 40)), Some("p".to_string()));
    assert_eq!(name((100, 41)), None);
    assert_eq!(name((591, 10)), None);
    assert_eq!(name((-1, 10)), None);
}

#[test]
fn test_is_hit_includes_the_edges() {
    let r = rect(10, 20, 30, 40);
    assert!(r.is_hit(LayoutPoint::new(10, 20)));
    assert!(r.is_hit(LayoutPoint::new(40, 60)));
    assert!(r.is_hit(LayoutPoint::new(25, 35)));
    assert!(!r.is_hit(LayoutPoint::new(9, 20)));
    assert!(!r.is_hit(LayoutPoint::new(41, 60)));
    assert!(!r.is_hit(LayoutPoint::new(10, 19)));
    assert!(!r.is_hit(LayoutPoint::new(40, 61)));
    let far = rect(i64::MAX - 1, 0, 10, 10);
    assert!(far.is_hit(LayoutPoint::new(i64::MAX, 5)));
    assert_eq!(LayoutSize::new(1, 2), LayoutSize { width: 1, height: 2 });
}

#[test]
fn test_compute_position_cases() {
    let mut window = Window::new();
    let text = window.append_child(0, NodeKind::Text("t".to_string())).unwrap();
    let mut object = LayoutObject::new(&window, text, None);
    let node_kind = object.node_kind();
    object.defaulting_style(&node_kind, None);
    object.update_kind();
    assert_eq!(object.kind(), LayoutObjectKind::Text);
    let parent = LayoutPoint::new(3, 4);
    let previous = Some(rect(10, 20, 30, 40));

    object.compute_position(parent, LayoutObjectKind::Block, previous);
    assert_eq!(object.point(), LayoutPoint::new(3, 60));
    object.compute_position(parent, LayoutObjectKind::Block, None);
    assert_eq!(object.point(), LayoutPoint::new(3, 4));
    object.compute_position(parent, LayoutObjectKind::Inline, previous);
    assert_eq!(object.point(), LayoutPoint::new(3, 4));
    object.compute_position(parent, LayoutObjectKind::Text, previous);
    assert_eq!(object.point(), LayoutPoint::new(3, 4));

    let mut inline = LayoutObject::new(&window, text, None);
    inline.defaulting_style(&node_kind, None);
    // A fresh object is a block.
    assert_eq!(inline.kind(), LayoutObjectKind::Block);
    inline.compute_position(parent, LayoutObjectKind::Inline, previous);
    assert_eq!(inline.point(), LayoutPoint::new(3, 60));
}

#[test]
fn test_measures_stay_within_the_machine() {
    let mut window = Window::new();
    let text = window.append_child(0, NodeKind::Text("t".to_string())).unwrap();
    let mut object = LayoutObject::new(&window, text, None);
    object.compute_position(
        LayoutPoint::new(0, 0),
        LayoutObjectKind::Block,
        Some(rect(0, i64::MAX, 0, 5)),
    );
    assert_eq!(object.point(), LayoutPoint::new(0, i64::MAX));
}

#[test]
fn test_layout_object_links() {
    let mut window = Window::new();
    let a = window.append_child(0, NodeKind::Text("a".to_string())).unwrap();
    let b = window.append_child(0, NodeKind::Text("b".to_string())).unwrap();
    let mut first = LayoutObject::new(&window, a, None);
    let second = LayoutObject::new(&window, b, Some(&first));
    assert_eq!(second.parent(), Some(a));
    assert_eq!(first.rect(), rect(0, 0, 0, 0));
    assert_eq!(first.size(), LayoutSize::new(0, 0));
    assert_eq!(first.style(), ComputedStyle::default());
    assert_eq!(first.node_kind(), NodeKind::Text("a".to_string()));
    assert!(first.first_child().is_none());
    first.set_first_child(Some(Box::new(second)));
    assert_eq!(first.first_child().unwrap().node(), b);
    let taken = first.take_first_child().unwrap();
    assert!(first.first_child().is_none());
    first.set_next_sibling(Some(taken));
    assert_eq!(first.next_sibling().unwrap().node(), b);
    assert_eq!(first.take_next_sibling().unwrap().node(), b);
    assert!(first.next_sibling().is_none());
}

#[test]
fn test_block_height_counts_a_run_of_inline_children_once() {
    // Three inline children in a row count as one line of the block.
    assert_eq!(
        boxes_of("<body><a>x</a><a>y</a><a>z</a></body>")[0].2,
        rect(0, 0, 590, 20)
    );
}

#[test]
fn test_create_layout_object_and_build_layout_tree() {
    let (window, cssom) = parse("<html><head><style>a { display: none }</style></head><body><a>x</a><p>y</p></body></html>");
    assert!(create_layout_object(&window, None, None, &cssom).is_none());
    assert!(create_layout_object(&window, Some(0), None, &cssom).is_none());
    let html = window.node(0).first_child().unwrap();
    let head = window.node(html).first_child().unwrap();
    let body = window.node(head).next_sibling().unwrap();
    let a = window.node(body).first_child().unwrap();
    let p = window.node(a).next_sibling().unwrap();
    assert!(create_layout_object(&window, Some(a), None, &cssom).is_none());
    let object = create_layout_object(&window, Some(p), None, &cssom).unwrap();
    assert_eq!(object.kind(), LayoutObjectKind::Block);
    assert_eq!(object.node(), p);
    assert_eq!(object.style(), style(DisplayType::Block, FontSize::Medium));
    assert!(object.first_child().is_none());

    let tree = build_layout_tree(&window, Some(a), None, &cssom).unwrap();
    assert_eq!(tree.node(), p);
    assert_eq!(tree.rect(), rect(0, 0, 0, 0));
    assert_eq!(tree.first_child().unwrap().kind(), LayoutObjectKind::Text);
    assert!(tree.next_sibling().is_none());
    assert!(build_layout_tree(&window, None, None, &cssom).is_none());
}

#[test]
fn test_normalize() {
    assert_eq!(normalize("hello\n  world"), "hello world");
    assert_eq!(normalize("  a \n b  "), "a b");
    assert_eq!(normalize(""), "");
    assert_eq!(normalize(" \n "), "");
    assert_eq!(normalize("a\tb"), "a\tb");
    assert_eq!(normalize("abc"), "abc");
}

#[test]
fn test_find_index_for_line_break() {
    assert_eq!(find_index_for_line_break("ab cd ef", 5), 2);
    assert_eq!(find_index_for_line_break("ab cd ef", 6), 5);
    assert_eq!(find_index_for_line_break("abcdef", 3), 3);
    assert_eq!(find_index_for_line_break(" abc", 2), 0);
    assert_eq!(find_index_for_line_break("abc", 0), 0);
    assert_eq!(find_index_for_line_break("a b", 3), 1);
}

#[test]
fn test_split_text() {
    assert_eq!(split_text("abc".to_string(), 8), vec!["abc".to_string()]);
    assert_eq!(split_text("".to_string(), 8), vec!["".to_string()]);
    assert_eq!(split_text("a".repeat(75), 8), vec!["a".repeat(75)]);
    assert_eq!(
        split_text("a".repeat(76), 8),
        vec!["a".repeat(75), "a".to_string()]
    );
    assert_eq!(
        split_text(format!("{} {}", "x".repeat(70), "y".repeat(10)), 8),
        vec!["x".repeat(70), "y".repeat(10)]
    );
    assert_eq!(
        split_text(format!("{} {} {}", "x".repeat(30), "y".repeat(30), "z".repeat(30)), 8),
        vec![format!("{} {}", "x".repeat(30), "y".repeat(30)), "z".repeat(30)]
    );
    assert_eq!(
        split_text("a".repeat(60), 24),
        vec!["a".repeat(25), "a".repeat(25), "a".repeat(10)]
    );
    assert_eq!(split_text("ab".to_string(), 605), vec!["a".to_string(), "b".to_string()]);
}

#[test]
fn test_split_text_trims_white_space_at_a_break() {
    // A tab is white space, though no gap between words.
    assert_eq!(
        split_text(format!("{}\t\u{3000} y\t", "x".repeat(75)), 8),
        vec!["x".repeat(75), "y".to_string()]
    );
    assert_eq!(
        split_text(format!(" {}", "x".repeat(75)), 8),
        vec!["".to_string(), "x".repeat(75)]
    );
}

/// The number of objects of a tree and of the characters of their texts,
/// and the greatest right and lower edge of their boxes.
fn measure(window: &Window, object: Option<&LayoutObject>) -> (i64, i64, i64) {
    match object {
        None => (0, 0, 0),
        Some(o) => {
            let own = match window.node(o.node()).kind() {
                NodeKind::Text(t) => 1 + t.chars().count() as i64,
                _ => 1,
            };
            let r = o.rect();
            assert!(r.point.x >= 0 && r.point.y >= 0 && r.size.width >= 0 && r.size.height >= 0);
            let (w1, x1, y1) = measure(window, o.first_child());
            let (w2, x2, y2) = measure(window, o.next_sibling());
            (
                own + w1 + w2,
                (r.point.x + r.size.width).max(x1).max(x2),
                (r.point.y + r.size.height).max(y1).max(y2),
            )
        }
    }
}

#[test]
fn test_layout_stays_within_what_its_weight_allows() {
    let long = "word ".repeat(400);
    let html = format!(
        "<body><h1>{}</h1><p><a>x</a><span>y</span>{}</p><h2><span>{}</span></h2></body>",
        long, long, long
    );
    let (window, view) = create_layout_view(&html);
    let (weight, right, bottom) = measure(&window, view.root());
    assert!(weight > 6000);
    assert!(right <= 590 * weight);
    assert!(bottom <= 60 * weight);
}

#[test]
fn test_every_layout_object_renders_a_displayed_node() {
    let html = "<html><head><style>span { display: none } a { display: block }</style></head><body><p>a<span>b</span></p><a>c</a>d</body></html>";
    let (window, view) = create_layout_view(html);
    let mut out = Vec::new();
    boxes(&window, view.root(), &mut out);
    let names: Vec<(LayoutObjectKind, String)> =
        out.into_iter().map(|(kind, name, _)| (kind, name)).collect();
    assert_eq!(
        names,
        vec![
            (LayoutObjectKind::Block, "body".to_string()),
            (LayoutObjectKind::Block, "p".to_string()),
            (LayoutObjectKind::Text, "'a'".to_string()),
            (LayoutObjectKind::Block, "a".to_string()),
            (LayoutObjectKind::Text, "'c'".to_string()),
            (LayoutObjectKind::Text, "'d'".to_string()),
        ]
    );
}

#[test]
fn test_a_text_is_of_kind_text_whatever_its_display() {
    let mut window = Window::new();
    let text = window.append_child(0, NodeKind::Text("t".to_string())).unwrap();

    // No display type is set.
    let mut unset = LayoutObject::new(&window, text, None);
    unset.update_kind();
    assert_eq!(unset.kind(), LayoutObjectKind::Text);

    // The display type says that the node is not displayed.
    let mut hidden = LayoutObject::new(&window, text, None);
    let mut declared = saba_core::renderer::css::cssom::Declaration::default();
    declared.set_property("display".to_string());
    declared.set_value(saba_core::renderer::css::token::CssToken::Ident("none".to_string()));
    hidden.cascading_style(vec![declared]);
    assert_eq!(hidden.style().display, Some(DisplayType::DisplayNone));
    hidden.update_kind();
    assert_eq!(hidden.kind(), LayoutObjectKind::Text);

    // An element is a block or an inline object as its display type says.
    let p = window
        .append_child(
            0,
            NodeKind::Element(saba_core::renderer::dom::node::Element::new(
                saba_core::renderer::dom::node::ElementKind::P,
                Vec::new(),
            )),
        )
        .unwrap();
    let mut block = LayoutObject::new(&window, p, None);
    let node_kind = block.node_kind();
    block.defaulting_style(&node_kind, None);
    block.update_kind();
    assert_eq!(block.kind(), LayoutObjectKind::Block);
    let mut inline = LayoutObject::new(&window, p, None);
    let mut declared = saba_core::renderer::css::cssom::Declaration::default();
    declared.set_property("display".to_string());
    declared.set_value(saba_core::renderer::css::token::CssToken::Ident("inline".to_string()));
    inline.cascading_style(vec![declared]);
    inline.update_kind();
    assert_eq!(inline.kind(), LayoutObjectKind::Inline);
}
