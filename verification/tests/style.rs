use saba_core::renderer::css::cssom::Declaration;
use saba_core::renderer::css::token::CssToken;
use saba_core::renderer::dom::node::{Element, ElementKind, NodeKind, Window};
use saba_core::renderer::html::attribute::Attribute;
use saba_core::renderer::layout::computed_style::{Color, ComputedStyle, DisplayType, FontSize};
use saba_core::renderer::layout::layout_object::LayoutObject;
use saba_core::renderer::css::cssom::Selector;

fn rgb(red: u8, green: u8, blue: u8) -> Color {
    Color { red, green, blue }
}

fn declaration(property: &str, value: CssToken) -> Declaration {
    let mut d = Declaration::default();
    d.set_property(property.to_string());
    d.set_value(value);
    d
}

fn ident(s: &str) -> CssToken {
    CssToken::Ident(s.to_string())
}

fn hash(s: &str) -> CssToken {
    CssToken::HashToken(s.to_string())
}

/// A window with one element below the document, and the layout object
/// of that element.
fn object_for(kind: ElementKind, attributes: Vec<Attribute>) -> LayoutObject {
    let mut window = Window::new();
    let id = window
        .append_child(0, NodeKind::Element(Element::new(kind, attributes)))
        .unwrap();
    LayoutObject::new(&window, id, None)
}

#[test]
fn test_color_names() {
    assert_eq!(Color::from_name("black"), Some(rgb(0, 0, 0)));
    assert_eq!(Color::from_name("silver"), Some(rgb(0xc0, 0xc0, 0xc0)));
    assert_eq!(Color::from_name("gray"), Some(rgb(0x80, 0x80, 0x80)));
    assert_eq!(Color::from_name("white"), Some(rgb(255, 255, 255)));
    assert_eq!(Color::from_name("maroon"), Some(rgb(0x80, 0, 0)));
    assert_eq!(Color::from_name("red"), Some(rgb(255, 0, 0)));
    assert_eq!(Color::from_name("purple"), Some(rgb(0x80, 0, 0x80)));
    assert_eq!(Color::from_name("fuchsia"), Some(rgb(255, 0, 255)));
    assert_eq!(Color::from_name("green"), Some(rgb(0, 0x80, 0)));
    assert_eq!(Color::from_name("lime"), Some(rgb(0, 255, 0)));
    assert_eq!(Color::from_name("olive"), Some(rgb(0x80, 0x80, 0)));
    assert_eq!(Color::from_name("yellow"), Some(rgb(255, 255, 0)));
    assert_eq!(Color::from_name("navy"), Some(rgb(0, 0, 0x80)));
    assert_eq!(Color::from_name("blue"), Some(rgb(0, 0, 255)));
    assert_eq!(Color::from_name("teal"), Some(rgb(0, 0x80, 0x80)));
    assert_eq!(Color::from_name("aqua"), Some(rgb(0, 255, 255)));
    assert_eq!(Color::from_name("orange"), Some(rgb(255, 0xa5, 0)));
    assert_eq!(Color::from_name("lightgray"), Some(rgb(0xd3, 0xd3, 0xd3)));
    assert_eq!(Color::from_name("Red"), None);
    assert_eq!(Color::from_name(""), None);
    assert_eq!(Color::white(), rgb(255, 255, 255));
    assert_eq!(Color::black(), rgb(0, 0, 0));
}

#[test]
fn test_color_codes() {
    assert_eq!(Color::from_code("#ff0000"), Some(rgb(255, 0, 0)));
    assert_eq!(Color::from_code("#12aBcD"), Some(rgb(0x12, 0xab, 0xcd)));
    assert_eq!(Color::from_code("#000000"), Some(rgb(0, 0, 0)));
    assert_eq!(Color::from_code("#09afAF"), Some(rgb(0x09, 0xaf, 0xaf)));
    assert_eq!(Color::from_code("#fff"), None);
    assert_eq!(Color::from_code("ff00000"), None);
    assert_eq!(Color::from_code("#ff00gg"), None);
    assert_eq!(Color::from_code("#ff00000"), None);
    assert_eq!(Color::from_code(""), None);
    assert_eq!(rgb(0x12, 0xab, 0xcd).code_u32(), 0x12abcd);
    assert_eq!(Color::white().code_u32(), 0xffffff);
}

#[test]
fn test_display_type_and_font_size() {
    assert_eq!(DisplayType::from_str("block"), Some(DisplayType::Block));
    assert_eq!(DisplayType::from_str("inline"), Some(DisplayType::Inline));
    assert_eq!(DisplayType::from_str("none"), Some(DisplayType::DisplayNone));
    assert_eq!(DisplayType::from_str("flex"), None);
    let element = |kind| NodeKind::Element(Element::new(kind, Vec::new()));
    assert_eq!(DisplayType::default(&NodeKind::Document), DisplayType::Block);
    assert_eq!(DisplayType::default(&element(ElementKind::Body)), DisplayType::Block);
    assert_eq!(DisplayType::default(&element(ElementKind::P)), DisplayType::Block);
    assert_eq!(DisplayType::default(&element(ElementKind::H1)), DisplayType::Block);
    assert_eq!(DisplayType::default(&element(ElementKind::H2)), DisplayType::Block);
    assert_eq!(DisplayType::default(&element(ElementKind::A)), DisplayType::Inline);
    assert_eq!(DisplayType::default(&element(ElementKind::Span)), DisplayType::Inline);
    assert_eq!(DisplayType::default(&NodeKind::Text("t".to_string())), DisplayType::Inline);
    assert_eq!(FontSize::default(&element(ElementKind::H1)), FontSize::XXLarge);
    assert_eq!(FontSize::default(&element(ElementKind::H2)), FontSize::XLarge);
    assert_eq!(FontSize::default(&element(ElementKind::P)), FontSize::Medium);
    assert_eq!(FontSize::default(&NodeKind::Text("t".to_string())), FontSize::Medium);
    assert_eq!(FontSize::Medium.ratio(), 1);
    assert_eq!(FontSize::XLarge.ratio(), 2);
    assert_eq!(FontSize::XXLarge.ratio(), 3);
}

#[test]
fn test_defaulting_without_parent() {
    let mut style = ComputedStyle::default();
    assert_eq!(
        style,
        ComputedStyle { background_color: None, color: None, display: None, font_size: None }
    );
    style.defaulting(&NodeKind::Element(Element::new(ElementKind::H2, Vec::new())), None);
    assert_eq!(
        style,
        ComputedStyle {
            background_color: Some(Color::white()),
            color: Some(Color::black()),
            display: Some(DisplayType::Block),
            font_size: Some(FontSize::XLarge),
        }
    );
    assert_eq!(style.background_color(), Color::white());
    assert_eq!(style.color(), Color::black());
    assert_eq!(style.display(), DisplayType::Block);
    assert_eq!(style.font_size(), FontSize::XLarge);
}

#[test]
fn test_defaulting_inherits_from_parent() {
    let parent = ComputedStyle {
        background_color: Some(rgb(1, 2, 3)),
        color: Some(rgb(4, 5, 6)),
        display: Some(DisplayType::Block),
        font_size: Some(FontSize::XXLarge),
    };
    let mut style = ComputedStyle::default();
    style.defaulting(&NodeKind::Text("t".to_string()), Some(parent));
    assert_eq!(
        style,
        ComputedStyle {
            background_color: Some(rgb(1, 2, 3)),
            color: Some(rgb(4, 5, 6)),
            display: Some(DisplayType::Inline),
            font_size: Some(FontSize::XXLarge),
        }
    );

    let mut own = ComputedStyle::default();
    own.set_color(rgb(9, 9, 9));
    own.set_background_color(rgb(8, 8, 8));
    own.set_display(DisplayType::DisplayNone);
    own.defaulting(&NodeKind::Element(Element::new(ElementKind::H2, Vec::new())), Some(parent));
    assert_eq!(
        own,
        ComputedStyle {
            background_color: Some(rgb(8, 8, 8)),
            color: Some(rgb(9, 9, 9)),
            display: Some(DisplayType::DisplayNone),
            font_size: Some(FontSize::XXLarge),
        }
    );

    let medium = ComputedStyle { font_size: Some(FontSize::Medium), ..parent };
    let mut heading = ComputedStyle::default();
    heading.defaulting(&NodeKind::Element(Element::new(ElementKind::H1, Vec::new())), Some(medium));
    assert_eq!(heading.font_size, Some(FontSize::XXLarge));
}

#[test]
fn test_is_node_selected() {
    let object = object_for(
        ElementKind::P,
        vec![Attribute::nv("class", "note"), Attribute::nv("id", "first")],
    );
    assert!(object.is_node_selected(&Selector::TypeSelector("p".to_string())));
    assert!(!object.is_node_selected(&Selector::TypeSelector("h1".to_string())));
    assert!(object.is_node_selected(&Selector::ClassSelector("note".to_string())));
    assert!(!object.is_node_selected(&Selector::ClassSelector("first".to_string())));
    assert!(object.is_node_selected(&Selector::IdSelector("first".to_string())));
    assert!(!object.is_node_selected(&Selector::IdSelector("note".to_string())));
    assert!(!object.is_node_selected(&Selector::UnknownSelector));

    let mut window = Window::new();
    let text = window.append_child(0, NodeKind::Text("p".to_string())).unwrap();
    let text_object = LayoutObject::new(&window, text, None);
    assert!(!text_object.is_node_selected(&Selector::TypeSelector("p".to_string())));
    let document_object = LayoutObject::new(&window, 0, None);
    assert!(!document_object.is_node_selected(&Selector::TypeSelector("p".to_string())));
}

#[test]
fn test_cascading_style_sets_known_properties() {
    let mut object = object_for(ElementKind::P, Vec::new());
    object.cascading_style(vec![
        declaration("background-color", ident("red")),
        declaration("color", hash("#0000ff")),
        declaration("display", ident("inline")),
        declaration("font-size", CssToken::Number("40".to_string())),
    ]);
    assert_eq!(
        object.style(),
        ComputedStyle {
            background_color: Some(rgb(255, 0, 0)),
            color: Some(rgb(0, 0, 255)),
            display: Some(DisplayType::Inline),
            font_size: None,
        }
    );
}

#[test]
fn test_cascading_style_last_declaration_holds() {
    let mut object = object_for(ElementKind::P, Vec::new());
    object.cascading_style(vec![
        declaration("color", ident("red")),
        declaration("color", ident("blue")),
        declaration("color", CssToken::Number("1".to_string())),
    ]);
    assert_eq!(object.style().color, Some(rgb(0, 0, 255)));
    object.cascading_style(vec![declaration("color", ident("green"))]);
    assert_eq!(object.style().color, Some(rgb(0, 0x80, 0)));
}

#[test]
fn test_cascading_style_falls_back_on_unknown_values() {
    let mut object = object_for(ElementKind::P, Vec::new());
    object.cascading_style(vec![
        declaration("background-color", ident("nocolor")),
        declaration("color", hash("#12")),
        declaration("display", ident("flex")),
    ]);
    assert_eq!(
        object.style(),
        ComputedStyle {
            background_color: Some(Color::white()),
            color: Some(Color::black()),
            display: Some(DisplayType::DisplayNone),
            font_size: None,
        }
    );
    let mut other = object_for(ElementKind::P, Vec::new());
    other.cascading_style(vec![
        declaration("background-color", CssToken::StringToken("red".to_string())),
        declaration("display", hash("#block")),
    ]);
    assert_eq!(other.style(), ComputedStyle::default());
}
