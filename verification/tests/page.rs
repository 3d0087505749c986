use saba_core::display_item::DisplayItem;
use saba_core::http::HttpClient;
use saba_core::renderer::dom::node::NodeKind;
use saba_core::renderer::layout::layout_object::LayoutPoint;
use saba_core::renderer::page::Page;

const DOCUMENT: &str = "<html><head><style>h1 { color: red; } .link { color: blue; }</style></head><body><h1>Title</h1><p>Some <a class=link href=\"http://example.com/next\">link</a></p></body></html>";

#[test]
fn test_page_is_empty_before_a_document_is_received() {
    let page = Page::new();
    assert!(page.frame().is_none());
    assert!(page.style().is_none());
    assert!(page.layout_view().is_none());
    assert!(page.display_items().is_empty());
    assert_eq!(page.clicked((0, 0)), None);
}

#[test]
fn test_page_holds_tree_style_layout_and_items() {
    let mut page = Page::new();
    page.recieve_response(DOCUMENT.to_string());
    let frame = page.frame().unwrap();
    assert_eq!(frame.node(0).kind(), NodeKind::Document);
    assert_eq!(page.style().unwrap().rules.len(), 2);
    assert!(page.layout_view().unwrap().root().is_some());
    assert_eq!(page.display_items(), &page.layout_view().unwrap().paint());
    let texts: Vec<(String, LayoutPoint)> = page
        .display_items()
        .iter()
        .filter_map(|item| match item {
            DisplayItem::Text { text, layout_point, .. } => Some((text.clone(), *layout_point)),
            _ => None,
        })
        .collect();
    assert_eq!(
        texts,
        vec![
            ("Title".to_string(), LayoutPoint { x: 0, y: 0 }),
            ("Some".to_string(), LayoutPoint { x: 0, y: 60 }),
            ("link".to_string(), LayoutPoint { x: 0, y: 60 }),
        ]
    );
}

#[test]
fn test_rendering_twice_gives_the_same_page() {
    let mut first = Page::new();
    first.recieve_response(DOCUMENT.to_string());
    let mut second = Page::new();
    second.recieve_response("<body><p>other</p></body>".to_string());
    second.recieve_response(DOCUMENT.to_string());
    second.recieve_response(DOCUMENT.to_string());
    assert_eq!(first.frame(), second.frame());
    assert_eq!(first.style(), second.style());
    assert_eq!(first.display_items(), second.display_items());
    assert_eq!(
        first.layout_view().unwrap().paint(),
        second.layout_view().unwrap().paint()
    );
}

#[test]
fn test_click_on_a_link_gives_its_target() {
    let mut page = Page::new();
    page.recieve_response(DOCUMENT.to_string());
    // The text "Some " is the first child of the paragraph; the link is
    // below that text, at the left edge of the line.
    assert_eq!(page.clicked((3, 70)), Some("http://example.com/next".to_string()));
    assert_eq!(page.clicked((3, 10)), None);
    assert_eq!(page.clicked((500, 70)), None);
    assert_eq!(page.clicked((3, 500)), None);
}

#[test]
fn test_click_without_href() {
    let mut page = Page::new();
    page.recieve_response("<body><a>x</a></body>".to_string());
    assert_eq!(page.clicked((1, 1)), None);
    page.recieve_response("<body><a id=i href=>x</a></body>".to_string());
    assert_eq!(page.clicked((1, 1)), Some("".to_string()));
}

#[test]
fn test_request_text() {
    let client = HttpClient::new();
    assert_eq!(
        client.request("example.com", "index.html"),
        "GET /index.html HTTP/1.1\nHost: example.com\nAccept: text/html\nConnection: close\n\n"
    );
    assert_eq!(
        client.request("h", ""),
        "GET / HTTP/1.1\nHost: h\nAccept: text/html\nConnection: close\n\n"
    );
}
