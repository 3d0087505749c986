use saba_core::renderer::dom::api::{get_link_target, get_style_content, get_target_element_node};
use saba_core::renderer::dom::node::{Element, ElementKind, NodeId, NodeKind, Window};
use saba_core::renderer::html::attribute::Attribute;
use saba_core::renderer::html::parser::HtmlParser;
use saba_core::renderer::html::token::HtmlTokenizer;

fn parse(html: &str) -> Window {
    let t = HtmlTokenizer::new(html.to_string());
    HtmlParser::new(t).construct_tree()
}

fn doc_node() -> NodeKind {
    NodeKind::Document
}

fn elem_node(name: &str, attributes: &[Attribute]) -> NodeKind {
    let kind = ElementKind::from_str(name).unwrap();
    NodeKind::Element(Element::new(kind, attributes.to_vec()))
}

fn text_node(text: &str) -> NodeKind {
    NodeKind::Text(text.to_string())
}

fn children(window: &Window, id: NodeId) -> Vec<NodeId> {
    let mut result = Vec::new();
    let mut child = window.node(id).first_child();
    while let Some(c) = child {
        result.push(c);
        child = window.node(c).next_sibling();
    }
    result
}

/// The tree below node `id`, written with brackets.
fn outline(window: &Window, id: NodeId) -> String {
    let mut s = match window.node(id).kind() {
        NodeKind::Document => "#document".to_string(),
        NodeKind::Element(e) => e.kind().to_string(),
        NodeKind::Text(t) => format!("'{}'", t),
    };
    let below = children(window, id);
    if !below.is_empty() {
        let parts: Vec<String> = below.iter().map(|c| outline(window, *c)).collect();
        s.push_str(&format!("[{}]", parts.join(" ")));
    }
    s
}

#[test]
fn parser_test_empty() {
    let html = "".to_string();
    let t = HtmlTokenizer::new(html);
    let window = HtmlParser::new(t).construct_tree();
    let document = window.document();

    assert_eq!(doc_node(), window.node(document).kind());
    assert_eq!(None, window.node(document).first_child())
}

#[test]
fn test_body_text() {
    let html = "<html><head></head><body>text value</body></html>".to_string();
    let t = HtmlTokenizer::new(html);
    let window = HtmlParser::new(t).construct_tree();
    let document = window.document();
    assert_eq!(doc_node(), window.node(document).kind());

    let html = window.node(document).first_child().unwrap();
    assert_eq!(elem_node("html", &[]), window.node(html).kind());

    let head = window.node(html).first_child().unwrap();
    assert_eq!(elem_node("head", &[]), window.node(head).kind());

    let body = window.node(head).next_sibling().unwrap();
    assert_eq!(elem_node("body", &[]), window.node(body).kind());

    let text = window.node(body).first_child().unwrap();
    assert_eq!(text_node("text value"), window.node(text).kind());
}

#[test]
fn test_multiple_nodes() {
    let html = r#"<html><head></head><body><p><a foo=bar>text value</a><span class="hoge">xxx</span></p></body></html>"#.to_string();
    let t = HtmlTokenizer::new(html);
    let window = HtmlParser::new(t).construct_tree();
    let document = window.document();

    let html = window.node(document).first_child().unwrap();
    let head = window.node(html).first_child().unwrap();
    let body = window.node(head).next_sibling().unwrap();
    assert_eq!(elem_node("body", &[]), window.node(body).kind());

    let p = window.node(body).first_child().unwrap();
    assert_eq!(elem_node("p", &[]), window.node(p).kind());

    let a_attr = Attribute::nv("foo", "bar");
    let a = window.node(p).first_child().unwrap();
    assert_eq!(elem_node("a", &[a_attr]), window.node(a).kind());

    let text = window.node(a).first_child().unwrap();
    assert_eq!(text_node("text value"), window.node(text).kind());

    let span_attr = Attribute::nv("class", "hoge");
    let span = window.node(a).next_sibling().unwrap();
    assert_eq!(elem_node("span", &[span_attr]), window.node(span).kind());
}

#[test]
fn test_missing_html_head_body_are_made_up() {
    let window = parse("<body>text</body>");
    assert_eq!(outline(&window, 0), "#document[html[head body['text']]]");

    let window = parse("<p>x</p>");
    assert_eq!(outline(&window, 0), "#document[html[head body[p['x']]]]");
}

#[test]
fn test_elements_nest_as_written() {
    let window = parse("<html><head></head><body><p><a></a><span></span><h1></h1></p><h2></h2></body></html>");
    assert_eq!(
        outline(&window, 0),
        "#document[html[head body[p[a span h1] h2]]]"
    );
}

#[test]
fn test_links_of_a_node_agree() {
    let window = parse("<body><p><a></a><span></span><h1></h1></p></body>");
    let html = window.node(0).first_child().unwrap();
    let body = window.node(html).last_child().unwrap();
    let p = window.node(body).first_child().unwrap();
    let kids = children(&window, p);
    assert_eq!(kids.len(), 3);
    assert_eq!(window.node(p).last_child(), Some(kids[2]));
    assert_eq!(window.node(kids[0]).previous_sibling(), None);
    assert_eq!(window.node(kids[1]).previous_sibling(), Some(kids[0]));
    assert_eq!(window.node(kids[2]).previous_sibling(), Some(kids[1]));
    assert_eq!(window.node(kids[2]).next_sibling(), None);
    for k in &kids {
        assert_eq!(window.node(*k).parent(), Some(p));
    }
    assert_eq!(window.node(0).parent(), None);
    assert_eq!(window.len(), 8);
}

#[test]
fn test_an_element_after_text_goes_below_the_text() {
    let window = parse("<body><p>hello<a>link</a></p>tail</body>");
    assert_eq!(
        outline(&window, 0),
        "#document[html[head body[p['hello'[a['link']]] 'tail']]]"
    );
}

#[test]
fn test_blanks_before_text_are_dropped() {
    let window = parse("<body> \n <p> a b </p> </body>");
    assert_eq!(outline(&window, 0), "#document[html[head body[p['a b ']]]]");
}

#[test]
fn test_unknown_tags_and_unmatched_end_tags_are_dropped() {
    let window = parse("<html><head><meta><title>t</title></head><body><div><p>x</p></div></span></h1></body></html>");
    assert_eq!(outline(&window, 0), "#document[html[head body[p['x']]]]");
}

#[test]
fn test_style_and_script_hold_text() {
    let window = parse("<html><head><style>p { color: red; }</style><script>a;</script></head><body></body></html>");
    assert_eq!(
        outline(&window, 0),
        "#document[html[head[style['p { color: red; }'] script['a;']] body]]"
    );
    assert_eq!(get_style_content(&window), "p { color: red; }");
}

#[test]
fn test_a_wrong_end_tag_in_a_style_is_given_back_to_the_head() {
    let window = parse("<style>a</p></style></head><body>b</body>");
    assert_eq!(outline(&window, 0), "#document[html[head[style['a']] body['b']]]");
}

#[test]
fn test_content_after_the_body_reopens_it() {
    let window = parse("<html><head></head><body><p>a</p></body></html><p>b</p>");
    assert_eq!(outline(&window, 0), "#document[html[head body[p['a']] p['b']]]");

    let window = parse("<body><p>a</p></body><p>b</p>");
    assert_eq!(outline(&window, 0), "#document[html[head body[p['a']] p['b']]]");
}

#[test]
fn test_end_of_input_inside_a_tag_ends_the_tree() {
    let window = parse("<html><head></head><body><p>a</p><p");
    assert_eq!(outline(&window, 0), "#document[html[head body[p['a']]]]");
}

#[test]
fn test_leading_characters_are_dropped() {
    let window = parse("xyz<html><head></head><body>t</body></html>");
    assert_eq!(outline(&window, 0), "#document[html[head body['t']]]");
}

#[test]
fn test_attributes_are_kept() {
    let window = parse("<html lang=en><body id=main><a href=\"http://x/\">t</a></body></html>");
    let html = window.node(0).first_child().unwrap();
    assert_eq!(
        window.node(html).kind(),
        elem_node("html", &[Attribute::nv("lang", "en")])
    );
    let body = get_target_element_node(&window, Some(0), ElementKind::Body).unwrap();
    let element = window.node(body).get_element().unwrap();
    assert_eq!(element.get_attribute("id"), Some("main".to_string()));
    assert_eq!(element.get_attribute("class"), None);
    assert!(element.has_attribute("id", "main"));
    assert!(!element.has_attribute("id", "other"));
    assert!(element.is_block_element());
    let a = get_target_element_node(&window, Some(0), ElementKind::A).unwrap();
    let text = window.node(a).first_child().unwrap();
    assert_eq!(get_link_target(&window, text), Some("http://x/".to_string()));
    assert_eq!(get_link_target(&window, a), None);
}

#[test]
fn test_target_element_is_the_first_in_document_order() {
    let window = parse("<body><p><span>1</span></p><span>2</span></body>");
    let span = get_target_element_node(&window, Some(0), ElementKind::Span).unwrap();
    let text = window.node(span).first_child().unwrap();
    assert_eq!(window.node(text).text(), Some("1".to_string()));
    assert_eq!(get_target_element_node(&window, Some(0), ElementKind::H1), None);
    assert_eq!(get_target_element_node(&window, None, ElementKind::Body), None);
    assert_eq!(get_style_content(&window), "");
}

#[test]
fn test_element_kind_names() {
    let names = ["html", "head", "style", "script", "body", "p", "h1", "h2", "a", "span"];
    for name in names {
        let kind = ElementKind::from_str(name).unwrap();
        assert_eq!(kind.to_string(), name);
    }
    assert_eq!(ElementKind::from_str("div"), None);
    assert_eq!(ElementKind::from_str("HTML"), None);
    assert_eq!(ElementKind::from_str("h1"), Some(ElementKind::H1));
}

#[test]
fn test_window_append_child_and_push_text() {
    let mut window = Window::new();
    assert_eq!(window.len(), 1);
    let p = window
        .append_child(0, elem_node("p", &[]))
        .unwrap();
    let t = window.append_child(p, text_node("a")).unwrap();
    let s = window.append_child(p, elem_node("span", &[])).unwrap();
    window.push_text(t, 'b');
    window.push_text(p, 'c');
    assert_eq!((p, t, s), (1, 2, 3));
    assert_eq!(outline(&window, 0), "#document[p['ab' span]]");
    assert_eq!(window.node(p).first_child(), Some(t));
    assert_eq!(window.node(p).last_child(), Some(s));
    assert_eq!(window.node(s).previous_sibling(), Some(t));
    assert_eq!(window.node(t).element_kind(), None);
    assert!(window.node(t).is_text());
    assert_eq!(window.node(s).element_kind(), Some(ElementKind::Span));
}

#[test]
fn test_bare_markup_is_built_as_written() {
    let window = parse("<p><a></a><span><a></a></span></p><h1></h1><h2><p></p></h2>");
    assert_eq!(
        outline(&window, 0),
        "#document[html[head body[p[a span[a]] h1 h2[p]]]]"
    );
    // Nodes are numbered in the order in which they are opened.
    let kinds: Vec<String> = (4..window.len())
        .map(|id| window.node(id).element_kind().unwrap().to_string())
        .collect();
    assert_eq!(kinds, vec!["p", "a", "span", "a", "h1", "h2", "p"]);
    assert_eq!(window.node(3).element_kind(), Some(ElementKind::Body));
    assert_eq!(window.node(7).parent(), Some(6));
}

#[test]
fn test_text_at_the_end_of_an_element_goes_below_it() {
    let window = parse("<p><a>link</a><span></span>x y\n</p><h1>t</h1>");
    assert_eq!(
        outline(&window, 0),
        "#document[html[head body[p[a['link'] span 'x y\n'] h1['t']]]]"
    );
}

#[test]
fn test_whole_document_with_text_and_attributes_is_built_as_written() {
    let window = parse(
        "<html><head></head><body><p class=x>a<a href=u></a>b <span></span></p> \n<h1>t</h1></body></html>",
    );
    // The first text of an element opens a text node; what follows it inside
    // the element goes below that node, and later text is added to it.
    assert_eq!(
        outline(&window, 0),
        "#document[html[head body[p['ab '[a span]] h1['t']]]]"
    );
    let p = 4;
    assert_eq!(
        window.node(p).kind(),
        elem_node("p", &[Attribute::nv("class", "x")])
    );
    let text = window.node(p).first_child().unwrap();
    assert_eq!(children(&window, p), vec![text]);
    let below = children(&window, text);
    assert_eq!(below.len(), 2);
    assert_eq!(
        window.node(below[0]).kind(),
        elem_node("a", &[Attribute::nv("href", "u")])
    );
    assert_eq!(window.node(below[1]).kind(), elem_node("span", &[]));
    assert!(below[0] < below[1]);
    assert_eq!(children(&window, 3), vec![p, below[1] + 1]);
}

#[test]
fn test_self_closing_mark_on_an_element_of_the_body() {
    // The mark does not close the element: the tree is built as if it were
    // not there.
    let window = parse("<body><p/><a></a></p></body>");
    assert_eq!(outline(&window, 0), "#document[html[head body[p[a]]]]");
}

#[test]
fn test_attributes_in_the_three_forms_are_kept_in_their_order() {
    let window = parse(
        "<html lang=\"en\"><head></head><body id='b'><p class=\"A b\" id='B' foo=bar><a href=\"u v\"></a></p></body></html>",
    );
    assert_eq!(outline(&window, 0), "#document[html[head body[p[a]]]]");
    assert_eq!(
        window.node(1).kind(),
        elem_node("html", &[Attribute::nv("lang", "en")])
    );
    assert_eq!(window.node(2).kind(), elem_node("head", &[]));
    assert_eq!(
        window.node(3).kind(),
        elem_node("body", &[Attribute::nv("id", "b")])
    );
    assert_eq!(
        window.node(4).kind(),
        elem_node(
            "p",
            &[
                Attribute::nv("class", "A b"),
                Attribute::nv("id", "B"),
                Attribute::nv("foo", "bar"),
            ]
        )
    );
    assert_eq!(
        window.node(5).kind(),
        elem_node("a", &[Attribute::nv("href", "u v")])
    );
}
