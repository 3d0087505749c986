use saba_core::renderer::html::attribute::Attribute;
use saba_core::renderer::html::token::{HtmlToken, HtmlTokenizer, State};

fn tokens_of(html: &str) -> Vec<HtmlToken> {
    let mut tokenizer = HtmlTokenizer::new(html.to_string());
    let mut tokens = Vec::new();
    while let Some(token) = tokenizer.next() {
        tokens.push(token);
    }
    tokens
}

fn start_tag(tag: &str, self_closing: bool, attributes: Vec<Attribute>) -> HtmlToken {
    HtmlToken::StartTag {
        tag: tag.to_string(),
        self_closing,
        attributes,
    }
}

fn end_tag(tag: &str) -> HtmlToken {
    HtmlToken::EndTag {
        tag: tag.to_string(),
    }
}

#[test]
fn token_test_empty() {
    let html = "".to_string();
    let mut tokenizer = HtmlTokenizer::new(html);
    assert!(tokenizer.next().is_none());
}

#[test]
fn test_start_and_end_tag() {
    let html = "<body></body>".to_string();
    let mut tokenizer = HtmlTokenizer::new(html);

    let expected = [
        HtmlToken::StartTag {
            tag: "body".to_string(),
            self_closing: false,
            attributes: Vec::new(),
        },
        HtmlToken::EndTag {
            tag: "body".to_string(),
        },
    ];
    for e in expected {
        assert_eq!(Some(e), tokenizer.next())
    }
}

#[test]
fn test_attributes() {
    let html = r#"<p class="A" id='B' foo=bar></p>"#.to_string();
    let mut tokenizer = HtmlTokenizer::new(html);
    let attr1 = Attribute::nv("class", "A");
    let attr2 = Attribute::nv("id", "B");
    let attr3 = Attribute::nv("foo", "bar");

    let expected = [
        HtmlToken::StartTag {
            tag: "p".to_string(),
            self_closing: false,
            attributes: vec![attr1, attr2, attr3],
        },
        HtmlToken::EndTag {
            tag: "p".to_string(),
        },
    ];
    for e in expected {
        assert_eq!(Some(e), tokenizer.next());
    }
}

#[test]
fn test_self_closing_tag() {
    let html = r#"<img />"#.to_string();
    let mut tokenizer = HtmlTokenizer::new(html);

    let expected = [HtmlToken::StartTag {
        tag: "img".to_string(),
        self_closing: true,
        attributes: Vec::new(),
    }];
    for e in expected {
        assert_eq!(Some(e), tokenizer.next());
    }
}

#[test]
fn test_script_tag() {
    let html = r#"<script>js code;</script>"#.to_string();
    let mut tokenizer = HtmlTokenizer::new(html);

    let expected = [
        HtmlToken::StartTag {
            tag: "script".to_string(),
            self_closing: false,
            attributes: Vec::new(),
        },
        HtmlToken::Char('j'),
        HtmlToken::Char('s'),
        HtmlToken::Char(' '),
        HtmlToken::Char('c'),
        HtmlToken::Char('o'),
        HtmlToken::Char('d'),
        HtmlToken::Char('e'),
        HtmlToken::Char(';'),
        HtmlToken::EndTag {
            tag: "script".to_string(),
        },
    ];
    for e in expected {
        assert_eq!(Some(e), tokenizer.next());
    }
}

#[test]
fn test_tokens_end_after_the_last_tag() {
    let mut tokenizer = HtmlTokenizer::new("<p></p>".to_string());
    assert_eq!(Some(start_tag("p", false, Vec::new())), tokenizer.next());
    assert_eq!(Some(end_tag("p")), tokenizer.next());
    assert_eq!(None, tokenizer.next());
    assert_eq!(None, tokenizer.next());
}

#[test]
fn test_text_is_one_token_per_character() {
    assert_eq!(
        tokens_of("ab c"),
        vec![
            HtmlToken::Char('a'),
            HtmlToken::Char('b'),
            HtmlToken::Char(' '),
            HtmlToken::Char('c'),
        ]
    );
}

#[test]
fn test_names_are_lower_cased() {
    assert_eq!(
        tokens_of("<P CLASS=Big></P>"),
        vec![
            start_tag("p", false, vec![Attribute::nv("class", "Big")]),
            end_tag("p"),
        ]
    );
}

#[test]
fn test_input_that_ends_inside_a_tag_gives_one_eof() {
    let mut tokenizer = HtmlTokenizer::new("<p".to_string());
    assert_eq!(Some(HtmlToken::Eof), tokenizer.next());
    assert_eq!(None, tokenizer.next());

    let mut tokenizer = HtmlTokenizer::new("a<".to_string());
    assert_eq!(Some(HtmlToken::Char('a')), tokenizer.next());
    assert_eq!(Some(HtmlToken::Eof), tokenizer.next());
    assert_eq!(None, tokenizer.next());

    let mut tokenizer = HtmlTokenizer::new("<p class=\"a".to_string());
    assert_eq!(Some(HtmlToken::Eof), tokenizer.next());
    assert_eq!(None, tokenizer.next());
}

#[test]
fn test_a_lone_less_than_sign_is_dropped() {
    assert_eq!(tokens_of("a< b"), vec![
        HtmlToken::Char('a'),
        HtmlToken::Char(' '),
        HtmlToken::Char('b'),
    ]);
}

#[test]
fn test_attribute_without_value_and_repeated_spaces() {
    assert_eq!(
        tokens_of("<a  href=x   hidden >t"),
        vec![
            start_tag(
                "a",
                false,
                vec![Attribute::nv("href", "x"), Attribute::nv("hidden", "")],
            ),
            HtmlToken::Char('t'),
        ]
    );
}

#[test]
fn test_self_closing_tag_with_attribute() {
    assert_eq!(
        tokens_of("<img src='a.png'/>"),
        vec![start_tag("img", true, vec![Attribute::nv("src", "a.png")])]
    );
}

#[test]
fn test_slash_after_the_tag_name_ends_the_name() {
    assert_eq!(tokens_of("<br/>"), vec![start_tag("br", true, Vec::new())]);
    assert_eq!(
        tokens_of("<p/>x</P/>"),
        vec![start_tag("p", true, Vec::new()), HtmlToken::Char('x'), end_tag("p")]
    );
    assert_eq!(tokens_of("<br/ >"), vec![start_tag("br", true, Vec::new())]);
}

#[test]
fn test_attributes_of_an_end_tag_are_dropped() {
    assert_eq!(tokens_of("</p class=x>"), vec![end_tag("p")]);
}

#[test]
fn test_attribute_accessors() {
    let mut attribute = Attribute::default();
    attribute.add_name_char('i');
    attribute.add_name_char('d');
    attribute.add_value_char('x');
    assert_eq!(attribute.name(), "id");
    assert_eq!(attribute.value(), "x");
    assert_eq!(attribute, Attribute::nv("id", "x"));
    assert_eq!(attribute.duplicate(), attribute);
}

fn script_tokens_of(body: &str) -> Vec<HtmlToken> {
    let mut tokenizer = HtmlTokenizer::new(body.to_string());
    tokenizer.switch_to(State::ScriptData);
    let mut tokens = Vec::new();
    while let Some(token) = tokenizer.next() {
        tokens.push(token);
    }
    tokens
}

fn chars(text: &str) -> Vec<HtmlToken> {
    text.chars().map(HtmlToken::Char).collect()
}

#[test]
fn test_script_data_is_text_up_to_the_end_tag() {
    let mut expected = chars("if (a<b) { x = '<p>'; }");
    expected.push(end_tag("script"));
    expected.push(HtmlToken::Char('t'));
    assert_eq!(script_tokens_of("if (a<b) { x = '<p>'; }</SCRIPT>t"), expected);
}

#[test]
fn test_script_data_is_handed_out_as_it_is_written() {
    assert_eq!(script_tokens_of("a<b"), chars("a<b"));
    assert_eq!(script_tokens_of("a<bc"), chars("a<bc"));
    assert_eq!(script_tokens_of("a<<b"), chars("a<<b"));
    // "</" before something that is no letter is text.
    assert_eq!(script_tokens_of("a</1x"), chars("a</1x"));
    assert_eq!(script_tokens_of("a</1"), chars("a</1"));
    assert_eq!(script_tokens_of("a</</1"), chars("a</</1"));
    // A name that does not end in ">" is text.
    assert_eq!(script_tokens_of("</ab c>"), chars("</ab c>"));
    assert_eq!(script_tokens_of("x</Sc y"), chars("x</Sc y"));
}

#[test]
fn test_only_the_end_tag_of_a_script_ends_script_data() {
    let mut expected = chars("a</b>c</scripts>d");
    expected.push(end_tag("script"));
    expected.push(HtmlToken::Char('e'));
    assert_eq!(script_tokens_of("a</b>c</scripts>d</script>e"), expected);
}

#[test]
fn test_script_data_that_ends_inside_an_end_tag() {
    assert_eq!(script_tokens_of("a<"), vec![HtmlToken::Char('a'), HtmlToken::Eof]);
    assert_eq!(script_tokens_of("a</"), vec![HtmlToken::Char('a'), HtmlToken::Eof]);
    assert_eq!(script_tokens_of("a</s"), vec![HtmlToken::Char('a'), HtmlToken::Eof]);
}
