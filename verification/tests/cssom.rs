use saba_core::renderer::css::cssom::{
    ComponentValue, CssParser, Declaration, QualifiedRule, Selector, StyleSheet,
};
use saba_core::renderer::css::token::{CssToken, CssTokenizer};

fn parse(style: &str) -> StyleSheet {
    let t = CssTokenizer::new(style.to_string());
    CssParser::new(t).parse_stylesheet()
}

fn tokens_of(style: &str) -> Vec<CssToken> {
    let mut t = CssTokenizer::new(style.to_string());
    let mut tokens = Vec::new();
    while let Some(token) = t.next() {
        tokens.push(token);
    }
    tokens
}

fn ident(s: &str) -> CssToken {
    CssToken::Ident(s.to_string())
}

fn declaration(property: &str, value: ComponentValue) -> Declaration {
    let mut declaration = Declaration::default();
    declaration.set_property(property.to_string());
    declaration.set_value(value);
    declaration
}

fn rule(selector: Selector, declarations: Vec<Declaration>) -> QualifiedRule {
    let mut rule = QualifiedRule::default();
    rule.set_selector(selector);
    rule.set_declarations(declarations);
    rule
}

#[test]
fn cssom_test_empty() {
    let style = "".to_string();
    let t = CssTokenizer::new(style);
    let cssom = CssParser::new(t).parse_stylesheet();

    assert_eq!(cssom.rules.len(), 0);
}

#[test]
fn test_one_rule() {
    let style = "p { color: red; }".to_string();
    let t = CssTokenizer::new(style);
    let cssom = CssParser::new(t).parse_stylesheet();

    let mut rule = QualifiedRule::default();
    rule.set_selector(Selector::TypeSelector("p".to_string()));
    let mut declaration = Declaration::default();
    declaration.set_property("color".to_string());
    declaration.set_value(ComponentValue::Ident("red".to_string()));
    rule.set_declarations(vec![declaration]);

    let expected = [rule];
    assert_eq!(cssom.rules.len(), expected.len());
    for (r, e) in cssom.rules.iter().zip(expected.iter()) {
        assert_eq!(r, e);
    }
}

#[test]
fn test_id_selector() {
    let style = "#id { color: red; }".to_string();
    let t = CssTokenizer::new(style);
    let cssom = CssParser::new(t).parse_stylesheet();

    let mut rule = QualifiedRule::default();
    rule.set_selector(Selector::IdSelector("id".to_string()));
    let mut declaration = Declaration::default();
    declaration.set_property("color".to_string());
    declaration.set_value(ComponentValue::Ident("red".to_string()));
    rule.set_declarations(vec![declaration]);

    let expected = [rule];
    assert_eq!(cssom.rules.len(), expected.len());
    for (r, e) in cssom.rules.iter().zip(expected.iter()) {
        assert_eq!(r, e);
    }
}

#[test]
fn test_class_selector() {
    let style = ".class { color: red; }".to_string();
    let t = CssTokenizer::new(style);
    let cssom = CssParser::new(t).parse_stylesheet();

    let mut rule = QualifiedRule::default();
    rule.set_selector(Selector::ClassSelector("class".to_string()));
    let mut declaration = Declaration::default();
    declaration.set_property("color".to_string());
    declaration.set_value(ComponentValue::Ident("red".to_string()));
    rule.set_declarations(vec![declaration]);

    let expected = [rule];
    assert_eq!(cssom.rules.len(), expected.len());
    for (r, e) in cssom.rules.iter().zip(expected.iter()) {
        assert_eq!(r, e);
    }
}

#[test]
fn test_multiple_rule() {
    let style = r#"p { content: "Hey"; } h1 { font-size: 40; color: blue; }"#.to_string();
    let t = CssTokenizer::new(style);
    let cssom = CssParser::new(t).parse_stylesheet();

    let mut rule1 = QualifiedRule::default();
    rule1.set_selector(Selector::TypeSelector("p".to_string()));
    let mut declaration = Declaration::default();
    declaration.set_property("content".to_string());
    declaration.set_value(ComponentValue::StringToken("Hey".to_string()));
    rule1.set_declarations(vec![declaration]);

    let mut rule2 = QualifiedRule::default();
    rule2.set_selector(Selector::TypeSelector("h1".to_string()));
    let mut declaration2 = Declaration::default();
    declaration2.set_property("font-size".to_string());
    declaration2.set_value(ComponentValue::Number("40".to_string()));
    let mut declaration3 = Declaration::default();
    declaration3.set_property("color".to_string());
    declaration3.set_value(ComponentValue::Ident("blue".to_string()));
    rule2.set_declarations(vec![declaration2, declaration3]);

    let expected = [rule1, rule2];
    assert_eq!(cssom.rules.len(), expected.len());
    for (r, e) in cssom.rules.iter().zip(expected.iter()) {
        assert_eq!(r, e);
    }
}

#[test]
fn test_css_tokens() {
    assert_eq!(
        tokens_of("a-b_1 { x: #ff00aa; y: 1.5; } @media .c 'q\"r' -z ,"),
        vec![
            ident("a-b_1"),
            CssToken::OpenCurly,
            ident("x"),
            CssToken::Colon,
            CssToken::HashToken("#ff00aa".to_string()),
            CssToken::SemiColon,
            ident("y"),
            CssToken::Colon,
            CssToken::Number("1.5".to_string()),
            CssToken::SemiColon,
            CssToken::CloseCurly,
            CssToken::AtKeyword("media".to_string()),
            CssToken::Delim('.'),
            ident("c"),
            CssToken::StringToken("q".to_string()),
            ident("r"),
            CssToken::StringToken(" -z ,".to_string()),
        ]
    );
}

#[test]
fn test_css_tokens_at_the_end_of_the_text() {
    assert_eq!(tokens_of("   \n "), Vec::<CssToken>::new());
    assert_eq!(tokens_of("ab"), vec![ident("ab")]);
    assert_eq!(tokens_of("12"), vec![CssToken::Number("12".to_string())]);
    assert_eq!(tokens_of("'ab"), vec![CssToken::StringToken("ab".to_string())]);
    assert_eq!(tokens_of("@"), vec![CssToken::Delim('@')]);
    assert_eq!(tokens_of("@1"), vec![CssToken::Delim('@'), CssToken::Number("1".to_string())]);
    assert_eq!(tokens_of("#"), vec![CssToken::HashToken("#".to_string())]);
    assert_eq!(tokens_of("(%)"), vec![CssToken::Delim('('), CssToken::Delim('%'), CssToken::Delim(')')]);
    assert_eq!(ident("x").duplicate(), ident("x"));
}

#[test]
fn test_css_collect_gives_the_tokens_that_next_gives() {
    let text = "p { color: red; } .c { display: none }";
    let mut t = CssTokenizer::new(text.to_string());
    assert_eq!(t.collect(), tokens_of(text));
    assert_eq!(t.next(), None);
}

#[test]
fn test_pseudo_class_is_skipped() {
    let sheet = parse("a:hover { color: red; } .c:first-child { color: blue } #i:x y { color: green }");
    assert_eq!(
        sheet.rules,
        vec![
            rule(
                Selector::TypeSelector("a".to_string()),
                vec![declaration("color", ident("red"))]
            ),
            rule(
                Selector::ClassSelector("c".to_string()),
                vec![declaration("color", ident("blue"))]
            ),
            rule(
                Selector::IdSelector("i".to_string()),
                vec![declaration("color", ident("green"))]
            ),
        ]
    );
}

#[test]
fn test_at_rule_is_dropped() {
    let sheet = parse("@import url; @media screen { color: red; } p { color: blue; }");
    assert_eq!(
        sheet.rules,
        vec![rule(
            Selector::TypeSelector("p".to_string()),
            vec![declaration("color", ident("blue"))]
        )]
    );
}

#[test]
fn test_malformed_declarations_are_dropped() {
    let sheet = parse("p { color red; display: block; margin; : x; background-color: #fff }");
    assert_eq!(
        sheet.rules,
        vec![rule(
            Selector::TypeSelector("p".to_string()),
            vec![
                declaration("display", ident("block")),
                declaration("background-color", CssToken::HashToken("#fff".to_string())),
            ]
        )]
    );
}

#[test]
fn test_rule_without_block_is_dropped() {
    assert_eq!(parse("p").rules, Vec::<QualifiedRule>::new());
    assert_eq!(parse("p { color: red; } h1").rules.len(), 1);
    assert_eq!(parse("p { color:").rules, vec![rule(Selector::TypeSelector("p".to_string()), vec![])]);
    assert_eq!(parse("p { color").rules, vec![rule(Selector::TypeSelector("p".to_string()), vec![])]);
}

#[test]
fn test_last_selector_before_the_block_stays() {
    let sheet = parse("p h1 { } . { } .a.b { } 5 p { } * { }");
    let selectors: Vec<Selector> = sheet.rules.iter().map(|r| r.selector.clone()).collect();
    assert_eq!(
        selectors,
        vec![
            Selector::TypeSelector("h1".to_string()),
            Selector::UnknownSelector,
            Selector::ClassSelector("b".to_string()),
            Selector::UnknownSelector,
            Selector::UnknownSelector,
        ]
    );
}

#[test]
fn test_defaults_and_setters() {
    let rule = QualifiedRule::default();
    assert_eq!(rule.selector, Selector::TypeSelector("".to_string()));
    assert!(rule.declarations.is_empty());
    let declaration = Declaration::default();
    assert_eq!(declaration.property, "");
    assert_eq!(declaration.value, ident(""));
    let mut sheet = StyleSheet::default();
    assert!(sheet.rules.is_empty());
    sheet.set_rules(vec![rule.clone()]);
    assert_eq!(sheet.rules, vec![rule]);
    assert_eq!(declaration.duplicate(), declaration);
    assert_eq!(Selector::UnknownSelector.duplicate(), Selector::UnknownSelector);
}
