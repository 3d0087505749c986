//! The CSS parser: reads the tokens of a style sheet into its rules.

use vstd::prelude::*;

use crate::renderer::css::token::{
    is_name, lemma_name_is_lexed, lemma_tokens_from, lex, tokens_from, CssToken, CssTokenView,
    CssTokenizer,
};
use crate::text::{chars_of, string_of_range, views};

verus! {

/// The value of a declaration is one token.
pub type ComponentValue = CssToken;

#[derive(Debug, Clone, PartialEq, Eq)]
pub enum Selector {
    TypeSelector(String),
    ClassSelector(String),
    IdSelector(String),
    UnknownSelector,
}

pub enum SelectorView {
    TypeSelector(Seq<char>),
    ClassSelector(Seq<char>),
    IdSelector(Seq<char>),
    UnknownSelector,
}

impl View for Selector {
    type V = SelectorView;

    open spec fn view(&self) -> SelectorView {
        match *self {
            Selector::TypeSelector(s) => SelectorView::TypeSelector(s@),
            Selector::ClassSelector(s) => SelectorView::ClassSelector(s@),
            Selector::IdSelector(s) => SelectorView::IdSelector(s@),
            Selector::UnknownSelector => SelectorView::UnknownSelector,
        }
    }
}

impl Selector {
    /// A copy of this selector.
    pub fn duplicate(&self) -> (s: Self)
        ensures
            s@ == self@,
    {
        match self {
            Selector::TypeSelector(s) => Selector::TypeSelector(s.clone()),
            Selector::ClassSelector(s) => Selector::ClassSelector(s.clone()),
            Selector::IdSelector(s) => Selector::IdSelector(s.clone()),
            Selector::UnknownSelector => Selector::UnknownSelector,
        }
    }
}

#[derive(Debug, Clone, PartialEq, Eq)]
pub struct Declaration {
    pub property: String,
    pub value: ComponentValue,
}

pub struct DeclarationView {
    pub property: Seq<char>,
    pub value: CssTokenView,
}

impl View for Declaration {
    type V = DeclarationView;

    open spec fn view(&self) -> DeclarationView {
        DeclarationView { property: self.property@, value: self.value@ }
    }
}

impl Default for Declaration {
    fn default() -> (d: Self)
        ensures
            d@ == (DeclarationView {
                property: Seq::empty(),
                value: CssTokenView::Ident(Seq::empty()),
            }),
    {
        Declaration { property: String::new(), value: CssToken::Ident(String::new()) }
    }
}

impl Declaration {
    pub fn set_property(&mut self, property: String)
        ensures
            final(self)@ == (DeclarationView { property: property@, ..old(self)@ }),
    {
        self.property = property;
    }

    pub fn set_value(&mut self, value: ComponentValue)
        ensures
            final(self)@ == (DeclarationView { value: value@, ..old(self)@ }),
    {
        self.value = value;
    }

    /// A copy of this declaration.
    pub fn duplicate(&self) -> (d: Self)
        ensures
            d@ == self@,
    {
        Declaration { property: self.property.clone(), value: self.value.duplicate() }
    }
}

/// A copy of a list of declarations.
pub fn duplicate_declarations(declarations: &Vec<Declaration>) -> (copy: Vec<Declaration>)
    ensures
        views(copy@) == views(declarations@),
{
    let mut copy: Vec<Declaration> = Vec::new();
    let mut i: usize = 0;
    while i < declarations.len()
        invariant
            i <= declarations@.len(),
            copy@.len() == i,
            forall|k: int| 0 <= k < i ==> (#[trigger] copy@[k])@ == declarations@[k]@,
        decreases declarations@.len() - i,
    {
        copy.push(declarations[i].duplicate());
        i += 1;
    }
    assert(views(copy@) =~= views(declarations@));
    copy
}

#[derive(Debug, Clone, PartialEq, Eq)]
pub struct QualifiedRule {
    pub selector: Selector,
    pub declarations: Vec<Declaration>,
}

pub struct QualifiedRuleView {
    pub selector: SelectorView,
    pub declarations: Seq<DeclarationView>,
}

impl View for QualifiedRule {
    type V = QualifiedRuleView;

    open spec fn view(&self) -> QualifiedRuleView {
        QualifiedRuleView { selector: self.selector@, declarations: views(self.declarations@) }
    }
}

impl Default for QualifiedRule {
    fn default() -> (r: Self)
        ensures
            r@ == (QualifiedRuleView {
                selector: SelectorView::TypeSelector(Seq::empty()),
                declarations: Seq::empty(),
            }),
    {
        let r = QualifiedRule {
            selector: Selector::TypeSelector(String::new()),
            declarations: Vec::new(),
        };
        assert(views(r.declarations@) =~= Seq::<DeclarationView>::empty());
        r
    }
}

impl QualifiedRule {
    pub fn set_selector(&mut self, selector: Selector)
        ensures
            final(self)@ == (QualifiedRuleView { selector: selector@, ..old(self)@ }),
    {
        self.selector = selector;
    }

    pub fn set_declarations(&mut self, declarations: Vec<Declaration>)
        ensures
            final(self)@ == (QualifiedRuleView {
                declarations: views(declarations@),
                ..old(self)@
            }),
    {
        self.declarations = declarations;
    }
}

#[derive(Debug, Clone, PartialEq, Eq)]
pub struct StyleSheet {
    pub rules: Vec<QualifiedRule>,
}

/// A style sheet is its rules in the order in which they were written.
pub struct StyleSheetView {
    pub rules: Seq<QualifiedRuleView>,
}

impl View for StyleSheet {
    type V = StyleSheetView;

    open spec fn view(&self) -> StyleSheetView {
        StyleSheetView { rules: views(self.rules@) }
    }
}

impl Default for StyleSheet {
    fn default() -> (s: Self)
        ensures
            s@ == (StyleSheetView { rules: Seq::empty() }),
    {
        let s = StyleSheet { rules: Vec::new() };
        assert(views(s.rules@) =~= Seq::<QualifiedRuleView>::empty());
        s
    }
}

impl StyleSheet {
    pub fn set_rules(&mut self, rules: Vec<QualifiedRule>)
        ensures
            final(self)@ == (StyleSheetView { rules: views(rules@) }),
    {
        self.rules = rules;
    }
}

/// What was read, and the place behind it.
pub struct Parsed<T> {
    pub value: T,
    pub pos: int,
}

/// The place of the first `{` from `from` on, or the end of the tokens.
pub open spec fn block_start(tokens: Seq<CssTokenView>, from: int) -> int
    decreases tokens.len() - from,
{
    if 0 <= from < tokens.len() && !(tokens[from as int] is OpenCurly) {
        block_start(tokens, from + 1)
    } else {
        from
    }
}

/// Behind a selector: a colon starts a pseudo-class, which is skipped with
/// all that follows it up to the `{`.
pub open spec fn after_pseudo_class(tokens: Seq<CssTokenView>, pos: int) -> int {
    if 0 <= pos < tokens.len() && tokens[pos as int] is Colon {
        block_start(tokens, pos)
    } else {
        pos
    }
}

/// The name of an id selector: the hash token without its `#`.
pub open spec fn id_name(hash: Seq<char>) -> Seq<char> {
    if hash.len() > 0 {
        hash.drop_first()
    } else {
        hash
    }
}

/// The selector that the token at `pos` stands for, and the place behind
/// it. A name is a type selector, a hash token an id selector, a dot before
/// a name a class selector; an at-keyword is skipped with all up to the `{`;
/// any other token is skipped together with the one that follows it.
pub open spec fn selector_at(tokens: Seq<CssTokenView>, pos: int) -> Parsed<SelectorView> {
    match tokens[pos as int] {
        CssTokenView::HashToken(v) => Parsed {
            value: SelectorView::IdSelector(id_name(v)),
            pos: after_pseudo_class(tokens, pos + 1),
        },
        CssTokenView::Delim(c) => {
            if c == '.' && pos + 1 < tokens.len() && tokens[pos + 1] is Ident {
                Parsed {
                    value: SelectorView::ClassSelector(tokens[pos + 1]->Ident_0),
                    pos: after_pseudo_class(tokens, pos + 2),
                }
            } else {
                Parsed { value: SelectorView::UnknownSelector, pos: pos + 1 }
            }
        },
        CssTokenView::Ident(name) => Parsed {
            value: SelectorView::TypeSelector(name),
            pos: after_pseudo_class(tokens, pos + 1),
        },
        CssTokenView::AtKeyword(_) => Parsed {
            value: SelectorView::UnknownSelector,
            pos: block_start(tokens, pos + 1),
        },
        _ => Parsed {
            value: SelectorView::UnknownSelector,
            pos: if pos + 2 <= tokens.len() {
                pos + 2
            } else {
                pos + 1
            },
        },
    }
}

/// The declaration that starts with the name at `pos`: the name, a colon
/// and one token as the value. Without the colon or the value there is no
/// declaration, and what was read is dropped.
pub open spec fn declaration_at(tokens: Seq<CssTokenView>, pos: int) -> Parsed<
    Option<DeclarationView>,
> {
    if pos + 1 >= tokens.len() {
        Parsed { value: None, pos: pos + 1 }
    } else if !(tokens[pos + 1] is Colon) || pos + 2 >= tokens.len() {
        Parsed { value: None, pos: pos + 2 }
    } else {
        Parsed {
            value: Some(
                DeclarationView { property: tokens[pos as int]->Ident_0, value: tokens[pos + 2] },
            ),
            pos: pos + 3,
        }
    }
}

/// The declarations from `pos` up to the `}` that closes the block, or to
/// the end of the tokens.
pub open spec fn declarations_at(tokens: Seq<CssTokenView>, pos: int) -> Parsed<
    Seq<DeclarationView>,
>
    decreases tokens.len() - pos,
{
    if pos < 0 || pos >= tokens.len() {
        Parsed { value: Seq::empty(), pos }
    } else {
        match tokens[pos as int] {
            CssTokenView::CloseCurly => Parsed { value: Seq::empty(), pos: pos + 1 },
            CssTokenView::Ident(_) => {
                let first = declaration_at(tokens, pos);
                let rest = declarations_at(tokens, first.pos);
                match first.value {
                    Some(d) => Parsed { value: seq![d] + rest.value, pos: rest.pos },
                    None => rest,
                }
            },
            _ => declarations_at(tokens, pos + 1),
        }
    }
}

/// The rule from `pos` on, with `selector` as what was read of it so far:
/// every token before the `{` is read as a selector, of which the last one
/// stays; the block of declarations follows. There is no rule where the
/// tokens end before a `{`.
pub open spec fn rule_at(tokens: Seq<CssTokenView>, pos: int, selector: SelectorView) -> Parsed<
    Option<QualifiedRuleView>,
>
    decreases tokens.len() - pos,
{
    if pos < 0 || pos >= tokens.len() {
        Parsed { value: None, pos }
    } else if tokens[pos as int] is OpenCurly {
        let block = declarations_at(tokens, pos + 1);
        Parsed {
            value: Some(QualifiedRuleView { selector, declarations: block.value }),
            pos: block.pos,
        }
    } else {
        let s = selector_at(tokens, pos);
        proof {
            lemma_selector_advances(tokens, pos);
        }
        rule_at(tokens, s.pos, s.value)
    }
}

/// The rules from `pos` on. A rule that starts with an at-keyword is read
/// and dropped.
pub open spec fn rules_at(tokens: Seq<CssTokenView>, pos: int) -> Seq<QualifiedRuleView>
    decreases tokens.len() - pos,
{
    if pos < 0 || pos >= tokens.len() {
        Seq::empty()
    } else {
        let rule = rule_at(tokens, pos, SelectorView::TypeSelector(Seq::empty()));
        proof {
            lemma_rule_advances(tokens, pos, SelectorView::TypeSelector(Seq::empty()));
        }
        if tokens[pos as int] is AtKeyword {
            rules_at(tokens, rule.pos)
        } else {
            match rule.value {
                Some(r) => seq![r] + rules_at(tokens, rule.pos),
                None => Seq::empty(),
            }
        }
    }
}

/// The style sheet that a text stands for.
pub open spec fn stylesheet_of(css: Seq<char>) -> StyleSheetView {
    StyleSheetView { rules: rules_at(tokens_from(css, 0), 0) }
}

pub proof fn lemma_block_start(tokens: Seq<CssTokenView>, from: int)
    requires
        0 <= from <= tokens.len(),
    ensures
        from <= block_start(tokens, from) <= tokens.len(),
        block_start(tokens, from) < tokens.len() ==> tokens[block_start(
            tokens,
            from,
        ) as int] is OpenCurly,
    decreases tokens.len() - from,
{
    if from < tokens.len() && !(tokens[from as int] is OpenCurly) {
        lemma_block_start(tokens, from + 1);
    }
}

/// A selector takes at least one token and ends within the tokens.
pub proof fn lemma_selector_advances(tokens: Seq<CssTokenView>, pos: int)
    requires
        0 <= pos < tokens.len(),
    ensures
        pos < selector_at(tokens, pos).pos <= tokens.len(),
{
    lemma_block_start(tokens, pos + 1);
    if pos + 2 <= tokens.len() {
        lemma_block_start(tokens, pos + 2);
    }
}

/// A block of declarations ends within the tokens, behind its start unless
/// the tokens have ended.
pub proof fn lemma_declarations_advance(tokens: Seq<CssTokenView>, pos: int)
    requires
        0 <= pos <= tokens.len(),
    ensures
        pos <= declarations_at(tokens, pos).pos <= tokens.len(),
    decreases tokens.len() - pos,
{
    if pos < tokens.len() {
        match tokens[pos as int] {
            CssTokenView::CloseCurly => {},
            CssTokenView::Ident(_) => {
                let first = declaration_at(tokens, pos);
                if first.pos <= tokens.len() {
                    lemma_declarations_advance(tokens, first.pos);
                }
            },
            _ => {
                lemma_declarations_advance(tokens, pos + 1);
            },
        }
    }
}

/// A rule takes at least one token and ends within the tokens.
pub proof fn lemma_rule_advances(tokens: Seq<CssTokenView>, pos: int, selector: SelectorView)
    requires
        0 <= pos < tokens.len(),
    ensures
        pos < rule_at(tokens, pos, selector).pos <= tokens.len(),
    decreases tokens.len() - pos,
{
    if tokens[pos as int] is OpenCurly {
        lemma_declarations_advance(tokens, pos + 1);
    } else {
        let s = selector_at(tokens, pos);
        lemma_selector_advances(tokens, pos);
        if s.pos < tokens.len() {
            lemma_rule_advances(tokens, s.pos, s.value);
        } else {
            assert(rule_at(tokens, s.pos, s.value).pos == s.pos);
        }
        assert(rule_at(tokens, pos, selector) == rule_at(tokens, s.pos, s.value));
    }
}

/// A rule that is written as a name, `{`, a property, `:`, a value, `;`
/// and `}` is read as one rule: its selector is the type selector of the
/// name, and its one declaration gives the property the value. The rules
/// that follow it come behind it, in their order.
pub proof fn lemma_one_declaration_rule(
    name: Seq<char>,
    property: Seq<char>,
    value: CssTokenView,
    rest: Seq<CssTokenView>,
)
    ensures
        ({
            let tokens = seq![
                CssTokenView::Ident(name),
                CssTokenView::OpenCurly,
                CssTokenView::Ident(property),
                CssTokenView::Colon,
                value,
                CssTokenView::SemiColon,
                CssTokenView::CloseCurly,
            ] + rest;
            let rule = QualifiedRuleView {
                selector: SelectorView::TypeSelector(name),
                declarations: seq![DeclarationView { property, value }],
            };
            rules_at(tokens, 0) == seq![rule] + rules_at(tokens, 7)
        }),
{
    let tokens = seq![
        CssTokenView::Ident(name),
        CssTokenView::OpenCurly,
        CssTokenView::Ident(property),
        CssTokenView::Colon,
        value,
        CssTokenView::SemiColon,
        CssTokenView::CloseCurly,
    ] + rest;
    assert(tokens[0] == CssTokenView::Ident(name));
    assert(tokens[1] == CssTokenView::OpenCurly);
    assert(tokens[2] == CssTokenView::Ident(property));
    assert(tokens[3] == CssTokenView::Colon);
    assert(tokens[4] == value);
    assert(tokens[5] == CssTokenView::SemiColon);
    assert(tokens[6] == CssTokenView::CloseCurly);
    let start = SelectorView::TypeSelector(Seq::empty());
    assert(declarations_at(tokens, 6).value =~= Seq::<DeclarationView>::empty());
    assert(declarations_at(tokens, 6).pos == 7);
    assert(declarations_at(tokens, 5) == declarations_at(tokens, 6));
    assert(declaration_at(tokens, 2).pos == 5);
    assert(declarations_at(tokens, 2).value =~= seq![DeclarationView { property, value }]);
    assert(declarations_at(tokens, 2).pos == 7);
    assert(selector_at(tokens, 0).pos == 1);
    assert(rule_at(tokens, 1, SelectorView::TypeSelector(name)).pos == 7);
    assert(rule_at(tokens, 0, start) == rule_at(tokens, 1, SelectorView::TypeSelector(name)));
}

/// A style sheet that is written as `name { property: value; }` with
/// three names is one rule: its selector is the type selector of the
/// first name, and its one declaration gives the property the value.
pub proof fn lemma_one_rule_sheet(name: Seq<char>, property: Seq<char>, value: Seq<char>)
    requires
        is_name(name),
        is_name(property),
        is_name(value),
    ensures
        stylesheet_of(
            name + seq![' ', '{', ' '] + property + seq![':', ' '] + value + seq![';', ' ', '}'],
        ) == (StyleSheetView {
            rules: seq![
                QualifiedRuleView {
                    selector: SelectorView::TypeSelector(name),
                    declarations: seq![
                        DeclarationView { property, value: CssTokenView::Ident(value) },
                    ],
                },
            ],
        }),
{
    let css = name + seq![' ', '{', ' '] + property + seq![':', ' '] + value + seq![
        ';',
        ' ',
        '}',
    ];
    let n = name.len() as int;
    let p = property.len() as int;
    let v = value.len() as int;
    let a = n + 3;
    let b = a + p + 2;
    let c = b + v;
    assert(css.len() == c + 3);
    assert(css.subrange(0, n) =~= name);
    assert(css[n] == ' ' && css[n + 1] == '{' && css[n + 2] == ' ');
    assert(css.subrange(a, a + p) =~= property);
    assert(css[a + p] == ':' && css[a + p + 1] == ' ');
    assert(css.subrange(b, c) =~= value);
    assert(css[c] == ';' && css[c + 1] == ' ' && css[c + 2] == '}');
    lemma_name_is_lexed(css, 0, name);
    lemma_name_is_lexed(css, a as nat, property);
    lemma_name_is_lexed(css, b as nat, value);
    assert(lex(css, n as nat) == lex(css, (n + 1) as nat));
    assert(lex(css, (n + 2) as nat) == lex(css, a as nat));
    assert(lex(css, (a + p + 1) as nat) == lex(css, b as nat));
    assert(lex(css, (c + 1) as nat) == lex(css, (c + 2) as nat));
    assert(lex(css, (c + 3) as nat).token is None);
    lemma_tokens_from(css, 0);
    lemma_tokens_from(css, n as nat);
    lemma_tokens_from(css, (n + 2) as nat);
    lemma_tokens_from(css, (a + p) as nat);
    lemma_tokens_from(css, (a + p + 1) as nat);
    lemma_tokens_from(css, c as nat);
    lemma_tokens_from(css, (c + 1) as nat);
    lemma_tokens_from(css, (c + 3) as nat);
    let tokens = seq![
        CssTokenView::Ident(name),
        CssTokenView::OpenCurly,
        CssTokenView::Ident(property),
        CssTokenView::Colon,
        CssTokenView::Ident(value),
        CssTokenView::SemiColon,
        CssTokenView::CloseCurly,
    ];
    assert(tokens_from(css, (c + 3) as nat) =~= Seq::<CssTokenView>::empty());
    assert(tokens_from(css, (c + 1) as nat) =~= seq![CssTokenView::CloseCurly]);
    assert(tokens_from(css, c as nat) =~= seq![CssTokenView::SemiColon, CssTokenView::CloseCurly]);
    assert(tokens_from(css, (a + p + 1) as nat) =~= seq![
        CssTokenView::Ident(value),
        CssTokenView::SemiColon,
        CssTokenView::CloseCurly,
    ]);
    assert(tokens_from(css, (a + p) as nat) =~= seq![
        CssTokenView::Colon,
        CssTokenView::Ident(value),
        CssTokenView::SemiColon,
        CssTokenView::CloseCurly,
    ]);
    assert(tokens_from(css, (n + 2) as nat) =~= seq![
        CssTokenView::Ident(property),
        CssTokenView::Colon,
        CssTokenView::Ident(value),
        CssTokenView::SemiColon,
        CssTokenView::CloseCurly,
    ]);
    assert(tokens_from(css, n as nat) =~= seq![
        CssTokenView::OpenCurly,
        CssTokenView::Ident(property),
        CssTokenView::Colon,
        CssTokenView::Ident(value),
        CssTokenView::SemiColon,
        CssTokenView::CloseCurly,
    ]);
    assert(tokens_from(css, 0) =~= tokens);
    lemma_one_declaration_rule(
        name,
        property,
        CssTokenView::Ident(value),
        Seq::<CssTokenView>::empty(),
    );
    assert(tokens + Seq::<CssTokenView>::empty() =~= tokens);
    assert(rules_at(tokens, 7) =~= Seq::<QualifiedRuleView>::empty());
}

/// The rules of a style sheet keep their order: where the tokens start
/// with a rule that is no at-rule, that rule comes first, and the rules of
/// the tokens behind it follow.
pub proof fn lemma_rules_in_order(tokens: Seq<CssTokenView>, pos: int)
    requires
        0 <= pos < tokens.len(),
        !(tokens[pos] is AtKeyword),
        rule_at(tokens, pos, SelectorView::TypeSelector(Seq::empty())).value is Some,
    ensures
        rules_at(tokens, pos) == seq![
            rule_at(tokens, pos, SelectorView::TypeSelector(Seq::empty())).value->0,
        ] + rules_at(
            tokens,
            rule_at(tokens, pos, SelectorView::TypeSelector(Seq::empty())).pos,
        ),
{
}

/// The parser as a mathematical value: the tokens and the place of the one
/// that is read next.
pub struct CssParserView {
    pub tokens: Seq<CssTokenView>,
    pub pos: int,
}

#[derive(Debug)]
pub struct CssParser {
    tokens: Vec<CssToken>,
    pos: usize,
}

impl View for CssParser {
    type V = CssParserView;

    closed spec fn view(&self) -> CssParserView {
        CssParserView { tokens: views(self.tokens@), pos: self.pos as int }
    }
}

impl CssParser {
    /// What holds of every parser: the place of the next token is within
    /// the tokens, or just behind them.
    #[verifier::type_invariant]
    spec fn inv(self) -> bool {
        self.pos <= self.tokens@.len()
    }

    /// A parser over the tokens that `t` has left.
    pub fn new(t: CssTokenizer) -> (p: Self)
        ensures
            p@ == (CssParserView { tokens: tokens_from(t@.input, t@.pos), pos: 0 }),
    {
        let mut t = t;
        CssParser { tokens: t.collect(), pos: 0 }
    }

    /// The rules of the style sheet, in the order in which they are written.
    pub fn parse_stylesheet(&mut self) -> (sheet: StyleSheet)
        ensures
            sheet@ == (StyleSheetView { rules: rules_at(old(self)@.tokens, old(self)@.pos) }),
    {
        proof {
            use_type_invariant(&*self);
        }
        let mut sheet = StyleSheet::default();
        let rules = self.consume_list_of_rules();
        sheet.set_rules(rules);
        sheet
    }

    /// Moves to the next token.
    fn advance(&mut self)
        requires
            old(self)@.pos < old(self)@.tokens.len(),
        ensures
            final(self)@.tokens == old(self)@.tokens,
            final(self)@.pos == old(self)@.pos + 1,
    {
        proof {
            use_type_invariant(&*self);
        }
        let len = self.tokens.len();
        self.pos += 1;
    }

    /// Whether a token is left.
    fn has_token(&self) -> (r: bool)
        ensures
            r == (self@.pos < self@.tokens.len()),
    {
        proof {
            use_type_invariant(&*self);
        }
        self.pos < self.tokens.len()
    }

    fn consume_list_of_rules(&mut self) -> (rules: Vec<QualifiedRule>)
        ensures
            final(self)@.tokens == old(self)@.tokens,
            views(rules@) == rules_at(old(self)@.tokens, old(self)@.pos),
    {
        proof {
            use_type_invariant(&*self);
        }
        let mut rules: Vec<QualifiedRule> = Vec::new();
        assert(views(rules@) =~= Seq::<QualifiedRuleView>::empty());
        loop
            invariant
                self@.tokens == old(self)@.tokens,
                views(rules@) + rules_at(self@.tokens, self@.pos) == rules_at(
                    old(self)@.tokens,
                    old(self)@.pos,
                ),
            decreases self@.tokens.len() - self@.pos,
        {
            proof {
                use_type_invariant(&*self);
            }
            let ghost before = self@;
            let ghost collected = views(rules@);
            if !self.has_token() {
                assert(collected + Seq::<QualifiedRuleView>::empty() =~= collected);
                return rules;
            }
            proof {
                lemma_rule_advances(
                    before.tokens,
                    before.pos,
                    SelectorView::TypeSelector(Seq::empty()),
                );
            }
            let is_at_rule = match &self.tokens[self.pos] {
                CssToken::AtKeyword(_) => true,
                _ => false,
            };
            let rule = self.consume_qualified_rule();
            if !is_at_rule {
                match rule {
                    Some(r) => {
                        rules.push(r);
                        assert(views(rules@) =~= collected.push(r@));
                        assert(collected.push(r@) + rules_at(self@.tokens, self@.pos) =~= collected
                            + rules_at(before.tokens, before.pos));
                    },
                    None => {
                        assert(collected + Seq::<QualifiedRuleView>::empty() =~= collected);
                        return rules;
                    },
                }
            }
        }
    }

    fn consume_qualified_rule(&mut self) -> (rule: Option<QualifiedRule>)
        ensures
            final(self)@.tokens == old(self)@.tokens,
            final(self)@.pos == rule_at(
                old(self)@.tokens,
                old(self)@.pos,
                SelectorView::TypeSelector(Seq::empty()),
            ).pos,
            rule_view(rule) == rule_at(
                old(self)@.tokens,
                old(self)@.pos,
                SelectorView::TypeSelector(Seq::empty()),
            ).value,
    {
        proof {
            use_type_invariant(&*self);
        }
        let mut rule = QualifiedRule::default();
        loop
            invariant
                self@.tokens == old(self)@.tokens,
                rule@.declarations == Seq::<DeclarationView>::empty(),
                rule_at(self@.tokens, self@.pos, rule@.selector) == rule_at(
                    old(self)@.tokens,
                    old(self)@.pos,
                    SelectorView::TypeSelector(Seq::empty()),
                ),
            decreases self@.tokens.len() - self@.pos,
        {
            proof {
                use_type_invariant(&*self);
            }
            if !self.has_token() {
                return None;
            }
            let is_open = match &self.tokens[self.pos] {
                CssToken::OpenCurly => true,
                _ => false,
            };
            if is_open {
                self.advance();
                rule.set_declarations(self.consume_list_of_declarations());
                return Some(rule);
            }
            proof {
                lemma_selector_advances(self@.tokens, self@.pos);
            }
            rule.set_selector(self.consume_selector());
        }
    }

    /// Moves on to the next `{`, or to the end of the tokens.
    fn skip_to_block(&mut self)
        ensures
            final(self)@.tokens == old(self)@.tokens,
            final(self)@.pos == block_start(old(self)@.tokens, old(self)@.pos),
    {
        proof {
            use_type_invariant(&*self);
        }
        loop
            invariant
                self@.tokens == old(self)@.tokens,
                block_start(self@.tokens, self@.pos) == block_start(
                    old(self)@.tokens,
                    old(self)@.pos,
                ),
            decreases self@.tokens.len() - self@.pos,
        {
            proof {
                use_type_invariant(&*self);
            }
            if !self.has_token() {
                return ;
            }
            match &self.tokens[self.pos] {
                CssToken::OpenCurly => {
                    return ;
                },
                _ => {},
            }
            self.advance();
        }
    }

    /// Skips a pseudo-class, if one starts here.
    fn skip_pseudo_class(&mut self)
        ensures
            final(self)@.tokens == old(self)@.tokens,
            final(self)@.pos == after_pseudo_class(old(self)@.tokens, old(self)@.pos),
    {
        proof {
            use_type_invariant(&*self);
        }
        if self.has_token() {
            let is_colon = match &self.tokens[self.pos] {
                CssToken::Colon => true,
                _ => false,
            };
            if is_colon {
                self.skip_to_block();
            }
        }
    }

    fn consume_selector(&mut self) -> (selector: Selector)
        requires
            old(self)@.pos < old(self)@.tokens.len(),
        ensures
            final(self)@.tokens == old(self)@.tokens,
            final(self)@.pos == selector_at(old(self)@.tokens, old(self)@.pos).pos,
            selector@ == selector_at(old(self)@.tokens, old(self)@.pos).value,
    {
        proof {
            use_type_invariant(&*self);
        }
        let token = self.tokens[self.pos].duplicate();
        self.advance();
        match token {
            CssToken::HashToken(v) => {
                let chars = chars_of(v.as_str());
                let name = if chars.len() > 0 {
                    let n = string_of_range(&chars, 1, chars.len());
                    assert(chars@.subrange(1, chars@.len() as int) =~= chars@.drop_first());
                    n
                } else {
                    v
                };
                self.skip_pseudo_class();
                Selector::IdSelector(name)
            },
            CssToken::Delim(delim) => {
                if delim == '.' && self.has_token() {
                    let is_ident = match &self.tokens[self.pos] {
                        CssToken::Ident(_) => true,
                        _ => false,
                    };
                    if is_ident {
                        let name = self.consume_ident();
                        self.skip_pseudo_class();
                        return Selector::ClassSelector(name);
                    }
                }
                Selector::UnknownSelector
            },
            CssToken::Ident(ident) => {
                self.skip_pseudo_class();
                Selector::TypeSelector(ident)
            },
            CssToken::AtKeyword(_) => {
                self.skip_to_block();
                Selector::UnknownSelector
            },
            _ => {
                if self.has_token() {
                    self.advance();
                }
                Selector::UnknownSelector
            },
        }
    }

    fn consume_list_of_declarations(&mut self) -> (declarations: Vec<Declaration>)
        ensures
            final(self)@.tokens == old(self)@.tokens,
            final(self)@.pos == declarations_at(old(self)@.tokens, old(self)@.pos).pos,
            views(declarations@) == declarations_at(old(self)@.tokens, old(self)@.pos).value,
    {
        proof {
            use_type_invariant(&*self);
        }
        let mut declarations: Vec<Declaration> = Vec::new();
        assert(views(declarations@) =~= Seq::<DeclarationView>::empty());
        loop
            invariant
                self@.tokens == old(self)@.tokens,
                declarations_at(self@.tokens, self@.pos).pos == declarations_at(
                    old(self)@.tokens,
                    old(self)@.pos,
                ).pos,
                views(declarations@) + declarations_at(self@.tokens, self@.pos).value
                    == declarations_at(old(self)@.tokens, old(self)@.pos).value,
            decreases self@.tokens.len() - self@.pos,
        {
            proof {
                use_type_invariant(&*self);
            }
            let ghost before = self@;
            let ghost collected = views(declarations@);
            if !self.has_token() {
                assert(collected + Seq::<DeclarationView>::empty() =~= collected);
                return declarations;
            }
            let kind: u8 = match &self.tokens[self.pos] {
                CssToken::CloseCurly => 0,
                CssToken::Ident(_) => 1,
                _ => 2,
            };
            if kind == 0 {
                self.advance();
                assert(collected + Seq::<DeclarationView>::empty() =~= collected);
                return declarations;
            } else if kind == 1 {
                match self.consume_declaration() {
                    Some(d) => {
                        declarations.push(d);
                        assert(views(declarations@) =~= collected.push(d@));
                        assert(collected.push(d@) + declarations_at(self@.tokens, self@.pos).value
                            =~= collected + declarations_at(before.tokens, before.pos).value);
                    },
                    None => {},
                }
            } else {
                self.advance();
            }
        }
    }

    fn consume_declaration(&mut self) -> (declaration: Option<Declaration>)
        requires
            old(self)@.pos < old(self)@.tokens.len(),
            old(self)@.tokens[old(self)@.pos] is Ident,
        ensures
            final(self)@.tokens == old(self)@.tokens,
            old(self)@.pos < final(self)@.pos,
            final(self)@.pos == declaration_at(old(self)@.tokens, old(self)@.pos).pos
                || final(self)@.pos == final(self)@.tokens.len(),
            declaration_view(declaration) == declaration_at(
                old(self)@.tokens,
                old(self)@.pos,
            ).value,
            declarations_at(final(self)@.tokens, final(self)@.pos) == declarations_at(
                old(self)@.tokens,
                declaration_at(old(self)@.tokens, old(self)@.pos).pos,
            ),
    {
        proof {
            use_type_invariant(&*self);
        }
        let mut declaration = Declaration::default();
        declaration.set_property(self.consume_ident());
        if !self.has_token() {
            return None;
        }
        let is_colon = match &self.tokens[self.pos] {
            CssToken::Colon => true,
            _ => false,
        };
        self.advance();
        if !is_colon || !self.has_token() {
            return None;
        }
        declaration.set_value(self.consume_component_value());
        Some(declaration)
    }

    fn consume_ident(&mut self) -> (ident: String)
        requires
            old(self)@.pos < old(self)@.tokens.len(),
            old(self)@.tokens[old(self)@.pos] is Ident,
        ensures
            final(self)@.tokens == old(self)@.tokens,
            final(self)@.pos == old(self)@.pos + 1,
            ident@ == old(self)@.tokens[old(self)@.pos]->Ident_0,
    {
        proof {
            use_type_invariant(&*self);
        }
        let ident = match &self.tokens[self.pos] {
            CssToken::Ident(ident) => ident.clone(),
            _ => String::new(),
        };
        self.advance();
        ident
    }

    fn consume_component_value(&mut self) -> (value: ComponentValue)
        requires
            old(self)@.pos < old(self)@.tokens.len(),
        ensures
            final(self)@.tokens == old(self)@.tokens,
            final(self)@.pos == old(self)@.pos + 1,
            value@ == old(self)@.tokens[old(self)@.pos],
    {
        proof {
            use_type_invariant(&*self);
        }
        let value = self.tokens[self.pos].duplicate();
        self.advance();
        value
    }
}

/// The view of a rule that may be absent.
pub open spec fn rule_view(rule: Option<QualifiedRule>) -> Option<QualifiedRuleView> {
    match rule {
        Some(r) => Some(r@),
        None => None,
    }
}

/// The view of a declaration that may be absent.
pub open spec fn declaration_view(declaration: Option<Declaration>) -> Option<DeclarationView> {
    match declaration {
        Some(d) => Some(d@),
        None => None,
    }
}

} // verus!
