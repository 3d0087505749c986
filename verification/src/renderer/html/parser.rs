//! The HTML tree constructor: a state machine over tokens, one state per
//! insertion mode, that builds the document tree.

use vstd::prelude::*;

use crate::renderer::dom::node::{
    DomView, Element, ElementKind, ElementView, NodeId, NodeKind, NodeKindView, Window,
};
use crate::renderer::html::attribute::{duplicate_attributes, Attribute, AttributeView};
use crate::renderer::html::token::{
    token_view, HtmlToken, HtmlTokenView, HtmlTokenizer, TokenizerView,
};
use crate::text::views;

verus! {

#[derive(Debug, Clone, Copy, PartialEq, Eq, Structural)]
pub enum InsertionMode {
    Initial,
    BeforeHtml,
    BeforeHead,
    InHead,
    AfterHead,
    InBody,
    Text,
    AfterBody,
    AfterAfterBody,
}

/// What becomes of a token after one turn of the machine.
#[derive(Debug, Clone, Copy, PartialEq, Eq, Structural)]
pub enum Verdict {
    /// The token is used up: the next one is fetched.
    Next,
    /// The mode has changed and the same token is handled once more.
    Again,
    /// The tree is complete.
    Done,
}

/// The state of tree construction as a mathematical value.
pub struct BuilderView {
    pub dom: DomView,
    pub mode: InsertionMode,
    /// The mode to return to from `Text`.
    pub original_mode: InsertionMode,
    /// The open elements, the innermost last.
    pub stack: Seq<NodeId>,
}

/// A builder and what it said of the token that it was given.
pub struct Turn {
    pub builder: BuilderView,
    pub verdict: Verdict,
}

impl BuilderView {
    pub open spec fn initial() -> BuilderView {
        BuilderView {
            dom: DomView::empty(),
            mode: InsertionMode::Initial,
            original_mode: InsertionMode::Initial,
            stack: Seq::empty(),
        }
    }

    pub open spec fn wf(self) -> bool {
        &&& self.dom.wf()
        &&& forall|i: int| 0 <= i < self.stack.len() ==> self.dom.has(#[trigger] self.stack[i])
        &&& (self.original_mode == InsertionMode::Initial || self.original_mode
            == InsertionMode::InHead)
    }

    /// The node that new nodes are added to: the innermost open element, or
    /// the document where none is open.
    pub open spec fn current(self) -> NodeId {
        if self.stack.len() > 0 {
            self.stack.last()
        } else {
            0
        }
    }

    pub open spec fn with_mode(self, mode: InsertionMode) -> BuilderView {
        BuilderView { mode, ..self }
    }

    pub open spec fn next(self) -> Turn {
        Turn { builder: self, verdict: Verdict::Next }
    }

    pub open spec fn again(self) -> Turn {
        Turn { builder: self, verdict: Verdict::Again }
    }

    pub open spec fn done(self) -> Turn {
        Turn { builder: self, verdict: Verdict::Done }
    }

    /// A new node of the given kind becomes the last child of the current
    /// node and the innermost open element. (An arena that is full takes no
    /// further node.)
    pub open spec fn node_inserted(self, kind: NodeKindView) -> BuilderView {
        if self.dom.nodes.len() >= usize::MAX {
            self
        } else {
            BuilderView {
                dom: self.dom.appended(self.current(), kind),
                stack: self.stack.push(self.dom.nodes.len() as usize),
                ..self
            }
        }
    }

    pub open spec fn element_inserted(
        self,
        kind: ElementKind,
        attributes: Seq<AttributeView>,
    ) -> BuilderView {
        self.node_inserted(NodeKindView::Element(ElementView { kind, attributes }))
    }

    /// A character token arrives: it is added to the text that is open;
    /// else, unless it is a space or a line feed, it starts a new text node,
    /// which becomes the innermost open node. With nothing open it is
    /// dropped.
    pub open spec fn char_inserted(self, c: char) -> BuilderView {
        if self.stack.len() == 0 {
            self
        } else if self.dom.nodes[self.current() as int].kind is Text {
            BuilderView { dom: self.dom.text_pushed(self.current(), c), ..self }
        } else if c == ' ' || c == '\n' {
            self
        } else {
            self.node_inserted(NodeKindView::Text(seq![c]))
        }
    }

    /// The kind of the element at place `i` of the stack.
    pub open spec fn kind_at(self, i: int) -> Option<ElementKind> {
        self.dom.nodes[self.stack[i] as int].kind.element_kind()
    }

    /// Whether an element of this kind is open.
    pub open spec fn contains(self, kind: ElementKind) -> bool {
        exists|i: int| 0 <= i < self.stack.len() && #[trigger] self.kind_at(i) == Some(kind)
    }

    /// The innermost open node is closed, if it is an element of this kind.
    pub open spec fn current_popped(self, kind: ElementKind) -> BuilderView {
        if self.current_is(kind) {
            BuilderView { stack: self.stack.drop_last(), ..self }
        } else {
            self
        }
    }

    pub open spec fn current_is(self, kind: ElementKind) -> bool {
        self.stack.len() > 0 && self.kind_at(self.stack.len() - 1) == Some(kind)
    }

    /// What is left of the stack when open nodes are closed from the
    /// innermost outwards, up to and with the first element of this kind.
    pub open spec fn left_open(self, kind: ElementKind) -> Seq<NodeId>
        decreases self.stack.len(),
    {
        if self.stack.len() == 0 {
            self.stack
        } else if self.current_is(kind) {
            self.stack.drop_last()
        } else {
            (BuilderView { stack: self.stack.drop_last(), ..self }).left_open(kind)
        }
    }

    /// Open nodes are closed from the innermost outwards, up to and with the
    /// first element of this kind.
    pub open spec fn popped_until(self, kind: ElementKind) -> BuilderView {
        BuilderView { stack: self.left_open(kind), ..self }
    }

    /// As `popped_until`, where an element of this kind is open; else
    /// nothing is closed.
    pub open spec fn closed(self, kind: ElementKind) -> BuilderView {
        if self.contains(kind) {
            self.popped_until(kind)
        } else {
            self
        }
    }
}

pub open spec fn is_blank(c: char) -> bool {
    c == ' ' || c == '\n'
}

/// The elements that may stand in a body.
pub open spec fn is_body_content(kind: ElementKind) -> bool {
    kind == ElementKind::P || kind == ElementKind::H1 || kind == ElementKind::H2 || kind
        == ElementKind::A || kind == ElementKind::Span
}

/// `Initial`: characters are dropped; anything else starts the document.
pub open spec fn in_initial(b: BuilderView, token: HtmlTokenView) -> Turn {
    match token {
        HtmlTokenView::Char(_) => b.next(),
        _ => b.with_mode(InsertionMode::BeforeHtml).again(),
    }
}

/// `BeforeHtml`: an `html` start tag opens the root element; without one the
/// root element is made up.
pub open spec fn in_before_html(b: BuilderView, token: HtmlTokenView) -> Turn {
    match token {
        HtmlTokenView::Char(c) if is_blank(c) => b.next(),
        HtmlTokenView::StartTag { tag, self_closing, attributes } if ElementKind::named(tag)
            == Some(ElementKind::Html) => b.element_inserted(
            ElementKind::Html,
            attributes,
        ).with_mode(InsertionMode::BeforeHead).next(),
        HtmlTokenView::Eof => b.done(),
        _ => b.element_inserted(ElementKind::Html, Seq::empty()).with_mode(
            InsertionMode::BeforeHead,
        ).again(),
    }
}

/// `BeforeHead`: as `BeforeHtml`, for the `head` element.
pub open spec fn in_before_head(b: BuilderView, token: HtmlTokenView) -> Turn {
    match token {
        HtmlTokenView::Char(c) if is_blank(c) => b.next(),
        HtmlTokenView::StartTag { tag, self_closing, attributes } if ElementKind::named(tag)
            == Some(ElementKind::Head) => b.element_inserted(
            ElementKind::Head,
            attributes,
        ).with_mode(InsertionMode::InHead).next(),
        HtmlTokenView::Eof => b.done(),
        _ => b.element_inserted(ElementKind::Head, Seq::empty()).with_mode(
            InsertionMode::InHead,
        ).again(),
    }
}

/// `InHead`: `style` and `script` open an element whose content is text;
/// any other known element, and the end tag of `head`, end the head; the
/// rest is dropped.
pub open spec fn in_head(b: BuilderView, token: HtmlTokenView) -> Turn {
    match token {
        HtmlTokenView::Char(c) => if is_blank(c) {
            b.char_inserted(c).next()
        } else {
            b.next()
        },
        HtmlTokenView::StartTag { tag, self_closing, attributes } => match ElementKind::named(
            tag,
        ) {
            Some(kind) => if kind == ElementKind::Style || kind == ElementKind::Script {
                let opened = b.element_inserted(kind, attributes);
                BuilderView {
                    original_mode: b.mode,
                    mode: InsertionMode::Text,
                    ..opened
                }.next()
            } else {
                b.closed(ElementKind::Head).with_mode(InsertionMode::AfterHead).again()
            },
            None => b.next(),
        },
        HtmlTokenView::EndTag { tag } => if ElementKind::named(tag) == Some(ElementKind::Head) {
            b.closed(ElementKind::Head).with_mode(InsertionMode::AfterHead).next()
        } else {
            b.next()
        },
        HtmlTokenView::Eof => b.done(),
    }
}

/// `AfterHead`: as `BeforeHtml`, for the `body` element.
pub open spec fn in_after_head(b: BuilderView, token: HtmlTokenView) -> Turn {
    match token {
        HtmlTokenView::Char(c) if is_blank(c) => b.char_inserted(c).next(),
        HtmlTokenView::StartTag { tag, self_closing, attributes } if ElementKind::named(tag)
            == Some(ElementKind::Body) => b.element_inserted(
            ElementKind::Body,
            attributes,
        ).with_mode(InsertionMode::InBody).next(),
        HtmlTokenView::Eof => b.done(),
        _ => b.element_inserted(ElementKind::Body, Seq::empty()).with_mode(
            InsertionMode::InBody,
        ).again(),
    }
}

/// `InBody`: the elements that may stand in a body are opened and closed;
/// characters become text; the end tags of `body` and `html` end the body;
/// the rest is dropped. An end tag whose element is not open is dropped.
pub open spec fn in_body(b: BuilderView, token: HtmlTokenView) -> Turn {
    match token {
        HtmlTokenView::StartTag { tag, self_closing, attributes } => match ElementKind::named(
            tag,
        ) {
            Some(kind) if is_body_content(kind) => b.element_inserted(kind, attributes).next(),
            _ => b.next(),
        },
        HtmlTokenView::EndTag { tag } => match ElementKind::named(tag) {
            Some(ElementKind::Body) => b.closed(ElementKind::Body).with_mode(
                InsertionMode::AfterBody,
            ).next(),
            Some(ElementKind::Html) => if b.current_is(ElementKind::Body) {
                b.current_popped(ElementKind::Body).current_popped(ElementKind::Html).with_mode(
                    InsertionMode::AfterBody,
                ).again()
            } else {
                b.next()
            },
            Some(kind) if is_body_content(kind) => b.closed(kind).next(),
            _ => b.next(),
        },
        HtmlTokenView::Eof => b.done(),
        HtmlTokenView::Char(c) => b.char_inserted(c).next(),
    }
}

/// `Text`: characters are collected until the end tag of `style` or
/// `script`; anything else is handed back to the mode that was left.
pub open spec fn in_text(b: BuilderView, token: HtmlTokenView) -> Turn {
    match token {
        HtmlTokenView::Eof => b.done(),
        HtmlTokenView::EndTag { tag } => match ElementKind::named(tag) {
            Some(kind) if kind == ElementKind::Style || kind == ElementKind::Script => b.closed(
                kind,
            ).with_mode(b.original_mode).next(),
            _ => b.with_mode(b.original_mode).again(),
        },
        HtmlTokenView::Char(c) => b.char_inserted(c).next(),
        _ => b.with_mode(b.original_mode).again(),
    }
}

/// `AfterBody`: characters are dropped; the end tag of `html` ends the
/// document; anything else reopens the body.
pub open spec fn in_after_body(b: BuilderView, token: HtmlTokenView) -> Turn {
    match token {
        HtmlTokenView::Char(_) => b.next(),
        HtmlTokenView::EndTag { tag } if ElementKind::named(tag) == Some(ElementKind::Html) =>
            b.with_mode(InsertionMode::AfterAfterBody).next(),
        HtmlTokenView::Eof => b.done(),
        _ => b.with_mode(InsertionMode::InBody).again(),
    }
}

/// `AfterAfterBody`: characters are dropped; anything else reopens the body.
pub open spec fn in_after_after_body(b: BuilderView, token: HtmlTokenView) -> Turn {
    match token {
        HtmlTokenView::Char(_) => b.next(),
        HtmlTokenView::Eof => b.done(),
        _ => b.with_mode(InsertionMode::InBody).again(),
    }
}

/// The transition function of the tree constructor: what one token does to
/// the builder in its current mode.
pub open spec fn process(b: BuilderView, token: HtmlTokenView) -> Turn {
    match b.mode {
        InsertionMode::Initial => in_initial(b, token),
        InsertionMode::BeforeHtml => in_before_html(b, token),
        InsertionMode::BeforeHead => in_before_head(b, token),
        InsertionMode::InHead => in_head(b, token),
        InsertionMode::AfterHead => in_after_head(b, token),
        InsertionMode::InBody => in_body(b, token),
        InsertionMode::Text => in_text(b, token),
        InsertionMode::AfterBody => in_after_body(b, token),
        InsertionMode::AfterAfterBody => in_after_after_body(b, token),
    }
}

/// How many more turns a token can take in a row, by the mode that it
/// meets: the measure by which a run of mode changes ends.
pub open spec fn mode_rank(mode: InsertionMode, token: Option<HtmlTokenView>) -> nat {
    let closes_html = match token {
        Some(HtmlTokenView::EndTag { tag }) => ElementKind::named(tag) == Some(ElementKind::Html),
        _ => false,
    };
    match mode {
        InsertionMode::Text => 9,
        InsertionMode::Initial => 8,
        InsertionMode::BeforeHtml => 7,
        InsertionMode::BeforeHead => 6,
        InsertionMode::InHead => 5,
        InsertionMode::AfterHead => 4,
        InsertionMode::AfterAfterBody => 3,
        InsertionMode::InBody => if closes_html {
            2
        } else {
            0
        },
        InsertionMode::AfterBody => 1,
    }
}

/// One turn keeps the builder well formed.
pub proof fn lemma_process_wf(b: BuilderView, token: HtmlTokenView)
    requires
        b.wf(),
    ensures
        process(b, token).builder.wf(),
        process(b, token).verdict == Verdict::Again ==> mode_rank(
            process(b, token).builder.mode,
            Some(token),
        ) < mode_rank(b.mode, Some(token)),
{
    lemma_inserted_wf(b);
    lemma_closed_wf(b);
    assert forall|k: ElementKind| #[trigger] b.current_popped(k).current_popped(ElementKind::Html).wf() by {
        lemma_closed_wf(b.current_popped(k));
    }
}

/// Inserting a node keeps the builder well formed.
pub proof fn lemma_inserted_wf(b: BuilderView)
    requires
        b.wf(),
    ensures
        forall|kind: NodeKindView| !(kind is Document) ==> (#[trigger] b.node_inserted(kind)).wf(),
        forall|c: char| (#[trigger] b.char_inserted(c)).wf(),
{
    assert forall|kind: NodeKindView| !(kind is Document) implies (#[trigger] b.node_inserted(
        kind,
    )).wf() by {
        if b.dom.nodes.len() < usize::MAX {
            b.dom.lemma_appended_wf(b.current(), kind);
        }
    }
    assert forall|c: char| (#[trigger] b.char_inserted(c)).wf() by {
        if b.stack.len() > 0 {
            b.dom.lemma_text_pushed_wf(b.current(), c);
        }
    }
}

/// Closing open nodes keeps the builder well formed.
pub proof fn lemma_closed_wf(b: BuilderView)
    requires
        b.wf(),
    ensures
        forall|kind: ElementKind| (#[trigger] b.popped_until(kind)).wf(),
        forall|kind: ElementKind| (#[trigger] b.closed(kind)).wf(),
        forall|kind: ElementKind| (#[trigger] b.current_popped(kind)).wf(),
    decreases b.stack.len(),
{
    if b.stack.len() > 0 {
        let rest = BuilderView { stack: b.stack.drop_last(), ..b };
        assert forall|i: int| 0 <= i < rest.stack.len() implies rest.dom.has(
            #[trigger] rest.stack[i],
        ) by {
            assert(rest.stack[i] == b.stack[i]);
        }
        lemma_closed_wf(rest);
        assert forall|kind: ElementKind| (#[trigger] b.popped_until(kind)).wf() by {
            if !b.current_is(kind) {
                assert(b.popped_until(kind) == rest.popped_until(kind));
            }
        }
    }
}

/// Closing an element closes the innermost open element of its kind and
/// everything that was opened after it: what is left open is the stack
/// below the last place that holds an element of the kind.
pub proof fn lemma_left_open_is_below_innermost(b: BuilderView, kind: ElementKind, place: int)
    requires
        0 <= place < b.stack.len(),
        b.kind_at(place) == Some(kind),
        forall|i: int| place < i < b.stack.len() ==> b.kind_at(i) != Some(kind),
    ensures
        b.contains(kind),
        b.closed(kind).stack == b.stack.take(place),
        b.closed(kind).dom == b.dom,
    decreases b.stack.len(),
{
    assert(b.kind_at(place) == Some(kind));
    if place == b.stack.len() - 1 {
        assert(b.stack.drop_last() =~= b.stack.take(place));
    } else {
        let rest = BuilderView { stack: b.stack.drop_last(), ..b };
        assert(rest.kind_at(place) == b.kind_at(place));
        assert forall|i: int| place < i < rest.stack.len() implies rest.kind_at(i) != Some(
            kind,
        ) by {
            assert(rest.kind_at(i) == b.kind_at(i));
        }
        lemma_left_open_is_below_innermost(rest, kind, place);
        assert(rest.stack.take(place) =~= b.stack.take(place));
    }
}

/// In a body, a start tag and the end tag that follows it make one
/// element: it is the last child of the node that was current, behind the
/// children that were there, and after the end tag the open elements are
/// those that were open before.
pub proof fn lemma_element_opened_and_closed(
    b: BuilderView,
    kind: ElementKind,
    attributes: Seq<AttributeView>,
    self_closing: bool,
)
    requires
        b.wf(),
        b.mode == InsertionMode::InBody,
        is_body_content(kind),
        b.dom.nodes.len() < usize::MAX,
    ensures
        ({
            let start = HtmlTokenView::StartTag { tag: kind.name(), self_closing, attributes };
            let end = HtmlTokenView::EndTag { tag: kind.name() };
            let opened = process(b, start).builder;
            let closed = process(opened, end).builder;
            let element = NodeKindView::Element(ElementView { kind, attributes });
            &&& process(b, start).verdict == Verdict::Next
            &&& process(opened, end).verdict == Verdict::Next
            &&& opened.current() == b.dom.nodes.len()
            &&& closed.stack == b.stack
            &&& closed.mode == InsertionMode::InBody
            &&& closed.dom == b.dom.appended(b.current(), element)
            &&& closed.dom.children(b.current()) == b.dom.children(b.current()).push(
                b.dom.nodes.len() as usize,
            )
            &&& closed.dom.nodes[b.dom.nodes.len() as int].kind == element
        }),
{
    ElementKind::lemma_named_iff_name(kind.name(), kind);
    let element = NodeKindView::Element(ElementView { kind, attributes });
    let opened = b.element_inserted(kind, attributes);
    b.dom.lemma_appended_children(b.current(), element);
    let place = b.stack.len() as int;
    assert(opened.stack.take(place) =~= b.stack);
    lemma_left_open_is_below_innermost(opened, kind, place);
}

/// The tree that construction ends with, from a builder, the tokenizer
/// behind it and the token at hand (none: the input is exhausted).
pub open spec fn finished(
    b: BuilderView,
    tokenizer: TokenizerView,
    token: Option<HtmlTokenView>,
) -> DomView
    decreases
        tokenizer.pending(),
        tokenizer.rank(),
        tokenizer.registers.buf.len(),
        (if token is Some {
            1nat
        } else {
            0nat
        }),
        mode_rank(b.mode, token),
    when b.wf() && tokenizer.wf()
{
    match token {
        None => b.dom,
        Some(t) => {
            let turn = process(b, t);
            match turn.verdict {
                Verdict::Done => turn.builder.dom,
                Verdict::Again => {
                    proof {
                        lemma_process_wf(b, t);
                    }
                    finished(turn.builder, tokenizer, token)
                },
                Verdict::Next => {
                    proof {
                        lemma_process_wf(b, t);
                        if !tokenizer.exhausted() {
                            tokenizer.lemma_run_progress();
                        }
                    }
                    finished(turn.builder, tokenizer.next().1, tokenizer.next().0)
                },
            }
        },
    }
}

/// One turn of construction, spelled out.
pub proof fn lemma_finished_unfold(b: BuilderView, tokenizer: TokenizerView, token: HtmlTokenView)
    requires
        b.wf(),
        tokenizer.wf(),
    ensures
        process(b, token).builder.wf(),
        tokenizer.next().1.wf(),
        finished(b, tokenizer, Some(token)) == match process(b, token).verdict {
            Verdict::Done => process(b, token).builder.dom,
            Verdict::Again => finished(process(b, token).builder, tokenizer, Some(token)),
            Verdict::Next => finished(
                process(b, token).builder,
                tokenizer.next().1,
                tokenizer.next().0,
            ),
        },
{
    lemma_process_wf(b, token);
    if !tokenizer.exhausted() {
        tokenizer.lemma_run_progress();
    }
}

/// The tree that construction ends with is well formed.
pub proof fn lemma_finished_wf(b: BuilderView, tokenizer: TokenizerView, token: Option<HtmlTokenView>)
    requires
        b.wf(),
        tokenizer.wf(),
    ensures
        finished(b, tokenizer, token).wf(),
    decreases
        tokenizer.pending(),
        tokenizer.rank(),
        tokenizer.registers.buf.len(),
        (if token is Some {
            1nat
        } else {
            0nat
        }),
        mode_rank(b.mode, token),
{
    match token {
        None => {},
        Some(t) => {
            lemma_finished_unfold(b, tokenizer, t);
            let turn = process(b, t);
            match turn.verdict {
                Verdict::Done => {},
                Verdict::Again => {
                    lemma_process_wf(b, t);
                    lemma_finished_wf(turn.builder, tokenizer, token);
                },
                Verdict::Next => {
                    if !tokenizer.exhausted() {
                        tokenizer.lemma_run_progress();
                    }
                    lemma_finished_wf(turn.builder, tokenizer.next().1, tokenizer.next().0);
                },
            }
        },
    }
}

/// The tree that is built from a document.
///
/// What this tree is for a document of well-formed markup is stated in the
/// module `markup`: each start tag becomes one element with its kind and
/// its attributes, below the node in which it is written, and the
/// children of a node stand in the order in which they are written
/// (`lemma_whole_document_is_built_as_written`,
/// `lemma_document_tokens_are_built`, `lemma_planted_children`).
pub open spec fn document_tree(html: Seq<char>) -> DomView {
    let tokenizer = TokenizerView::initial(html);
    finished(BuilderView::initial(), tokenizer.next().1, tokenizer.next().0)
}

/// Whatever the document, its tree is well formed.
pub proof fn lemma_document_tree_wf(html: Seq<char>)
    ensures
        document_tree(html).wf(),
{
    let tokenizer = TokenizerView::initial(html);
    let b = BuilderView::initial();
    assert(b.dom.links_agree(0));
    if !tokenizer.exhausted() {
        tokenizer.lemma_run_progress();
    }
    lemma_finished_wf(b, tokenizer.next().1, tokenizer.next().0);
}

/// The parser as a mathematical value: the state of tree construction and
/// the tokenizer that feeds it.
pub struct ParserView {
    pub builder: BuilderView,
    pub tokenizer: TokenizerView,
}

#[derive(Debug, Clone)]
pub struct HtmlParser {
    window: Window,
    mode: InsertionMode,
    original_mode: InsertionMode,
    stack_of_open_elements: Vec<NodeId>,
    t: HtmlTokenizer,
}

impl View for HtmlParser {
    type V = ParserView;

    closed spec fn view(&self) -> ParserView {
        ParserView {
            builder: BuilderView {
                dom: self.window@,
                mode: self.mode,
                original_mode: self.original_mode,
                stack: self.stack_of_open_elements@,
            },
            tokenizer: self.t@,
        }
    }
}

impl HtmlParser {
    /// What holds of every parser that `new` made.
    pub closed spec fn wf(&self) -> bool {
        self@.builder.wf() && self.t.wf()
    }

    pub fn new(t: HtmlTokenizer) -> (p: Self)
        requires
            t.wf(),
        ensures
            p.wf(),
            p@ == (ParserView { builder: BuilderView::initial(), tokenizer: t@ }),
    {
        HtmlParser {
            window: Window::new(),
            mode: InsertionMode::Initial,
            original_mode: InsertionMode::Initial,
            stack_of_open_elements: Vec::new(),
            t,
        }
    }

    /// Reads the document to its end and returns the tree: the tree that
    /// `finished` gives for the tokens of the document. Of a document of
    /// well-formed markup the module `markup` states that this is the tree
    /// that is written.
    pub fn construct_tree(self) -> (w: Window)
        requires
            self.wf(),
        ensures
            w@.wf(),
            w@ == finished(self@.builder, self@.tokenizer.next().1, self@.tokenizer.next().0),
    {
        let mut parser = self;
        let ghost start = parser@;
        proof {
            parser.t.lemma_wf_view();
            if !start.tokenizer.exhausted() {
                start.tokenizer.lemma_run_progress();
            }
        }
        let mut token = parser.t.next();
        let ghost goal = finished(start.builder, parser@.tokenizer, token_view(token));
        loop
            invariant
                parser.wf(),
                parser@.tokenizer.wf(),
                goal == finished(self@.builder, self@.tokenizer.next().1, self@.tokenizer.next().0),
                finished(parser@.builder, parser@.tokenizer, token_view(token)) == goal,
            decreases
                parser@.tokenizer.pending(),
                parser@.tokenizer.rank(),
                parser@.tokenizer.registers.buf.len(),
                (if token is Some {
                    1nat
                } else {
                    0nat
                }),
                mode_rank(parser@.builder.mode, token_view(token)),
        {
            let ghost before = parser@;
            let t = match token {
                None => {
                    assert(finished(before.builder, before.tokenizer, None) == before.builder.dom);
                    return parser.window;
                },
                Some(t) => t,
            };
            proof {
                lemma_process_wf(before.builder, t@);
            }
            let verdict = parser.process(&t);
            assert(before.builder.wf());
            assert(before.tokenizer.wf());
            assert(parser@.tokenizer == before.tokenizer);
            assert(process(before.builder, t@).builder == parser@.builder);
            assert(process(before.builder, t@).verdict == verdict);
            proof {
                lemma_finished_unfold(before.builder, before.tokenizer, t@);
            }
            match verdict {
                Verdict::Done => {
                    return parser.window;
                },
                Verdict::Again => {
                    token = Some(t);
                },
                Verdict::Next => {
                    proof {
                        if !before.tokenizer.exhausted() {
                            before.tokenizer.lemma_run_progress();
                        }
                    }
                    token = parser.t.next();
                },
            }
        }
    }

    /// One turn of the machine on `token`, as `process` says.
    fn process(&mut self, token: &HtmlToken) -> (verdict: Verdict)
        requires
            old(self).wf(),
        ensures
            final(self).wf(),
            final(self).t == old(self).t,
            (Turn { builder: final(self)@.builder, verdict }) == process(
                old(self)@.builder,
                token@,
            ),
    {
        proof {
            lemma_process_wf(self@.builder, token@);
        }
        match self.mode {
            InsertionMode::Initial => self.in_initial(token),
            InsertionMode::BeforeHtml => self.in_before_html(token),
            InsertionMode::BeforeHead => self.in_before_head(token),
            InsertionMode::InHead => self.in_head(token),
            InsertionMode::AfterHead => self.in_after_head(token),
            InsertionMode::InBody => self.in_body(token),
            InsertionMode::Text => self.in_text(token),
            InsertionMode::AfterBody => self.in_after_body(token),
            InsertionMode::AfterAfterBody => self.in_after_after_body(token),
        }
    }

    fn in_initial(&mut self, token: &HtmlToken) -> (verdict: Verdict)
        ensures
            final(self).t == old(self).t,
            (Turn { builder: final(self)@.builder, verdict }) == in_initial(
                old(self)@.builder,
                token@,
            ),
    {
        match token {
            HtmlToken::Char(_) => Verdict::Next,
            _ => {
                self.mode = InsertionMode::BeforeHtml;
                Verdict::Again
            },
        }
    }

    fn in_before_html(&mut self, token: &HtmlToken) -> (verdict: Verdict)
        requires
            old(self)@.builder.wf(),
        ensures
            final(self).t == old(self).t,
            (Turn { builder: final(self)@.builder, verdict }) == in_before_html(
                old(self)@.builder,
                token@,
            ),
    {
        match token {
            HtmlToken::Char(c) => {
                if *c == ' ' || *c == '\n' {
                    return Verdict::Next;
                }
            },
            HtmlToken::StartTag { tag, self_closing: _, attributes } => {
                if let Some(ElementKind::Html) = ElementKind::from_str(tag.as_str()) {
                    self.insert_element(ElementKind::Html, duplicate_attributes(attributes));
                    self.mode = InsertionMode::BeforeHead;
                    return Verdict::Next;
                }
            },
            HtmlToken::Eof => {
                return Verdict::Done;
            },
            _ => {},
        }
        let attributes: Vec<Attribute> = Vec::new();
        assert(views(attributes@) =~= Seq::<AttributeView>::empty());
        self.insert_element(ElementKind::Html, attributes);
        self.mode = InsertionMode::BeforeHead;
        Verdict::Again
    }

    fn in_before_head(&mut self, token: &HtmlToken) -> (verdict: Verdict)
        requires
            old(self)@.builder.wf(),
        ensures
            final(self).t == old(self).t,
            (Turn { builder: final(self)@.builder, verdict }) == in_before_head(
                old(self)@.builder,
                token@,
            ),
    {
        match token {
            HtmlToken::Char(c) => {
                if *c == ' ' || *c == '\n' {
                    return Verdict::Next;
                }
            },
            HtmlToken::StartTag { tag, self_closing: _, attributes } => {
                if let Some(ElementKind::Head) = ElementKind::from_str(tag.as_str()) {
                    self.insert_element(ElementKind::Head, duplicate_attributes(attributes));
                    self.mode = InsertionMode::InHead;
                    return Verdict::Next;
                }
            },
            HtmlToken::Eof => {
                return Verdict::Done;
            },
            _ => {},
        }
        let attributes: Vec<Attribute> = Vec::new();
        assert(views(attributes@) =~= Seq::<AttributeView>::empty());
        self.insert_element(ElementKind::Head, attributes);
        self.mode = InsertionMode::InHead;
        Verdict::Again
    }

    fn in_head(&mut self, token: &HtmlToken) -> (verdict: Verdict)
        requires
            old(self)@.builder.wf(),
        ensures
            final(self).t == old(self).t,
            (Turn { builder: final(self)@.builder, verdict }) == in_head(
                old(self)@.builder,
                token@,
            ),
    {
        match token {
            HtmlToken::Char(c) => {
                if *c == ' ' || *c == '\n' {
                    self.insert_char(*c);
                }
                Verdict::Next
            },
            HtmlToken::StartTag { tag, self_closing: _, attributes } => {
                match ElementKind::from_str(tag.as_str()) {
                    Some(ElementKind::Style) => {
                        self.insert_element(ElementKind::Style, duplicate_attributes(attributes));
                        self.original_mode = self.mode;
                        self.mode = InsertionMode::Text;
                        Verdict::Next
                    },
                    Some(ElementKind::Script) => {
                        self.insert_element(ElementKind::Script, duplicate_attributes(attributes));
                        self.original_mode = self.mode;
                        self.mode = InsertionMode::Text;
                        Verdict::Next
                    },
                    Some(_) => {
                        self.close(ElementKind::Head);
                        self.mode = InsertionMode::AfterHead;
                        Verdict::Again
                    },
                    None => Verdict::Next,
                }
            },
            HtmlToken::EndTag { tag } => {
                if let Some(ElementKind::Head) = ElementKind::from_str(tag.as_str()) {
                    self.close(ElementKind::Head);
                    self.mode = InsertionMode::AfterHead;
                }
                Verdict::Next
            },
            HtmlToken::Eof => Verdict::Done,
        }
    }

    fn in_after_head(&mut self, token: &HtmlToken) -> (verdict: Verdict)
        requires
            old(self)@.builder.wf(),
        ensures
            final(self).t == old(self).t,
            (Turn { builder: final(self)@.builder, verdict }) == in_after_head(
                old(self)@.builder,
                token@,
            ),
    {
        match token {
            HtmlToken::Char(c) => {
                if *c == ' ' || *c == '\n' {
                    self.insert_char(*c);
                    return Verdict::Next;
                }
            },
            HtmlToken::StartTag { tag, self_closing: _, attributes } => {
                if let Some(ElementKind::Body) = ElementKind::from_str(tag.as_str()) {
                    self.insert_element(ElementKind::Body, duplicate_attributes(attributes));
                    self.mode = InsertionMode::InBody;
                    return Verdict::Next;
                }
            },
            HtmlToken::Eof => {
                return Verdict::Done;
            },
            _ => {},
        }
        let attributes: Vec<Attribute> = Vec::new();
        assert(views(attributes@) =~= Seq::<AttributeView>::empty());
        self.insert_element(ElementKind::Body, attributes);
        self.mode = InsertionMode::InBody;
        Verdict::Again
    }

    fn in_body(&mut self, token: &HtmlToken) -> (verdict: Verdict)
        requires
            old(self)@.builder.wf(),
        ensures
            final(self).t == old(self).t,
            (Turn { builder: final(self)@.builder, verdict }) == in_body(
                old(self)@.builder,
                token@,
            ),
    {
        match token {
            HtmlToken::StartTag { tag, self_closing: _, attributes } => {
                match ElementKind::from_str(tag.as_str()) {
                    Some(kind) => {
                        match kind {
                            ElementKind::P | ElementKind::H1 | ElementKind::H2 | ElementKind::A
                            | ElementKind::Span => {
                                self.insert_element(kind, duplicate_attributes(attributes));
                            },
                            _ => {},
                        }
                    },
                    None => {},
                }
                Verdict::Next
            },
            HtmlToken::EndTag { tag } => {
                match ElementKind::from_str(tag.as_str()) {
                    Some(ElementKind::Body) => {
                        self.close(ElementKind::Body);
                        self.mode = InsertionMode::AfterBody;
                        Verdict::Next
                    },
                    Some(ElementKind::Html) => {
                        if self.pop_current_node(ElementKind::Body) {
                            let _ = self.pop_current_node(ElementKind::Html);
                            self.mode = InsertionMode::AfterBody;
                            Verdict::Again
                        } else {
                            Verdict::Next
                        }
                    },
                    Some(kind) => {
                        match kind {
                            ElementKind::P | ElementKind::H1 | ElementKind::H2 | ElementKind::A
                            | ElementKind::Span => {
                                self.close(kind);
                            },
                            _ => {},
                        }
                        Verdict::Next
                    },
                    None => Verdict::Next,
                }
            },
            HtmlToken::Eof => Verdict::Done,
            HtmlToken::Char(c) => {
                self.insert_char(*c);
                Verdict::Next
            },
        }
    }

    fn in_text(&mut self, token: &HtmlToken) -> (verdict: Verdict)
        requires
            old(self)@.builder.wf(),
        ensures
            final(self).t == old(self).t,
            (Turn { builder: final(self)@.builder, verdict }) == in_text(
                old(self)@.builder,
                token@,
            ),
    {
        match token {
            HtmlToken::Eof => {
                return Verdict::Done;
            },
            HtmlToken::EndTag { tag } => {
                match ElementKind::from_str(tag.as_str()) {
                    Some(ElementKind::Style) => {
                        self.close(ElementKind::Style);
                        self.mode = self.original_mode;
                        return Verdict::Next;
                    },
                    Some(ElementKind::Script) => {
                        self.close(ElementKind::Script);
                        self.mode = self.original_mode;
                        return Verdict::Next;
                    },
                    _ => {},
                }
            },
            HtmlToken::Char(c) => {
                self.insert_char(*c);
                return Verdict::Next;
            },
            _ => {},
        }
        self.mode = self.original_mode;
        Verdict::Again
    }

    fn in_after_body(&mut self, token: &HtmlToken) -> (verdict: Verdict)
        ensures
            final(self).t == old(self).t,
            (Turn { builder: final(self)@.builder, verdict }) == in_after_body(
                old(self)@.builder,
                token@,
            ),
    {
        match token {
            HtmlToken::Char(_) => {
                return Verdict::Next;
            },
            HtmlToken::EndTag { tag } => {
                if let Some(ElementKind::Html) = ElementKind::from_str(tag.as_str()) {
                    self.mode = InsertionMode::AfterAfterBody;
                    return Verdict::Next;
                }
            },
            HtmlToken::Eof => {
                return Verdict::Done;
            },
            _ => {},
        }
        self.mode = InsertionMode::InBody;
        Verdict::Again
    }

    fn in_after_after_body(&mut self, token: &HtmlToken) -> (verdict: Verdict)
        ensures
            final(self).t == old(self).t,
            (Turn { builder: final(self)@.builder, verdict }) == in_after_after_body(
                old(self)@.builder,
                token@,
            ),
    {
        match token {
            HtmlToken::Char(_) => Verdict::Next,
            HtmlToken::Eof => Verdict::Done,
            _ => {
                self.mode = InsertionMode::InBody;
                Verdict::Again
            },
        }
    }

    fn create_element(&self, kind: ElementKind, attributes: Vec<Attribute>) -> (node: NodeKind)
        ensures
            node@ == NodeKindView::Element(
                ElementView { kind, attributes: views(attributes@) },
            ),
    {
        NodeKind::Element(Element::new(kind, attributes))
    }

    /// The node that new nodes are added to.
    fn current_node(&self) -> (id: NodeId)
        ensures
            id == self@.builder.current(),
    {
        let len = self.stack_of_open_elements.len();
        if len > 0 {
            self.stack_of_open_elements[len - 1]
        } else {
            self.window.document()
        }
    }

    /// Adds a node as the last child of the current node and opens it.
    fn insert_node(&mut self, kind: NodeKind)
        requires
            old(self)@.builder.wf(),
            !(kind is Document),
        ensures
            final(self).t == old(self).t,
            final(self)@.builder == old(self)@.builder.node_inserted(kind@),
    {
        let current = self.current_node();
        match self.window.append_child(current, kind) {
            Some(id) => {
                self.stack_of_open_elements.push(id);
            },
            None => {},
        }
    }

    fn insert_element(&mut self, kind: ElementKind, attributes: Vec<Attribute>)
        requires
            old(self)@.builder.wf(),
        ensures
            final(self).t == old(self).t,
            final(self)@.builder == old(self)@.builder.element_inserted(kind, views(attributes@)),
    {
        let node = self.create_element(kind, attributes);
        self.insert_node(node);
    }

    fn pop_current_node(&mut self, element_kind: ElementKind) -> (popped: bool)
        requires
            old(self)@.builder.wf(),
        ensures
            final(self).t == old(self).t,
            popped == old(self)@.builder.current_is(element_kind),
            final(self)@.builder == old(self)@.builder.current_popped(element_kind),
    {
        let len = self.stack_of_open_elements.len();
        if len == 0 {
            return false;
        }
        let current = self.stack_of_open_elements[len - 1];
        match self.window.node(current).element_kind() {
            Some(kind) => {
                if kind.same(element_kind) {
                    self.stack_of_open_elements.pop();
                    return true;
                }
                false
            },
            None => false,
        }
    }

    fn pop_until(&mut self, element_kind: ElementKind)
        requires
            old(self)@.builder.wf(),
        ensures
            final(self).t == old(self).t,
            final(self)@.builder == old(self)@.builder.popped_until(element_kind),
    {
        let ghost goal = self@.builder.popped_until(element_kind);
        loop
            invariant
                self@.builder.wf(),
                self.t == old(self).t,
                goal == old(self)@.builder.popped_until(element_kind),
                self@.builder.popped_until(element_kind) == goal,
            decreases self.stack_of_open_elements@.len(),
        {
            let ghost before = self@.builder;
            if self.stack_of_open_elements.len() == 0 {
                return ;
            }
            let found = self.pop_current_node(element_kind);
            if found {
                assert(before.popped_until(element_kind) == self@.builder);
                return ;
            }
            assert(before.popped_until(element_kind) == (BuilderView {
                stack: before.stack.drop_last(),
                ..before
            }).popped_until(element_kind));
            self.stack_of_open_elements.pop();
            proof {
                lemma_closed_wf(before);
                assert(self@.builder == (BuilderView {
                    stack: before.stack.drop_last(),
                    ..before
                }));
                assert(self@.builder.wf()) by {
                    assert forall|i: int| 0 <= i < self@.builder.stack.len() implies self@.builder.dom.has(
                     #[trigger] self@.builder.stack[i]) by {
                        assert(self@.builder.stack[i] == before.stack[i]);
                    }
                }
            }
        }
    }

    fn contain_in_stack(&self, element_kind: ElementKind) -> (found: bool)
        requires
            self@.builder.wf(),
        ensures
            found == self@.builder.contains(element_kind),
    {
        let mut i: usize = 0;
        while i < self.stack_of_open_elements.len()
            invariant
                i <= self.stack_of_open_elements@.len(),
                self@.builder.wf(),
                forall|k: int| 0 <= k < i ==> #[trigger] self@.builder.kind_at(k) != Some(element_kind),
            decreases self.stack_of_open_elements@.len() - i,
        {
            let id = self.stack_of_open_elements[i];
            assert(self@.builder.dom.has(self@.builder.stack[i as int]));
            match self.window.node(id).element_kind() {
                Some(kind) => {
                    if kind.same(element_kind) {
                        assert(self@.builder.kind_at(i as int) == Some(element_kind));
                        return true;
                    }
                },
                None => {},
            }
            i += 1;
        }
        false
    }

    /// Closes open nodes up to and with the innermost element of this kind;
    /// does nothing where none is open.
    fn close(&mut self, element_kind: ElementKind)
        requires
            old(self)@.builder.wf(),
        ensures
            final(self).t == old(self).t,
            final(self)@.builder == old(self)@.builder.closed(element_kind),
    {
        if self.contain_in_stack(element_kind) {
            self.pop_until(element_kind);
        }
    }

    fn create_char(&self, c: char) -> (node: NodeKind)
        ensures
            node@ == NodeKindView::Text(seq![c]),
    {
        let mut s = String::new();
        s.push(c);
        assert(s@ =~= seq![c]);
        NodeKind::Text(s)
    }

    fn insert_char(&mut self, c: char)
        requires
            old(self)@.builder.wf(),
        ensures
            final(self).t == old(self).t,
            final(self)@.builder == old(self)@.builder.char_inserted(c),
    {
        let len = self.stack_of_open_elements.len();
        if len == 0 {
            return ;
        }
        let current = self.stack_of_open_elements[len - 1];
        assert(self@.builder.dom.has(self@.builder.stack[len - 1]));
        if self.window.node(current).is_text() {
            self.window.push_text(current, c);
            return ;
        }
        if c == '\n' || c == ' ' {
            return ;
        }
        let node = self.create_char(c);
        self.insert_node(node);
    }
}

} // verus!
