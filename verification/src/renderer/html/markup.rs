//! Well-formed markup and the tree that is built from it: elements that are
//! opened and closed in turn become one node each, with their attributes,
//! nested as written; text becomes a text node, and what follows a text
//! inside the same element goes below that text node.

use vstd::prelude::*;

use crate::renderer::dom::node::{
    DomView, ElementKind, ElementView, NodeId, NodeKindView, NodeView,
};
use crate::renderer::html::attribute::AttributeView;
use crate::renderer::html::parser::{
    document_tree, finished, is_blank, is_body_content, lemma_finished_unfold, lemma_inserted_wf,
    lemma_left_open_is_below_innermost, lemma_process_wf, mode_rank, process, BuilderView,
    InsertionMode, Turn, Verdict,
};
use crate::renderer::html::token::{
    in_data, in_data_at, is_plain_name, lemma_end_tag_in_data, HtmlTokenView, TokenizerView,
};
use crate::renderer::html::written_tag::{
    are_written_attributes, attributes_read, attributes_text, lemma_start_tag_with_attributes,
    WrittenAttribute,
};

verus! {

/// Markup as it is written: nothing; or an element with its attributes,
/// what stands inside it and what stands after it; or a text with what
/// stands after it.
pub enum Markup {
    Nothing,
    Element {
        kind: ElementKind,
        attributes: Seq<WrittenAttribute>,
        self_closing: bool,
        inside: Box<Markup>,
        after: Box<Markup>,
    },
    Text { text: Seq<char>, after: Box<Markup> },
}

/// The character at a place of a text.
pub open spec fn letter(text: Seq<char>, i: int) -> char {
    text[i]
}

/// The tokens that a text is written with: one for each character.
pub open spec fn char_tokens(text: Seq<char>) -> Seq<HtmlTokenView>
    decreases text.len(),
{
    if text.len() == 0 {
        Seq::empty()
    } else {
        char_tokens(text.drop_last()).push(HtmlTokenView::Char(letter(text, text.len() - 1)))
    }
}

/// The tokens of a text are the token of its first character and the
/// tokens of the rest.
pub proof fn lemma_char_tokens_from_the_front(text: Seq<char>)
    requires
        text.len() > 0,
    ensures
        char_tokens(text) == seq![HtmlTokenView::Char(letter(text, 0))] + char_tokens(
            text.drop_first(),
        ),
    decreases text.len(),
{
    let first = HtmlTokenView::Char(letter(text, 0));
    let last = HtmlTokenView::Char(letter(text, text.len() - 1));
    if text.len() == 1 {
        assert(char_tokens(text.drop_last()) =~= Seq::<HtmlTokenView>::empty());
        assert(char_tokens(text.drop_first()) =~= Seq::<HtmlTokenView>::empty());
        assert(char_tokens(text) =~= seq![first]);
        assert(seq![first] + Seq::<HtmlTokenView>::empty() =~= seq![first]);
    } else {
        let shorter = text.drop_last();
        let rest = text.drop_first();
        lemma_char_tokens_from_the_front(shorter);
        assert(shorter.drop_first() =~= rest.drop_last());
        assert(letter(rest, rest.len() - 1) == letter(text, text.len() - 1));
        assert(letter(shorter, 0) == letter(text, 0));
        assert(char_tokens(rest) == char_tokens(rest.drop_last()).push(last));
        assert((seq![first] + char_tokens(shorter.drop_first())).push(last) =~= seq![first] + (
        char_tokens(shorter.drop_first()).push(last)));
    }
}

/// Whether all elements of the markup may stand in a body.
pub open spec fn is_body_markup(m: Markup) -> bool
    decreases m,
{
    match m {
        Markup::Nothing => true,
        Markup::Element { kind, attributes, self_closing, inside, after } => {
            &&& is_body_content(kind)
            &&& is_body_markup(*inside)
            &&& is_body_markup(*after)
        },
        Markup::Text { text, after } => is_body_markup(*after),
    }
}

/// The number of elements and texts of the markup.
pub open spec fn count(m: Markup) -> nat
    decreases m,
{
    match m {
        Markup::Nothing => 0,
        Markup::Element { kind, attributes, self_closing, inside, after } => 1 + count(*inside)
            + count(*after),
        Markup::Text { text, after } => 1 + count(*after),
    }
}

/// The tokens that the markup is written with: for each element its start
/// tag, what stands inside it, and its end tag; for each text its
/// characters.
pub open spec fn written(m: Markup) -> Seq<HtmlTokenView>
    decreases m,
{
    match m {
        Markup::Nothing => Seq::empty(),
        Markup::Element { kind, attributes, self_closing, inside, after } => seq![
            HtmlTokenView::StartTag {
                tag: kind.name(),
                self_closing,
                attributes: attributes_read(attributes),
            },
        ] + written(*inside) + seq![HtmlTokenView::EndTag { tag: kind.name() }] + written(
            *after,
        ),
        Markup::Text { text, after } => char_tokens(text) + written(*after),
    }
}

/// A text without the blanks that it starts with.
pub open spec fn kept(text: Seq<char>) -> Seq<char>
    decreases text.len(),
{
    if text.len() > 0 && is_blank(text[0]) {
        kept(text.drop_first())
    } else {
        text
    }
}

/// The tree with a text added to the text of node `id`. A node that holds
/// no text is left as it is.
pub open spec fn text_added(dom: DomView, id: NodeId, text: Seq<char>) -> DomView {
    match dom.nodes[id as int].kind {
        NodeKindView::Text(s) => DomView {
            nodes: dom.nodes.update(
                id as int,
                NodeView { kind: NodeKindView::Text(s + text), ..dom.nodes[id as int] },
            ),
        },
        _ => dom,
    }
}

/// A tree, and the node of it below which what is written next will
/// stand.
pub struct Plant {
    pub dom: DomView,
    pub current: NodeId,
}

/// The tree that markup makes below the node `current`, and the node
/// that is current behind it.
///
/// An element becomes one node with the kind and the attributes of its
/// start tag, the last child of the current node; what stands inside it
/// goes below it; and what stands after it goes where the element went.
///
/// A text that is written below a text node is added to the text of that
/// node. Any other text loses the blanks that it starts with; what is left
/// of it becomes a text node, the last child of the current node, and that
/// text node is current for all that follows inside the same element.
pub open spec fn planted(dom: DomView, current: NodeId, m: Markup) -> Plant
    decreases m,
{
    match m {
        Markup::Nothing => Plant { dom, current },
        Markup::Element { kind, attributes, self_closing, inside, after } => {
            let element = NodeKindView::Element(
                ElementView { kind, attributes: attributes_read(attributes) },
            );
            let opened = dom.appended(current, element);
            let new = dom.nodes.len() as usize;
            planted(planted(opened, new, *inside).dom, current, *after)
        },
        Markup::Text { text, after } => {
            if dom.nodes[current as int].kind is Text {
                planted(text_added(dom, current, text), current, *after)
            } else if kept(text).len() == 0 {
                planted(dom, current, *after)
            } else {
                planted(
                    dom.appended(current, NodeKindView::Text(kept(text))),
                    dom.nodes.len() as usize,
                    *after,
                )
            }
        },
    }
}

/// The builder after markup: the tree that the markup makes, and the open
/// nodes that were open before, with the text node on top where the
/// markup has opened one.
pub open spec fn grown(b: BuilderView, m: Markup) -> BuilderView {
    let plant = planted(b.dom, b.current(), m);
    BuilderView {
        dom: plant.dom,
        stack: if plant.current == b.current() {
            b.stack
        } else {
            b.stack.push(plant.current)
        },
        ..b
    }
}

/// The builder after a run of tokens, each handled once.
pub open spec fn fed(b: BuilderView, tokens: Seq<HtmlTokenView>) -> BuilderView
    decreases tokens.len(),
{
    if tokens.len() == 0 {
        b
    } else {
        fed(process(b, tokens[0]).builder, tokens.drop_first())
    }
}

/// Whether each token of a run is used up when it is handled, so that the
/// run is handled token by token.
pub open spec fn each_used_up(b: BuilderView, tokens: Seq<HtmlTokenView>) -> bool
    decreases tokens.len(),
{
    if tokens.len() == 0 {
        true
    } else {
        process(b, tokens[0]).verdict == Verdict::Next && each_used_up(
            process(b, tokens[0]).builder,
            tokens.drop_first(),
        )
    }
}

/// A run of one token is that token handled once.
pub proof fn lemma_fed_one(b: BuilderView, token: HtmlTokenView)
    ensures
        fed(b, seq![token]) == process(b, token).builder,
        each_used_up(b, seq![token]) == (process(b, token).verdict == Verdict::Next),
{
    let rest = seq![token].drop_first();
    assert(rest =~= Seq::<HtmlTokenView>::empty());
    assert(fed(process(b, token).builder, rest) == process(b, token).builder);
    assert(each_used_up(process(b, token).builder, rest));
}

/// Handling one run of tokens after another is handling the two as one.
pub proof fn lemma_fed_in_turn(b: BuilderView, first: Seq<HtmlTokenView>, second: Seq<HtmlTokenView>)
    ensures
        fed(b, first + second) == fed(fed(b, first), second),
        each_used_up(b, first + second) == (each_used_up(b, first) && each_used_up(
            fed(b, first),
            second,
        )),
    decreases first.len(),
{
    if first.len() == 0 {
        assert(first + second =~= second);
    } else {
        assert((first + second)[0] == first[0]);
        assert((first + second).drop_first() =~= first.drop_first() + second);
        lemma_fed_in_turn(process(b, first[0]).builder, first.drop_first(), second);
    }
}

/// Adding to the text of a node keeps the tree well formed and leaves
/// every other node as it is.
pub proof fn lemma_text_added(dom: DomView, id: NodeId, text: Seq<char>)
    requires
        dom.wf(),
        dom.has(id),
    ensures
        text_added(dom, id, text).wf(),
        text_added(dom, id, text).nodes.len() == dom.nodes.len(),
        forall|i: int|
            0 <= i < dom.nodes.len() && i != id ==> #[trigger] text_added(dom, id, text).nodes[i]
                == dom.nodes[i],
        text_added(dom, id, text).nodes[id as int].kind is Text == dom.nodes[id as int].kind
            is Text,
        !(dom.nodes[id as int].kind is Text) ==> text_added(dom, id, text) == dom,
{
    let after = text_added(dom, id, text);
    assert forall|i: int| 0 <= i < after.nodes.len() implies #[trigger] after.links_agree(i) by {
        assert(dom.links_agree(i));
    }
}

/// Planting markup keeps the tree well formed and adds at most one node
/// for each element and each text. It leaves every node that was there as
/// it was, but for the texts, which may have grown. The node that is
/// current behind the markup is the one that was current before, or a
/// text node that the markup has added below it.
pub proof fn lemma_planted(dom: DomView, current: NodeId, m: Markup)
    requires
        dom.wf(),
        dom.has(current),
        dom.nodes.len() + count(m) < usize::MAX,
    ensures
        planted(dom, current, m).dom.wf(),
        dom.nodes.len() <= planted(dom, current, m).dom.nodes.len() <= dom.nodes.len() + count(
            m,
        ),
        planted(dom, current, m).dom.has(planted(dom, current, m).current),
        dom.nodes[current as int].kind is Text ==> planted(dom, current, m).current == current,
        planted(dom, current, m).current != current ==> planted(dom, current, m).current
            >= dom.nodes.len() && planted(dom, current, m).dom.nodes[planted(
            dom,
            current,
            m,
        ).current as int].kind is Text,
        forall|i: int|
            0 <= i < dom.nodes.len() ==> if dom.nodes[i].kind is Text {
                (#[trigger] planted(dom, current, m).dom.nodes[i]).kind is Text
            } else {
                planted(dom, current, m).dom.nodes[i].kind == dom.nodes[i].kind
            },
    decreases m,
{
    match m {
        Markup::Nothing => {},
        Markup::Element { kind, attributes, self_closing, inside, after } => {
            let element = NodeKindView::Element(
                ElementView { kind, attributes: attributes_read(attributes) },
            );
            let opened = dom.appended(current, element);
            let new = dom.nodes.len() as usize;
            dom.lemma_appended_wf(current, element);
            lemma_planted(opened, new, *inside);
            let filled = planted(opened, new, *inside).dom;
            lemma_planted(filled, current, *after);
            let done = planted(filled, current, *after);
            assert(filled.nodes[current as int].kind is Text == dom.nodes[current as int].kind
                is Text) by {
                assert(opened.nodes[current as int].kind == dom.nodes[current as int].kind);
            }
            assert forall|i: int| 0 <= i < dom.nodes.len() implies if dom.nodes[i].kind is Text {
                (#[trigger] done.dom.nodes[i]).kind is Text
            } else {
                done.dom.nodes[i].kind == dom.nodes[i].kind
            } by {
                assert(opened.nodes[i].kind == dom.nodes[i].kind);
                assert(filled.nodes[i].kind is Text || filled.nodes[i].kind
                    == opened.nodes[i].kind);
                assert(done.dom.nodes[i].kind is Text || done.dom.nodes[i].kind
                    == filled.nodes[i].kind);
            }
        },
        Markup::Text { text, after } => {
            if dom.nodes[current as int].kind is Text {
                let added = text_added(dom, current, text);
                lemma_text_added(dom, current, text);
                lemma_planted(added, current, *after);
                let done = planted(added, current, *after);
                assert forall|i: int| 0 <= i < dom.nodes.len() implies if dom.nodes[i].kind
                    is Text {
                    (#[trigger] done.dom.nodes[i]).kind is Text
                } else {
                    done.dom.nodes[i].kind == dom.nodes[i].kind
                } by {
                    if i != current {
                        assert(added.nodes[i] == dom.nodes[i]);
                    }
                    assert(done.dom.nodes[i].kind is Text || done.dom.nodes[i].kind
                        == added.nodes[i].kind);
                }
            } else if kept(text).len() == 0 {
                lemma_planted(dom, current, *after);
            } else {
                let node = NodeKindView::Text(kept(text));
                let worded = dom.appended(current, node);
                let new = dom.nodes.len() as usize;
                dom.lemma_appended_wf(current, node);
                lemma_planted(worded, new, *after);
                let done = planted(worded, new, *after);
                assert forall|i: int| 0 <= i < dom.nodes.len() implies if dom.nodes[i].kind
                    is Text {
                    (#[trigger] done.dom.nodes[i]).kind is Text
                } else {
                    done.dom.nodes[i].kind == dom.nodes[i].kind
                } by {
                    assert(worded.nodes[i].kind == dom.nodes[i].kind);
                    assert(done.dom.nodes[i].kind is Text || done.dom.nodes[i].kind
                        == worded.nodes[i].kind);
                }
            }
        },
    }
}

/// Adding to the text of a node leaves every chain of siblings as it is.
pub proof fn lemma_text_added_siblings(dom: DomView, id: NodeId, text: Seq<char>, start: NodeId)
    requires
        dom.has(id),
        dom.has(start),
    ensures
        text_added(dom, id, text).siblings_from(Some(start)) == dom.siblings_from(Some(start)),
    decreases dom.nodes.len() - start,
{
    let after = text_added(dom, id, text);
    assert(after.nodes[start as int].next_sibling == dom.nodes[start as int].next_sibling);
    assert(after.siblings_from(None) =~= Seq::<NodeId>::empty());
    assert(dom.siblings_from(None) =~= Seq::<NodeId>::empty());
    match dom.next_sibling_of(start) {
        Some(n) => {
            lemma_text_added_siblings(dom, id, text, n);
        },
        None => {},
    }
}

/// Adding to the text of a node leaves the children of every node as they
/// are.
pub proof fn lemma_text_added_children(dom: DomView, id: NodeId, text: Seq<char>, parent: NodeId)
    requires
        dom.has(id),
        dom.has(parent),
    ensures
        text_added(dom, id, text).children(parent) == dom.children(parent),
{
    let after = text_added(dom, id, text);
    assert(after.nodes[parent as int].first_child == dom.nodes[parent as int].first_child);
    match dom.first_child_of(parent) {
        Some(c) => {
            lemma_text_added_siblings(dom, id, text, c);
        },
        None => {},
    }
}

/// The nodes that markup adds as children of the node `current`, in the
/// order in which they are written: the elements that are written
/// directly below it, and the text node that a text opens there, behind
/// which nothing more is added to `current` itself.
pub open spec fn roots(dom: DomView, current: NodeId, m: Markup) -> Seq<NodeId>
    decreases m,
{
    match m {
        Markup::Nothing => Seq::empty(),
        Markup::Element { kind, attributes, self_closing, inside, after } => {
            let element = NodeKindView::Element(
                ElementView { kind, attributes: attributes_read(attributes) },
            );
            let opened = dom.appended(current, element);
            let new = dom.nodes.len() as usize;
            seq![new] + roots(planted(opened, new, *inside).dom, current, *after)
        },
        Markup::Text { text, after } => {
            if dom.nodes[current as int].kind is Text {
                roots(text_added(dom, current, text), current, *after)
            } else if kept(text).len() == 0 {
                roots(dom, current, *after)
            } else {
                seq![dom.nodes.len() as usize]
            }
        },
    }
}

/// The children of a node stand in the order in which they are written:
/// markup adds its nodes behind the children that the current node had,
/// in their order, and leaves the children of every other node that was
/// there as they were.
pub proof fn lemma_planted_children(dom: DomView, current: NodeId, m: Markup)
    requires
        dom.wf(),
        dom.has(current),
        dom.nodes.len() + count(m) < usize::MAX,
    ensures
        planted(dom, current, m).dom.children(current) == dom.children(current) + roots(
            dom,
            current,
            m,
        ),
        forall|other: NodeId|
            dom.has(other) && other != current ==> #[trigger] planted(
                dom,
                current,
                m,
            ).dom.children(other) == dom.children(other),
    decreases m,
{
    match m {
        Markup::Nothing => {
            assert(dom.children(current) + Seq::<NodeId>::empty() =~= dom.children(current));
        },
        Markup::Element { kind, attributes, self_closing, inside, after } => {
            let element = NodeKindView::Element(
                ElementView { kind, attributes: attributes_read(attributes) },
            );
            let opened = dom.appended(current, element);
            let new = dom.nodes.len() as usize;
            dom.lemma_appended_wf(current, element);
            dom.lemma_appended_children(current, element);
            lemma_planted(opened, new, *inside);
            lemma_planted_children(opened, new, *inside);
            let filled = planted(opened, new, *inside).dom;
            lemma_planted_children(filled, current, *after);
            let done = planted(filled, current, *after).dom;
            assert(filled.children(current) == opened.children(current));
            assert(dom.children(current).push(new) + roots(filled, current, *after)
                =~= dom.children(current) + (seq![new] + roots(filled, current, *after)));
            assert forall|other: NodeId| dom.has(other) && other != current implies #[trigger] done.children(
                other,
            ) == dom.children(other) by {
                assert(opened.children(other) == dom.children(other));
                assert(filled.children(other) == opened.children(other));
                assert(done.children(other) == filled.children(other));
            }
        },
        Markup::Text { text, after } => {
            if dom.nodes[current as int].kind is Text {
                let added = text_added(dom, current, text);
                lemma_text_added(dom, current, text);
                lemma_planted_children(added, current, *after);
                let done = planted(added, current, *after).dom;
                lemma_text_added_children(dom, current, text, current);
                assert forall|other: NodeId| dom.has(other) && other != current implies #[trigger] done.children(
                    other,
                ) == dom.children(other) by {
                    lemma_text_added_children(dom, current, text, other);
                    assert(done.children(other) == added.children(other));
                }
            } else if kept(text).len() == 0 {
                lemma_planted_children(dom, current, *after);
            } else {
                let node = NodeKindView::Text(kept(text));
                let worded = dom.appended(current, node);
                let new = dom.nodes.len() as usize;
                dom.lemma_appended_wf(current, node);
                dom.lemma_appended_children(current, node);
                lemma_planted_children(worded, new, *after);
                let done = planted(worded, new, *after).dom;
                assert(done.children(current) == worded.children(current));
                assert(dom.children(current).push(new) =~= dom.children(current) + seq![new]);
                assert forall|other: NodeId| dom.has(other) && other != current implies #[trigger] done.children(
                    other,
                ) == dom.children(other) by {
                    assert(worded.children(other) == dom.children(other));
                    assert(done.children(other) == worded.children(other));
                }
            }
        },
    }
}

/// A character that is added to the text of a node that has just been
/// added makes the tree in which the node has been added with the longer
/// text.
pub proof fn lemma_text_grows(dom: DomView, parent: NodeId, text: Seq<char>, c: char)
    requires
        dom.wf(),
        dom.has(parent),
        dom.nodes.len() < usize::MAX,
    ensures
        dom.appended(parent, NodeKindView::Text(text)).text_pushed(dom.nodes.len() as usize, c)
            == dom.appended(parent, NodeKindView::Text(text.push(c))),
{
    let shorter = dom.appended(parent, NodeKindView::Text(text)).text_pushed(
        dom.nodes.len() as usize,
        c,
    );
    let longer = dom.appended(parent, NodeKindView::Text(text.push(c)));
    assert(dom.links_agree(parent as int));
    assert(shorter.nodes =~= longer.nodes);
}

/// In a body, below an element that is open, the characters of a text
/// that does not start with a blank make one text node: the last child of
/// the element, open after it.
pub proof fn lemma_text_is_fed(b: BuilderView, text: Seq<char>)
    requires
        b.wf(),
        b.mode == InsertionMode::InBody,
        b.stack.len() > 0,
        !(b.dom.nodes[b.current() as int].kind is Text),
        text.len() > 0,
        !is_blank(text[0]),
        b.dom.nodes.len() < usize::MAX,
    ensures
        each_used_up(b, char_tokens(text)),
        fed(b, char_tokens(text)) == (BuilderView {
            dom: b.dom.appended(b.current(), NodeKindView::Text(text)),
            stack: b.stack.push(b.dom.nodes.len() as usize),
            ..b
        }),
    decreases text.len(),
{
    let last = letter(text, text.len() - 1);
    let before = text.drop_last();
    let token = HtmlTokenView::Char(last);
    assert(char_tokens(text) =~= char_tokens(before) + seq![token]);
    lemma_fed_in_turn(b, char_tokens(before), seq![token]);
    if before.len() == 0 {
        assert(char_tokens(before) =~= Seq::<HtmlTokenView>::empty());
        assert(fed(b, char_tokens(before)) == b);
        assert(each_used_up(b, char_tokens(before)));
        lemma_fed_one(b, token);
        assert(text =~= seq![last]);
    } else {
        assert(before[0] == text[0]);
        lemma_text_is_fed(b, before);
        let longer = fed(b, char_tokens(before));
        lemma_fed_one(longer, token);
        b.dom.lemma_appended_wf(b.current(), NodeKindView::Text(before));
        lemma_text_grows(b.dom, b.current(), before, last);
        assert(before.push(last) =~= text);
    }
}

/// In a body, below an element that is open, a text loses the blanks
/// that it starts with, and what is left of it makes one text node.
pub proof fn lemma_text_is_planted(b: BuilderView, text: Seq<char>)
    requires
        b.wf(),
        b.mode == InsertionMode::InBody,
        b.stack.len() > 0,
        !(b.dom.nodes[b.current() as int].kind is Text),
        b.dom.nodes.len() < usize::MAX,
    ensures
        each_used_up(b, char_tokens(text)),
        fed(b, char_tokens(text)) == if kept(text).len() == 0 {
            b
        } else {
            BuilderView {
                dom: b.dom.appended(b.current(), NodeKindView::Text(kept(text))),
                stack: b.stack.push(b.dom.nodes.len() as usize),
                ..b
            }
        },
    decreases text.len(),
{
    if text.len() == 0 {
        assert(char_tokens(text) =~= Seq::<HtmlTokenView>::empty());
    } else if is_blank(text[0]) {
        let first = HtmlTokenView::Char(letter(text, 0));
        let rest = text.drop_first();
        lemma_char_tokens_from_the_front(text);
        lemma_fed_one(b, first);
        lemma_fed_in_turn(b, seq![first], char_tokens(rest));
        assert(process(b, first).builder == b);
        lemma_text_is_planted(b, rest);
    } else {
        lemma_text_is_fed(b, text);
    }
}

/// In a body, below a text node that is open, the characters of a text are
/// added to the text of that node.
pub proof fn lemma_text_is_added(b: BuilderView, text: Seq<char>)
    requires
        b.wf(),
        b.mode == InsertionMode::InBody,
        b.stack.len() > 0,
        b.dom.nodes[b.current() as int].kind is Text,
    ensures
        each_used_up(b, char_tokens(text)),
        fed(b, char_tokens(text)) == (BuilderView {
            dom: text_added(b.dom, b.current(), text),
            ..b
        }),
    decreases text.len(),
{
    let cur = b.current();
    let held = b.dom.nodes[cur as int].kind->Text_0;
    assert(b.dom.has(b.stack[b.stack.len() - 1]));
    if text.len() == 0 {
        assert(char_tokens(text) =~= Seq::<HtmlTokenView>::empty());
        assert(held + text =~= held);
        assert(text_added(b.dom, cur, text).nodes =~= b.dom.nodes);
    } else {
        let last = letter(text, text.len() - 1);
        let before = text.drop_last();
        let token = HtmlTokenView::Char(last);
        assert(char_tokens(text) =~= char_tokens(before) + seq![token]);
        lemma_fed_in_turn(b, char_tokens(before), seq![token]);
        lemma_text_is_added(b, before);
        let longer = fed(b, char_tokens(before));
        lemma_text_added(b.dom, cur, before);
        lemma_fed_one(longer, token);
        assert((held + before).push(last) =~= held + text);
        assert(longer.dom.text_pushed(cur, last).nodes =~= text_added(b.dom, cur, text).nodes);
    }
}

/// In a body, well-formed markup becomes the tree that is written: every
/// token is used up in turn; each element is one node with the kind and
/// the attributes of its start tag, the last child of the node below which
/// it is written; each text is added to the tree as `planted` says; and
/// afterwards the nodes that are open are those that were open before,
/// with the text node on top where the markup has opened one.
pub proof fn lemma_markup_is_built_as_written(b: BuilderView, m: Markup)
    requires
        b.wf(),
        b.mode == InsertionMode::InBody,
        b.stack.len() > 0,
        is_body_markup(m),
        b.dom.nodes.len() + count(m) < usize::MAX,
    ensures
        each_used_up(b, written(m)),
        fed(b, written(m)) == grown(b, m),
        grown(b, m).wf(),
    decreases m,
{
    let cur = b.current();
    assert(b.dom.has(b.stack[b.stack.len() - 1]));
    lemma_planted(b.dom, cur, m);
    match m {
        Markup::Nothing => {
            assert(written(m) =~= Seq::<HtmlTokenView>::empty());
        },
        Markup::Element { kind, attributes, self_closing, inside, after } => {
            let start = HtmlTokenView::StartTag {
                tag: kind.name(),
                self_closing,
                attributes: attributes_read(attributes),
            };
            let end = HtmlTokenView::EndTag { tag: kind.name() };
            let element = NodeKindView::Element(
                ElementView { kind, attributes: attributes_read(attributes) },
            );
            let new = b.dom.nodes.len() as usize;
            ElementKind::lemma_named_iff_name(kind.name(), kind);
            b.dom.lemma_appended_wf(cur, element);

            // The start tag opens the element.
            let opened = process(b, start).builder;
            assert(opened == b.element_inserted(kind, attributes_read(attributes)));
            assert(opened.current() == new);
            assert(opened.wf()) by {
                lemma_inserted_wf(b);
            }

            // What stands inside is built below the element.
            lemma_markup_is_built_as_written(opened, *inside);
            lemma_planted(opened.dom, new, *inside);
            let filled = grown(opened, *inside);
            assert(filled.dom.nodes[new as int].kind == element);

            // The end tag closes the element again, and with it the text
            // that may be open inside it.
            let place = b.stack.len() as int;
            assert(filled.stack.take(place) =~= b.stack);
            assert(filled.stack[place] == new);
            assert(filled.kind_at(place) == Some(kind));
            lemma_left_open_is_below_innermost(filled, kind, place);
            let closed = process(filled, end).builder;
            assert(closed == (BuilderView { stack: b.stack, ..filled }));
            assert(closed.wf()) by {
                assert forall|i: int| 0 <= i < closed.stack.len() implies closed.dom.has(
                    #[trigger] closed.stack[i],
                ) by {
                    assert(b.dom.has(b.stack[i]));
                }
            }

            // What stands after it is built below the same node.
            assert(closed.current() == cur);
            lemma_markup_is_built_as_written(closed, *after);
            assert(grown(closed, *after) == grown(b, m));

            // The four runs of tokens are handled in turn.
            let head = seq![start] + written(*inside);
            lemma_fed_in_turn(b, seq![start], written(*inside));
            lemma_fed_one(b, start);
            lemma_fed_in_turn(b, head, seq![end]);
            lemma_fed_one(filled, end);
            lemma_fed_in_turn(b, head + seq![end], written(*after));
            assert(written(m) =~= head + seq![end] + written(*after));
        },
        Markup::Text { text, after } => {
            lemma_fed_in_turn(b, char_tokens(text), written(*after));
            if b.dom.nodes[cur as int].kind is Text {
                lemma_text_is_added(b, text);
                lemma_text_added(b.dom, cur, text);
                let worded = BuilderView { dom: text_added(b.dom, cur, text), ..b };
                assert(worded.wf());
                lemma_markup_is_built_as_written(worded, *after);
                assert(grown(worded, *after) == grown(b, m));
            } else {
                lemma_text_is_planted(b, text);
                if kept(text).len() == 0 {
                    lemma_markup_is_built_as_written(b, *after);
                    assert(grown(b, *after) == grown(b, m));
                } else {
                    let node = NodeKindView::Text(kept(text));
                    let new = b.dom.nodes.len() as usize;
                    b.dom.lemma_appended_wf(cur, node);
                    let worded = BuilderView {
                        dom: b.dom.appended(cur, node),
                        stack: b.stack.push(new),
                        ..b
                    };
                    assert(worded.wf()) by {
                        assert forall|i: int| 0 <= i < worded.stack.len() implies worded.dom.has(
                            #[trigger] worded.stack[i],
                        ) by {
                            if i < b.stack.len() {
                                assert(b.dom.has(b.stack[i]));
                            }
                        }
                    }
                    assert(worded.current() == new);
                    lemma_markup_is_built_as_written(worded, *after);
                    lemma_planted(worded.dom, new, *after);
                    assert(planted(worded.dom, new, *after).current == new);
                    assert(grown(worded, *after) == grown(b, m));
                }
            }
        },
    }
}

/// What a token leads to once it is used up or ends the tree: it is
/// handled again and again as long as the mode changes under it.
pub open spec fn settled(b: BuilderView, token: HtmlTokenView) -> Turn
    decreases mode_rank(b.mode, Some(token)),
    when b.wf()
{
    let turn = process(b, token);
    if turn.verdict == Verdict::Again {
        proof {
            lemma_process_wf(b, token);
        }
        settled(turn.builder, token)
    } else {
        turn
    }
}

/// A token that has settled is used up or ends the tree, and leaves the
/// builder well formed.
pub proof fn lemma_settled(b: BuilderView, token: HtmlTokenView)
    requires
        b.wf(),
    ensures
        settled(b, token).builder.wf(),
        settled(b, token).verdict != Verdict::Again,
    decreases mode_rank(b.mode, Some(token)),
{
    lemma_process_wf(b, token);
    if process(b, token).verdict == Verdict::Again {
        lemma_settled(process(b, token).builder, token);
    }
}

/// Construction goes from token to token: a token is handled until it has
/// settled; then the tree is complete, or the next token is taken.
pub proof fn lemma_finished_token_by_token(
    b: BuilderView,
    tokenizer: TokenizerView,
    token: HtmlTokenView,
)
    requires
        b.wf(),
        tokenizer.wf(),
    ensures
        finished(b, tokenizer, Some(token)) == if settled(b, token).verdict == Verdict::Done {
            settled(b, token).builder.dom
        } else {
            finished(settled(b, token).builder, tokenizer.next().1, tokenizer.next().0)
        },
    decreases mode_rank(b.mode, Some(token)),
{
    lemma_finished_unfold(b, tokenizer, token);
    if process(b, token).verdict == Verdict::Again {
        lemma_finished_token_by_token(process(b, token).builder, tokenizer, token);
    }
}

/// Where a document starts with an element of the body, the elements
/// `html`, `head` and `body` are made up before it: `html` below the
/// document, `head` and `body` below `html`, and the element below `body`.
/// Afterwards `html`, `body` and the element are open.
pub proof fn lemma_wrappers_are_made_up(
    kind: ElementKind,
    attributes: Seq<AttributeView>,
    self_closing: bool,
)
    requires
        is_body_content(kind),
    ensures
        ({
            let start = HtmlTokenView::StartTag { tag: kind.name(), self_closing, attributes };
            let none = Seq::<AttributeView>::empty();
            let html = NodeKindView::Element(
                ElementView { kind: ElementKind::Html, attributes: none },
            );
            let head = NodeKindView::Element(
                ElementView { kind: ElementKind::Head, attributes: none },
            );
            let body = NodeKindView::Element(
                ElementView { kind: ElementKind::Body, attributes: none },
            );
            let element = NodeKindView::Element(ElementView { kind, attributes });
            settled(BuilderView::initial(), start) == (Turn {
                builder: BuilderView {
                    dom: DomView::empty().appended(0, html).appended(1, head).appended(
                        1,
                        body,
                    ).appended(3, element),
                    mode: InsertionMode::InBody,
                    original_mode: InsertionMode::Initial,
                    stack: seq![1usize, 3usize, 4usize],
                },
                verdict: Verdict::Next,
            })
        }),
{
    let start = HtmlTokenView::StartTag { tag: kind.name(), self_closing, attributes };
    let none = Seq::<AttributeView>::empty();
    let html = NodeKindView::Element(ElementView { kind: ElementKind::Html, attributes: none });
    let head = NodeKindView::Element(ElementView { kind: ElementKind::Head, attributes: none });
    let body = NodeKindView::Element(ElementView { kind: ElementKind::Body, attributes: none });
    let element = NodeKindView::Element(ElementView { kind, attributes });
    ElementKind::lemma_named_iff_name(kind.name(), kind);
    let b0 = BuilderView::initial();
    assert(b0.dom.links_agree(0));
    assert(b0.wf());
    // Initial and BeforeHtml: the root element is made up.
    let b1 = process(b0, start).builder;
    lemma_process_wf(b0, start);
    let b2 = process(b1, start).builder;
    lemma_process_wf(b1, start);
    assert(b2.dom == DomView::empty().appended(0, html));
    assert(b2.stack =~= seq![1usize]);
    // BeforeHead: the head is made up.
    let b3 = process(b2, start).builder;
    lemma_process_wf(b2, start);
    assert(b3.dom == b2.dom.appended(1, head));
    assert(b3.stack =~= seq![1usize, 2usize]);
    // InHead: the element ends the head.
    assert(b3.kind_at(1) == Some(ElementKind::Head));
    lemma_left_open_is_below_innermost(b3, ElementKind::Head, 1);
    let b4 = process(b3, start).builder;
    lemma_process_wf(b3, start);
    assert(b4.stack =~= seq![1usize]);
    // AfterHead: the body is made up.
    let b5 = process(b4, start).builder;
    lemma_process_wf(b4, start);
    assert(b5.dom == b3.dom.appended(1, body));
    assert(b5.stack =~= seq![1usize, 3usize]);
    // InBody: the element is opened.
    let b6 = process(b5, start).builder;
    assert(b6.dom == b5.dom.appended(3, element));
    assert(b6.stack =~= seq![1usize, 3usize, 4usize]);
    assert(settled(b5, start) == process(b5, start));
    assert(settled(b4, start) == settled(b5, start));
    assert(settled(b3, start) == settled(b4, start));
    assert(settled(b2, start) == settled(b3, start));
    assert(settled(b1, start) == settled(b2, start));
    assert(settled(b0, start) == settled(b1, start));
}

/// Whether the markup can be written as characters and is read as it
/// stands: the attributes are written in one of the three forms, no
/// element is marked as self-closing, and no text holds a `<`.
pub open spec fn is_written(m: Markup) -> bool
    decreases m,
{
    match m {
        Markup::Nothing => true,
        Markup::Element { kind, attributes, self_closing, inside, after } => {
            &&& are_written_attributes(attributes)
            &&& !self_closing
            &&& is_written(*inside)
            &&& is_written(*after)
        },
        Markup::Text { text, after } => {
            &&& (forall|i: int| 0 <= i < text.len() ==> text[i] != '<')
            &&& is_written(*after)
        },
    }
}

/// The characters that markup is written with: for each element `<`, its
/// name, its attributes and `>`, what stands inside it, and `</name>`; for
/// each text the text itself.
pub open spec fn source(m: Markup) -> Seq<char>
    decreases m,
{
    match m {
        Markup::Nothing => Seq::empty(),
        Markup::Element { kind, attributes, self_closing, inside, after } => seq!['<']
            + kind.name() + attributes_text(attributes) + seq!['>'] + source(*inside) + seq![
            '<',
            '/',
        ] + kind.name() + seq!['>'] + source(*after),
        Markup::Text { text, after } => text + source(*after),
    }
}

/// Anywhere in a document outside tags, a text without `<` is read as its
/// characters, one token each, and the tokenizer goes on behind it.
pub proof fn lemma_text_is_tokenized(tokenizer: TokenizerView, text: Seq<char>)
    requires
        in_data(tokenizer),
        tokenizer.registers.latest_token is None,
        forall|i: int| 0 <= i < text.len() ==> text[i] != '<',
        tokenizer.pos + text.len() <= tokenizer.input.len(),
        tokenizer.input.subrange(tokenizer.pos as int, tokenizer.pos as int + text.len())
            == text,
    ensures
        gives(tokenizer, char_tokens(text)),
        drained(tokenizer, char_tokens(text)) == in_data_at(
            tokenizer,
            tokenizer.pos as int + text.len(),
        ),
    decreases text.len(),
{
    if text.len() == 0 {
        assert(char_tokens(text) =~= Seq::<HtmlTokenView>::empty());
    } else {
        let p = tokenizer.pos as int;
        assert(tokenizer.input[p] == text[0]) by {
            assert(tokenizer.input.subrange(p, p + text.len())[0] == text[0]);
        }
        tokenizer.lemma_text_is_handed_out();
        let next = tokenizer.next().1;
        let rest = text.drop_first();
        assert(next.input.subrange(p + 1, p + 1 + rest.len()) =~= rest) by {
            assert forall|k: int| 0 <= k < rest.len() implies tokenizer.input[p + 1 + k]
                == rest[k] by {
                assert(tokenizer.input.subrange(p, p + text.len())[k + 1] == text[k + 1]);
            }
        }
        lemma_text_is_tokenized(next, rest);
        lemma_char_tokens_from_the_front(text);
        let first = HtmlTokenView::Char(letter(text, 0));
        assert(char_tokens(text)[0] == first);
        assert(char_tokens(text).drop_first() =~= char_tokens(rest));
    }
}

/// Whether the tokenizer hands out these tokens, one after the other.
pub open spec fn gives(tokenizer: TokenizerView, tokens: Seq<HtmlTokenView>) -> bool
    decreases tokens.len(),
{
    if tokens.len() == 0 {
        true
    } else {
        tokenizer.next().0 == Some(tokens[0]) && gives(tokenizer.next().1, tokens.drop_first())
    }
}

/// The tokenizer after it has handed out as many tokens.
pub open spec fn drained(tokenizer: TokenizerView, tokens: Seq<HtmlTokenView>) -> TokenizerView
    decreases tokens.len(),
{
    if tokens.len() == 0 {
        tokenizer
    } else {
        drained(tokenizer.next().1, tokens.drop_first())
    }
}

/// Handing out one run of tokens after another is handing out the two as
/// one.
pub proof fn lemma_gives_in_turn(
    tokenizer: TokenizerView,
    first: Seq<HtmlTokenView>,
    second: Seq<HtmlTokenView>,
)
    ensures
        gives(tokenizer, first + second) == (gives(tokenizer, first) && gives(
            drained(tokenizer, first),
            second,
        )),
        drained(tokenizer, first + second) == drained(drained(tokenizer, first), second),
    decreases first.len(),
{
    if first.len() == 0 {
        assert(first + second =~= second);
    } else {
        assert((first + second)[0] == first[0]);
        assert((first + second).drop_first() =~= first.drop_first() + second);
        lemma_gives_in_turn(tokenizer.next().1, first.drop_first(), second);
    }
}

/// A run of one token is one call of `next`.
pub proof fn lemma_gives_one(tokenizer: TokenizerView, token: HtmlTokenView)
    ensures
        gives(tokenizer, seq![token]) == (tokenizer.next().0 == Some(token)),
        drained(tokenizer, seq![token]) == tokenizer.next().1,
{
    let rest = seq![token].drop_first();
    assert(rest =~= Seq::<HtmlTokenView>::empty());
    assert(gives(tokenizer.next().1, rest));
    assert(drained(tokenizer.next().1, rest) == tokenizer.next().1);
}

/// The names of the elements are plain.
pub proof fn lemma_names_are_plain(kind: ElementKind)
    ensures
        is_plain_name(kind.name()),
{
    reveal_strlit("html");
    reveal_strlit("head");
    reveal_strlit("style");
    reveal_strlit("script");
    reveal_strlit("body");
    reveal_strlit("p");
    reveal_strlit("h1");
    reveal_strlit("h2");
    reveal_strlit("a");
    reveal_strlit("span");
}

/// Anywhere in a document, the characters of markup are read as the
/// tokens of that markup, and the tokenizer goes on behind them.
pub proof fn lemma_markup_is_tokenized(tokenizer: TokenizerView, m: Markup)
    requires
        in_data(tokenizer),
        tokenizer.registers.latest_token is None,
        is_written(m),
        tokenizer.pos + source(m).len() <= tokenizer.input.len(),
        tokenizer.input.subrange(
            tokenizer.pos as int,
            tokenizer.pos as int + source(m).len(),
        ) == source(m),
    ensures
        gives(tokenizer, written(m)),
        drained(tokenizer, written(m)) == in_data_at(
            tokenizer,
            tokenizer.pos as int + source(m).len(),
        ),
    decreases m,
{
    match m {
        Markup::Nothing => {
            assert(written(m) =~= Seq::<HtmlTokenView>::empty());
        },
        Markup::Element { kind, attributes, self_closing, inside, after } => {
            let name = kind.name();
            lemma_names_are_plain(kind);
            let all = source(m);
            let input = tokenizer.input;
            let spelled = attributes_text(attributes);
            let origin = tokenizer.pos as int;
            let inner = origin + name.len() + spelled.len() + 2;
            let closing = inner + source(*inside).len();
            let follow = closing + name.len() + 3;
            let finish = follow + source(*after).len();
            assert(all.len() == finish - origin);
            assert forall|k: int| 0 <= k < all.len() implies input[origin + k] == all[k] by {
                assert(input.subrange(origin, origin + all.len())[k] == all[k]);
            }
            let start = HtmlTokenView::StartTag {
                tag: name,
                self_closing,
                attributes: attributes_read(attributes),
            };
            let end = HtmlTokenView::EndTag { tag: name };

            // The start tag.
            let opening = seq!['<'] + name + spelled + seq!['>'];
            assert(input.subrange(origin, inner) =~= opening) by {
                assert forall|k: int| 0 <= k < opening.len() implies input[origin + k]
                    == opening[k] by {
                    assert(all[k] == opening[k]);
                }
            }
            lemma_start_tag_with_attributes(tokenizer, name, attributes);
            let t1 = in_data_at(tokenizer, inner);

            // What stands inside.
            assert(input.subrange(inner, closing) =~= source(*inside)) by {
                assert forall|k: int| 0 <= k < source(*inside).len() implies input[inner + k]
                    == source(*inside)[k] by {
                    assert(all[inner - origin + k] == source(*inside)[k]);
                }
            }
            lemma_markup_is_tokenized(t1, *inside);
            let t2 = in_data_at(t1, closing);

            // The end tag.
            assert(input[closing] == '<') by {
                assert(all[closing - origin] == '<');
            }
            assert(input[closing + 1] == '/') by {
                assert(all[closing - origin + 1] == '/');
            }
            assert(input.subrange(closing + 2, closing + 2 + name.len()) =~= name) by {
                assert forall|k: int| 0 <= k < name.len() implies input[closing + 2 + k]
                    == name[k] by {
                    assert(all[closing - origin + 2 + k] == name[k]);
                }
            }
            assert(input[closing + 2 + name.len()] == '>') by {
                assert(all[closing - origin + 2 + name.len()] == '>');
            }
            lemma_end_tag_in_data(t2, name);
            let t3 = in_data_at(t2, follow);

            // What stands after.
            assert(input.subrange(follow, finish) =~= source(*after)) by {
                assert forall|k: int| 0 <= k < source(*after).len() implies input[follow + k]
                    == source(*after)[k] by {
                    assert(all[follow - origin + k] == source(*after)[k]);
                }
            }
            lemma_markup_is_tokenized(t3, *after);

            // The four runs of tokens come in turn.
            let head = seq![start] + written(*inside);
            lemma_gives_one(tokenizer, start);
            lemma_gives_in_turn(tokenizer, seq![start], written(*inside));
            lemma_gives_one(t2, end);
            lemma_gives_in_turn(tokenizer, head, seq![end]);
            lemma_gives_in_turn(tokenizer, head + seq![end], written(*after));
            assert(written(m) =~= head + seq![end] + written(*after));
        },
        Markup::Text { text, after } => {
            let all = source(m);
            let input = tokenizer.input;
            let origin = tokenizer.pos as int;
            let follow = origin + text.len();
            let finish = follow + source(*after).len();
            assert forall|k: int| 0 <= k < all.len() implies input[origin + k] == all[k] by {
                assert(input.subrange(origin, origin + all.len())[k] == all[k]);
            }
            assert(input.subrange(origin, follow) =~= text) by {
                assert forall|k: int| 0 <= k < text.len() implies input[origin + k] == text[k] by {
                    assert(all[k] == text[k]);
                }
            }
            lemma_text_is_tokenized(tokenizer, text);
            let t1 = in_data_at(tokenizer, follow);
            assert(input.subrange(follow, finish) =~= source(*after)) by {
                assert forall|k: int| 0 <= k < source(*after).len() implies input[follow + k]
                    == source(*after)[k] by {
                    assert(all[follow - origin + k] == source(*after)[k]);
                }
            }
            lemma_markup_is_tokenized(t1, *after);
            lemma_gives_in_turn(tokenizer, char_tokens(text), written(*after));
        },
    }
}

/// Construction takes the tokens as the tokenizer hands them out: where
/// each token of a run is used up in turn, construction goes on behind the
/// run with the builder that the run has made.
pub proof fn lemma_finished_consumes(
    b: BuilderView,
    tokenizer: TokenizerView,
    tokens: Seq<HtmlTokenView>,
)
    requires
        b.wf(),
        tokenizer.wf(),
        tokens.len() > 0,
        gives(tokenizer, tokens),
        each_used_up(b, tokens),
    ensures
        fed(b, tokens).wf(),
        drained(tokenizer, tokens).wf(),
        finished(b, tokenizer.next().1, Some(tokens[0])) == finished(
            fed(b, tokens),
            drained(tokenizer, tokens).next().1,
            drained(tokenizer, tokens).next().0,
        ),
    decreases tokens.len(),
{
    let first = tokens[0];
    let rest = tokens.drop_first();
    let after = tokenizer.next().1;
    if !tokenizer.exhausted() {
        tokenizer.lemma_run_progress();
    }
    lemma_process_wf(b, first);
    lemma_finished_unfold(b, after, first);
    let next = process(b, first).builder;
    assert(process(b, first).verdict == Verdict::Next);
    assert(fed(b, tokens) == fed(next, rest));
    assert(drained(tokenizer, tokens) == drained(after, rest));
    assert(gives(after, rest));
    assert(each_used_up(next, rest));
    if rest.len() == 0 {
        assert(fed(next, rest) == next);
        assert(drained(after, rest) == after);
        if !after.exhausted() {
            after.lemma_run_progress();
        }
    } else {
        assert(after.next().0 == Some(rest[0]));
        lemma_finished_consumes(next, after, rest);
    }
}

/// The tree with the elements `html`, `head` and `body` alone.
pub open spec fn wrappers() -> DomView {
    let none = Seq::<AttributeView>::empty();
    DomView::empty().appended(
        0,
        NodeKindView::Element(ElementView { kind: ElementKind::Html, attributes: none }),
    ).appended(
        1,
        NodeKindView::Element(ElementView { kind: ElementKind::Head, attributes: none }),
    ).appended(
        1,
        NodeKindView::Element(ElementView { kind: ElementKind::Body, attributes: none }),
    )
}

/// A document that is written as well-formed markup of elements of the
/// body alone becomes the tree that is written: below the document the
/// element `html`, below that `head` and `body`, and below `body` one node
/// for each element and each text, each the last child of the node that
/// it is written in.
pub proof fn lemma_document_is_built_as_written(m: Markup)
    requires
        m is Element,
        is_written(m),
        is_body_markup(m),
        count(m) + 4 < usize::MAX,
    ensures
        document_tree(source(m)) == planted(wrappers(), 3, m).dom,
{
    let tokens = written(m);
    let start = tokens[0];
    let kind = m->kind;
    let t0 = TokenizerView::initial(source(m));
    assert(t0.input.subrange(0, source(m).len() as int) =~= source(m));
    lemma_markup_is_tokenized(t0, m);
    let t1 = t0.next().1;
    assert(t0.next().0 == Some(start));
    assert(in_data(t0));
    assert(tokens.len() >= 2);
    let b0 = BuilderView::initial();
    assert(b0.dom.links_agree(0));
    lemma_wrappers_are_made_up(kind, attributes_read(m->attributes), m->self_closing);
    if !t0.exhausted() {
        t0.lemma_run_progress();
    }
    lemma_finished_token_by_token(b0, t1, start);
    lemma_settled(b0, start);
    let b6 = settled(b0, start).builder;

    // The builder in the body before the first element is opened.
    let b5 = BuilderView {
        dom: wrappers(),
        mode: InsertionMode::InBody,
        original_mode: InsertionMode::Initial,
        stack: seq![1usize, 3usize],
    };
    let none = Seq::<AttributeView>::empty();
    let d1 = DomView::empty().appended(
        0,
        NodeKindView::Element(ElementView { kind: ElementKind::Html, attributes: none }),
    );
    DomView::empty().lemma_appended_wf(
        0,
        NodeKindView::Element(ElementView { kind: ElementKind::Html, attributes: none }),
    );
    let d2 = d1.appended(
        1,
        NodeKindView::Element(ElementView { kind: ElementKind::Head, attributes: none }),
    );
    d1.lemma_appended_wf(
        1,
        NodeKindView::Element(ElementView { kind: ElementKind::Head, attributes: none }),
    );
    d2.lemma_appended_wf(
        1,
        NodeKindView::Element(ElementView { kind: ElementKind::Body, attributes: none }),
    );
    assert(b5.wf());
    assert(b5.dom.nodes.len() == 4);
    ElementKind::lemma_named_iff_name(kind.name(), kind);
    assert(b5.stack.push(4usize) =~= seq![1usize, 3usize, 4usize]);
    assert(start == (HtmlTokenView::StartTag {
        tag: kind.name(),
        self_closing: m->self_closing,
        attributes: attributes_read(m->attributes),
    }));
    assert(process(b5, start).builder == b5.element_inserted(
        kind,
        attributes_read(m->attributes),
    ));
    assert(process(b5, start).builder == b6);
    lemma_markup_is_built_as_written(b5, m);
    let rest = tokens.drop_first();
    assert(fed(b5, tokens) == fed(b6, rest));
    assert(each_used_up(b6, rest));
    assert(gives(t1, rest));
    lemma_finished_consumes(b6, t1, rest);
    let end = drained(t1, rest);
    assert(end == drained(t0, tokens));
    assert(end.exhausted());
    assert(finished(fed(b6, rest), end.next().1, end.next().0) == fed(b6, rest).dom);
}

pub open spec fn start_tag(kind: ElementKind, attributes: Seq<AttributeView>) -> HtmlTokenView {
    HtmlTokenView::StartTag { tag: kind.name(), self_closing: false, attributes }
}

pub open spec fn end_tag(kind: ElementKind) -> HtmlTokenView {
    HtmlTokenView::EndTag { tag: kind.name() }
}

/// The tokens of a whole document: the start tags of `html` and `head`,
/// the end tag of `head`, the start tag of `body`, the markup of the body,
/// and the end tags of `body` and `html`.
pub open spec fn document_tokens(
    html: Seq<AttributeView>,
    head: Seq<AttributeView>,
    body: Seq<AttributeView>,
    m: Markup,
) -> Seq<HtmlTokenView> {
    seq![
        start_tag(ElementKind::Html, html),
        start_tag(ElementKind::Head, head),
        end_tag(ElementKind::Head),
        start_tag(ElementKind::Body, body),
    ] + written(m) + seq![end_tag(ElementKind::Body), end_tag(ElementKind::Html)]
}

/// The tree with the elements `html`, `head` and `body` alone, each with
/// its attributes: `html` is node 1, `head` node 2 and `body` node 3.
pub open spec fn framed(
    html: Seq<AttributeView>,
    head: Seq<AttributeView>,
    body: Seq<AttributeView>,
) -> DomView {
    DomView::empty().appended(
        0,
        NodeKindView::Element(ElementView { kind: ElementKind::Html, attributes: html }),
    ).appended(
        1,
        NodeKindView::Element(ElementView { kind: ElementKind::Head, attributes: head }),
    ).appended(
        1,
        NodeKindView::Element(ElementView { kind: ElementKind::Body, attributes: body }),
    )
}

/// A whole document becomes the tree that is written. Where the tokens of
/// a document are those of `<html>`, `<head>`, `</head>`, `<body>`, of
/// well-formed markup of elements of the body and texts, and of `</body>`
/// and `</html>`, the tree holds `html` below the document, `head` and
/// `body` below `html`, each with the attributes of its start tag, and
/// below `body` what the markup makes: one node for each start tag, with
/// the kind and the attributes of that tag, below the node in which it is
/// written, and the texts as `planted` says.
pub proof fn lemma_document_tokens_are_built(
    tokenizer: TokenizerView,
    html: Seq<AttributeView>,
    head: Seq<AttributeView>,
    body: Seq<AttributeView>,
    m: Markup,
)
    requires
        tokenizer.wf(),
        gives(tokenizer, document_tokens(html, head, body, m)),
        drained(tokenizer, document_tokens(html, head, body, m)).exhausted(),
        is_body_markup(m),
        count(m) + 4 < usize::MAX,
    ensures
        finished(BuilderView::initial(), tokenizer.next().1, tokenizer.next().0) == planted(
            framed(html, head, body),
            3,
            m,
        ).dom,
{
    let tokens = document_tokens(html, head, body, m);
    let open_html = start_tag(ElementKind::Html, html);
    let open_head = start_tag(ElementKind::Head, head);
    let close_head = end_tag(ElementKind::Head);
    let open_body = start_tag(ElementKind::Body, body);
    let close_body = end_tag(ElementKind::Body);
    let close_html = end_tag(ElementKind::Html);
    ElementKind::lemma_named_iff_name(ElementKind::Html.name(), ElementKind::Html);
    ElementKind::lemma_named_iff_name(ElementKind::Head.name(), ElementKind::Head);
    ElementKind::lemma_named_iff_name(ElementKind::Body.name(), ElementKind::Body);
    let html_node = NodeKindView::Element(
        ElementView { kind: ElementKind::Html, attributes: html },
    );
    let head_node = NodeKindView::Element(
        ElementView { kind: ElementKind::Head, attributes: head },
    );
    let body_node = NodeKindView::Element(
        ElementView { kind: ElementKind::Body, attributes: body },
    );
    let d0 = DomView::empty();
    let d1 = d0.appended(0, html_node);
    let d2 = d1.appended(1, head_node);
    let d3 = d2.appended(1, body_node);
    assert(d0.links_agree(0));
    d0.lemma_appended_wf(0, html_node);
    d1.lemma_appended_wf(1, head_node);
    d2.lemma_appended_wf(1, body_node);

    // The first token: the root element is opened.
    let b0 = BuilderView::initial();
    assert(b0.wf());
    assert(tokens[0] == open_html);
    let rest = tokens.drop_first();
    let t1 = tokenizer.next().1;
    assert(tokenizer.next().0 == Some(open_html));
    assert(gives(t1, rest));
    assert(drained(tokenizer, tokens) == drained(t1, rest));
    if !tokenizer.exhausted() {
        tokenizer.lemma_run_progress();
    }
    let a1 = process(b0, open_html).builder;
    lemma_process_wf(b0, open_html);
    let b1 = process(a1, open_html).builder;
    lemma_process_wf(a1, open_html);
    assert(settled(a1, open_html) == process(a1, open_html));
    assert(settled(b0, open_html) == settled(a1, open_html));
    lemma_finished_token_by_token(b0, t1, open_html);
    assert(b1.dom == d1);
    assert(b1.stack =~= seq![1usize]);
    assert(b1.mode == InsertionMode::BeforeHead);

    // The head is opened and closed, and the body is opened.
    let b2 = process(b1, open_head).builder;
    lemma_process_wf(b1, open_head);
    assert(b2.dom == d2);
    assert(b2.stack =~= seq![1usize, 2usize]);
    assert(b2.kind_at(1) == Some(ElementKind::Head));
    lemma_left_open_is_below_innermost(b2, ElementKind::Head, 1);
    let b3 = process(b2, close_head).builder;
    lemma_process_wf(b2, close_head);
    assert(b3.stack =~= seq![1usize]);
    assert(b3.mode == InsertionMode::AfterHead);
    let b4 = process(b3, open_body).builder;
    lemma_process_wf(b3, open_body);
    assert(b4.dom == d3);
    assert(b4.stack =~= seq![1usize, 3usize]);
    assert(b4.mode == InsertionMode::InBody);
    assert(b4.current() == 3);

    // The markup of the body.
    lemma_markup_is_built_as_written(b4, m);
    let g = grown(b4, m);

    // The body and the document are closed.
    let b5 = process(g, close_body).builder;
    lemma_process_wf(g, close_body);
    assert(b5.dom == g.dom);
    assert(b5.mode == InsertionMode::AfterBody);
    let b6 = process(b5, close_html).builder;
    lemma_process_wf(b5, close_html);
    assert(b6.dom == g.dom);

    // The runs of tokens are handled in turn.
    let opening = seq![open_head, close_head, open_body];
    assert(opening =~= seq![open_head] + seq![close_head] + seq![open_body]);
    lemma_fed_one(b1, open_head);
    lemma_fed_one(b2, close_head);
    lemma_fed_one(b3, open_body);
    lemma_fed_in_turn(b1, seq![open_head], seq![close_head]);
    lemma_fed_in_turn(b1, seq![open_head] + seq![close_head], seq![open_body]);
    let closing = seq![close_body, close_html];
    assert(closing =~= seq![close_body] + seq![close_html]);
    lemma_fed_one(g, close_body);
    lemma_fed_one(b5, close_html);
    lemma_fed_in_turn(g, seq![close_body], seq![close_html]);
    lemma_fed_in_turn(b1, opening, written(m));
    lemma_fed_in_turn(b1, opening + written(m), closing);
    assert(rest =~= opening + written(m) + closing);
    assert(each_used_up(b1, rest));
    assert(fed(b1, rest) == b6);

    // Behind the last token the input is exhausted.
    lemma_finished_consumes(b1, t1, rest);
    let end = drained(t1, rest);
    assert(finished(b6, end.next().1, end.next().0) == b6.dom);
}

/// The markup of a whole document: `html`, in it `head` and `body`, each
/// with its attributes, and in `body` the given markup.
pub open spec fn document_markup(
    html: Seq<WrittenAttribute>,
    head: Seq<WrittenAttribute>,
    body: Seq<WrittenAttribute>,
    m: Markup,
) -> Markup {
    Markup::Element {
        kind: ElementKind::Html,
        attributes: html,
        self_closing: false,
        inside: Box::new(
            Markup::Element {
                kind: ElementKind::Head,
                attributes: head,
                self_closing: false,
                inside: Box::new(Markup::Nothing),
                after: Box::new(
                    Markup::Element {
                        kind: ElementKind::Body,
                        attributes: body,
                        self_closing: false,
                        inside: Box::new(m),
                        after: Box::new(Markup::Nothing),
                    },
                ),
            },
        ),
        after: Box::new(Markup::Nothing),
    }
}

/// A document that is written as `<html>`, `<head>`, `</head>`, `<body>`,
/// well-formed markup of elements of the body with their attributes and
/// of texts, and `</body></html>` becomes the tree that is written:
/// `html` below the document, `head` and `body` below `html`, and below
/// `body` one node for each start tag, with the kind and the attributes
/// of that tag in the order in which they are written, below the node in
/// which it is written, and the texts as `planted` says.
pub proof fn lemma_whole_document_is_built_as_written(
    html: Seq<WrittenAttribute>,
    head: Seq<WrittenAttribute>,
    body: Seq<WrittenAttribute>,
    m: Markup,
)
    requires
        are_written_attributes(html),
        are_written_attributes(head),
        are_written_attributes(body),
        is_written(m),
        is_body_markup(m),
        count(m) + 4 < usize::MAX,
    ensures
        document_tree(source(document_markup(html, head, body, m))) == planted(
            framed(attributes_read(html), attributes_read(head), attributes_read(body)),
            3,
            m,
        ).dom,
{
    let whole = document_markup(html, head, body, m);
    let in_body = Markup::Element {
        kind: ElementKind::Body,
        attributes: body,
        self_closing: false,
        inside: Box::new(m),
        after: Box::new(Markup::Nothing),
    };
    let in_head = Markup::Element {
        kind: ElementKind::Head,
        attributes: head,
        self_closing: false,
        inside: Box::new(Markup::Nothing),
        after: Box::new(in_body),
    };
    assert(is_written(Markup::Nothing));
    assert(is_written(in_body));
    assert(is_written(in_head));
    assert(is_written(whole));
    let nothing = written(Markup::Nothing);
    assert(nothing =~= Seq::<HtmlTokenView>::empty());
    assert(written(in_body) =~= seq![start_tag(ElementKind::Body, attributes_read(body))]
        + written(m) + seq![end_tag(ElementKind::Body)]);
    assert(written(in_head) =~= seq![
        start_tag(ElementKind::Head, attributes_read(head)),
        end_tag(ElementKind::Head),
    ] + written(in_body));
    assert(written(whole) =~= seq![start_tag(ElementKind::Html, attributes_read(html))]
        + written(in_head) + seq![end_tag(ElementKind::Html)]);
    assert(written(whole) =~= document_tokens(
        attributes_read(html),
        attributes_read(head),
        attributes_read(body),
        m,
    ));
    let t0 = TokenizerView::initial(source(whole));
    assert(t0.input.subrange(0, source(whole).len() as int) =~= source(whole));
    lemma_markup_is_tokenized(t0, whole);
    lemma_document_tokens_are_built(
        t0,
        attributes_read(html),
        attributes_read(head),
        attributes_read(body),
        m,
    );
}

} // verus!
