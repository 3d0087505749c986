//! Start tags as they are written, with their attributes, and what the
//! tokenizer reads them as.

use vstd::prelude::*;

use crate::renderer::html::attribute::AttributeView;
use crate::renderer::html::token::{
    in_data, in_data_at, is_plain_name, step, HtmlTokenView, Registers, State, TokenizerView,
};
use crate::text::is_ascii_upper;

verus! {

/// How the value of an attribute is written: between double quotes,
/// between single quotes, or without quotes.
pub enum Quote {
    Double,
    Single,
    Bare,
}

/// An attribute as it is written: ` name=value`, the value in one of the
/// three forms.
pub struct WrittenAttribute {
    pub name: Seq<char>,
    pub value: Seq<char>,
    pub quote: Quote,
}

/// Whether a text can be written as the name of an attribute and is read
/// as it stands: it holds no space, `/`, `>`, `=` and no capital.
pub open spec fn is_written_name(name: Seq<char>) -> bool {
    &&& name.len() > 0
    &&& forall|i: int|
        0 <= i < name.len() ==> {
            let c = #[trigger] name[i];
            c != ' ' && c != '/' && c != '>' && c != '=' && !is_ascii_upper(c)
        }
}

/// Whether a text can be written as a value in the given form: between
/// quotes it does not hold the quote; without quotes it is not empty, does
/// not start with a quote, and holds no space and no `>`.
pub open spec fn is_written_value(value: Seq<char>, quote: Quote) -> bool {
    match quote {
        Quote::Double => forall|i: int| 0 <= i < value.len() ==> #[trigger] value[i] != '"',
        Quote::Single => forall|i: int| 0 <= i < value.len() ==> #[trigger] value[i] != '\'',
        Quote::Bare => {
            &&& value.len() > 0
            &&& value[0] != '"'
            &&& value[0] != '\''
            &&& forall|i: int|
                0 <= i < value.len() ==> #[trigger] value[i] != ' ' && value[i] != '>'
        },
    }
}

pub open spec fn is_written_attribute(a: WrittenAttribute) -> bool {
    is_written_name(a.name) && is_written_value(a.value, a.quote)
}

/// The value as it is written.
pub open spec fn quoted(value: Seq<char>, quote: Quote) -> Seq<char> {
    match quote {
        Quote::Double => seq!['"'] + value + seq!['"'],
        Quote::Single => seq!['\''] + value + seq!['\''],
        Quote::Bare => value,
    }
}

/// The attribute as it is written, with the space before it.
pub open spec fn attribute_text(a: WrittenAttribute) -> Seq<char> {
    seq![' '] + a.name + seq!['='] + quoted(a.value, a.quote)
}

/// The attribute that is written.
pub open spec fn attribute_read(a: WrittenAttribute) -> AttributeView {
    AttributeView { name: a.name, value: a.value }
}

/// The attributes as they are written, one after the other.
pub open spec fn attributes_text(attributes: Seq<WrittenAttribute>) -> Seq<char>
    decreases attributes.len(),
{
    if attributes.len() == 0 {
        Seq::empty()
    } else {
        attribute_text(attributes[0]) + attributes_text(attributes.drop_first())
    }
}

/// The attributes that are written, in their order.
pub open spec fn attributes_read(attributes: Seq<WrittenAttribute>) -> Seq<AttributeView>
    decreases attributes.len(),
{
    if attributes.len() == 0 {
        Seq::empty()
    } else {
        seq![attribute_read(attributes[0])] + attributes_read(attributes.drop_first())
    }
}

pub open spec fn are_written_attributes(attributes: Seq<WrittenAttribute>) -> bool {
    forall|i: int| 0 <= i < attributes.len() ==> is_written_attribute(#[trigger] attributes[i])
}

/// The start tag under construction with these attributes.
pub open spec fn open_tag(tag: Seq<char>, attributes: Seq<AttributeView>) -> Option<
    HtmlTokenView,
> {
    Some(HtmlTokenView::StartTag { tag, self_closing: false, attributes })
}

/// The machine in another state at another place, with another token
/// under construction and no character waiting.
pub open spec fn at(
    m: TokenizerView,
    state: State,
    pos: int,
    latest_token: Option<HtmlTokenView>,
) -> TokenizerView {
    TokenizerView {
        registers: Registers { state, reconsume: false, latest_token, buf: m.registers.buf },
        pos: pos as nat,
        input: m.input,
    }
}

/// The state in which a value in the given form is read.
pub open spec fn value_state(quote: Quote) -> State {
    match quote {
        Quote::Double => State::AttributeValueDoubleQuoted,
        Quote::Single => State::AttributeValueSingleQuoted,
        Quote::Bare => State::AttributeValueUnquoted,
    }
}

/// The state of the machine behind a value in the given form.
pub open spec fn end_state(quote: Quote) -> State {
    match quote {
        Quote::Bare => State::AttributeValueUnquoted,
        _ => State::AfterAttributeValueQuoted,
    }
}

/// The states in which a space starts the next attribute and a `>` ends
/// the tag.
pub open spec fn is_boundary(state: State) -> bool {
    state == State::TagName || state == State::AfterAttributeValueQuoted || state
        == State::AttributeValueUnquoted
}

/// In state `AttributeName`, with the first `read` characters of the
/// name taken, the rest of the name is taken up to the `=` behind it.
pub proof fn lemma_attribute_name_is_read(
    m: TokenizerView,
    tag: Seq<char>,
    done: Seq<AttributeView>,
    name: Seq<char>,
    start: int,
    read: int,
)
    requires
        m.wf(),
        is_written_name(name),
        0 <= start,
        1 <= read <= name.len(),
        start + name.len() < m.input.len(),
        m.input.subrange(start, start + name.len()) == name,
        m.input[start + name.len()] == '=',
        m == at(
            m,
            State::AttributeName,
            start + read,
            open_tag(
                tag,
                done.push(AttributeView { name: name.take(read), value: Seq::empty() }),
            ),
        ),
    ensures
        m.run() == at(
            m,
            State::BeforeAttributeValue,
            start + name.len() + 1,
            open_tag(tag, done.push(AttributeView { name, value: Seq::empty() })),
        ).run(),
    decreases name.len() - read,
{
    let c = m.input[m.pos as int];
    let partial = done.push(AttributeView { name: name.take(read), value: Seq::empty() });
    let o = step(m.registers.state, c, m.registers.latest_token, m.registers.buf);
    let after = m.advanced(o.registers);
    assert(m.run() == after.run());
    if read < name.len() {
        assert(c == name[read]) by {
            assert(m.input.subrange(start, start + name.len())[read] == c);
        }
        assert(name.take(read).push(c) =~= name.take(read + 1));
        assert(partial.update(
            partial.len() - 1,
            AttributeView { name: name.take(read).push(c), value: Seq::empty() },
        ) =~= done.push(AttributeView { name: name.take(read + 1), value: Seq::empty() }));
        assert(after == at(
            m,
            State::AttributeName,
            start + read + 1,
            open_tag(
                tag,
                done.push(AttributeView { name: name.take(read + 1), value: Seq::empty() }),
            ),
        ));
        lemma_attribute_name_is_read(after, tag, done, name, start, read + 1);
    } else {
        assert(name.take(read) =~= name);
    }
}

/// In a state in which a value is read, with the first `read` characters
/// of the value taken, the rest of the value is taken: up to and with the
/// closing quote of a value in quotes, and to the end of a value without
/// quotes.
pub proof fn lemma_attribute_value_is_read(
    m: TokenizerView,
    tag: Seq<char>,
    done: Seq<AttributeView>,
    name: Seq<char>,
    value: Seq<char>,
    quote: Quote,
    start: int,
    read: int,
)
    requires
        m.wf(),
        is_written_value(value, quote),
        0 <= start,
        0 <= read <= value.len(),
        start + value.len() < m.input.len(),
        m.input.subrange(start, start + value.len()) == value,
        quote is Double ==> m.input[start + value.len()] == '"',
        quote is Single ==> m.input[start + value.len()] == '\'',
        m == at(
            m,
            value_state(quote),
            start + read,
            open_tag(tag, done.push(AttributeView { name, value: value.take(read) })),
        ),
    ensures
        m.run() == at(
            m,
            end_state(quote),
            start + value.len() + (if quote is Bare {
                0int
            } else {
                1int
            }),
            open_tag(tag, done.push(AttributeView { name, value })),
        ).run(),
    decreases value.len() - read,
{
    let c = m.input[m.pos as int];
    let partial = done.push(AttributeView { name, value: value.take(read) });
    let o = step(m.registers.state, c, m.registers.latest_token, m.registers.buf);
    let after = m.advanced(o.registers);
    if read < value.len() {
        assert(c == value[read]) by {
            assert(m.input.subrange(start, start + value.len())[read] == c);
        }
        assert(m.run() == after.run());
        assert(value.take(read).push(c) =~= value.take(read + 1));
        assert(partial.update(
            partial.len() - 1,
            AttributeView { name, value: value.take(read).push(c) },
        ) =~= done.push(AttributeView { name, value: value.take(read + 1) }));
        assert(after == at(
            m,
            value_state(quote),
            start + read + 1,
            open_tag(tag, done.push(AttributeView { name, value: value.take(read + 1) })),
        ));
        lemma_attribute_value_is_read(after, tag, done, name, value, quote, start, read + 1);
    } else {
        assert(value.take(read) =~= value);
        if !(quote is Bare) {
            assert(m.run() == after.run());
        }
    }
}

/// Behind the name of a tag or behind an attribute, an attribute that is
/// written there is read as it is written: the tag under construction
/// gains it as its last attribute.
pub proof fn lemma_attribute_is_read(
    m: TokenizerView,
    tag: Seq<char>,
    done: Seq<AttributeView>,
    a: WrittenAttribute,
)
    requires
        m.wf(),
        is_boundary(m.registers.state),
        m == at(m, m.registers.state, m.pos as int, open_tag(tag, done)),
        is_written_attribute(a),
        m.pos as int + attribute_text(a).len() < m.input.len(),
        m.input.subrange(m.pos as int, m.pos as int + attribute_text(a).len()) == attribute_text(a),
    ensures
        m.run() == at(
            m,
            end_state(a.quote),
            m.pos as int + attribute_text(a).len(),
            open_tag(tag, done.push(attribute_read(a))),
        ).run(),
{
    let p = m.pos as int;
    let text = attribute_text(a);
    let input = m.input;
    let n = a.name.len() as int;
    let v = a.value.len() as int;
    let t = open_tag(tag, done);
    assert forall|k: int| 0 <= k < text.len() implies input[p + k] == text[k] by {
        assert(input.subrange(p, p + text.len())[k] == text[k]);
    }
    assert(text[0] == ' ');
    assert forall|k: int| 0 <= k < n implies text[1 + k] == a.name[k] by {}
    assert(text[1 + n] == '=');
    assert(input.subrange(p + 1, p + 1 + n) =~= a.name);

    // The space, and the first character of the name.
    let o0 = step(m.registers.state, ' ', t, m.registers.buf);
    let m1 = m.advanced(o0.registers);
    assert(m.run() == m1.run());
    assert(m1 == at(m, State::BeforeAttributeName, p + 1, t));
    let first = a.name[0];
    assert(input[p + 1] == first);
    let o1 = step(State::BeforeAttributeName, first, t, m.registers.buf);
    let m2 = m1.advanced(o1.registers);
    assert(m1.run() == m2.run());
    assert(m2.current() == first);
    let o2 = step(m2.registers.state, first, m2.registers.latest_token, m2.registers.buf);
    let m3 = m2.advanced(o2.registers);
    assert(m2.run() == m3.run());
    let fresh = done.push(AttributeView { name: Seq::empty(), value: Seq::empty() });
    assert(Seq::<char>::empty().push(first) =~= a.name.take(1));
    assert(fresh.update(
        fresh.len() - 1,
        AttributeView { name: Seq::<char>::empty().push(first), value: Seq::empty() },
    ) =~= done.push(AttributeView { name: a.name.take(1), value: Seq::empty() }));
    assert(m3 == at(
        m,
        State::AttributeName,
        p + 2,
        open_tag(tag, done.push(AttributeView { name: a.name.take(1), value: Seq::empty() })),
    ));

    // The rest of the name.
    lemma_attribute_name_is_read(m3, tag, done, a.name, p + 1, 1);
    let named = open_tag(tag, done.push(AttributeView { name: a.name, value: Seq::empty() }));
    let m4 = at(m, State::BeforeAttributeValue, p + n + 2, named);
    assert(m3.run() == m4.run());
    let c = input[p + n + 2];
    let o4 = step(State::BeforeAttributeValue, c, named, m.registers.buf);
    let m5 = m4.advanced(o4.registers);
    assert(m4.run() == m5.run());
    assert(a.value.take(0) =~= Seq::<char>::empty());

    // The value.
    match a.quote {
        Quote::Double => {
            assert(text[n + 2] == '"');
            assert forall|k: int| 0 <= k < v implies text[n + 3 + k] == a.value[k] by {}
            assert(text[n + 3 + v] == '"');
            assert(input.subrange(p + n + 3, p + n + 3 + v) =~= a.value);
            assert(m5 == at(m, State::AttributeValueDoubleQuoted, p + n + 3, named));
            lemma_attribute_value_is_read(m5, tag, done, a.name, a.value, a.quote, p + n + 3, 0);
        },
        Quote::Single => {
            assert(text[n + 2] == '\'');
            assert forall|k: int| 0 <= k < v implies text[n + 3 + k] == a.value[k] by {}
            assert(text[n + 3 + v] == '\'');
            assert(input.subrange(p + n + 3, p + n + 3 + v) =~= a.value);
            assert(m5 == at(m, State::AttributeValueSingleQuoted, p + n + 3, named));
            lemma_attribute_value_is_read(m5, tag, done, a.name, a.value, a.quote, p + n + 3, 0);
        },
        Quote::Bare => {
            assert forall|k: int| 0 <= k < v implies text[n + 2 + k] == a.value[k] by {}
            assert(input.subrange(p + n + 2, p + n + 2 + v) =~= a.value);
            let head = a.value[0];
            assert(c == head);
            assert(m5.current() == head);
            let o5 = step(m5.registers.state, head, m5.registers.latest_token, m5.registers.buf);
            let m6 = m5.advanced(o5.registers);
            assert(m5.run() == m6.run());
            let unvalued = done.push(AttributeView { name: a.name, value: Seq::empty() });
            assert(Seq::<char>::empty().push(head) =~= a.value.take(1));
            assert(unvalued.update(
                unvalued.len() - 1,
                AttributeView { name: a.name, value: Seq::<char>::empty().push(head) },
            ) =~= done.push(AttributeView { name: a.name, value: a.value.take(1) }));
            assert(m6 == at(
                m,
                State::AttributeValueUnquoted,
                p + n + 3,
                open_tag(tag, done.push(AttributeView { name: a.name, value: a.value.take(1) })),
            ));
            lemma_attribute_value_is_read(m6, tag, done, a.name, a.value, a.quote, p + n + 2, 1);
        },
    }
}

/// Behind the name of a tag or behind an attribute, the attributes that
/// are written up to the `>` are read in their order, and the tag is
/// handed out with them.
pub proof fn lemma_attributes_are_read(
    m: TokenizerView,
    tag: Seq<char>,
    done: Seq<AttributeView>,
    todo: Seq<WrittenAttribute>,
)
    requires
        m.wf(),
        is_boundary(m.registers.state),
        m == at(m, m.registers.state, m.pos as int, open_tag(tag, done)),
        are_written_attributes(todo),
        m.pos as int + attributes_text(todo).len() < m.input.len(),
        m.input.subrange(m.pos as int, m.pos as int + attributes_text(todo).len()) == attributes_text(
            todo,
        ),
        m.input[m.pos as int + attributes_text(todo).len()] == '>',
    ensures
        m.run().0 == (HtmlTokenView::StartTag {
            tag,
            self_closing: false,
            attributes: done + attributes_read(todo),
        }),
        m.run().1 == in_data_at(m, m.pos as int + attributes_text(todo).len() + 1),
    decreases todo.len(),
{
    let p = m.pos as int;
    if todo.len() == 0 {
        assert(done + attributes_read(todo) =~= done);
    } else {
        let a = todo[0];
        let rest = todo.drop_first();
        let all = attributes_text(todo);
        let one = attribute_text(a);
        assert(all == one + attributes_text(rest));
        assert forall|k: int| 0 <= k < all.len() implies m.input[p + k] == all[k] by {
            assert(m.input.subrange(p, p + all.len())[k] == all[k]);
        }
        assert(m.input.subrange(p, p + one.len()) =~= one) by {
            assert forall|k: int| 0 <= k < one.len() implies m.input[p + k] == one[k] by {
                assert(all[k] == one[k]);
            }
        }
        lemma_attribute_is_read(m, tag, done, a);
        let next = at(
            m,
            end_state(a.quote),
            p + one.len(),
            open_tag(tag, done.push(attribute_read(a))),
        );
        assert(m.input.subrange(p + one.len(), p + all.len()) =~= attributes_text(rest)) by {
            assert forall|k: int| 0 <= k < attributes_text(rest).len() implies m.input[p
                + one.len() + k] == attributes_text(rest)[k] by {
                assert(all[one.len() + k] == attributes_text(rest)[k]);
            }
        }
        assert forall|i: int| 0 <= i < rest.len() implies is_written_attribute(
            #[trigger] rest[i],
        ) by {
            assert(rest[i] == todo[i + 1]);
        }
        lemma_attributes_are_read(next, tag, done.push(attribute_read(a)), rest);
        assert(done.push(attribute_read(a)) + attributes_read(rest) =~= done + attributes_read(
            todo,
        ));
    }
}

/// In state `TagName`, with the first `read` characters of a plain name
/// taken into the tag, the rest of the name is taken.
pub proof fn lemma_tag_name_is_read(m: TokenizerView, name: Seq<char>, start: int, read: int)
    requires
        m.wf(),
        is_plain_name(name),
        0 <= start,
        1 <= read <= name.len(),
        start + name.len() < m.input.len(),
        m.input.subrange(start, start + name.len()) == name,
        m == at(m, State::TagName, start + read, open_tag(name.take(read), Seq::empty())),
    ensures
        m.run() == at(m, State::TagName, start + name.len(), open_tag(name, Seq::empty())).run(),
    decreases name.len() - read,
{
    if read < name.len() {
        let c = m.input[m.pos as int];
        assert(c == name[read]) by {
            assert(m.input.subrange(start, start + name.len())[read] == c);
        }
        let o = step(m.registers.state, c, m.registers.latest_token, m.registers.buf);
        let after = m.advanced(o.registers);
        assert(m.run() == after.run());
        assert(name.take(read).push(c) =~= name.take(read + 1));
        assert(after == at(
            m,
            State::TagName,
            start + read + 1,
            open_tag(name.take(read + 1), Seq::empty()),
        ));
        lemma_tag_name_is_read(after, name, start, read + 1);
    } else {
        assert(name.take(read) =~= name);
    }
}

/// Anywhere in a document, a start tag that is written as `<`, a plain
/// name, attributes and `>` is read as the start tag of that name with
/// those attributes, in the order in which they are written, whichever
/// way their values are quoted; and the machine goes on behind the `>`.
pub proof fn lemma_start_tag_with_attributes(
    m: TokenizerView,
    name: Seq<char>,
    attributes: Seq<WrittenAttribute>,
)
    requires
        in_data(m),
        is_plain_name(name),
        are_written_attributes(attributes),
        m.pos as int + 1 + name.len() + attributes_text(attributes).len() < m.input.len(),
        m.input.subrange(
            m.pos as int,
            m.pos as int + 2 + name.len() + attributes_text(attributes).len(),
        ) == seq!['<'] + name + attributes_text(attributes) + seq!['>'],
    ensures
        m.next().0 == Some(
            HtmlTokenView::StartTag {
                tag: name,
                self_closing: false,
                attributes: attributes_read(attributes),
            },
        ),
        m.next().1 == in_data_at(
            m,
            m.pos as int + 2 + name.len() + attributes_text(attributes).len(),
        ),
{
    let p = m.pos as int;
    let n = name.len() as int;
    let written = attributes_text(attributes);
    let all = seq!['<'] + name + written + seq!['>'];
    let input = m.input;
    assert forall|k: int| 0 <= k < all.len() implies input[p + k] == all[k] by {
        assert(input.subrange(p, p + all.len())[k] == all[k]);
    }
    assert(all[0] == '<');
    assert forall|k: int| 0 <= k < n implies all[1 + k] == name[k] by {}
    assert(input.subrange(p + 1, p + 1 + n) =~= name);
    assert(input.subrange(p + 1 + n, p + 1 + n + written.len()) =~= written) by {
        assert forall|k: int| 0 <= k < written.len() implies input[p + 1 + n + k]
            == written[k] by {
            assert(all[1 + n + k] == written[k]);
        }
    }
    assert(input[p + 1 + n + written.len()] == '>') by {
        assert(all[1 + n + written.len()] == '>');
    }
    let first = name[0];
    assert(input[p + 1] == first);
    let o0 = step(m.registers.state, '<', m.registers.latest_token, m.registers.buf);
    let m1 = m.advanced(o0.registers);
    let o1 = step(m1.registers.state, first, m1.registers.latest_token, m1.registers.buf);
    let m2 = m1.advanced(o1.registers);
    let o2 = step(m2.registers.state, first, m2.registers.latest_token, m2.registers.buf);
    let m3 = m2.advanced(o2.registers);
    assert(m.run() == m1.run());
    assert(m1.run() == m2.run());
    assert(m2.current() == first);
    assert(m2.run() == m3.run());
    assert(Seq::<char>::empty().push(first) =~= name.take(1));
    assert(m3 == at(m, State::TagName, p + 2, open_tag(name.take(1), Seq::empty())));
    lemma_tag_name_is_read(m3, name, p + 1, 1);
    let named = at(m, State::TagName, p + 1 + n, open_tag(name, Seq::empty()));
    lemma_attributes_are_read(named, name, Seq::empty(), attributes);
    assert(Seq::<AttributeView>::empty() + attributes_read(attributes) =~= attributes_read(
        attributes,
    ));
}

/// A tag with three attributes, one in each form, is read with the three
/// attributes in their order.
pub proof fn lemma_three_forms_of_values(
    m: TokenizerView,
    name: Seq<char>,
    first: WrittenAttribute,
    second: WrittenAttribute,
    third: WrittenAttribute,
)
    requires
        in_data(m),
        is_plain_name(name),
        is_written_attribute(first),
        is_written_attribute(second),
        is_written_attribute(third),
        first.quote is Double,
        second.quote is Single,
        third.quote is Bare,
        m.pos as int + 1 + name.len() + attributes_text(seq![first, second, third]).len()
            < m.input.len(),
        m.input.subrange(
            m.pos as int,
            m.pos as int + 2 + name.len() + attributes_text(seq![first, second, third]).len(),
        ) == seq!['<'] + name + attributes_text(seq![first, second, third]) + seq!['>'],
    ensures
        m.next().0 == Some(
            HtmlTokenView::StartTag {
                tag: name,
                self_closing: false,
                attributes: seq![
                    AttributeView { name: first.name, value: first.value },
                    AttributeView { name: second.name, value: second.value },
                    AttributeView { name: third.name, value: third.value },
                ],
            },
        ),
{
    let all = seq![first, second, third];
    lemma_start_tag_with_attributes(m, name, all);
    let two = all.drop_first();
    let one = two.drop_first();
    assert(one.drop_first() =~= Seq::<WrittenAttribute>::empty());
    assert(attributes_read(one.drop_first()) =~= Seq::<AttributeView>::empty());
    assert(attributes_read(one) =~= seq![attribute_read(third)]);
    assert(attributes_read(two) =~= seq![attribute_read(second), attribute_read(third)]);
    assert(attributes_read(all) =~= seq![
        attribute_read(first),
        attribute_read(second),
        attribute_read(third),
    ]);
}

} // verus!
