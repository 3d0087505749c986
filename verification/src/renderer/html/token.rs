//! The HTML tokenizer: a state machine over the characters of a document that
//! hands out start tags, end tags and single characters one at a time.

use vstd::prelude::*;
use vstd::string::StringExecFns;

use crate::renderer::html::attribute::{Attribute, AttributeView};
use crate::text::{
    ascii_lower, chars_of, is_ascii_alphabetic, is_ascii_letter, string_of_range,
    to_ascii_lowercase, views,
};

verus! {

#[derive(Debug, Clone, PartialEq, Eq)]
pub enum HtmlToken {
    StartTag { tag: String, self_closing: bool, attributes: Vec<Attribute> },
    EndTag { tag: String },
    Char(char),
    Eof,
}

/// What a token is, over sequences of characters.
pub enum HtmlTokenView {
    StartTag { tag: Seq<char>, self_closing: bool, attributes: Seq<AttributeView> },
    EndTag { tag: Seq<char> },
    Char(char),
    Eof,
}

impl View for HtmlToken {
    type V = HtmlTokenView;

    open spec fn view(&self) -> HtmlTokenView {
        match *self {
            HtmlToken::StartTag { tag, self_closing, attributes } => HtmlTokenView::StartTag {
                tag: tag@,
                self_closing,
                attributes: views(attributes@),
            },
            HtmlToken::EndTag { tag } => HtmlTokenView::EndTag { tag: tag@ },
            HtmlToken::Char(c) => HtmlTokenView::Char(c),
            HtmlToken::Eof => HtmlTokenView::Eof,
        }
    }
}

/// The view of a token that may be absent.
pub open spec fn token_view(token: Option<HtmlToken>) -> Option<HtmlTokenView> {
    match token {
        Some(t) => Some(t@),
        None => None,
    }
}

#[derive(Debug, Clone, Copy, PartialEq, Eq, Structural)]
pub enum State {
    Data,
    TagOpen,
    EndTagOpen,
    TagName,
    BeforeAttributeName,
    AttributeName,
    AfterAttributeName,
    BeforeAttributeValue,
    AttributeValueDoubleQuoted,
    AttributeValueSingleQuoted,
    AttributeValueUnquoted,
    AfterAttributeValueQuoted,
    SelfClosingStartTag,
    ScriptData,
    ScriptDataLessThanSign,
    ScriptDataEndTagOpen,
    ScriptDataEndTagName,
    TemporaryBuffer,
}

/// The tag under construction with `c` added to its name; anything else is
/// left as it is.
pub open spec fn tag_pushed(latest: Option<HtmlTokenView>, c: char) -> Option<HtmlTokenView> {
    match latest {
        Some(HtmlTokenView::StartTag { tag, self_closing, attributes }) => Some(
            HtmlTokenView::StartTag { tag: tag.push(c), self_closing, attributes },
        ),
        Some(HtmlTokenView::EndTag { tag }) => Some(HtmlTokenView::EndTag { tag: tag.push(c) }),
        _ => latest,
    }
}

/// The start tag under construction with a new, empty attribute at the end.
pub open spec fn attribute_started(latest: Option<HtmlTokenView>) -> Option<HtmlTokenView> {
    match latest {
        Some(HtmlTokenView::StartTag { tag, self_closing, attributes }) => Some(
            HtmlTokenView::StartTag {
                tag,
                self_closing,
                attributes: attributes.push(
                    AttributeView { name: Seq::empty(), value: Seq::empty() },
                ),
            },
        ),
        _ => latest,
    }
}

/// The start tag under construction with `c` added to the name (`is_name`) or
/// to the value of its last attribute. A start tag without attributes, and
/// anything that is no start tag, is left as it is.
pub open spec fn attribute_pushed(latest: Option<HtmlTokenView>, c: char, is_name: bool) -> Option<
    HtmlTokenView,
> {
    match latest {
        Some(HtmlTokenView::StartTag { tag, self_closing, attributes }) => {
            if attributes.len() > 0 {
                let last = attributes.last();
                let grown = if is_name {
                    AttributeView { name: last.name.push(c), value: last.value }
                } else {
                    AttributeView { name: last.name, value: last.value.push(c) }
                };
                Some(
                    HtmlTokenView::StartTag {
                        tag,
                        self_closing,
                        attributes: attributes.update(attributes.len() - 1, grown),
                    },
                )
            } else {
                latest
            }
        },
        _ => latest,
    }
}

/// The start tag under construction, marked as self-closing.
pub open spec fn self_closing_set(latest: Option<HtmlTokenView>) -> Option<HtmlTokenView> {
    match latest {
        Some(HtmlTokenView::StartTag { tag, self_closing, attributes }) => Some(
            HtmlTokenView::StartTag { tag, self_closing: true, attributes },
        ),
        _ => latest,
    }
}

/// Whether there is no token, or the token is a start tag or an end tag.
pub open spec fn is_tag_or_nothing(token: Option<HtmlTokenView>) -> bool {
    match token {
        Some(HtmlTokenView::Char(_)) => false,
        Some(HtmlTokenView::Eof) => false,
        _ => true,
    }
}

pub open spec fn empty_start_tag() -> HtmlTokenView {
    HtmlTokenView::StartTag { tag: Seq::empty(), self_closing: false, attributes: Seq::empty() }
}

pub open spec fn empty_end_tag() -> HtmlTokenView {
    HtmlTokenView::EndTag { tag: Seq::empty() }
}

/// What the machine holds besides its input and cursor.
pub struct Registers {
    pub state: State,
    /// Whether the character just handled is to be handled once more.
    pub reconsume: bool,
    pub latest_token: Option<HtmlTokenView>,
    pub buf: Seq<char>,
}

/// The effect of handling one character: the registers afterwards, and the
/// token that is handed out, if one is.
pub struct Outcome {
    pub registers: Registers,
    pub emit: Option<HtmlTokenView>,
}

pub open spec fn go_on(state: State, latest_token: Option<HtmlTokenView>, buf: Seq<char>) -> Outcome {
    Outcome { registers: Registers { state, reconsume: false, latest_token, buf }, emit: None }
}

pub open spec fn again(state: State, latest_token: Option<HtmlTokenView>, buf: Seq<char>) -> Outcome {
    Outcome { registers: Registers { state, reconsume: true, latest_token, buf }, emit: None }
}

/// The tag under construction is complete: it is handed out and the machine
/// returns to `Data`.
pub open spec fn tag_done(latest_token: Option<HtmlTokenView>, buf: Seq<char>) -> Outcome {
    Outcome {
        registers: Registers { state: State::Data, reconsume: false, latest_token: None, buf },
        emit: latest_token,
    }
}

/// Whether the tag under construction is the end tag of a script.
pub open spec fn closes_script(latest: Option<HtmlTokenView>) -> bool {
    latest == Some(HtmlTokenView::EndTag { tag: "script"@ })
}

/// The transition function of the tokenizer: what handling the character `c`
/// does in state `state`, with `latest_token` under construction and `buf`
/// as temporary buffer.
pub open spec fn step(state: State, c: char, latest_token: Option<HtmlTokenView>, buf: Seq<char>) -> Outcome {
    let t = latest_token;
    match state {
        State::Data => {
            if c == '<' {
                go_on(State::TagOpen, t, buf)
            } else {
                Outcome {
                    registers: Registers { state, reconsume: false, latest_token: t, buf },
                    emit: Some(HtmlTokenView::Char(c)),
                }
            }
        },
        State::TagOpen => {
            if c == '/' {
                go_on(State::EndTagOpen, t, buf)
            } else if is_ascii_letter(c) {
                again(State::TagName, Some(empty_start_tag()), buf)
            } else {
                again(State::Data, t, buf)
            }
        },
        State::EndTagOpen => {
            if is_ascii_letter(c) {
                again(State::TagName, Some(empty_end_tag()), buf)
            } else {
                go_on(state, t, buf)
            }
        },
        State::TagName => {
            if c == ' ' {
                go_on(State::BeforeAttributeName, t, buf)
            } else if c == '/' {
                go_on(State::SelfClosingStartTag, t, buf)
            } else if c == '>' {
                tag_done(t, buf)
            } else {
                go_on(state, tag_pushed(t, ascii_lower(c)), buf)
            }
        },
        State::BeforeAttributeName => {
            if c == ' ' {
                go_on(state, t, buf)
            } else if c == '/' || c == '>' {
                again(State::AfterAttributeName, t, buf)
            } else {
                again(State::AttributeName, attribute_started(t), buf)
            }
        },
        State::AttributeName => {
            if c == ' ' || c == '/' || c == '>' {
                again(State::AfterAttributeName, t, buf)
            } else if c == '=' {
                go_on(State::BeforeAttributeValue, t, buf)
            } else {
                go_on(state, attribute_pushed(t, ascii_lower(c), true), buf)
            }
        },
        State::AfterAttributeName => {
            if c == ' ' {
                go_on(state, t, buf)
            } else if c == '/' {
                go_on(State::SelfClosingStartTag, t, buf)
            } else if c == '=' {
                go_on(State::BeforeAttributeValue, t, buf)
            } else if c == '>' {
                tag_done(t, buf)
            } else {
                again(State::AttributeName, attribute_started(t), buf)
            }
        },
        State::BeforeAttributeValue => {
            if c == ' ' {
                go_on(state, t, buf)
            } else if c == '"' {
                go_on(State::AttributeValueDoubleQuoted, t, buf)
            } else if c == '\'' {
                go_on(State::AttributeValueSingleQuoted, t, buf)
            } else {
                again(State::AttributeValueUnquoted, t, buf)
            }
        },
        State::AttributeValueDoubleQuoted => {
            if c == '"' {
                go_on(State::AfterAttributeValueQuoted, t, buf)
            } else {
                go_on(state, attribute_pushed(t, c, false), buf)
            }
        },
        State::AttributeValueSingleQuoted => {
            if c == '\'' {
                go_on(State::AfterAttributeValueQuoted, t, buf)
            } else {
                go_on(state, attribute_pushed(t, c, false), buf)
            }
        },
        State::AttributeValueUnquoted => {
            if c == ' ' {
                go_on(State::BeforeAttributeName, t, buf)
            } else if c == '>' {
                tag_done(t, buf)
            } else {
                go_on(state, attribute_pushed(t, c, false), buf)
            }
        },
        State::AfterAttributeValueQuoted => {
            if c == ' ' {
                go_on(State::BeforeAttributeName, t, buf)
            } else if c == '/' {
                go_on(State::SelfClosingStartTag, t, buf)
            } else if c == '>' {
                tag_done(t, buf)
            } else {
                again(State::BeforeAttributeName, t, buf)
            }
        },
        State::SelfClosingStartTag => {
            if c == '>' {
                tag_done(self_closing_set(t), buf)
            } else {
                go_on(state, t, buf)
            }
        },
        State::ScriptData => {
            if c == '<' {
                go_on(State::ScriptDataLessThanSign, t, buf)
            } else {
                Outcome {
                    registers: Registers { state, reconsume: false, latest_token: t, buf },
                    emit: Some(HtmlTokenView::Char(c)),
                }
            }
        },
        State::ScriptDataLessThanSign => {
            if c == '/' {
                go_on(State::ScriptDataEndTagOpen, t, Seq::empty())
            } else {
                Outcome {
                    registers: Registers {
                        state: State::ScriptData,
                        reconsume: true,
                        latest_token: t,
                        buf,
                    },
                    emit: Some(HtmlTokenView::Char('<')),
                }
            }
        },
        State::ScriptDataEndTagOpen => {
            if is_ascii_letter(c) {
                again(State::ScriptDataEndTagName, Some(empty_end_tag()), buf)
            } else {
                again(State::TemporaryBuffer, t, seq!['<', '/'])
            }
        },
        State::ScriptDataEndTagName => {
            if c == '>' && closes_script(t) {
                tag_done(t, buf)
            } else if is_ascii_letter(c) {
                go_on(state, tag_pushed(t, ascii_lower(c)), buf.push(c))
            } else {
                again(State::TemporaryBuffer, t, seq!['<', '/'] + buf)
            }
        },
        State::TemporaryBuffer => {
            if buf.len() == 0 {
                again(State::ScriptData, t, buf)
            } else {
                Outcome {
                    registers: Registers {
                        state,
                        reconsume: true,
                        latest_token: t,
                        buf: buf.drop_first(),
                    },
                    emit: Some(HtmlTokenView::Char(buf[0])),
                }
            }
        },
    }
}

/// Spaces between the attributes of a tag make no attribute: before the
/// name of an attribute a space is passed over.
pub proof fn lemma_spaces_make_no_attribute(latest_token: Option<HtmlTokenView>, buf: Seq<char>)
    ensures
        step(State::BeforeAttributeName, ' ', latest_token, buf) == go_on(
            State::BeforeAttributeName,
            latest_token,
            buf,
        ),
{
}

/// A `/` ends the name of a tag and is no part of it: in state `TagName`
/// it leaves the tag under construction as it is, and the machine waits
/// for the `>` that closes a self-closing tag.
pub proof fn lemma_slash_ends_the_name(latest_token: Option<HtmlTokenView>, buf: Seq<char>)
    ensures
        step(State::TagName, '/', latest_token, buf) == go_on(
            State::SelfClosingStartTag,
            latest_token,
            buf,
        ),
{
}

/// Handling a character leaves a tag under construction, or nothing, and
/// never hands out the end of the input.
pub proof fn lemma_step_keeps_tag(
    state: State,
    c: char,
    latest_token: Option<HtmlTokenView>,
    buf: Seq<char>,
)
    requires
        is_tag_or_nothing(latest_token),
    ensures
        is_tag_or_nothing(step(state, c, latest_token, buf).registers.latest_token),
        step(state, c, latest_token, buf).emit != Some(HtmlTokenView::Eof),
{
}

/// How many more times a character may be handed on without the cursor
/// moving, when it reaches `state`: the measure by which a run of
/// reconsumptions ends.
pub open spec fn replay_rank(state: State, c: char) -> nat {
    let ends_name = c == ' ' || c == '/' || c == '>';
    match state {
        State::TagOpen | State::EndTagOpen | State::BeforeAttributeValue
        | State::ScriptDataLessThanSign | State::TemporaryBuffer => 1,
        State::ScriptDataEndTagName => 2,
        State::ScriptDataEndTagOpen => 3,
        State::AttributeName => if ends_name {
            1
        } else {
            0
        },
        State::AfterAttributeName => if ends_name || c == '=' {
            0
        } else {
            1
        },
        State::BeforeAttributeName => 2,
        State::AfterAttributeValueQuoted => 3,
        _ => 0,
    }
}

pub open spec fn in_tag_family(state: State) -> bool {
    state == State::Data || state == State::TagOpen || state == State::EndTagOpen || state
        == State::TagName || state == State::SelfClosingStartTag
}

pub open spec fn in_name_family(state: State) -> bool {
    state == State::BeforeAttributeName || state == State::AttributeName || state
        == State::AfterAttributeName || state == State::BeforeAttributeValue
}

pub open spec fn in_value_family(state: State) -> bool {
    state == State::AttributeValueDoubleQuoted || state == State::AttributeValueSingleQuoted
        || state == State::AttributeValueUnquoted || state == State::AfterAttributeValueQuoted
}

pub open spec fn in_script_family(state: State) -> bool {
    state == State::ScriptData || state == State::ScriptDataLessThanSign || state
        == State::ScriptDataEndTagOpen || state == State::ScriptDataEndTagName || state
        == State::TemporaryBuffer
}

/// The tokenizer as a mathematical value.
pub struct TokenizerView {
    pub registers: Registers,
    /// Number of characters consumed; one more than the length of the input
    /// once the end has been read.
    pub pos: nat,
    pub input: Seq<char>,
}

impl TokenizerView {
    /// The tokenizer at the start of `input`.
    pub open spec fn initial(input: Seq<char>) -> TokenizerView {
        TokenizerView {
            registers: Registers {
                state: State::Data,
                reconsume: false,
                latest_token: None,
                buf: Seq::empty(),
            },
            pos: 0,
            input,
        }
    }

    /// The cursor is within the input, or just beyond it; a character is
    /// handed on only where one has been read; and what is under
    /// construction is a tag.
    pub open spec fn wf(self) -> bool {
        &&& self.pos <= self.input.len() + 1
        &&& self.registers.reconsume ==> 1 <= self.pos <= self.input.len()
        &&& is_tag_or_nothing(self.registers.latest_token)
    }

    /// Number of characters that are still to be handled, the end of the
    /// input counted as one.
    pub open spec fn pending(self) -> nat {
        let ahead = if self.pos <= self.input.len() {
            self.input.len() + 1 - self.pos
        } else {
            0
        };
        if self.registers.reconsume {
            (ahead + 1) as nat
        } else {
            ahead as nat
        }
    }

    pub open spec fn rank(self) -> nat {
        if self.registers.reconsume && 1 <= self.pos <= self.input.len() {
            replay_rank(self.registers.state, self.input[self.pos - 1])
        } else {
            4
        }
    }

    /// Whether the input has run out: every character has been read, and
    /// none waits to be handled once more. No further token will come.
    pub open spec fn exhausted(self) -> bool {
        !self.registers.reconsume && self.pos >= self.input.len()
    }

    /// The machine after the character under the cursor has been taken and
    /// handled with the given outcome.
    pub open spec fn advanced(self, registers: Registers) -> TokenizerView {
        TokenizerView {
            registers,
            pos: if self.registers.reconsume {
                self.pos
            } else {
                self.pos + 1
            },
            input: self.input,
        }
    }

    /// The character that is handled next.
    pub open spec fn current(self) -> char {
        if self.registers.reconsume {
            self.input[self.pos - 1]
        } else {
            self.input[self.pos as int]
        }
    }

    /// Runs the machine until it hands out a token. Where the input ends
    /// before that, the cursor moves beyond the end and the token is `Eof`.
    pub open spec fn run(self) -> (HtmlTokenView, TokenizerView)
        decreases self.pending(), self.rank(),
    {
        if !self.wf() || (!self.registers.reconsume && self.pos >= self.input.len()) {
            (
                HtmlTokenView::Eof,
                TokenizerView { pos: self.input.len() + 1, ..self },
            )
        } else {
            let o = step(
                self.registers.state,
                self.current(),
                self.registers.latest_token,
                self.registers.buf,
            );
            let after = self.advanced(o.registers);
            match o.emit {
                Some(t) => (t, after),
                None => after.run(),
            }
        }
    }

    /// Whether `self` is strictly nearer to the end of its work than `before`.
    pub open spec fn nearer_than(self, before: TokenizerView) -> bool {
        ||| self.pending() < before.pending()
        ||| (self.pending() == before.pending() && self.rank() < before.rank())
        ||| (self.pending() == before.pending() && self.rank() == before.rank()
            && self.registers.buf.len() < before.registers.buf.len())
    }

    /// Handing out a token keeps the input, keeps the machine well formed
    /// and brings it nearer to the end of its work.
    pub proof fn lemma_run_progress(self)
        requires
            self.wf(),
            !self.exhausted(),
        ensures
            self.run().1.wf(),
            self.run().1.input == self.input,
            self.run().1.nearer_than(self),
        decreases self.pending(), self.rank(),
    {
        let o = step(
            self.registers.state,
            self.current(),
            self.registers.latest_token,
            self.registers.buf,
        );
        let after = self.advanced(o.registers);
        lemma_step_keeps_tag(
            self.registers.state,
            self.current(),
            self.registers.latest_token,
            self.registers.buf,
        );
        assert(after.wf());
        assert(after.nearer_than(self));
        if o.emit is None {
            if !after.registers.reconsume && after.pos >= after.input.len() {
                assert(after.run().1 == (TokenizerView {
                    pos: after.input.len() + 1,
                    ..after
                }));
            } else {
                after.lemma_run_progress();
            }
            assert(self.run() == after.run());
        } else {
            assert(self.run().1 == after);
        }
    }

    /// The end of the input is handed out only when the cursor has moved
    /// beyond it: after that the input is exhausted, and no token follows.
    pub proof fn lemma_eof_ends_the_input(self)
        requires
            self.wf(),
        ensures
            self.run().0 == HtmlTokenView::Eof ==> self.run().1.exhausted() && self.run().1.next().0
                is None,
        decreases self.pending(), self.rank(),
    {
        if !self.registers.reconsume && self.pos >= self.input.len() {
        } else {
            let o = step(
                self.registers.state,
                self.current(),
                self.registers.latest_token,
                self.registers.buf,
            );
            let after = self.advanced(o.registers);
            lemma_step_keeps_tag(
                self.registers.state,
                self.current(),
                self.registers.latest_token,
                self.registers.buf,
            );
            if o.emit is None {
                after.lemma_eof_ends_the_input();
            }
        }
    }

    /// Once the input is exhausted it stays so: every further call gives
    /// nothing and changes nothing.
    pub proof fn lemma_nothing_after_the_end(self)
        requires
            self.exhausted(),
        ensures
            self.next() == (None::<HtmlTokenView>, self),
            self.next().1.next() == (None::<HtmlTokenView>, self),
    {
    }

    /// Text outside tags comes out character by character: in state `Data`
    /// a character that is no `<` is handed out as it is, and the cursor
    /// moves behind it.
    pub proof fn lemma_text_is_handed_out(self)
        requires
            self.wf(),
            !self.exhausted(),
            self.registers.state == State::Data,
            !self.registers.reconsume,
            self.input[self.pos as int] != '<',
        ensures
            self.next().0 == Some(HtmlTokenView::Char(self.input[self.pos as int])),
            self.next().1 == (TokenizerView { pos: self.pos + 1, ..self }),
    {
    }

    /// The body of a script comes out character by character: in state
    /// `ScriptData` a character that is no `<` is handed out as it is,
    /// whether it has just been read or waits to be handled once more.
    pub proof fn lemma_script_text_is_handed_out(self)
        requires
            self.wf(),
            !self.exhausted(),
            self.registers.state == State::ScriptData,
            self.current() != '<',
        ensures
            self.next().0 == Some(HtmlTokenView::Char(self.current())),
            self.next().1 == self.advanced(
                Registers { reconsume: false, ..self.registers },
            ),
    {
    }

    /// One call of `next`: nothing once the input is exhausted, else the
    /// next token.
    pub open spec fn next(self) -> (Option<HtmlTokenView>, TokenizerView) {
        if self.exhausted() {
            (None, self)
        } else {
            (Some(self.run().0), self.run().1)
        }
    }
}

/// Whether a text can be the name of a tag that is read as it is written:
/// small letters and digits, a letter first.
pub open spec fn is_plain_name(name: Seq<char>) -> bool {
    &&& name.len() >= 1
    &&& crate::text::is_ascii_lower(name[0])
    &&& forall|i: int|
        0 <= i < name.len() ==> crate::text::is_ascii_lower(#[trigger] name[i])
            || crate::text::is_ascii_digit(name[i])
}

/// The tag under construction with another name.
pub open spec fn renamed(tag: HtmlTokenView, name: Seq<char>) -> HtmlTokenView {
    match tag {
        HtmlTokenView::StartTag { tag, self_closing, attributes } => HtmlTokenView::StartTag {
            tag: name,
            self_closing,
            attributes,
        },
        _ => HtmlTokenView::EndTag { tag: name },
    }
}

/// In state `TagName`, with the first `read` characters of a plain name
/// taken into the tag, the rest of the name and the `>` behind it complete
/// the tag: it is handed out with the whole name, and the machine is back
/// in state `Data` behind the `>`.
pub proof fn lemma_rest_of_tag(m: TokenizerView, name: Seq<char>, start: int, read: int)
    requires
        m.wf(),
        is_plain_name(name),
        0 <= start,
        1 <= read <= name.len(),
        start + name.len() < m.input.len(),
        m.input.subrange(start, start + name.len()) == name,
        m.input[start + name.len()] == '>',
        m.registers.state == State::TagName,
        !m.registers.reconsume,
        m.pos == start + read,
        m.registers.latest_token is Some,
        m.registers.latest_token->0 is StartTag || m.registers.latest_token->0 is EndTag,
        m.registers.latest_token->0 == renamed(m.registers.latest_token->0, name.take(read)),
    ensures
        m.run().0 == renamed(m.registers.latest_token->0, name),
        m.run().1 == (TokenizerView {
            registers: Registers {
                state: State::Data,
                reconsume: false,
                latest_token: None,
                buf: m.registers.buf,
            },
            pos: (start + name.len() + 1) as nat,
            input: m.input,
        }),
    decreases name.len() - read,
{
    if read < name.len() {
        let c = m.input[m.pos as int];
        assert(c == name[read]) by {
            assert(m.input.subrange(start, start + name.len())[read] == c);
        }
        let o = step(m.registers.state, c, m.registers.latest_token, m.registers.buf);
        let after = m.advanced(o.registers);
        assert(name.take(read).push(c) =~= name.take(read + 1));
        lemma_rest_of_tag(after, name, start, read + 1);
        assert(name.take(name.len() as int) =~= name);
    } else {
        assert(name.take(read) =~= name);
    }
}

/// The machine in state `Data` with nothing left over, at a place of its
/// input.
pub open spec fn in_data(m: TokenizerView) -> bool {
    &&& m.wf()
    &&& m.registers.state == State::Data
    &&& !m.registers.reconsume
    &&& m.pos <= m.input.len()
}

/// The machine back in state `Data` at another place, with no tag under
/// construction.
pub open spec fn in_data_at(m: TokenizerView, pos: int) -> TokenizerView {
    TokenizerView {
        registers: Registers {
            state: State::Data,
            reconsume: false,
            latest_token: None,
            buf: m.registers.buf,
        },
        pos: pos as nat,
        input: m.input,
    }
}

/// Anywhere in a document, `<`, a plain name and `>` are read as the start
/// tag of that name, without attributes and not self-closing, and the
/// machine goes on behind the `>`.
pub proof fn lemma_start_tag_in_data(m: TokenizerView, name: Seq<char>)
    requires
        in_data(m),
        is_plain_name(name),
        m.pos as int + name.len() + 2 <= m.input.len(),
        m.input[m.pos as int] == '<',
        m.input.subrange(m.pos as int + 1, m.pos as int + 1 + name.len()) == name,
        m.input[m.pos as int + 1 + name.len()] == '>',
    ensures
        m.next().0 == Some(
            HtmlTokenView::StartTag { tag: name, self_closing: false, attributes: Seq::empty() },
        ),
        m.next().1 == in_data_at(m, m.pos as int + name.len() + 2),
{
    let start = m.pos as int + 1;
    assert(m.input[start] == name[0]) by {
        assert(m.input.subrange(start, start + name.len())[0] == name[0]);
    }
    let o0 = step(m.registers.state, '<', m.registers.latest_token, m.registers.buf);
    let m1 = m.advanced(o0.registers);
    let o1 = step(m1.registers.state, name[0], m1.registers.latest_token, m1.registers.buf);
    let m2 = m1.advanced(o1.registers);
    let o2 = step(m2.registers.state, name[0], m2.registers.latest_token, m2.registers.buf);
    let m3 = m2.advanced(o2.registers);
    assert(m.run() == m1.run());
    assert(m1.run() == m2.run());
    assert(m2.current() == name[0]);
    assert(m2.run() == m3.run());
    assert(Seq::<char>::empty().push(name[0]) =~= name.take(1));
    lemma_rest_of_tag(m3, name, start, 1);
}

/// Anywhere in a document, `</`, a plain name and `>` are read as the end
/// tag of that name, and the machine goes on behind the `>`.
pub proof fn lemma_end_tag_in_data(m: TokenizerView, name: Seq<char>)
    requires
        in_data(m),
        is_plain_name(name),
        m.pos as int + name.len() + 3 <= m.input.len(),
        m.input[m.pos as int] == '<',
        m.input[m.pos as int + 1] == '/',
        m.input.subrange(m.pos as int + 2, m.pos as int + 2 + name.len()) == name,
        m.input[m.pos as int + 2 + name.len()] == '>',
    ensures
        m.next().0 == Some(HtmlTokenView::EndTag { tag: name }),
        m.next().1 == in_data_at(m, m.pos as int + name.len() + 3),
{
    let start = m.pos as int + 2;
    assert(m.input[start] == name[0]) by {
        assert(m.input.subrange(start, start + name.len())[0] == name[0]);
    }
    let o0 = step(m.registers.state, '<', m.registers.latest_token, m.registers.buf);
    let m1 = m.advanced(o0.registers);
    let o1 = step(m1.registers.state, '/', m1.registers.latest_token, m1.registers.buf);
    let m2 = m1.advanced(o1.registers);
    let o2 = step(m2.registers.state, name[0], m2.registers.latest_token, m2.registers.buf);
    let m3 = m2.advanced(o2.registers);
    let o3 = step(m3.registers.state, name[0], m3.registers.latest_token, m3.registers.buf);
    let m4 = m3.advanced(o3.registers);
    assert(m.run() == m1.run());
    assert(m1.run() == m2.run());
    assert(m2.run() == m3.run());
    assert(m3.current() == name[0]);
    assert(m3.run() == m4.run());
    assert(Seq::<char>::empty().push(name[0]) =~= name.take(1));
    lemma_rest_of_tag(m4, name, start, 1);
}

/// A start tag that is written as `<`, a plain name and `>` is read as the
/// start tag of that name, without attributes and not self-closing.
pub proof fn lemma_plain_start_tag(name: Seq<char>, rest: Seq<char>)
    requires
        is_plain_name(name),
    ensures
        TokenizerView::initial(seq!['<'] + name + seq!['>'] + rest).next().0 == Some(
            HtmlTokenView::StartTag { tag: name, self_closing: false, attributes: Seq::empty() },
        ),
        TokenizerView::initial(seq!['<'] + name + seq!['>'] + rest).next().1 == (TokenizerView {
            pos: name.len() + 2,
            ..TokenizerView::initial(seq!['<'] + name + seq!['>'] + rest)
        }),
{
    let input = seq!['<'] + name + seq!['>'] + rest;
    assert(input[0] == '<');
    assert(input.subrange(1, 1 + name.len() as int) =~= name);
    assert(input[1 + name.len() as int] == '>');
    lemma_start_tag_in_data(TokenizerView::initial(input), name);
}

/// An end tag that is written as `</`, a plain name and `>` is read as
/// the end tag of that name.
pub proof fn lemma_plain_end_tag(name: Seq<char>, rest: Seq<char>)
    requires
        is_plain_name(name),
    ensures
        TokenizerView::initial(seq!['<', '/'] + name + seq!['>'] + rest).next().0 == Some(
            HtmlTokenView::EndTag { tag: name },
        ),
        TokenizerView::initial(seq!['<', '/'] + name + seq!['>'] + rest).next().1
            == (TokenizerView {
            pos: name.len() + 3,
            ..TokenizerView::initial(seq!['<', '/'] + name + seq!['>'] + rest)
        }),
{
    let input = seq!['<', '/'] + name + seq!['>'] + rest;
    assert(input[0] == '<');
    assert(input[1] == '/');
    assert(input.subrange(2, 2 + name.len() as int) =~= name);
    assert(input[2 + name.len() as int] == '>');
    lemma_end_tag_in_data(TokenizerView::initial(input), name);
}

#[derive(Debug, Clone, PartialEq, Eq)]
pub struct HtmlTokenizer {
    state: State,
    pos: usize,
    /// Set once the end of the input has been read inside a tag.
    ended: bool,
    reconsume: bool,
    latest_token: Option<HtmlToken>,
    input: Vec<char>,
    buf: String,
}

impl View for HtmlTokenizer {
    type V = TokenizerView;

    closed spec fn view(&self) -> TokenizerView {
        TokenizerView {
            registers: Registers {
                state: self.state,
                reconsume: self.reconsume,
                latest_token: token_view(self.latest_token),
                buf: self.buf@,
            },
            pos: if self.ended {
                self.input@.len() + 1
            } else {
                self.pos as nat
            },
            input: self.input@,
        }
    }
}

impl HtmlTokenizer {
    /// Whether the fields agree with each other.
    closed spec fn inv(&self) -> bool {
        self.pos <= self.input@.len()
    }

    /// What holds of every tokenizer that `new` made and `next` advanced.
    pub closed spec fn wf(&self) -> bool {
        self.inv() && self@.wf()
    }

    /// A well-formed tokenizer has a well-formed view.
    pub proof fn lemma_wf_view(&self)
        requires
            self.wf(),
        ensures
            self@.wf(),
    {
    }

    pub fn new(html: String) -> (t: Self)
        ensures
            t.wf(),
            t@ == TokenizerView::initial(html@),
    {
        HtmlTokenizer {
            state: State::Data,
            pos: 0,
            ended: false,
            reconsume: false,
            latest_token: None,
            input: chars_of(html.as_str()),
            buf: String::new(),
        }
    }

    /// Puts the machine into another state, as the reader of the tokens
    /// does where the kind of content changes (to `ScriptData` for the
    /// body of a script). Cursor and token under construction stay.
    pub fn switch_to(&mut self, state: State)
        requires
            old(self).wf(),
        ensures
            final(self).wf(),
            final(self)@ == (TokenizerView {
                registers: Registers { state, ..old(self)@.registers },
                ..old(self)@
            }),
    {
        self.state = state;
    }

    fn consume_next_input(&mut self) -> (c: char)
        requires
            old(self).wf(),
            !old(self)@.registers.reconsume,
            !old(self)@.exhausted(),
        ensures
            final(self).wf(),
            !final(self).ended,
            c == old(self)@.current(),
            final(self)@ == old(self)@.advanced(old(self)@.registers),
    {
        let len = self.input.len();
        assert(self.pos < len);
        let c = self.input[self.pos];
        self.pos += 1;
        c
    }

    fn is_eof(&self) -> (r: bool)
        requires
            self.wf(),
        ensures
            r == (self@.pos > self@.input.len()),
    {
        self.ended
    }

    fn reconsume_input(&mut self) -> (c: char)
        requires
            old(self).wf(),
            old(self)@.registers.reconsume,
            !old(self).ended,
        ensures
            final(self).wf(),
            !final(self).ended,
            c == old(self)@.current(),
            final(self)@ == old(self)@.advanced(
                Registers { reconsume: false, ..old(self)@.registers },
            ),
    {
        self.reconsume = false;
        self.input[self.pos - 1]
    }

    fn create_start_tag(&mut self)
        ensures
            final(self).inv() == old(self).inv(),
            final(self).ended == old(self).ended,
            final(self)@ == (TokenizerView {
                registers: Registers {
                    latest_token: Some(empty_start_tag()),
                    ..old(self)@.registers
                },
                ..old(self)@
            }),
    {
        let attributes: Vec<Attribute> = Vec::new();
        self.latest_token = Some(
            HtmlToken::StartTag { tag: String::new(), self_closing: false, attributes },
        );
        assert(views(attributes@) =~= Seq::empty());
    }

    fn create_end_tag(&mut self)
        ensures
            final(self).inv() == old(self).inv(),
            final(self).ended == old(self).ended,
            final(self)@ == (TokenizerView {
                registers: Registers {
                    latest_token: Some(empty_end_tag()),
                    ..old(self)@.registers
                },
                ..old(self)@
            }),
    {
        self.latest_token = Some(HtmlToken::EndTag { tag: String::new() });
    }

    fn append_tag_name(&mut self, c: char)
        ensures
            final(self).inv() == old(self).inv(),
            final(self).ended == old(self).ended,
            final(self)@ == (TokenizerView {
                registers: Registers {
                    latest_token: tag_pushed(old(self)@.registers.latest_token, c),
                    ..old(self)@.registers
                },
                ..old(self)@
            }),
    {
        match &mut self.latest_token {
            Some(HtmlToken::StartTag { tag, self_closing: _, attributes: _ }) => {
                tag.push(c);
            },
            Some(HtmlToken::EndTag { tag }) => {
                tag.push(c);
            },
            _ => {},
        }
    }

    fn take_latest_token(&mut self) -> (token: Option<HtmlToken>)
        ensures
            final(self).inv() == old(self).inv(),
            final(self).ended == old(self).ended,
            token_view(token) == old(self)@.registers.latest_token,
            final(self)@ == (TokenizerView {
                registers: Registers { latest_token: None, ..old(self)@.registers },
                ..old(self)@
            }),
    {
        self.latest_token.take()
    }

    fn start_new_attribute(&mut self)
        ensures
            final(self).inv() == old(self).inv(),
            final(self).ended == old(self).ended,
            final(self)@ == (TokenizerView {
                registers: Registers {
                    latest_token: attribute_started(old(self)@.registers.latest_token),
                    ..old(self)@.registers
                },
                ..old(self)@
            }),
    {
        match &mut self.latest_token {
            Some(HtmlToken::StartTag { tag: _, self_closing: _, attributes }) => {
                let ghost before = attributes@;
                attributes.push(Attribute::default());
                assert(views(attributes@) =~= views(before).push(
                    AttributeView { name: Seq::empty(), value: Seq::empty() },
                ));
            },
            _ => {},
        }
    }

    fn append_attribute_name(&mut self, c: char)
        ensures
            final(self).inv() == old(self).inv(),
            final(self).ended == old(self).ended,
            final(self)@ == (TokenizerView {
                registers: Registers {
                    latest_token: attribute_pushed(old(self)@.registers.latest_token, c, true),
                    ..old(self)@.registers
                },
                ..old(self)@
            }),
    {
        self.append_attribute(c, true);
    }

    fn append_attribute_value(&mut self, c: char)
        ensures
            final(self).inv() == old(self).inv(),
            final(self).ended == old(self).ended,
            final(self)@ == (TokenizerView {
                registers: Registers {
                    latest_token: attribute_pushed(old(self)@.registers.latest_token, c, false),
                    ..old(self)@.registers
                },
                ..old(self)@
            }),
    {
        self.append_attribute(c, false);
    }

    fn append_attribute(&mut self, c: char, is_name: bool)
        ensures
            final(self).inv() == old(self).inv(),
            final(self).ended == old(self).ended,
            final(self)@ == (TokenizerView {
                registers: Registers {
                    latest_token: attribute_pushed(old(self)@.registers.latest_token, c, is_name),
                    ..old(self)@.registers
                },
                ..old(self)@
            }),
    {
        match &mut self.latest_token {
            Some(HtmlToken::StartTag { tag: _, self_closing: _, attributes }) => {
                let len = attributes.len();
                if len > 0 {
                    let ghost before = attributes@;
                    let mut last = attributes.pop().unwrap();
                    if is_name {
                        last.add_name_char(c);
                    } else {
                        last.add_value_char(c);
                    }
                    attributes.push(last);
                    assert(views(attributes@) =~= views(before).update(len - 1, last@));
                }
            },
            _ => {},
        }
    }

    fn set_self_closing_flag(&mut self)
        ensures
            final(self).inv() == old(self).inv(),
            final(self).ended == old(self).ended,
            final(self)@ == (TokenizerView {
                registers: Registers {
                    latest_token: self_closing_set(old(self)@.registers.latest_token),
                    ..old(self)@.registers
                },
                ..old(self)@
            }),
    {
        match &mut self.latest_token {
            Some(HtmlToken::StartTag { tag: _, self_closing, attributes: _ }) => {
                *self_closing = true;
            },
            _ => {},
        }
    }

    /// Starts the temporary buffer anew with `</` and what it held.
    fn refill_buffer(&mut self)
        ensures
            final(self).inv() == old(self).inv(),
            final(self).ended == old(self).ended,
            final(self)@ == (TokenizerView {
                registers: Registers {
                    buf: seq!['<', '/'] + old(self)@.registers.buf,
                    ..old(self)@.registers
                },
                ..old(self)@
            }),
    {
        let mut s = String::new();
        s.push('<');
        s.push('/');
        assert(s@ =~= seq!['<', '/']);
        s.append(self.buf.as_str());
        self.buf = s;
    }

    /// Whether the tag under construction is the end tag of a script.
    fn closes_script(&self) -> (r: bool)
        ensures
            r == closes_script(self@.registers.latest_token),
    {
        match &self.latest_token {
            Some(HtmlToken::EndTag { tag }) => crate::text::same_text(tag.as_str(), "script"),
            _ => false,
        }
    }

    /// Takes the first character out of the temporary buffer.
    fn shift_buffer(&mut self) -> (c: Option<char>)
        ensures
            final(self).inv() == old(self).inv(),
            final(self).ended == old(self).ended,
            old(self)@.registers.buf.len() == 0 ==> c is None && final(self)@ == old(self)@,
            old(self)@.registers.buf.len() > 0 ==> c == Some(old(self)@.registers.buf[0])
                && final(self)@ == (TokenizerView {
                registers: Registers {
                    buf: old(self)@.registers.buf.drop_first(),
                    ..old(self)@.registers
                },
                ..old(self)@
            }),
    {
        let chars = chars_of(self.buf.as_str());
        if chars.len() == 0 {
            None
        } else {
            let c = chars[0];
            self.buf = string_of_range(&chars, 1, chars.len());
            assert(chars@.subrange(1, chars@.len() as int) =~= chars@.drop_first());
            Some(c)
        }
    }

    fn set_state(&mut self, state: State)
        ensures
            final(self).inv() == old(self).inv(),
            final(self).ended == old(self).ended,
            final(self)@ == (TokenizerView {
                registers: Registers { state, ..old(self)@.registers },
                ..old(self)@
            }),
    {
        self.state = state;
    }

    fn replay(&mut self, state: State)
        ensures
            final(self).inv() == old(self).inv(),
            final(self).ended == old(self).ended,
            !old(self).ended ==> final(self)@ == (TokenizerView {
                registers: Registers { state, reconsume: true, ..old(self)@.registers },
                ..old(self)@
            }),
    {
        self.state = state;
        self.reconsume = true;
    }

    /// Handles the character `c` in a state outside attributes and scripts, as `step` says.
    fn handle_tag(&mut self, c: char) -> (token: Option<HtmlToken>)
        requires
            old(self).inv(),
            !old(self).ended,
            !old(self)@.registers.reconsume,
            in_tag_family(old(self)@.registers.state),
        ensures
            final(self).inv(),
            !final(self).ended,
            final(self)@.pos == old(self)@.pos,
            final(self)@.input == old(self)@.input,
            (Outcome { registers: final(self)@.registers, emit: token_view(token) }) == step(
                old(self)@.registers.state,
                c,
                old(self)@.registers.latest_token,
                old(self)@.registers.buf,
            ),
    {
        match self.state {
            State::Data => {
                if c == '<' {
                    self.set_state(State::TagOpen);
                    return None;
                }
                Some(HtmlToken::Char(c))
            },
            State::TagOpen => {
                if c == '/' {
                    self.set_state(State::EndTagOpen);
                    return None;
                }
                if is_ascii_alphabetic(c) {
                    self.replay(State::TagName);
                    self.create_start_tag();
                    return None;
                }
                self.replay(State::Data);
                None
            },
            State::EndTagOpen => {
                if is_ascii_alphabetic(c) {
                    self.replay(State::TagName);
                    self.create_end_tag();
                }
                None
            },
            State::TagName => {
                if c == ' ' {
                    self.set_state(State::BeforeAttributeName);
                    return None;
                }
                if c == '/' {
                    self.set_state(State::SelfClosingStartTag);
                    return None;
                }
                if c == '>' {
                    self.set_state(State::Data);
                    return self.take_latest_token();
                }
                self.append_tag_name(to_ascii_lowercase(c));
                None
            },
            State::SelfClosingStartTag => {
                if c == '>' {
                    self.set_self_closing_flag();
                    self.set_state(State::Data);
                    return self.take_latest_token();
                }
                None
            },
            _ => None,
        }
    }

    /// Handles the character `c` in a state before or in an attribute name, as `step` says.
    fn handle_attribute_name(&mut self, c: char) -> (token: Option<HtmlToken>)
        requires
            old(self).inv(),
            !old(self).ended,
            !old(self)@.registers.reconsume,
            in_name_family(old(self)@.registers.state),
        ensures
            final(self).inv(),
            !final(self).ended,
            final(self)@.pos == old(self)@.pos,
            final(self)@.input == old(self)@.input,
            (Outcome { registers: final(self)@.registers, emit: token_view(token) }) == step(
                old(self)@.registers.state,
                c,
                old(self)@.registers.latest_token,
                old(self)@.registers.buf,
            ),
    {
        match self.state {
            State::BeforeAttributeName => {
                if c == ' ' {
                    return None;
                }
                if c == '/' || c == '>' {
                    self.replay(State::AfterAttributeName);
                    return None;
                }
                self.replay(State::AttributeName);
                self.start_new_attribute();
                None
            },
            State::AttributeName => {
                if c == ' ' || c == '/' || c == '>' {
                    self.replay(State::AfterAttributeName);
                    return None;
                }
                if c == '=' {
                    self.set_state(State::BeforeAttributeValue);
                    return None;
                }
                self.append_attribute_name(to_ascii_lowercase(c));
                None
            },
            State::AfterAttributeName => {
                if c == ' ' {
                    return None;
                }
                if c == '/' {
                    self.set_state(State::SelfClosingStartTag);
                    return None;
                }
                if c == '=' {
                    self.set_state(State::BeforeAttributeValue);
                    return None;
                }
                if c == '>' {
                    self.set_state(State::Data);
                    return self.take_latest_token();
                }
                self.replay(State::AttributeName);
                self.start_new_attribute();
                None
            },
            State::BeforeAttributeValue => {
                if c == ' ' {
                    return None;
                }
                if c == '"' {
                    self.set_state(State::AttributeValueDoubleQuoted);
                    return None;
                }
                if c == '\'' {
                    self.set_state(State::AttributeValueSingleQuoted);
                    return None;
                }
                self.replay(State::AttributeValueUnquoted);
                None
            },
            _ => None,
        }
    }

    /// Handles the character `c` in a state in or after an attribute value, as `step` says.
    fn handle_attribute_value(&mut self, c: char) -> (token: Option<HtmlToken>)
        requires
            old(self).inv(),
            !old(self).ended,
            !old(self)@.registers.reconsume,
            in_value_family(old(self)@.registers.state),
        ensures
            final(self).inv(),
            !final(self).ended,
            final(self)@.pos == old(self)@.pos,
            final(self)@.input == old(self)@.input,
            (Outcome { registers: final(self)@.registers, emit: token_view(token) }) == step(
                old(self)@.registers.state,
                c,
                old(self)@.registers.latest_token,
                old(self)@.registers.buf,
            ),
    {
        match self.state {
            State::AttributeValueDoubleQuoted => {
                if c == '"' {
                    self.set_state(State::AfterAttributeValueQuoted);
                    return None;
                }
                self.append_attribute_value(c);
                None
            },
            State::AttributeValueSingleQuoted => {
                if c == '\'' {
                    self.set_state(State::AfterAttributeValueQuoted);
                    return None;
                }
                self.append_attribute_value(c);
                None
            },
            State::AttributeValueUnquoted => {
                if c == ' ' {
                    self.set_state(State::BeforeAttributeName);
                    return None;
                }
                if c == '>' {
                    self.set_state(State::Data);
                    return self.take_latest_token();
                }
                self.append_attribute_value(c);
                None
            },
            State::AfterAttributeValueQuoted => {
                if c == ' ' {
                    self.set_state(State::BeforeAttributeName);
                    return None;
                }
                if c == '/' {
                    self.set_state(State::SelfClosingStartTag);
                    return None;
                }
                if c == '>' {
                    self.set_state(State::Data);
                    return self.take_latest_token();
                }
                self.replay(State::BeforeAttributeName);
                None
            },
            _ => None,
        }
    }

    /// Handles the character `c` in a state of the script data family, as `step` says.
    fn handle_script(&mut self, c: char) -> (token: Option<HtmlToken>)
        requires
            old(self).inv(),
            !old(self).ended,
            !old(self)@.registers.reconsume,
            in_script_family(old(self)@.registers.state),
        ensures
            final(self).inv(),
            !final(self).ended,
            final(self)@.pos == old(self)@.pos,
            final(self)@.input == old(self)@.input,
            (Outcome { registers: final(self)@.registers, emit: token_view(token) }) == step(
                old(self)@.registers.state,
                c,
                old(self)@.registers.latest_token,
                old(self)@.registers.buf,
            ),
    {
        match self.state {
            State::ScriptData => {
                if c == '<' {
                    self.set_state(State::ScriptDataLessThanSign);
                    return None;
                }
                Some(HtmlToken::Char(c))
            },
            State::ScriptDataLessThanSign => {
                if c == '/' {
                    self.buf = String::new();
                    self.set_state(State::ScriptDataEndTagOpen);
                    return None;
                }
                self.replay(State::ScriptData);
                Some(HtmlToken::Char('<'))
            },
            State::ScriptDataEndTagOpen => {
                if is_ascii_alphabetic(c) {
                    self.replay(State::ScriptDataEndTagName);
                    self.create_end_tag();
                    return None;
                }
                self.replay(State::TemporaryBuffer);
                self.buf = String::new();
                self.refill_buffer();
                None
            },
            State::ScriptDataEndTagName => {
                if c == '>' && self.closes_script() {
                    self.set_state(State::Data);
                    return self.take_latest_token();
                }
                if is_ascii_alphabetic(c) {
                    self.buf.push(c);
                    self.append_tag_name(to_ascii_lowercase(c));
                    return None;
                }
                self.replay(State::TemporaryBuffer);
                self.refill_buffer();
                None
            },
            State::TemporaryBuffer => {
                match self.shift_buffer() {
                    None => {
                        self.replay(State::ScriptData);
                        None
                    },
                    Some(first) => {
                        self.replay(State::TemporaryBuffer);
                        Some(HtmlToken::Char(first))
                    },
                }
            },
            _ => None,
        }
    }

    /// Handles the character `c` in the current state, as `step` says.
    fn handle(&mut self, c: char) -> (token: Option<HtmlToken>)
        requires
            old(self).inv(),
            !old(self).ended,
            !old(self)@.registers.reconsume,
        ensures
            final(self).inv(),
            !final(self).ended,
            final(self)@.pos == old(self)@.pos,
            final(self)@.input == old(self)@.input,
            (Outcome { registers: final(self)@.registers, emit: token_view(token) }) == step(
                old(self)@.registers.state,
                c,
                old(self)@.registers.latest_token,
                old(self)@.registers.buf,
            ),
    {
        match self.state {
            State::Data | State::TagOpen | State::EndTagOpen | State::TagName
            | State::SelfClosingStartTag => self.handle_tag(c),
            State::BeforeAttributeName | State::AttributeName | State::AfterAttributeName
            | State::BeforeAttributeValue => self.handle_attribute_name(c),
            State::AttributeValueDoubleQuoted | State::AttributeValueSingleQuoted
            | State::AttributeValueUnquoted
            | State::AfterAttributeValueQuoted => self.handle_attribute_value(c),
            State::ScriptData | State::ScriptDataLessThanSign | State::ScriptDataEndTagOpen
            | State::ScriptDataEndTagName | State::TemporaryBuffer => self.handle_script(c),
        }
    }

    /// The next token of the document, or nothing once the input is
    /// exhausted.
    pub fn next(&mut self) -> (token: Option<HtmlToken>)
        requires
            old(self).wf(),
        ensures
            final(self).wf(),
            (token_view(token), final(self)@) == old(self)@.next(),
    {
        if !self.reconsume && (self.is_eof() || self.pos >= self.input.len()) {
            return None;
        }
        let ghost start = self@;
        loop
            invariant
                self.wf(),
                !self.ended,
                start == old(self)@,
                !start.exhausted(),
                self@.run() == start.run(),
            decreases self@.pending(), self@.rank(),
        {
            let ghost before = self@;
            let c = if self.reconsume {
                self.reconsume_input()
            } else if self.pos < self.input.len() {
                self.consume_next_input()
            } else {
                self.ended = true;
                return Some(HtmlToken::Eof);
            };
            let token = self.handle(c);
            proof {
                lemma_step_keeps_tag(
                    before.registers.state,
                    c,
                    before.registers.latest_token,
                    before.registers.buf,
                );
                let o = step(
                    before.registers.state,
                    c,
                    before.registers.latest_token,
                    before.registers.buf,
                );
                assert(self@ == before.advanced(o.registers));
                assert(o.emit == token_view(token));
            }
            match token {
                Some(t) => {
                    return Some(t);
                },
                None => {},
            }
        }
    }
}

} // verus!
