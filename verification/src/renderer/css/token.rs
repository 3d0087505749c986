//! The CSS tokenizer: cuts the text of a style sheet into tokens.

use vstd::prelude::*;

use crate::text::{chars_of, is_ascii_digit, is_ascii_letter, string_of_range};

verus! {

#[derive(Debug, Clone, PartialEq, Eq)]
pub enum CssToken {
    /// `#` and the name behind it, the `#` included.
    HashToken(String),
    /// A character that stands for itself.
    Delim(char),
    /// A number, held as the digits and dots that were written.
    Number(String),
    Colon,
    SemiColon,
    OpenCurly,
    CloseCurly,
    Ident(String),
    /// The text between two quotes.
    StringToken(String),
    /// The name behind an `@`.
    AtKeyword(String),
}

/// What a token is, over sequences of characters.
pub enum CssTokenView {
    HashToken(Seq<char>),
    Delim(char),
    Number(Seq<char>),
    Colon,
    SemiColon,
    OpenCurly,
    CloseCurly,
    Ident(Seq<char>),
    StringToken(Seq<char>),
    AtKeyword(Seq<char>),
}

impl View for CssToken {
    type V = CssTokenView;

    open spec fn view(&self) -> CssTokenView {
        match *self {
            CssToken::HashToken(s) => CssTokenView::HashToken(s@),
            CssToken::Delim(c) => CssTokenView::Delim(c),
            CssToken::Number(s) => CssTokenView::Number(s@),
            CssToken::Colon => CssTokenView::Colon,
            CssToken::SemiColon => CssTokenView::SemiColon,
            CssToken::OpenCurly => CssTokenView::OpenCurly,
            CssToken::CloseCurly => CssTokenView::CloseCurly,
            CssToken::Ident(s) => CssTokenView::Ident(s@),
            CssToken::StringToken(s) => CssTokenView::StringToken(s@),
            CssToken::AtKeyword(s) => CssTokenView::AtKeyword(s@),
        }
    }
}

impl CssToken {
    /// A copy of this token.
    pub fn duplicate(&self) -> (t: Self)
        ensures
            t@ == self@,
    {
        match self {
            CssToken::HashToken(s) => CssToken::HashToken(s.clone()),
            CssToken::Delim(c) => CssToken::Delim(*c),
            CssToken::Number(s) => CssToken::Number(s.clone()),
            CssToken::Colon => CssToken::Colon,
            CssToken::SemiColon => CssToken::SemiColon,
            CssToken::OpenCurly => CssToken::OpenCurly,
            CssToken::CloseCurly => CssToken::CloseCurly,
            CssToken::Ident(s) => CssToken::Ident(s.clone()),
            CssToken::StringToken(s) => CssToken::StringToken(s.clone()),
            CssToken::AtKeyword(s) => CssToken::AtKeyword(s.clone()),
        }
    }
}

/// The classes of characters that a token is made of.
#[derive(Debug, Clone, Copy, PartialEq, Eq, Structural)]
pub enum CharClass {
    /// Letters, digits, `-` and `_`: what a name goes on with.
    Name,
    /// Digits and the dot: what a number is written with.
    Numeric,
    /// Anything but a quote: what a string holds.
    Unquoted,
}

impl CharClass {
    pub open spec fn holds(self, c: char) -> bool {
        match self {
            CharClass::Name => is_ascii_letter(c) || is_ascii_digit(c) || c == '-' || c == '_',
            CharClass::Numeric => is_ascii_digit(c) || c == '.',
            CharClass::Unquoted => c != '"' && c != '\'',
        }
    }

    pub fn test(&self, c: char) -> (r: bool)
        ensures
            r == self.holds(c),
    {
        match self {
            CharClass::Name => ('a' <= c && c <= 'z') || ('A' <= c && c <= 'Z') || ('0' <= c && c
                <= '9') || c == '-' || c == '_',
            CharClass::Numeric => ('0' <= c && c <= '9') || c == '.',
            CharClass::Unquoted => c != '"' && c != '\'',
        }
    }
}

/// Where the run of characters of one class that starts at `from` ends: the
/// first index from there on whose character is not of the class, or the
/// end of the input.
pub open spec fn run_end(input: Seq<char>, from: nat, class: CharClass) -> nat
    decreases input.len() - from,
{
    if from < input.len() && class.holds(input[from as int]) {
        run_end(input, from + 1, class)
    } else {
        from
    }
}

/// A run ends within the input, at a character that is not of the class,
/// and holds characters of the class only.
pub proof fn lemma_run_end(input: Seq<char>, from: nat, class: CharClass)
    requires
        from <= input.len(),
    ensures
        from <= run_end(input, from, class) <= input.len(),
        run_end(input, from, class) < input.len() ==> !class.holds(
            input[run_end(input, from, class) as int],
        ),
        forall|i: int| from <= i < run_end(input, from, class) ==> class.holds(#[trigger] input[i]),
    decreases input.len() - from,
{
    if from < input.len() && class.holds(input[from as int]) {
        lemma_run_end(input, from + 1, class);
    }
}

/// A token and the place behind it.
pub struct Lexed {
    pub token: Option<CssTokenView>,
    pub pos: nat,
}

pub open spec fn is_quote(c: char) -> bool {
    c == '"' || c == '\''
}

/// The token that starts at `pos`, blanks before it skipped, and the place
/// behind it; no token where only blanks are left.
pub open spec fn lex(input: Seq<char>, pos: nat) -> Lexed
    decreases input.len() - pos,
{
    if pos >= input.len() {
        Lexed { token: None, pos }
    } else {
        let c = input[pos as int];
        if c == ' ' || c == '\n' {
            lex(input, pos + 1)
        } else if c == ':' {
            Lexed { token: Some(CssTokenView::Colon), pos: pos + 1 }
        } else if c == ';' {
            Lexed { token: Some(CssTokenView::SemiColon), pos: pos + 1 }
        } else if c == '{' {
            Lexed { token: Some(CssTokenView::OpenCurly), pos: pos + 1 }
        } else if c == '}' {
            Lexed { token: Some(CssTokenView::CloseCurly), pos: pos + 1 }
        } else if is_quote(c) {
            let end = run_end(input, pos + 1, CharClass::Unquoted);
            Lexed {
                token: Some(CssTokenView::StringToken(input.subrange(pos + 1 as int, end as int))),
                pos: if end < input.len() {
                    end + 1
                } else {
                    end
                },
            }
        } else if is_ascii_digit(c) {
            let end = run_end(input, pos, CharClass::Numeric);
            Lexed { token: Some(CssTokenView::Number(input.subrange(pos as int, end as int))), pos: end }
        } else if c == '#' {
            let end = run_end(input, pos + 1, CharClass::Name);
            Lexed {
                token: Some(CssTokenView::HashToken(input.subrange(pos as int, end as int))),
                pos: end,
            }
        } else if c == '-' || c == '_' || is_ascii_letter(c) {
            let end = run_end(input, pos + 1, CharClass::Name);
            Lexed { token: Some(CssTokenView::Ident(input.subrange(pos as int, end as int))), pos: end }
        } else if c == '@' && pos + 1 < input.len() && is_ascii_letter(input[pos + 1 as int]) {
            let end = run_end(input, pos + 2, CharClass::Name);
            Lexed {
                token: Some(CssTokenView::AtKeyword(input.subrange(pos + 1 as int, end as int))),
                pos: end,
            }
        } else {
            Lexed { token: Some(CssTokenView::Delim(c)), pos: pos + 1 }
        }
    }
}

/// A token ends within the input and behind the place where the search for
/// it began; without a token the place is the end of the input.
pub proof fn lemma_lex_advances(input: Seq<char>, pos: nat)
    requires
        pos <= input.len(),
    ensures
        lex(input, pos).pos <= input.len(),
        lex(input, pos).token is Some ==> pos < lex(input, pos).pos,
        lex(input, pos).token is None ==> lex(input, pos).pos == input.len(),
    decreases input.len() - pos,
{
    if pos < input.len() {
        let c = input[pos as int];
        if c == ' ' || c == '\n' {
            lemma_lex_advances(input, pos + 1);
        } else {
            lemma_run_end(input, pos + 1, CharClass::Unquoted);
            lemma_run_end(input, pos, CharClass::Numeric);
            lemma_run_end(input, pos + 1, CharClass::Name);
            if pos + 1 < input.len() {
                lemma_run_end(input, pos + 2, CharClass::Name);
            }
        }
    }
}

/// A run of characters of one class that ends at a character of another
/// class, or with the input, ends there.
pub proof fn lemma_run_ends_at(input: Seq<char>, from: nat, to: nat, class: CharClass)
    requires
        from <= to <= input.len(),
        forall|i: int| from <= i < to ==> class.holds(#[trigger] input[i]),
        to < input.len() ==> !class.holds(input[to as int]),
    ensures
        run_end(input, from, class) == to,
    decreases to - from,
{
    if from < to {
        lemma_run_ends_at(input, from + 1, to, class);
    }
}

/// Whether a text can be read as a name: it starts with a letter, `-` or
/// `_` and goes on with letters, digits, `-` and `_`.
pub open spec fn is_name(word: Seq<char>) -> bool {
    &&& word.len() > 0
    &&& (word[0] == '-' || word[0] == '_' || is_ascii_letter(word[0]))
    &&& forall|i: int| 0 <= i < word.len() ==> CharClass::Name.holds(#[trigger] word[i])
}

/// A name that stands at `pos`, and is followed by a character that no
/// name goes on with, is read as an identifier.
pub proof fn lemma_name_is_lexed(input: Seq<char>, pos: nat, word: Seq<char>)
    requires
        is_name(word),
        pos + word.len() <= input.len(),
        input.subrange(pos as int, pos as int + word.len()) == word,
        pos + word.len() < input.len() ==> !CharClass::Name.holds(
            input[pos as int + word.len()],
        ),
    ensures
        lex(input, pos) == (Lexed {
            token: Some(CssTokenView::Ident(word)),
            pos: pos + word.len(),
        }),
{
    let end = pos + word.len();
    assert forall|i: int| pos <= i < end implies CharClass::Name.holds(#[trigger] input[i]) by {
        assert(input.subrange(pos as int, end as int)[i - pos] == word[i - pos]);
    }
    assert(input[pos as int] == word[0]) by {
        assert(input.subrange(pos as int, end as int)[0] == word[0]);
    }
    lemma_run_ends_at(input, pos + 1, end, CharClass::Name);
}

/// The tokens from a place on are the token that is read there and the
/// tokens behind it.
pub proof fn lemma_tokens_from(input: Seq<char>, pos: nat)
    requires
        pos <= input.len(),
    ensures
        tokens_from(input, pos) == match lex(input, pos).token {
            Some(t) => seq![t] + tokens_from(input, lex(input, pos).pos),
            None => Seq::empty(),
        },
{
}

/// All tokens from `pos` to the end of the input.
pub open spec fn tokens_from(input: Seq<char>, pos: nat) -> Seq<CssTokenView>
    decreases input.len() - pos,
{
    if pos > input.len() {
        Seq::empty()
    } else {
        let lexed = lex(input, pos);
        match lexed.token {
            Some(t) => {
                proof {
                    lemma_lex_advances(input, pos);
                }
                seq![t] + tokens_from(input, lexed.pos)
            },
            None => Seq::empty(),
        }
    }
}

/// The tokenizer as a mathematical value: the text and the place in it.
pub struct CssTokenizerView {
    pub input: Seq<char>,
    pub pos: nat,
}

#[derive(Debug, PartialEq, Eq)]
pub struct CssTokenizer {
    pos: usize,
    input: Vec<char>,
}

impl View for CssTokenizer {
    type V = CssTokenizerView;

    closed spec fn view(&self) -> CssTokenizerView {
        CssTokenizerView { input: self.input@, pos: self.pos as nat }
    }
}

impl CssTokenizer {
    /// What holds of every tokenizer: the cursor is within the text.
    #[verifier::type_invariant]
    spec fn inv(self) -> bool {
        self.pos <= self.input@.len()
    }

    pub fn new(css: String) -> (t: Self)
        ensures
            t@ == (CssTokenizerView { input: css@, pos: 0 }),
    {
        CssTokenizer { pos: 0, input: chars_of(css.as_str()) }
    }

    /// Moves the cursor from `from` to the end of the run of characters of
    /// one class that starts there.
    fn skip_run(&mut self, from: usize, class: CharClass)
        requires
            from <= old(self)@.input.len(),
        ensures
            final(self)@.input == old(self)@.input,
            final(self)@.pos == run_end(old(self)@.input, from as nat, class),
    {
        proof {
            use_type_invariant(&*self);
        }
        let mut i: usize = from;
        while i < self.input.len() && class.test(self.input[i])
            invariant
                from <= i <= self.input@.len(),
                self.input == old(self).input,
                run_end(self.input@, i as nat, class) == run_end(self.input@, from as nat, class),
            decreases self.input@.len() - i,
        {
            i += 1;
        }
        self.pos = i;
    }

    /// The text between two quotes, the cursor standing on the first.
    fn consume_string_token(&mut self) -> (s: String)
        requires
            old(self)@.pos < old(self)@.input.len(),
        ensures
            final(self)@.input == old(self)@.input,
            final(self)@.pos == run_end(
                old(self)@.input,
                old(self)@.pos + 1,
                CharClass::Unquoted,
            ),
            s@ == old(self)@.input.subrange(old(self)@.pos + 1 as int, final(self)@.pos as int),
    {
        proof {
            use_type_invariant(&*self);
        }
        let len = self.input.len();
        let start = self.pos + 1;
        proof {
            lemma_run_end(self@.input, start as nat, CharClass::Unquoted);
        }
        self.skip_run(start, CharClass::Unquoted);
        string_of_range(&self.input, start, self.pos)
    }

    /// The digits and dots from the cursor on.
    fn consume_numeric_token(&mut self) -> (s: String)
        ensures
            final(self)@.input == old(self)@.input,
            final(self)@.pos == run_end(old(self)@.input, old(self)@.pos, CharClass::Numeric),
            s@ == old(self)@.input.subrange(old(self)@.pos as int, final(self)@.pos as int),
    {
        proof {
            use_type_invariant(&*self);
        }
        let start = self.pos;
        proof {
            lemma_run_end(self@.input, start as nat, CharClass::Numeric);
        }
        self.skip_run(start, CharClass::Numeric);
        string_of_range(&self.input, start, self.pos)
    }

    /// The character under the cursor and the characters of a name that
    /// follow it.
    fn consume_ident_token(&mut self) -> (s: String)
        requires
            old(self)@.pos < old(self)@.input.len(),
        ensures
            final(self)@.input == old(self)@.input,
            final(self)@.pos == run_end(old(self)@.input, old(self)@.pos + 1, CharClass::Name),
            s@ == old(self)@.input.subrange(old(self)@.pos as int, final(self)@.pos as int),
    {
        proof {
            use_type_invariant(&*self);
        }
        let len = self.input.len();
        let start = self.pos;
        proof {
            lemma_run_end(self@.input, (start + 1) as nat, CharClass::Name);
        }
        self.skip_run(start + 1, CharClass::Name);
        string_of_range(&self.input, start, self.pos)
    }

    /// The next token of the style sheet, or nothing once only blanks are
    /// left.
    pub fn next(&mut self) -> (token: Option<CssToken>)
        ensures
            final(self)@.input == old(self)@.input,
            final(self)@.pos == lex(old(self)@.input, old(self)@.pos).pos,
            match token {
                Some(t) => lex(old(self)@.input, old(self)@.pos).token == Some(t@),
                None => lex(old(self)@.input, old(self)@.pos).token is None,
            },
    {
        loop
            invariant
                self.input == old(self).input,
                lex(self@.input, self@.pos) == lex(old(self)@.input, old(self)@.pos),
            decreases self@.input.len() - self@.pos,
        {
            proof {
                use_type_invariant(&*self);
            }
            if self.pos >= self.input.len() {
                return None;
            }
            let c = self.input[self.pos];
            let token = if c == ' ' || c == '\n' {
                self.pos += 1;
                continue ;
            } else if c == ':' {
                self.pos += 1;
                CssToken::Colon
            } else if c == ';' {
                self.pos += 1;
                CssToken::SemiColon
            } else if c == '{' {
                self.pos += 1;
                CssToken::OpenCurly
            } else if c == '}' {
                self.pos += 1;
                CssToken::CloseCurly
            } else if c == '"' || c == '\'' {
                let value = self.consume_string_token();
                if self.pos < self.input.len() {
                    self.pos += 1;
                }
                CssToken::StringToken(value)
            } else if '0' <= c && c <= '9' {
                CssToken::Number(self.consume_numeric_token())
            } else if c == '#' {
                CssToken::HashToken(self.consume_ident_token())
            } else if c == '-' || c == '_' || ('a' <= c && c <= 'z') || ('A' <= c && c <= 'Z') {
                CssToken::Ident(self.consume_ident_token())
            } else if c == '@' && self.pos + 1 < self.input.len() && crate::text::is_ascii_alphabetic(
                self.input[self.pos + 1],
            ) {
                self.pos += 1;
                CssToken::AtKeyword(self.consume_ident_token())
            } else {
                self.pos += 1;
                CssToken::Delim(c)
            };
            return Some(token);
        }
    }

    /// All tokens that are left, in order.
    pub fn collect(&mut self) -> (tokens: Vec<CssToken>)
        ensures
            final(self)@.input == old(self)@.input,
            crate::text::views(tokens@) == tokens_from(old(self)@.input, old(self)@.pos),
    {
        let mut tokens: Vec<CssToken> = Vec::new();
        assert(crate::text::views(tokens@) =~= Seq::<CssTokenView>::empty());
        loop
            invariant
                self@.input == old(self)@.input,
                crate::text::views(tokens@) + tokens_from(self@.input, self@.pos) == tokens_from(
                    old(self)@.input,
                    old(self)@.pos,
                ),
            decreases self@.input.len() - self@.pos,
        {
            let ghost before = self@;
            let ghost collected = crate::text::views(tokens@);
            proof {
                use_type_invariant(&*self);
                lemma_lex_advances(before.input, before.pos);
            }
            match self.next() {
                Some(t) => {
                    tokens.push(t);
                    assert(crate::text::views(tokens@) =~= collected.push(t@));
                    assert(collected.push(t@) + tokens_from(self@.input, self@.pos) =~= collected
                        + tokens_from(before.input, before.pos));
                },
                None => {
                    assert(tokens_from(before.input, before.pos) =~= Seq::<CssTokenView>::empty());
                    assert(collected + Seq::<CssTokenView>::empty() =~= collected);
                    return tokens;
                },
            }
        }
    }
}

} // verus!
