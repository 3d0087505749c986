//! Text for painting: white space is normalised, and a line that is too
//! wide for the window is broken at spaces.

use vstd::prelude::*;

use crate::constants::{WINDOW_PADDING, WINDOW_WIDTH};
use crate::text::{
    chars_of, is_blank, lemma_trimmed_len, string_of_range, trim_end, trim_in, trim_start,
    trimmed, views,
};

verus! {

/// What separates words: the space and the line feed.
pub open spec fn is_gap(c: char) -> bool {
    c == ' ' || c == '\n'
}

/// The normal form of the first `upto` characters of `s`: the characters
/// that are no gaps, in order, with one space wherever gaps separated two
/// of them.
pub open spec fn squeezed(s: Seq<char>, upto: int) -> Seq<char>
    decreases upto,
{
    if upto <= 0 {
        Seq::empty()
    } else {
        let before = squeezed(s, upto - 1);
        let c = s[upto - 1];
        if is_gap(c) {
            before
        } else if upto >= 2 && is_gap(s[upto - 2]) && before.len() > 0 {
            before.push(' ').push(c)
        } else {
            before.push(c)
        }
    }
}

/// The text with its white space normalised: line feeds count as spaces,
/// runs of spaces shrink to one, and none stands at either end.
pub open spec fn normalized(s: Seq<char>) -> Seq<char> {
    squeezed(s, s.len() as int)
}

pub fn normalize(text: &str) -> (plain: String)
    ensures
        plain@ == normalized(text@),
{
    let chars = chars_of(text);
    let mut plain = String::new();
    let mut after_gap = false;
    let mut started = false;
    let mut i: usize = 0;
    while i < chars.len()
        invariant
            i <= chars@.len(),
            chars@ == text@,
            plain@ == squeezed(chars@, i as int),
            started == (plain@.len() > 0),
            after_gap == (i > 0 && is_gap(chars@[i - 1])),
        decreases chars@.len() - i,
    {
        let c = chars[i];
        if c == ' ' || c == '\n' {
            after_gap = true;
        } else {
            if after_gap && started {
                plain.push(' ');
            }
            plain.push(c);
            started = true;
            after_gap = false;
        }
        i += 1;
    }
    plain
}

/// The place of the last space of `line` before `below`, or -1 where there
/// is none.
pub open spec fn last_space(line: Seq<char>, below: int) -> int
    decreases below,
{
    if below <= 0 {
        -1
    } else if line[below - 1] == ' ' {
        below - 1
    } else {
        last_space(line, below - 1)
    }
}

/// Where a line is broken that may hold `max_index` characters: at its
/// last space before that place, or at that place where there is none.
pub open spec fn break_at(line: Seq<char>, max_index: int) -> int {
    let at = last_space(line, max_index);
    if at >= 0 {
        at
    } else {
        max_index
    }
}

/// The last space before `below` is a space, and no space follows it
/// before `below`.
pub proof fn lemma_last_space(line: Seq<char>, below: int)
    requires
        0 <= below <= line.len(),
    ensures
        -1 <= last_space(line, below) < below || (below == 0 && last_space(line, below) == -1),
        last_space(line, below) >= 0 ==> line[last_space(line, below)] == ' ',
        forall|i: int| last_space(line, below) < i < below ==> line[i] != ' ',
    decreases below,
{
    if below > 0 && line[below - 1] != ' ' {
        lemma_last_space(line, below - 1);
    }
}

/// A line is broken at a space before `max_index` that no space follows,
/// or at `max_index` where there is no space before it.
pub proof fn lemma_break_at(line: Seq<char>, max_index: int)
    requires
        0 <= max_index <= line.len(),
    ensures
        0 <= break_at(line, max_index) <= max_index,
        break_at(line, max_index) < max_index ==> line[break_at(line, max_index)] == ' ',
        forall|i: int| break_at(line, max_index) < i < max_index ==> line[i] != ' ',
        break_at(line, max_index) == max_index ==> forall|i: int|
            0 <= i < max_index ==> line[i] != ' ',
{
    lemma_last_space(line, max_index);
}

/// A character that is no wider than a line fits into it at least once.
pub proof fn lemma_line_holds_a_character(char_width: int)
    requires
        0 < char_width <= line_width(),
    ensures
        1 <= line_width() / char_width <= line_width(),
{
    assert(1 <= 605int / char_width <= 605) by (nonlinear_arith)
        requires
            0 < char_width <= 605,
    ;
}

/// The break of the line `chars[start..end]`, as a place in that line.
fn break_in(chars: &Vec<char>, start: usize, end: usize, max_index: usize) -> (at: usize)
    requires
        start <= end <= chars@.len(),
        max_index <= end - start,
    ensures
        at == break_at(chars@.subrange(start as int, end as int), max_index as int),
        at <= max_index,
{
    let ghost line = chars@.subrange(start as int, end as int);
    let mut i: usize = max_index;
    while i > 0
        invariant
            i <= max_index <= end - start,
            start <= end <= chars@.len(),
            line == chars@.subrange(start as int, end as int),
            last_space(line, i as int) == last_space(line, max_index as int),
        decreases i,
    {
        if chars[start + (i - 1)] == ' ' {
            return i - 1;
        }
        i -= 1;
    }
    max_index
}

pub fn find_index_for_line_break(line: &str, max_index: usize) -> (at: usize)
    requires
        max_index <= line@.len(),
    ensures
        at == break_at(line@, max_index as int),
{
    let chars = chars_of(line);
    assert(chars@.subrange(0, chars@.len() as int) =~= chars@);
    break_in(&chars, 0, chars.len(), max_index)
}

/// The width in pixels that a line of text may take.
pub open spec fn line_width() -> int {
    WINDOW_WIDTH + WINDOW_PADDING
}

/// The lines that a text is wrapped into, each character `char_width`
/// pixels wide. A text that fits stays one line. Else it is broken at
/// `break_at`: what stands before the break is a line, and what follows,
/// without the blanks at its ends, is wrapped in turn.
pub open spec fn wrapped(line: Seq<char>, char_width: int) -> Seq<Seq<char>>
    decreases line.len(),
{
    let max_index = line_width() / char_width;
    if 0 < char_width <= line_width() && line.len() > max_index {
        let at = break_at(line, max_index);
        let rest = line.subrange(at, line.len() as int);
        proof {
            lemma_line_holds_a_character(char_width);
            lemma_break_at(line, max_index);
            lemma_trimmed_len(rest);
        }
        seq![line.subrange(0, at)] + wrapped(trimmed(rest), char_width)
    } else {
        seq![line]
    }
}

/// The characters of a text that are no blanks, in their order.
pub open spec fn solid(s: Seq<char>) -> Seq<char>
    decreases s.len(),
{
    if s.len() == 0 {
        Seq::empty()
    } else if is_blank(s.last()) {
        solid(s.drop_last())
    } else {
        solid(s.drop_last()).push(s.last())
    }
}

/// The lines of a text, one behind the other.
pub open spec fn joined(lines: Seq<Seq<char>>) -> Seq<char>
    decreases lines.len(),
{
    if lines.len() == 0 {
        Seq::empty()
    } else {
        lines[0] + joined(lines.drop_first())
    }
}

/// The characters of two texts that are no blanks are those of the first
/// text and then those of the second.
pub proof fn lemma_solid_of_two(a: Seq<char>, b: Seq<char>)
    ensures
        solid(a + b) == solid(a) + solid(b),
    decreases b.len(),
{
    if b.len() == 0 {
        assert(a + b =~= a);
        assert(solid(a) + solid(b) =~= solid(a));
    } else {
        assert((a + b).drop_last() =~= a + b.drop_last());
        assert((a + b).last() == b.last());
        lemma_solid_of_two(a, b.drop_last());
        assert((solid(a) + solid(b.drop_last())).push(b.last()) =~= solid(a) + solid(
            b.drop_last(),
        ).push(b.last()));
    }
}

/// Trimming takes nothing but blanks away.
pub proof fn lemma_trimming_takes_blanks_only(s: Seq<char>)
    ensures
        solid(trim_start(s)) == solid(s),
        solid(trim_end(s)) == solid(s),
        solid(trimmed(s)) == solid(s),
    decreases s.len(),
{
    if s.len() > 0 {
        lemma_trimming_takes_blanks_only(s.drop_first());
        lemma_trimming_takes_blanks_only(s.drop_last());
        if is_blank(s[0]) {
            let first = seq![s[0]];
            assert(first + s.drop_first() =~= s);
            lemma_solid_of_two(first, s.drop_first());
            assert(first.last() == s[0]);
            assert(first.drop_last() =~= Seq::<char>::empty());
            assert(solid(first.drop_last()) =~= Seq::<char>::empty());
            assert(solid(first) =~= Seq::<char>::empty());
            assert(Seq::<char>::empty() + solid(s.drop_first()) =~= solid(s.drop_first()));
        }
    }
    let started = trim_start(s);
    lemma_trim_end_takes_blanks_only(started);
}

proof fn lemma_trim_end_takes_blanks_only(s: Seq<char>)
    ensures
        solid(trim_end(s)) == solid(s),
    decreases s.len(),
{
    if s.len() > 0 && is_blank(s.last()) {
        lemma_trim_end_takes_blanks_only(s.drop_last());
    }
}

/// Wrapping loses nothing but blanks: the characters of the lines that
/// are no blanks are those of the text, in their order.
pub proof fn lemma_wrapping_keeps_the_text(line: Seq<char>, char_width: int)
    ensures
        solid(joined(wrapped(line, char_width))) == solid(line),
    decreases line.len(),
{
    let max_index = line_width() / char_width;
    if 0 < char_width <= line_width() && line.len() > max_index {
        let at = break_at(line, max_index);
        let head = line.subrange(0, at);
        let rest = line.subrange(at, line.len() as int);
        lemma_line_holds_a_character(char_width);
        lemma_break_at(line, max_index);
        lemma_trimmed_len(rest);
        lemma_wrapping_keeps_the_text(trimmed(rest), char_width);
        let below = wrapped(trimmed(rest), char_width);
        let lines = seq![head] + below;
        assert(lines[0] == head);
        assert(lines.drop_first() =~= below);
        assert(joined(lines) == head + joined(below));
        lemma_solid_of_two(head, joined(below));
        lemma_trimming_takes_blanks_only(rest);
        lemma_solid_of_two(head, rest);
        assert(head + rest =~= line);
    } else {
        let lines = seq![line];
        assert(lines.drop_first() =~= Seq::<Seq<char>>::empty());
        assert(joined(lines.drop_first()) =~= Seq::<char>::empty());
        assert(joined(lines) =~= line);
    }
}

/// Every line of a wrapped text fits: it holds no more characters than a
/// line has room for.
pub proof fn lemma_lines_fit(line: Seq<char>, char_width: int, i: int)
    requires
        0 < char_width <= line_width(),
        0 <= i < wrapped(line, char_width).len(),
    ensures
        wrapped(line, char_width)[i].len() <= line_width() / char_width,
    decreases line.len(),
{
    let max_index = line_width() / char_width;
    if line.len() > max_index {
        let at = break_at(line, max_index);
        let rest = line.subrange(at, line.len() as int);
        lemma_line_holds_a_character(char_width);
        lemma_break_at(line, max_index);
        lemma_trimmed_len(rest);
        if i > 0 {
            lemma_lines_fit(trimmed(rest), char_width, i - 1);
        }
    }
}

/// Wraps a text into lines.
pub fn split_text(line: String, char_width: i64) -> (lines: Vec<String>)
    requires
        0 < char_width <= line_width(),
    ensures
        views(lines@) == wrapped(line@, char_width as int),
{
    let chars = chars_of(line.as_str());
    let width: i64 = WINDOW_WIDTH + WINDOW_PADDING;
    let max_index: usize = (width / char_width) as usize;
    let mut lines: Vec<String> = Vec::new();
    let mut start: usize = 0;
    let mut end: usize = chars.len();
    assert(chars@.subrange(0, chars@.len() as int) =~= chars@);
    assert(views(lines@) =~= Seq::<Seq<char>>::empty());
    loop
        invariant
            start <= end <= chars@.len(),
            0 < char_width <= line_width(),
            max_index == line_width() / (char_width as int),
            views(lines@) + wrapped(chars@.subrange(start as int, end as int), char_width as int)
                == wrapped(line@, char_width as int),
        decreases end - start,
    {
        let ghost current = chars@.subrange(start as int, end as int);
        let ghost done = views(lines@);
        if end - start > max_index {
            let at = break_in(&chars, start, end, max_index);
            let head = string_of_range(&chars, start, start + at);
            proof {
                lemma_line_holds_a_character(char_width as int);
                lemma_break_at(current, max_index as int);
                assert(chars@.subrange(start as int, start + at) =~= current.subrange(
                    0,
                    at as int,
                ));
                assert(chars@.subrange(start + at, end as int) =~= current.subrange(
                    at as int,
                    current.len() as int,
                ));
                lemma_trimmed_len(current.subrange(at as int, current.len() as int));
            }
            let ends = trim_in(&chars, start + at, end);
            lines.push(head);
            start = ends.0;
            end = ends.1;
            proof {
                assert(views(lines@) =~= done.push(head@));
                assert(done.push(head@) + wrapped(
                    chars@.subrange(start as int, end as int),
                    char_width as int,
                ) =~= done + wrapped(current, char_width as int));
            }
        } else {
            let last = string_of_range(&chars, start, end);
            lines.push(last);
            proof {
                assert(views(lines@) =~= done.push(last@));
                assert(done.push(last@) =~= done + wrapped(current, char_width as int));
            }
            return lines;
        }
    }
}

} // verus!
