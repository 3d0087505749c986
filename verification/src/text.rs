//! Characters and strings: the few operations on text that the pipeline
//! needs, each with its meaning over `Seq<char>`.

use vstd::prelude::*;
use vstd::std_specs::iter::IteratorSpec;
use vstd::string::StringExecFns;

verus! {

/// `String::push` of the standard library: the string afterwards is the string
/// before with `c` appended as its last character.
pub assume_specification[ String::push ](s: &mut String, c: char)
    ensures
        final(s)@ == old(s)@.push(c),
;

/// The views of the elements of a sequence, in order.
pub open spec fn views<T: View>(s: Seq<T>) -> Seq<T::V> {
    Seq::new(s.len(), |i: int| s[i]@)
}

pub open spec fn is_ascii_upper(c: char) -> bool {
    'A' <= c && c <= 'Z'
}

pub open spec fn is_ascii_lower(c: char) -> bool {
    'a' <= c && c <= 'z'
}

pub open spec fn is_ascii_letter(c: char) -> bool {
    is_ascii_upper(c) || is_ascii_lower(c)
}

pub open spec fn is_ascii_digit(c: char) -> bool {
    '0' <= c && c <= '9'
}

/// The lower-case form of an ASCII capital, any other character unchanged.
pub open spec fn ascii_lower(c: char) -> char {
    if is_ascii_upper(c) {
        ((c as u8) + 32) as char
    } else {
        c
    }
}

/// Lower-casing turns a capital into the small letter that stands 32
/// places behind it, and leaves every other character as it is.
pub proof fn lemma_ascii_lower(c: char)
    ensures
        is_ascii_upper(c) ==> ascii_lower(c) as int == c as int + 32 && is_ascii_lower(
            ascii_lower(c),
        ),
        !is_ascii_upper(c) ==> ascii_lower(c) == c,
        ascii_lower('A') == 'a',
        ascii_lower('P') == 'p',
        ascii_lower('Z') == 'z',
{
}

pub fn is_ascii_alphabetic(c: char) -> (r: bool)
    ensures
        r == is_ascii_letter(c),
{
    ('A' <= c && c <= 'Z') || ('a' <= c && c <= 'z')
}

pub fn to_ascii_lowercase(c: char) -> (r: char)
    ensures
        r == ascii_lower(c),
{
    if 'A' <= c && c <= 'Z' {
        let code: u8 = c as u8;
        (code + 32) as char
    } else {
        c
    }
}

/// The characters of a string, in order.
pub fn chars_of(s: &str) -> (v: Vec<char>)
    ensures
        v@ == s@,
{
    let mut it = s.chars();
    let mut v: Vec<char> = Vec::new();
    assert(it.remaining() == s@);
    loop
        invariant
            it.obeys_prophetic_iter_laws(),
            it.decrease() is Some,
            v@ + it.remaining() == s@,
        ensures
            v@ == s@,
        decreases it.decrease()->0,
    {
        let ghost before = it;
        match it.next() {
            Some(c) => {
                v.push(c);
                assert(before.remaining() =~= seq![c] + it.remaining());
                assert(v@ + it.remaining() =~= s@);
            },
            None => {
                assert(v@ + it.remaining() =~= v@);
                break ;
            },
        }
    }
    v
}

/// The string made of the characters `v[from..to]`.
pub fn string_of_range(v: &Vec<char>, from: usize, to: usize) -> (s: String)
    requires
        from <= to <= v@.len(),
    ensures
        s@ == v@.subrange(from as int, to as int),
{
    let mut s = String::new();
    let mut i: usize = from;
    while i < to
        invariant
            from <= i <= to <= v@.len(),
            s@ == v@.subrange(from as int, i as int),
        decreases to - i,
    {
        s.push(v[i]);
        assert(v@.subrange(from as int, i as int).push(v@[i as int]) =~= v@.subrange(
            from as int,
            i + 1,
        ));
        i += 1;
    }
    s
}

/// The string made of all characters of `v`.
pub fn string_of(v: &Vec<char>) -> (s: String)
    ensures
        s@ == v@,
{
    let s = string_of_range(v, 0, v.len());
    assert(v@.subrange(0, v@.len() as int) =~= v@);
    s
}

/// Whether two strings hold the same characters.
pub fn same_text(a: &str, b: &str) -> (r: bool)
    ensures
        r == (a@ == b@),
{
    let x = String::from_str(a);
    let y = String::from_str(b);
    x == y
}

/// What is cut off at both ends of a line: the characters that have the
/// Unicode property `White_Space`. These are the tab, the line feed, the
/// vertical tab, the form feed and the carriage return; the space; the
/// next line; the no-break space; the ogham space mark; the spaces of
/// fixed width from the en quad to the hair space; the line and the
/// paragraph separator; the narrow no-break space; the medium
/// mathematical space; and the ideographic space.
pub open spec fn is_blank(c: char) -> bool {
    ||| '\u{9}' <= c <= '\u{d}'
    ||| c == ' '
    ||| c == '\u{85}'
    ||| c == '\u{a0}'
    ||| c == '\u{1680}'
    ||| '\u{2000}' <= c <= '\u{200a}'
    ||| c == '\u{2028}'
    ||| c == '\u{2029}'
    ||| c == '\u{202f}'
    ||| c == '\u{205f}'
    ||| c == '\u{3000}'
}

/// `char::is_whitespace` of the standard library: whether the character has
/// the Unicode property `White_Space`, which is the set of characters that
/// `is_blank` lists.
#[verifier::external_body]
fn is_whitespace(c: char) -> (r: bool)
    ensures
        r == is_blank(c),
{
    c.is_whitespace()
}

/// Letters and digits are no blanks: trimming takes none of them away.
pub proof fn lemma_letters_are_no_blanks(c: char)
    requires
        is_ascii_letter(c) || is_ascii_digit(c),
    ensures
        !is_blank(c),
{
}

/// `s` without the blanks at its start.
pub open spec fn trim_start(s: Seq<char>) -> Seq<char>
    decreases s.len(),
{
    if s.len() > 0 && is_blank(s[0]) {
        trim_start(s.drop_first())
    } else {
        s
    }
}

/// `s` without the blanks at its end.
pub open spec fn trim_end(s: Seq<char>) -> Seq<char>
    decreases s.len(),
{
    if s.len() > 0 && is_blank(s.last()) {
        trim_end(s.drop_last())
    } else {
        s
    }
}

/// `s` without the blanks at both ends.
pub open spec fn trimmed(s: Seq<char>) -> Seq<char> {
    trim_end(trim_start(s))
}

/// Trimming makes a text no longer, and shorter where it starts with a
/// blank.
pub proof fn lemma_trimmed_len(s: Seq<char>)
    ensures
        trimmed(s).len() <= s.len(),
        s.len() > 0 && is_blank(s[0]) ==> trimmed(s).len() < s.len(),
{
    lemma_trim_start_len(s);
    lemma_trim_end_len(trim_start(s));
}

proof fn lemma_trim_start_len(s: Seq<char>)
    ensures
        trim_start(s).len() <= s.len(),
        s.len() > 0 && is_blank(s[0]) ==> trim_start(s).len() < s.len(),
    decreases s.len(),
{
    if s.len() > 0 && is_blank(s[0]) {
        lemma_trim_start_len(s.drop_first());
    }
}

proof fn lemma_trim_end_len(s: Seq<char>)
    ensures
        trim_end(s).len() <= s.len(),
    decreases s.len(),
{
    if s.len() > 0 && is_blank(s.last()) {
        lemma_trim_end_len(s.drop_last());
    }
}

/// Where `chars[from..end]` starts once the blanks at its start are cut
/// off.
pub fn trim_start_in(chars: &Vec<char>, from: usize, end: usize) -> (start: usize)
    requires
        from <= end <= chars@.len(),
    ensures
        from <= start <= end,
        chars@.subrange(start as int, end as int) == trim_start(
            chars@.subrange(from as int, end as int),
        ),
{
    let mut a: usize = from;
    loop
        invariant
            from <= a <= end <= chars@.len(),
            trim_start(chars@.subrange(a as int, end as int)) == trim_start(
                chars@.subrange(from as int, end as int),
            ),
        ensures
            from <= a <= end,
            chars@.subrange(a as int, end as int) == trim_start(
                chars@.subrange(from as int, end as int),
            ),
        decreases end - a,
    {
        if a >= end {
            break ;
        }
        let c = chars[a];
        let blank = is_whitespace(c);
        if !blank {
            break ;
        }
        assert(chars@.subrange(a as int, end as int).drop_first() =~= chars@.subrange(
            a + 1,
            end as int,
        ));
        a += 1;
    }
    a
}

/// The ends of `chars[from..end]` without the blanks on both sides.
pub fn trim_in(chars: &Vec<char>, from: usize, end: usize) -> (ends: (usize, usize))
    requires
        from <= end <= chars@.len(),
    ensures
        from <= ends.0 <= ends.1 <= end,
        chars@.subrange(ends.0 as int, ends.1 as int) == trimmed(
            chars@.subrange(from as int, end as int),
        ),
{
    let a = trim_start_in(chars, from, end);
    let mut b: usize = end;
    loop
        invariant
            a <= b <= end <= chars@.len(),
            trim_end(chars@.subrange(a as int, b as int)) == trim_end(
                chars@.subrange(a as int, end as int),
            ),
        ensures
            a <= b <= end,
            chars@.subrange(a as int, b as int) == trim_end(chars@.subrange(a as int, end as int)),
        decreases b - a,
    {
        if b <= a {
            break ;
        }
        let c = chars[b - 1];
        let blank = is_whitespace(c);
        if !blank {
            break ;
        }
        assert(chars@.subrange(a as int, b as int).drop_last() =~= chars@.subrange(
            a as int,
            b - 1,
        ));
        b -= 1;
    }
    (a, b)
}

/// The place of the first `c` in `s` from `from` on, or the length of `s`
/// where there is none.
pub open spec fn first_index(s: Seq<char>, c: char, from: int) -> int
    decreases s.len() - from,
{
    if 0 <= from < s.len() && s[from] != c {
        first_index(s, c, from + 1)
    } else if from < 0 {
        0
    } else if from > s.len() {
        s.len() as int
    } else {
        from
    }
}

/// The first `c` from `from` on stands at `first_index`, and no `c` stands
/// between `from` and that place.
pub proof fn lemma_first_index(s: Seq<char>, c: char, from: int)
    requires
        0 <= from <= s.len(),
    ensures
        from <= first_index(s, c, from) <= s.len(),
        first_index(s, c, from) < s.len() ==> s[first_index(s, c, from)] == c,
        forall|i: int| from <= i < first_index(s, c, from) ==> s[i] != c,
    decreases s.len() - from,
{
    if from < s.len() && s[from] != c {
        lemma_first_index(s, c, from + 1);
    }
}

/// The place of the first `c` in `chars[from..to]`, or `to`.
pub fn find_char(chars: &Vec<char>, c: char, from: usize, to: usize) -> (at: usize)
    requires
        from <= to <= chars@.len(),
    ensures
        from <= at <= to,
        at == first_index(chars@.subrange(0, to as int), c, from as int),
{
    let ghost s = chars@.subrange(0, to as int);
    let mut i: usize = from;
    while i < to && chars[i] != c
        invariant
            from <= i <= to <= chars@.len(),
            s == chars@.subrange(0, to as int),
            first_index(s, c, i as int) == first_index(s, c, from as int),
        decreases to - i,
    {
        i += 1;
    }
    i
}

/// The first `c` of a part of a text stands where the first `c` of the
/// text from the start of the part on stands, counted from that start.
pub proof fn lemma_index_in_window(s: Seq<char>, c: char, start: int, end: int, from: int)
    requires
        0 <= start <= from <= end <= s.len(),
    ensures
        first_index(s.subrange(0, end), c, from) - start == first_index(
            s.subrange(start, end),
            c,
            from - start,
        ),
    decreases end - from,
{
    let whole = s.subrange(0, end);
    let part = s.subrange(start, end);
    if from < end {
        assert(whole[from] == part[from - start]);
        if whole[from] != c {
            lemma_index_in_window(s, c, start, end, from + 1);
        }
    }
}

/// The characters `v[from..to]`.
pub fn slice_of(v: &Vec<char>, from: usize, to: usize) -> (part: Vec<char>)
    requires
        from <= to <= v@.len(),
    ensures
        part@ == v@.subrange(from as int, to as int),
{
    let mut part: Vec<char> = Vec::new();
    let mut i: usize = from;
    while i < to
        invariant
            from <= i <= to <= v@.len(),
            part@ == v@.subrange(from as int, i as int),
        decreases to - i,
    {
        part.push(v[i]);
        assert(v@.subrange(from as int, i as int).push(v@[i as int]) =~= v@.subrange(
            from as int,
            i + 1,
        ));
        i += 1;
    }
    part
}

/// Whether a text is written with digits only, and with one at least.
pub open spec fn is_number(s: Seq<char>) -> bool {
    s.len() > 0 && forall|i: int| 0 <= i < s.len() ==> is_ascii_digit(#[trigger] s[i])
}

/// The number that a text of digits stands for.
pub open spec fn number(s: Seq<char>) -> int
    decreases s.len(),
{
    if s.len() == 0 {
        0
    } else {
        10 * number(s.drop_last()) + (s.last() as int - '0' as int)
    }
}

/// A number of digits is no smaller than the number that its first digits
/// stand for.
pub proof fn lemma_number_grows(s: Seq<char>, upto: int)
    requires
        is_number(s),
        0 <= upto <= s.len(),
    ensures
        0 <= number(s.subrange(0, upto)) <= number(s),
    decreases s.len() - upto,
{
    lemma_number_is_natural(s.subrange(0, upto));
    if upto < s.len() {
        let longer = s.subrange(0, upto + 1);
        assert(longer.drop_last() =~= s.subrange(0, upto));
        assert(longer.last() == s[upto]);
        lemma_number_grows(s, upto + 1);
    } else {
        assert(s.subrange(0, upto) =~= s);
    }
}

/// The number of a text of digits is not negative.
pub proof fn lemma_number_is_natural(s: Seq<char>)
    requires
        forall|i: int| 0 <= i < s.len() ==> is_ascii_digit(#[trigger] s[i]),
    ensures
        0 <= number(s),
    decreases s.len(),
{
    if s.len() > 0 {
        lemma_number_is_natural(s.drop_last());
    }
}

/// The number that a text of digits stands for, where it is one and is
/// not greater than `max`.
pub fn read_number(s: &Vec<char>, max: u64) -> (value: Option<u64>)
    requires
        max <= 0xffff_ffff_ffff,
    ensures
        match value {
            Some(n) => is_number(s@) && n == number(s@) && n <= max,
            None => !(is_number(s@) && number(s@) <= max),
        },
{
    if s.len() == 0 {
        return None;
    }
    let mut value: u64 = 0;
    let mut i: usize = 0;
    assert(s@.subrange(0, 0) =~= Seq::<char>::empty());
    while i < s.len()
        invariant
            i <= s@.len(),
            s@.len() > 0,
            max <= 0xffff_ffff_ffff,
            forall|k: int| 0 <= k < i ==> is_ascii_digit(#[trigger] s@[k]),
            value == number(s@.subrange(0, i as int)),
            value <= max,
        decreases s@.len() - i,
    {
        let c = s[i];
        if !('0' <= c && c <= '9') {
            return None;
        }
        let digit: u64 = (c as u8 - 48) as u64;
        let ghost longer = s@.subrange(0, i + 1);
        assert(longer.drop_last() =~= s@.subrange(0, i as int));
        assert(longer.last() == c);
        value = value * 10 + digit;
        if value > max {
            proof {
                if is_number(s@) {
                    lemma_number_grows(s@, i + 1);
                }
            }
            return None;
        }
        i += 1;
    }
    assert(s@.subrange(0, s@.len() as int) =~= s@);
    Some(value)
}

} // verus!
