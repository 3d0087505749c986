use saba_core::text::{chars_of, find_char, read_number, slice_of, string_of, trim_in, trim_start_in};

/// The characters that have the property White_Space.
fn is_listed(c: char) -> bool {
    matches!(
        c as u32,
        0x9..=0xd
            | 0x20
            | 0x85
            | 0xa0
            | 0x1680
            | 0x2000..=0x200a
            | 0x2028
            | 0x2029
            | 0x202f
            | 0x205f
            | 0x3000
    )
}

#[test]
fn test_blanks_are_the_characters_with_the_white_space_property() {
    let mut blanks = 0;
    for code in 0..=0x10ffffu32 {
        let Some(c) = char::from_u32(code) else {
            continue;
        };
        let ends = trim_in(&vec![c], 0, 1);
        let trimmed_away = ends.0 == ends.1;
        assert_eq!(trimmed_away, is_listed(c), "U+{:04X}", code);
        if trimmed_away {
            blanks += 1;
        }
    }
    assert_eq!(blanks, 25);
}

#[test]
fn test_trim_in_and_trim_start_in() {
    let chars = chars_of(" \t a b\u{3000}\n");
    assert_eq!(trim_in(&chars, 0, chars.len()), (3, 6));
    assert_eq!(trim_start_in(&chars, 0, chars.len()), 3);
    assert_eq!(trim_in(&chars, 4, chars.len()), (5, 6));
    assert_eq!(trim_in(&chars, 0, 2), (2, 2));
    assert_eq!(trim_in(&chars, 3, 4), (3, 4));
    assert_eq!(string_of(&slice_of(&chars, 3, 6)), "a b");
}

#[test]
fn test_find_char_and_read_number() {
    let chars = chars_of("ab:cd:e");
    assert_eq!(find_char(&chars, ':', 0, chars.len()), 2);
    assert_eq!(find_char(&chars, ':', 3, chars.len()), 5);
    assert_eq!(find_char(&chars, ':', 6, chars.len()), 7);
    assert_eq!(find_char(&chars, ':', 0, 2), 2);
    assert_eq!(read_number(&chars_of("0123"), 1000), Some(123));
    assert_eq!(read_number(&chars_of("1001"), 1000), None);
    assert_eq!(read_number(&chars_of(""), 1000), None);
    assert_eq!(read_number(&chars_of("12a"), 1000), None);
}
