use regex::Regex;
use rs_document::clean::char_is_bullet;
use rs_document::text::{
    bounded_len, char_is_whitespace, char_width, chars_of, is_blank_text, same_text, string_of,
    trimmed,
};

fn every_char() -> impl Iterator<Item = char> {
    (0u32..=0x10FFFF).filter_map(char::from_u32)
}

#[test]
fn widths_are_the_lengths_in_utf8() {
    assert_eq!(char_width('a'), 1);
    assert_eq!(char_width('\u{7f}'), 1);
    assert_eq!(char_width('\u{80}'), 2);
    assert_eq!(char_width('\u{7ff}'), 2);
    assert_eq!(char_width('\u{800}'), 3);
    assert_eq!(char_width('\u{ffff}'), 3);
    assert_eq!(char_width('\u{10000}'), 4);
    assert_eq!(char_width('\u{10ffff}'), 4);
    for c in every_char() {
        assert_eq!(char_width(c), c.len_utf8());
    }
}

#[test]
fn white_space_is_the_white_space_of_unicode() {
    for c in every_char() {
        assert_eq!(char_is_whitespace(c), c.is_whitespace());
    }
}

#[test]
fn bullets_are_the_glyphs_of_the_list() {
    let glyphs = Regex::new(
        "\u{0095}|\u{2022}|\u{2023}|\u{2043}|\u{3164}|\u{204C}|\u{204D}|\u{2219}|\u{25CB}|\u{25CF}|\u{25D8}|\u{25E6}|\u{2619}|\u{2765}|\u{2767}|\u{29BE}|\u{29BF}|\u{002D}|\u{2013}|\u{25AA}|\u{25AB}|\\*|\\x95|\u{b7}",
    )
    .unwrap();
    let mut count = 0;
    let mut buffer = [0u8; 4];
    for c in every_char() {
        let found = glyphs.is_match(c.encode_utf8(&mut buffer));
        assert_eq!(char_is_bullet(c), found);
        if found {
            count += 1;
        }
    }
    assert_eq!(count, 23);
}

#[test]
fn strings_and_characters_go_both_ways() {
    let text = "a\u{e9}\u{20ac}\u{1F98A} z";
    let chars = chars_of(text);
    assert_eq!(chars, text.chars().collect::<Vec<char>>());
    assert_eq!(string_of(&chars), text);
    assert_eq!(string_of(&Vec::new()), "");
}

#[test]
fn sizes_are_bounded_in_bytes() {
    let chars = chars_of("a\u{e9}\u{20ac}\u{1F98A}");
    assert_eq!(bounded_len(&chars, 10), Some(10));
    assert_eq!(bounded_len(&chars, 11), Some(10));
    assert_eq!(bounded_len(&chars, 9), None);
    assert_eq!(bounded_len(&chars, 0), None);
    assert_eq!(bounded_len(&Vec::new(), 0), Some(0));
    assert_eq!(bounded_len(&chars, usize::MAX), Some(10));
}

#[test]
fn trimming_takes_white_space_from_both_ends() {
    assert_eq!(string_of(&trimmed(&chars_of(" \t a b \u{a0}\n"))), "a b");
    assert_eq!(string_of(&trimmed(&chars_of("a"))), "a");
    assert_eq!(string_of(&trimmed(&chars_of(" \u{2003} "))), "");
    assert_eq!(string_of(&trimmed(&chars_of(""))), "");
}

#[test]
fn blank_texts_hold_white_space_only() {
    assert!(is_blank_text(&chars_of("")));
    assert!(is_blank_text(&chars_of(" \t\r\n\u{a0}")));
    assert!(!is_blank_text(&chars_of(" . ")));
}

#[test]
fn texts_are_compared_character_by_character() {
    assert!(same_text(&chars_of("abc"), &chars_of("abc")));
    assert!(!same_text(&chars_of("abc"), &chars_of("abd")));
    assert!(!same_text(&chars_of("abc"), &chars_of("ab")));
    assert!(same_text(&chars_of(""), &chars_of("")));
}
