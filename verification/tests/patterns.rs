use rs_document::pattern::{
    char_spans, find_matches, is_accepted, replace_matches, spans_fit, split_at_matches,
};
use rs_document::pipeline::patterns_are_accepted;

fn chars(text: &str) -> Vec<char> {
    text.chars().collect()
}

fn strings(items: &[Vec<char>]) -> Vec<String> {
    items.iter().map(|s| s.iter().collect()).collect()
}

#[test]
fn byte_spans_become_character_spans() {
    let text = chars("a\u{e9}\u{20ac}\u{1F98A}z");
    assert_eq!(char_spans(&text, &vec![]), Some(vec![]));
    assert_eq!(char_spans(&text, &vec![(0, 1), (1, 3), (3, 6)]), Some(vec![(0, 1), (1, 2), (2, 3)]));
    assert_eq!(char_spans(&text, &vec![(6, 10), (10, 11)]), Some(vec![(3, 4), (4, 5)]));
    assert_eq!(char_spans(&text, &vec![(3, 3), (3, 3), (11, 11)]), Some(vec![(2, 2), (2, 2), (5, 5)]));
}

#[test]
fn byte_spans_inside_a_character_are_refused() {
    let text = chars("a\u{e9}\u{20ac}");
    assert_eq!(char_spans(&text, &vec![(2, 3)]), None);
    assert_eq!(char_spans(&text, &vec![(1, 4)]), None);
    assert_eq!(char_spans(&text, &vec![(0, 1), (5, 6)]), None);
}

#[test]
fn byte_spans_out_of_order_or_beyond_the_text_are_refused() {
    let text = chars("abcdef");
    assert_eq!(char_spans(&text, &vec![(2, 4), (3, 5)]), None);
    assert_eq!(char_spans(&text, &vec![(4, 2)]), None);
    assert_eq!(char_spans(&text, &vec![(5, 7)]), None);
    assert_eq!(char_spans(&text, &vec![(7, 7)]), None);
    assert_eq!(char_spans(&text, &vec![(2, 4), (4, 6)]), Some(vec![(2, 4), (4, 6)]));
}

#[test]
fn spans_are_judged_against_the_length() {
    assert!(spans_fit(&vec![], 0));
    assert!(spans_fit(&vec![(0, 0)], 0));
    assert!(spans_fit(&vec![(0, 2), (2, 3), (5, 5)], 5));
    assert!(!spans_fit(&vec![(0, 2), (1, 3)], 5));
    assert!(!spans_fit(&vec![(3, 2)], 5));
    assert!(!spans_fit(&vec![(3, 6)], 5));
}

#[test]
fn spans_are_replaced() {
    let text = chars("one  two   three");
    let out = replace_matches(&text, &vec![(3, 5), (8, 11)], &chars("_"));
    assert_eq!(out.iter().collect::<String>(), "one_two_three");
    let out = replace_matches(&text, &vec![], &chars("_"));
    assert_eq!(out.iter().collect::<String>(), "one  two   three");
    let out = replace_matches(&text, &vec![(0, 0), (16, 16)], &chars("<>"));
    assert_eq!(out.iter().collect::<String>(), "<>one  two   three<>");
    let out = replace_matches(&text, &vec![(0, 16)], &chars(""));
    assert_eq!(out.iter().collect::<String>(), "");
}

#[test]
fn a_text_is_divided_between_spans() {
    let text = chars("one  two   three");
    let out = split_at_matches(&text, &vec![(3, 5), (8, 11)]);
    assert_eq!(strings(&out), vec!["one", "two", "three"]);
    let out = split_at_matches(&text, &vec![]);
    assert_eq!(strings(&out), vec!["one  two   three"]);
    let out = split_at_matches(&text, &vec![(0, 3), (3, 5), (11, 16)]);
    assert_eq!(strings(&out), vec!["", "", "two   ", ""]);
}

#[test]
fn matches_are_found_in_characters() {
    let text = chars("\u{e9}\u{e9}  x   \u{20ac}");
    assert_eq!(find_matches("[ ]{2,}", &text), vec![(2, 4), (5, 8)]);
    assert_eq!(find_matches("x", &text), vec![(4, 5)]);
    assert_eq!(find_matches("\u{20ac}", &text), vec![(8, 9)]);
    assert_eq!(find_matches("y", &text), vec![]);
}

#[test]
fn a_refused_pattern_matches_nowhere() {
    assert_eq!(find_matches("(", &chars("a(b")), vec![]);
}

#[test]
fn line_breaks_are_matched_with_the_white_space_around_them() {
    let text = chars("a \n\t b\n\nc d");
    assert_eq!(find_matches(r"\s*\n\s*", &text), vec![(1, 5), (6, 8)]);
    assert_eq!(find_matches(r"(\s*\n\s*){2}", &text), vec![(6, 8)]);
}

#[test]
fn patterns_are_accepted_or_refused() {
    assert!(is_accepted("[ ]{2,}"));
    assert!(is_accepted(""));
    assert!(!is_accepted("("));
    assert!(!is_accepted("[a"));
}

#[test]
fn the_patterns_of_cleaning_are_accepted() {
    assert!(patterns_are_accepted());
}
