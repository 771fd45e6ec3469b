use rs_document::document::Document;
use std::collections::HashMap;

fn doc(text: &str) -> Document {
    Document::new(text.to_string(), HashMap::new())
}

fn bullets(text: &str) -> usize {
    let glyphs = [
        '\u{95}', '\u{2022}', '\u{2023}', '\u{2043}', '\u{3164}', '\u{204c}', '\u{204d}',
        '\u{2219}', '\u{25cb}', '\u{25cf}', '\u{25d8}', '\u{25e6}', '\u{2619}', '\u{2765}',
        '\u{2767}', '\u{29be}', '\u{29bf}', '-', '\u{2013}', '\u{25aa}', '\u{25ab}', '*',
        '\u{b7}',
    ];
    text.chars().filter(|c| glyphs.contains(c)).count()
}

#[test]
fn runs_of_spaces_become_one_space() {
    let mut d = doc("ITEM 1.     BUSINESS");
    d.clean_extra_whitespace();
    assert_eq!(d.page_content, "ITEM 1. BUSINESS");
}

#[test]
fn line_endings_and_no_break_spaces_become_spaces() {
    let mut d = doc("a\r\nb\rc\nd\u{a0}e");
    d.clean_extra_whitespace();
    assert_eq!(d.page_content, "a b c d e");
}

#[test]
fn white_space_is_trimmed_at_both_ends() {
    let mut d = doc("  a \n\n b  \r\n");
    d.clean_extra_whitespace();
    assert_eq!(d.page_content, "a b");
}

#[test]
fn runs_of_spaces_after_wide_characters_are_found() {
    let mut d = doc("\u{e9}\u{20ac}   \u{1F98A}    z");
    d.clean_extra_whitespace();
    assert_eq!(d.page_content, "\u{e9}\u{20ac} \u{1F98A} z");
}

#[test]
fn a_ligature_is_written_out() {
    let mut d = doc("The bene\u{FB01}ts");
    d.clean_ligatures();
    assert_eq!(d.page_content, "The benefits");
    let mut d = doc("High quality \u{FB01}nancial");
    d.clean_ligatures();
    assert_eq!(d.page_content, "High quality financial");
}

#[test]
fn a_ligature_after_the_same_letters_is_written_out_too() {
    let mut d = doc("The benefi\u{FB01}ts");
    d.clean_ligatures();
    assert_eq!(d.page_content, "The benefifits");
}

#[test]
fn every_ligature_of_the_table_is_written_out() {
    let mut d = doc(
        "\u{e6} \u{c6} \u{fb00} \u{fb01} \u{fb02} \u{fb03} \u{fb04} \u{fb05} \u{2aa} \u{153} \u{152} \u{239} \u{fb06} \u{2a6}",
    );
    d.clean_ligatures();
    assert_eq!(d.page_content, "ae AE ff fi fl ffi ffl ft ls oe OE qp st ts");
}

#[test]
fn writing_out_ligatures_twice_changes_nothing_more() {
    let mut d = doc("\u{fb03}x\u{153}");
    d.clean_ligatures();
    let once = d.page_content.clone();
    d.clean_ligatures();
    assert_eq!(d.page_content, once);
    assert_eq!(once, "ffixoe");
}

#[test]
fn a_bullet_is_taken_out() {
    let mut d = doc("\u{25cf}  This is an excellent point!");
    d.clean_bullets();
    assert_eq!(d.page_content, "This is an excellent point!");
}

#[test]
fn every_bullet_is_taken_out() {
    let mut d = doc("- a \u{2022} b * c \u{b7} d \u{2013}");
    d.clean_bullets();
    assert_eq!(d.page_content, "a  b  c  d");
}

#[test]
fn text_without_bullets_is_trimmed() {
    let mut d = doc("  plain  ");
    d.clean_bullets();
    assert_eq!(d.page_content, "plain");
}

#[test]
fn characters_outside_ascii_are_taken_out() {
    let mut d = doc("\u{88}This text contains non-ascii characters!\u{88}");
    d.clean_non_ascii_chars();
    assert_eq!(d.page_content, "This text contains non-ascii characters!");
    let mut d = doc("na\u{ef}ve caf\u{e9} \u{1F98A}");
    d.clean_non_ascii_chars();
    assert_eq!(d.page_content, "nave caf ");
}

#[test]
fn cleaning_runs_all_the_steps() {
    let mut d = doc("\u{25cf} The bene\u{FB01}ts   are\r\nhigh \u{2013} na\u{ef}ve");
    d.clean();
    assert_eq!(d.page_content, "The benefits are high  nave");
}

#[test]
fn cleaning_keeps_a_line_as_it_is() {
    let mut d = doc("ITEM 1.     BUSINESS");
    d.clean();
    assert_eq!(d.page_content, "ITEM 1. BUSINESS");
}

#[test]
fn cleaning_a_text_that_leaves_only_white_space_gives_nothing() {
    let mut d = doc("\u{e9} \u{e9}");
    d.clean();
    assert_eq!(d.page_content, "");
}

#[test]
fn cleaning_keeps_the_metadata() {
    let mut metadata = HashMap::new();
    metadata.insert("source".to_string(), "notes.pdf".to_string());
    let mut d = Document::new("a   b".to_string(), metadata.clone());
    d.clean();
    assert_eq!(d.page_content, "a b");
    assert_eq!(d.metadata, metadata);
}

#[test]
fn cleaning_twice_changes_no_count() {
    let mut d = doc("\u{2022} \u{fb01}rst \u{2022} item - se\u{e7}ond\r\n\r\n* \u{153}uvre  \u{b7}");
    d.clean();
    let once = d.page_content.clone();
    assert_eq!(bullets(&once), 0);
    assert!(once.is_ascii());
    d.clean();
    assert_eq!(bullets(&d.page_content), 0);
    assert!(d.page_content.is_ascii());
    assert_eq!(once, "first  item  seond  oeuvre");
}
