use rs_document::document::Document;
use rs_document::paragraph::{blank_line_style, count_words, group_bullets};
use std::collections::HashMap;

fn doc(text: &str) -> Document {
    Document::new(text.to_string(), HashMap::new())
}

fn chars(text: &str) -> Vec<char> {
    text.chars().collect()
}

fn strings(items: &[Vec<char>]) -> Vec<String> {
    items.iter().map(|s| s.iter().collect()).collect()
}

#[test]
fn one_blank_line_in_ten_is_blank_line_style() {
    assert!(blank_line_style(&chars("a\nb\nc\nd\ne\nf\ng\nh\ni\n")));
}

#[test]
fn one_blank_line_in_eleven_is_new_line_style() {
    assert!(!blank_line_style(&chars("a\nb\nc\nd\ne\nf\ng\nh\ni\nj\n")));
}

#[test]
fn two_blank_lines_in_twenty_are_blank_line_style() {
    let text = "a\n\nb\nc\nd\ne\nf\ng\nh\ni\nj\nk\nl\nm\nn\no\np\nq\nr\n";
    assert_eq!(text.split('\n').count(), 20);
    assert!(blank_line_style(&chars(text)));
}

#[test]
fn a_text_without_blank_lines_is_new_line_style() {
    assert!(!blank_line_style(&chars("one line")));
    assert!(!blank_line_style(&chars("a\nb")));
}

#[test]
fn an_empty_text_is_blank_line_style() {
    assert!(blank_line_style(&chars("")));
}

#[test]
fn only_the_first_two_thousand_lines_are_judged() {
    let mut text = "x\n".repeat(2000);
    text.push_str(&"\n".repeat(1000));
    assert!(!blank_line_style(&chars(&text)));
    let mut text = "\n".repeat(200);
    text.push_str(&"x\n".repeat(1800));
    text.push_str(&"x\n".repeat(5000));
    assert!(blank_line_style(&chars(&text)));
    let mut text = "\n".repeat(199);
    text.push_str(&"x\n".repeat(1801));
    assert!(!blank_line_style(&chars(&text)));
}

#[test]
fn the_style_at_the_boundary_decides_the_grouping() {
    let mut d = doc("a\nb\nc\nd\ne\nf\ng\nh\ni\n");
    d.auto_paragraph_grouper();
    assert_eq!(d.page_content, "a\n\nb\n\nc\n\nd\n\ne\n\nf\n\ng\n\nh\n\ni");
    let mut d = doc("Apples and pears and plums and figs\nare fruit\n \nc\nd\ne\nf\ng\nh\ni");
    d.auto_paragraph_grouper();
    assert_eq!(
        d.page_content,
        "Apples and pears and plums and figs are fruit\n\nc\n\nd\n\ne\n\nf\n\ng\n\nh\n\ni"
    );
    let mut d = doc("Apples and pears and plums and figs\nare fruit\n \nc\nd\ne\nf\ng\nh\ni\nj");
    d.auto_paragraph_grouper();
    assert_eq!(
        d.page_content,
        "Apples and pears and plums and figs\n\nare fruit\n\nc\n\nd\n\ne\n\nf\n\ng\n\nh\n\ni\n\nj"
    );
}

#[test]
fn every_line_becomes_a_paragraph() {
    let mut d = doc(
        "Iwan Roberts\nRoberts celebrating after scoring a goal for Norwich City\nin 2004",
    );
    d.new_line_grouper();
    assert_eq!(
        d.page_content,
        "Iwan Roberts\n\nRoberts celebrating after scoring a goal for Norwich City\n\nin 2004"
    );
}

#[test]
fn blank_lines_are_dropped_by_the_new_line_grouper() {
    let mut d = doc("a\n\n \nb\n");
    d.new_line_grouper();
    assert_eq!(d.page_content, "a\n\nb");
}

#[test]
fn broken_lines_are_put_together() {
    let mut d = doc(
        "The big red fox\nis walking down the lane.\n\nAt the end of the lane\nthe fox met a bear.",
    );
    d.group_broken_paragraphs();
    assert_eq!(
        d.page_content,
        "The big red fox is walking down the lane.\n\nAt the end of the lane the fox met a bear."
    );
}

#[test]
fn short_lines_stay_paragraphs_of_their_own() {
    let mut d = doc("Apples\nPears\n\nPlums");
    d.group_broken_paragraphs();
    assert_eq!(d.page_content, "Apples\n\nPears\n\nPlums");
}

#[test]
fn items_of_a_list_become_paragraphs() {
    let mut d = doc(
        "\u{25cb} The big red fox\nis walking down the lane.\n\n\u{25cb} At the end of the lane\nthe fox met a friendly bear.",
    );
    d.group_broken_paragraphs();
    assert_eq!(
        d.page_content,
        "\u{25cb} The big red fox is walking down the lane.\n\n\u{25cb} At the end of the lane the fox met a friendly bear."
    );
}

#[test]
fn a_paragraph_is_cut_before_each_bullet() {
    let parts = group_bullets(&chars("Fruit:\n\u{2022} apples\nand pears \u{2022} plums"));
    assert_eq!(strings(&parts), vec!["Fruit: ", "\u{2022} apples and pears ", "\u{2022} plums"]);
}

#[test]
fn a_leading_e_stands_for_a_bullet() {
    let parts = group_bullets(&chars("e first item\nmore of it"));
    assert_eq!(strings(&parts), vec!["\u{b7} first item more of it"]);
    let mut d = doc("e first item\nmore of it\n\ne second item");
    d.group_broken_paragraphs();
    assert_eq!(d.page_content, "\u{b7} first item more of it\n\n\u{b7} second item");
}

#[test]
fn a_paragraph_without_bullets_is_one_item() {
    let parts = group_bullets(&chars("no list\nhere"));
    assert_eq!(strings(&parts), vec!["no list here"]);
    let parts = group_bullets(&chars(" \n "));
    assert_eq!(strings(&parts), Vec::<String>::new());
}

#[test]
fn words_are_runs_without_white_space() {
    assert_eq!(count_words(&chars("")), 0);
    assert_eq!(count_words(&chars("   ")), 0);
    assert_eq!(count_words(&chars("one")), 1);
    assert_eq!(count_words(&chars("  one\ttwo \u{a0} three  ")), 3);
    assert_eq!(count_words(&chars("is walking down the lane.")), 5);
}

#[test]
fn a_document_groups_the_items_of_a_list() {
    let items = Document::_group_bullet_paragraph("- one\n- two\nand more");
    assert_eq!(items, vec!["- one ", "- two and more"]);
}
