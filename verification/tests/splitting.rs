use rs_document::overlap::split_and_merge;
use rs_document::splitter::split_text;

const CASCADE: [&str; 4] = ["\n\n", "\n", " ", ""];

fn strings(items: &[&str]) -> Vec<String> {
    items.iter().map(|s| s.to_string()).collect()
}

#[test]
fn seven_units_make_three_overlapping_chunks() {
    let chunks = split_and_merge("A\n\nB\n\nC\n\nD\n\nE\n\nF\n\nG", 3, &CASCADE);
    assert_eq!(chunks, strings(&["ABC", "CDE", "EFG"]));
}

#[test]
fn neighbouring_chunks_share_their_boundary_unit() {
    let chunks = split_and_merge("A\n\nB\n\nC\n\nD\n\nE\n\nF\n\nG", 3, &CASCADE);
    for pair in chunks.windows(2) {
        let last = pair[0].chars().last().unwrap();
        let first = pair[1].chars().next().unwrap();
        assert_eq!(last, first);
    }
}

#[test]
fn four_units_end_in_a_chunk_of_two() {
    let chunks = split_and_merge("A\n\nB\n\nC\n\nD", 3, &CASCADE);
    assert_eq!(chunks, strings(&["ABC", "CD"]));
}

#[test]
fn six_units_end_in_a_chunk_of_two() {
    let chunks = split_and_merge("A\n\nB\n\nC\n\nD\n\nE\n\nF", 3, &CASCADE);
    assert_eq!(chunks, strings(&["ABC", "CDE", "EF"]));
}

#[test]
fn three_units_make_one_chunk() {
    let chunks = split_and_merge("A\n\nB\n\nC", 3, &CASCADE);
    assert_eq!(chunks, strings(&["ABC"]));
}

#[test]
fn two_units_are_one_chunk_without_separator() {
    let chunks = split_and_merge("aaaa bbbb", 15, &CASCADE);
    assert_eq!(chunks, strings(&["aaaabbbb"]));
}

#[test]
fn one_unit_is_the_only_chunk() {
    let chunks = split_and_merge("hello", 30, &CASCADE);
    assert_eq!(chunks, strings(&["hello"]));
}

#[test]
fn empty_text_has_no_chunk() {
    let chunks = split_and_merge("", 30, &CASCADE);
    assert_eq!(chunks, Vec::<String>::new());
}

#[test]
fn text_of_separators_alone_is_one_chunk() {
    let chunks = split_and_merge("    ", 9, &CASCADE);
    assert_eq!(chunks, strings(&["    "]));
}

#[test]
fn chunks_of_fitting_units_stay_within_the_chunk_size() {
    let text = "one two three four five six seven eight nine ten eleven twelve";
    let chunks = split_and_merge(text, 30, &CASCADE);
    assert!(chunks.len() > 1);
    assert!(chunks.iter().all(|chunk| chunk.len() <= 30));
}

#[test]
fn pieces_are_put_together_while_they_fit() {
    let pieces = split_text("aa bb cc dd", 5, &CASCADE);
    assert_eq!(pieces, strings(&["aa bb", "cc dd"]));
}

#[test]
fn a_coarser_separator_is_tried_first() {
    let pieces = split_text("aa bb\n\ncc dd", 5, &CASCADE);
    assert_eq!(pieces, strings(&["aa bb", "cc dd"]));
}

#[test]
fn empty_pieces_are_left_out() {
    let pieces = split_text("a\n\n\n\nb", 1, &["\n\n"]);
    assert_eq!(pieces, strings(&["a", "b"]));
}

#[test]
fn a_single_piece_comes_back_alone() {
    let pieces = split_text("word", 10, &CASCADE);
    assert_eq!(pieces, strings(&["word"]));
}

#[test]
fn text_without_pieces_gives_nothing() {
    let pieces = split_text("", 5, &["\n\n"]);
    assert_eq!(pieces, Vec::<String>::new());
}

#[test]
fn without_separators_a_text_is_cut_between_characters() {
    let pieces = split_text("abcdefg", 3, &[]);
    assert_eq!(pieces, strings(&["abc", "def", "g"]));
}

#[test]
fn without_separators_a_fitting_text_is_one_piece() {
    assert_eq!(split_text("abc", 3, &[]), strings(&["abc"]));
    assert_eq!(split_text("", 3, &[]), strings(&[""]));
}

#[test]
fn a_character_of_several_bytes_is_never_cut() {
    let pieces = split_text("\u{e9}\u{e9}\u{e9}", 4, &[]);
    assert_eq!(pieces, strings(&["\u{e9}\u{e9}", "\u{e9}"]));
    let pieces = split_text("a\u{20ac}b", 3, &[]);
    assert_eq!(pieces, strings(&["a", "\u{20ac}", "b"]));
}

#[test]
fn a_character_wider_than_the_limit_is_a_piece_of_its_own() {
    let pieces = split_text("\u{e9}a", 1, &[]);
    assert_eq!(pieces, strings(&["\u{e9}", "a"]));
}

#[test]
fn character_pieces_make_the_text_again() {
    let text = "The quick brown fox \u{1F98A} jumps over the lazy dog";
    let pieces = split_text(text, 7, &[]);
    assert!(pieces.iter().all(|piece| piece.len() <= 7));
    assert_eq!(pieces.concat(), text);
}

#[test]
fn the_empty_separator_divides_between_characters() {
    let pieces = split_text("abcd", 2, &[""]);
    assert_eq!(pieces, strings(&["ab", "cd"]));
}

#[test]
fn a_last_group_that_repeats_the_one_before_is_left_out() {
    let pieces = split_text("ab ab", 2, &[" "]);
    assert_eq!(pieces, strings(&["ab"]));
}

#[test]
fn sizes_are_counted_in_bytes() {
    let pieces = split_text("\u{e9}\u{e9} \u{fc}\u{fc}", 5, &[" "]);
    assert_eq!(pieces, strings(&["\u{e9}\u{e9}", "\u{fc}\u{fc}"]));
    let pieces = split_text("ee uu", 5, &[" "]);
    assert_eq!(pieces, strings(&["ee uu"]));
}

#[test]
fn pieces_hold_the_text_apart_from_the_separators() {
    let text = "alpha beta\n\ngamma delta epsilon\nzeta  eta";
    let pieces = split_text(text, 6, &CASCADE);
    assert_eq!(
        pieces,
        strings(&["alpha", "beta", "gamma", "delta", "epsilo", "n\nzeta", "eta"])
    );
    let kept = |s: &str| s.chars().filter(|c| *c != ' ' && *c != '\n').collect::<String>();
    assert_eq!(kept(&pieces.concat()), kept(text));
    assert!(pieces.iter().all(|piece| piece.len() <= 6));
}
