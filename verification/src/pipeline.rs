//! The cleaning of a text: its steps in their fixed order, and what a
//! cleaned text is free of.

use crate::clean::{
    ascii_only, breaks_from, bullet_count, clean_bullets, clean_extra_whitespace, clean_ligatures,
    clean_non_ascii_chars, expand_ligatures, is_ascii_char, is_bullet, is_ligature, is_no_bullet,
    ligature_count, ligature_expansion, non_ascii_count, normalize_breaks, normalize_whitespace,
    space_run, space_run_pattern, strip_bullets,
};
use crate::paragraph::{
    auto_group, blank_count, grouped_parts, is_blank_line_style, line_break, line_break_pattern,
    lines, paragraph_break, paragraph_break_pattern, regroup, sampled_lines,
};
use crate::pattern::{
    is_accepted, lemma_holds_replace, lemma_matches_in_order, lemma_split_of_blank,
    matched_spans, regex_accepts, replace_spans, split_spans,
};
use crate::text::{
    holds_only, is_blank, is_nonblank, lemma_filter_keeps_all, lemma_filter_keeps_none,
    lemma_holds_filter, lemma_holds_trim, lemma_split_without_separator, lemma_trim_twice,
};
use vstd::prelude::*;

verus! {

/// `text` after all the cleaning steps: white space, ligatures, bullets,
/// characters outside ASCII, paragraphs.
pub open spec fn cleaned(text: Seq<char>) -> Seq<char> {
    auto_group(ascii_only(strip_bullets(expand_ligatures(normalize_whitespace(text)))))
}

/// Whether `c` is no line feed.
pub open spec fn is_no_line_feed(c: char) -> bool {
    c != '\n'
}

/// Whether `c` is an ASCII character that is no bullet.
pub open spec fn is_plain(c: char) -> bool {
    is_ascii_char(c) && !is_bullet(c)
}

/// A text with spaces in the place of its line endings has no line feed.
pub proof fn lemma_breaks_have_no_line_feed(s: Seq<char>, i: int)
    requires
        0 <= i,
    ensures
        holds_only(breaks_from(s, i), |c: char| is_no_line_feed(c)),
    decreases s.len() - i,
{
    if i < s.len() {
        let out = breaks_from(s, i);
        if s[i] == '\r' && i + 1 < s.len() && s[i + 1] == '\n' {
            lemma_breaks_have_no_line_feed(s, i + 2);
            let rest = breaks_from(s, i + 2);
            assert forall|k: int| 0 <= k < out.len() implies is_no_line_feed(#[trigger] out[k]) by {
                if k > 0 {
                    assert(out[k] == rest[k - 1]);
                }
            }
        } else {
            lemma_breaks_have_no_line_feed(s, i + 1);
            let rest = breaks_from(s, i + 1);
            assert forall|k: int| 0 <= k < out.len() implies is_no_line_feed(#[trigger] out[k]) by {
                if k > 0 {
                    assert(out[k] == rest[k - 1]);
                }
            }
        }
    }
}

/// A text whose white space was normalized has no line feed.
pub proof fn lemma_normalized_has_no_line_feed(text: Seq<char>)
    ensures
        holds_only(normalize_whitespace(text), |c: char| is_no_line_feed(c)),
{
    let allowed = |c: char| is_no_line_feed(c);
    let spaced = normalize_breaks(text);
    let spans = matched_spans(space_run_pattern(), spaced);
    lemma_breaks_have_no_line_feed(text, 0);
    lemma_matches_in_order(space_run_pattern(), spaced);
    if spans.len() > 0 {
        assert(0 <= spans[0].0);
    }
    assert(holds_only(seq![' '], allowed));
    lemma_holds_replace(spaced, spans, seq![' '], 0, 0, allowed);
    lemma_holds_trim(replace_spans(spaced, spans, seq![' ']), allowed);
}

/// Writing out ligatures brings no line feed into a text.
pub proof fn lemma_expanded_has_no_line_feed(s: Seq<char>)
    requires
        holds_only(s, |c: char| is_no_line_feed(c)),
    ensures
        holds_only(expand_ligatures(s), |c: char| is_no_line_feed(c)),
    decreases s.len(),
{
    if s.len() > 0 {
        let before = expand_ligatures(s.drop_last());
        let more = ligature_expansion(s.last());
        assert(holds_only(s.drop_last(), |c: char| is_no_line_feed(c))) by {
            assert forall|k: int| 0 <= k < s.drop_last().len() implies is_no_line_feed(
                #[trigger] s.drop_last()[k],
            ) by {
                assert(s.drop_last()[k] == s[k]);
            }
        }
        lemma_expanded_has_no_line_feed(s.drop_last());
        let out = expand_ligatures(s);
        assert(is_no_line_feed(s[s.len() - 1]));
        assert forall|k: int| 0 <= k < out.len() implies is_no_line_feed(#[trigger] out[k]) by {
            if k < before.len() {
                assert(out[k] == before[k]);
            } else {
                assert(out[k] == more[k - before.len()]);
            }
        }
    }
}

/// No paragraph is made of blank paragraphs.
pub proof fn lemma_grouped_parts_of_blank(paragraphs: Seq<Seq<char>>)
    requires
        forall|j: int| 0 <= j < paragraphs.len() ==> is_blank(#[trigger] paragraphs[j]),
    ensures
        grouped_parts(paragraphs).len() == 0,
    decreases paragraphs.len(),
{
    if paragraphs.len() > 0 {
        let before = paragraphs.drop_last();
        assert forall|j: int| 0 <= j < before.len() implies is_blank(#[trigger] before[j]) by {
            assert(before[j] == paragraphs[j]);
        }
        lemma_grouped_parts_of_blank(before);
        assert(is_blank(paragraphs[paragraphs.len() - 1]));
    }
}

/// A text without a line feed is regrouped into itself, or into nothing
/// where it is blank.
pub proof fn lemma_regrouping_one_line(text: Seq<char>)
    requires
        holds_only(text, |c: char| is_no_line_feed(c)),
    ensures
        !is_blank(text) ==> auto_group(text) == text,
        is_blank(text) ==> auto_group(text).len() == 0,
{
    lemma_split_without_separator(text, seq!['\n'], 0);
    let all = lines(text);
    assert(all == seq![text]);
    assert(sampled_lines(text) == all);
    let blank = |line: Seq<char>| is_blank(line);
    let nonblank = |line: Seq<char>| is_nonblank(line);
    assert(all.drop_last() =~= Seq::<Seq<char>>::empty());
    assert(all.last() == text);
    assert(all.drop_last().filter(blank).len() == 0 && all.drop_last().filter(nonblank).len()
        == 0) by {
        reveal(Seq::filter);
    }
    assert(all.filter(blank) == if is_blank(text) {
        all.drop_last().filter(blank).push(text)
    } else {
        all.drop_last().filter(blank)
    }) by {
        reveal(Seq::filter);
    }
    assert(all.filter(nonblank) == if !is_blank(text) {
        all.drop_last().filter(nonblank).push(text)
    } else {
        all.drop_last().filter(nonblank)
    }) by {
        reveal(Seq::filter);
    }
    if is_blank(text) {
        assert(blank_count(all) == 1);
        assert(is_blank_line_style(text));
        let spans = matched_spans(paragraph_break_pattern(), text);
        lemma_matches_in_order(paragraph_break_pattern(), text);
        if spans.len() > 0 {
            assert(0 <= spans[0].0);
        }
        lemma_split_of_blank(text, spans, 0, 0);
        lemma_grouped_parts_of_blank(split_spans(text, spans));
    } else {
        assert(blank_count(all) == 0);
        assert(!is_blank_line_style(text));
        assert(all.filter(nonblank) =~= seq![text]);
    }
}

/// A cleaned text holds only ASCII characters that are no bullets.
pub proof fn lemma_cleaned_is_plain(text: Seq<char>)
    ensures
        holds_only(cleaned(text), |c: char| is_plain(c)),
{
    let no_feed = |c: char| is_no_line_feed(c);
    let spaced = normalize_whitespace(text);
    let lettered = expand_ligatures(spaced);
    let kept = lettered.filter(|c: char| is_no_bullet(c));
    let bare = strip_bullets(lettered);
    let ascii = ascii_only(bare);
    lemma_normalized_has_no_line_feed(text);
    lemma_expanded_has_no_line_feed(spaced);
    lemma_holds_filter(lettered, |c: char| is_no_bullet(c), no_feed);
    let bare_char = |c: char| is_no_line_feed(c) && !is_bullet(c);
    assert(holds_only(kept, bare_char));
    lemma_holds_trim(kept, bare_char);
    lemma_holds_filter(bare, |c: char| is_ascii_char(c), bare_char);
    assert(holds_only(ascii, no_feed));
    lemma_regrouping_one_line(ascii);
    assert(holds_only(cleaned(text), |c: char| is_plain(c)));
}

/// A cleaned text has no bullet, no ligature and no character outside
/// ASCII.
pub proof fn lemma_cleaned_counts(text: Seq<char>)
    ensures
        bullet_count(cleaned(text)) == 0,
        ligature_count(cleaned(text)) == 0,
        non_ascii_count(cleaned(text)) == 0,
{
    let clean = cleaned(text);
    lemma_cleaned_is_plain(text);
    assert forall|i: int| 0 <= i < clean.len() implies !is_ligature(#[trigger] clean[i]) by {
        assert(is_plain(clean[i]));
        assert(ligature_expansion(clean[i]) =~= seq![clean[i]]);
    }
    let bullet = |c: char| is_bullet(c);
    let ligature = |c: char| is_ligature(c);
    let non_ascii = |c: char| !is_ascii_char(c);
    assert(holds_only(clean, |c: char| !bullet(c)));
    assert(holds_only(clean, |c: char| !ligature(c)));
    assert(holds_only(clean, |c: char| !non_ascii(c)));
    lemma_filter_keeps_none(clean, bullet);
    lemma_filter_keeps_none(clean, ligature);
    lemma_filter_keeps_none(clean, non_ascii);
}

/// Cleaning a cleaned text changes none of its counts: not that of its
/// bullets, nor of its ligatures, nor of its characters outside ASCII.
pub proof fn lemma_cleaning_twice_changes_no_count(text: Seq<char>)
    ensures
        bullet_count(cleaned(cleaned(text))) == bullet_count(cleaned(text)),
        ligature_count(cleaned(cleaned(text))) == ligature_count(cleaned(text)),
        non_ascii_count(cleaned(cleaned(text))) == non_ascii_count(cleaned(text)),
{
    lemma_cleaned_counts(text);
    lemma_cleaned_counts(cleaned(text));
}

/// Taking the characters outside ASCII out of a text twice is taking them
/// out once.
pub proof fn lemma_ascii_only_twice(s: Seq<char>)
    ensures
        ascii_only(ascii_only(s)) == ascii_only(s),
{
    let kept = |c: char| is_ascii_char(c);
    assert(holds_only(s, |c: char| true));
    lemma_holds_filter(s, kept, |c: char| true);
    lemma_filter_keeps_all(s.filter(kept), kept);
}

/// Taking the bullets out of a text twice is taking them out once.
pub proof fn lemma_strip_bullets_twice(s: Seq<char>)
    ensures
        strip_bullets(strip_bullets(s)) == strip_bullets(s),
{
    let kept = |c: char| is_no_bullet(c);
    assert(holds_only(s, |c: char| true));
    lemma_holds_filter(s, kept, |c: char| true);
    lemma_holds_trim(s.filter(kept), kept);
    lemma_filter_keeps_all(strip_bullets(s), kept);
    lemma_trim_twice(s.filter(kept));
}

/// Writing out the ligatures of a text without ligatures changes nothing.
pub proof fn lemma_expand_without_ligatures(s: Seq<char>)
    requires
        holds_only(s, |c: char| !is_ligature(c)),
    ensures
        expand_ligatures(s) == s,
    decreases s.len(),
{
    if s.len() > 0 {
        assert forall|k: int| 0 <= k < s.drop_last().len() implies !is_ligature(
            #[trigger] s.drop_last()[k],
        ) by {
            assert(s.drop_last()[k] == s[k]);
        }
        lemma_expand_without_ligatures(s.drop_last());
        assert(!is_ligature(s[s.len() - 1]));
        assert(s.drop_last() + seq![s.last()] =~= s);
    }
}

/// A text whose ligatures were written out has none.
pub proof fn lemma_expanded_has_no_ligature(s: Seq<char>)
    ensures
        holds_only(expand_ligatures(s), |c: char| !is_ligature(c)),
    decreases s.len(),
{
    if s.len() > 0 {
        let before = expand_ligatures(s.drop_last());
        let more = ligature_expansion(s.last());
        lemma_expanded_has_no_ligature(s.drop_last());
        let out = expand_ligatures(s);
        assert forall|k: int| 0 <= k < more.len() implies !is_ligature(#[trigger] more[k]) by {
            assert(ligature_expansion(more[k]) =~= seq![more[k]]);
        }
        assert forall|k: int| 0 <= k < out.len() implies !is_ligature(#[trigger] out[k]) by {
            if k < before.len() {
                assert(out[k] == before[k]);
            } else {
                assert(out[k] == more[k - before.len()]);
            }
        }
    }
}

/// Writing out the ligatures of a text twice is writing them out once.
pub proof fn lemma_expand_ligatures_twice(s: Seq<char>)
    ensures
        expand_ligatures(expand_ligatures(s)) == expand_ligatures(s),
{
    lemma_expanded_has_no_ligature(s);
    lemma_expand_without_ligatures(expand_ligatures(s));
}

/// Whether the `regex` crate accepts the three patterns that cleaning
/// matches: a pattern that it does not accept matches nowhere.
pub fn patterns_are_accepted() -> (accepted: bool)
    ensures
        accepted == (regex_accepts(space_run_pattern()) && regex_accepts(line_break_pattern())
            && regex_accepts(paragraph_break_pattern())),
{
    is_accepted(space_run()) && is_accepted(line_break()) && is_accepted(paragraph_break())
}

/// Cleans `text`.
pub fn clean_text(text: &Vec<char>) -> (out: Vec<char>)
    ensures
        out@ == cleaned(text@),
{
    let spaced = clean_extra_whitespace(text);
    let lettered = clean_ligatures(&spaced);
    let plain = clean_bullets(&lettered);
    let ascii = clean_non_ascii_chars(&plain);
    regroup(&ascii)
}

} // verus!
