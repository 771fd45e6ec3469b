//! The regrouping of paragraphs. A text with few blank lines has one
//! paragraph in each line. A text with more of them has its paragraphs
//! between the blank lines, and the lines of a paragraph are put together
//! again, with regard to lists.

use crate::clean::{char_is_bullet, is_bullet};
use crate::pattern::{
    find_matches, matched_spans, replace_matches, replace_spans, split_at_matches, split_spans,
};
use crate::text::{
    char_is_whitespace, drop_blank, is_blank, is_blank_text, is_nonblank, is_whitespace, join,
    join_with, slice_of, split_on, split_text_on, texts, trim, trimmed,
};
use vstd::prelude::*;

verus! {

/// The pattern of a line break with the white space around it.
pub open spec fn line_break_pattern() -> Seq<char> {
    r"\s*\n\s*"@
}

/// The pattern of two line breaks in a row, each with the white space
/// around it.
pub open spec fn paragraph_break_pattern() -> Seq<char> {
    r"(\s*\n\s*){2}"@
}

/// The pattern of a line break with the white space around it.
pub fn line_break() -> (pattern: &'static str)
    ensures
        pattern@ == line_break_pattern(),
{
    r"\s*\n\s*"
}

/// The pattern of two line breaks in a row.
pub fn paragraph_break() -> (pattern: &'static str)
    ensures
        pattern@ == paragraph_break_pattern(),
{
    r"(\s*\n\s*){2}"
}

/// The number of lines that the style of a text is judged by.
pub open spec fn sample_size() -> nat {
    2000
}

/// The lines of `text`.
pub open spec fn lines(text: Seq<char>) -> Seq<Seq<char>> {
    split_on(text, seq!['\n'])
}

/// The first lines of `text`, by which its style is judged.
pub open spec fn sampled_lines(text: Seq<char>) -> Seq<Seq<char>> {
    let all = lines(text);
    if all.len() <= sample_size() {
        all
    } else {
        all.take(sample_size() as int)
    }
}

/// The number of blank lines among the given ones.
pub open spec fn blank_count(some: Seq<Seq<char>>) -> nat {
    some.filter(|line: Seq<char>| is_blank(line)).len()
}

/// Whether blank lines part the paragraphs of `text`: at least one in ten
/// of the sampled lines is blank.
pub open spec fn is_blank_line_style(text: Seq<char>) -> bool {
    let sample = sampled_lines(text);
    10 * blank_count(sample) >= sample.len()
}

/// The lines of `text` that are not blank, with a blank line between every
/// two of them.
pub open spec fn group_new_lines(text: Seq<char>) -> Seq<char> {
    join(lines(text).filter(|line: Seq<char>| is_nonblank(line)), seq!['\n', '\n'])
}

/// The number of words in `s`: runs of characters that are no white space.
pub open spec fn word_count(s: Seq<char>) -> nat
    decreases s.len(),
{
    if s.len() == 0 {
        0
    } else {
        word_count(s.drop_last()) + if !is_whitespace(s.last()) && (s.len() == 1 || is_whitespace(
            s[s.len() - 2],
        )) {
            1nat
        } else {
            0nat
        }
    }
}

/// Whether every line of `paragraph` has fewer than five words.
pub open spec fn all_lines_short(paragraph: Seq<char>) -> bool {
    forall|i: int|
        0 <= i < lines(paragraph).len() ==> word_count(#[trigger] lines(paragraph)[i]) < 5
}

/// Whether `s` holds a bullet.
pub open spec fn has_bullet(s: Seq<char>) -> bool {
    exists|i: int| 0 <= i < s.len() && is_bullet(#[trigger] s[i])
}

/// Whether `s` begins with the letter e and a space, which stand where a
/// bullet was read wrongly.
pub open spec fn starts_with_e(s: Seq<char>) -> bool {
    s.len() >= 2 && s[0] == 'e' && s[1] == ' '
}

/// `s` with a middle dot in the place of a leading e that stands for one.
pub open spec fn with_leading_bullet(s: Seq<char>) -> Seq<char> {
    if starts_with_e(s) {
        seq!['\u{b7}'] + s.skip(1)
    } else {
        s
    }
}

/// `s` cut before each bullet: the first segment holds what stands before
/// the first bullet, and each later one begins with a bullet.
pub open spec fn cut_before_bullets(s: Seq<char>) -> Seq<Seq<char>>
    decreases s.len(),
{
    if s.len() == 0 {
        seq![Seq::empty()]
    } else {
        let before = cut_before_bullets(s.drop_last());
        if is_bullet(s.last()) {
            before.push(seq![s.last()])
        } else {
            before.drop_last().push(before.last().push(s.last()))
        }
    }
}

/// `s` with one space in the place of each match of the line-break pattern.
pub open spec fn flow(s: Seq<char>) -> Seq<char> {
    replace_spans(s, matched_spans(line_break_pattern(), s), seq![' '])
}

/// The segments, each flowed, without those that are blank then.
pub open spec fn flowed_segments(segments: Seq<Seq<char>>) -> Seq<Seq<char>>
    decreases segments.len(),
{
    if segments.len() == 0 {
        seq![]
    } else {
        flowed_segments(segments.drop_last()) + if is_blank(flow(segments.last())) {
            seq![]
        } else {
            seq![flow(segments.last())]
        }
    }
}

/// The items of a paragraph that holds a list: each item is one paragraph.
pub open spec fn group_bullet_paragraph(paragraph: Seq<char>) -> Seq<Seq<char>> {
    flowed_segments(cut_before_bullets(with_leading_bullet(paragraph)))
}

/// The paragraphs made of one paragraph between blank lines: the items of
/// a list, where it holds a bullet or begins, once trimmed, with e and a
/// space; or, where all its lines are short, its lines that are not blank;
/// or its lines flowed into one.
pub open spec fn paragraph_parts(paragraph: Seq<char>) -> Seq<Seq<char>> {
    if has_bullet(paragraph) || starts_with_e(trim(paragraph)) {
        group_bullet_paragraph(paragraph)
    } else if all_lines_short(paragraph) {
        lines(paragraph).filter(|line: Seq<char>| is_nonblank(line))
    } else {
        seq![flow(paragraph)]
    }
}

/// The paragraphs made of all the given ones that are not blank.
pub open spec fn grouped_parts(paragraphs: Seq<Seq<char>>) -> Seq<Seq<char>>
    decreases paragraphs.len(),
{
    if paragraphs.len() == 0 {
        seq![]
    } else {
        grouped_parts(paragraphs.drop_last()) + if is_blank(paragraphs.last()) {
            seq![]
        } else {
            paragraph_parts(paragraphs.last())
        }
    }
}

/// `text` divided at the matches of the paragraph-break pattern, each
/// paragraph regrouped, and all of them joined with a blank line between.
pub open spec fn group_broken_paragraphs(text: Seq<char>) -> Seq<char> {
    join(
        grouped_parts(split_spans(text, matched_spans(paragraph_break_pattern(), text))),
        seq!['\n', '\n'],
    )
}

/// `text` regrouped in the way of its style.
pub open spec fn auto_group(text: Seq<char>) -> Seq<char> {
    if is_blank_line_style(text) {
        group_broken_paragraphs(text)
    } else {
        group_new_lines(text)
    }
}

/// A text of whose sampled lines exactly one in ten is blank is regrouped
/// by its blank lines: a tenth is enough, less than a tenth is not.
pub proof fn lemma_tenth_blank_is_blank_line_style(text: Seq<char>)
    requires
        10 * blank_count(sampled_lines(text)) == sampled_lines(text).len(),
    ensures
        is_blank_line_style(text),
        auto_group(text) == group_broken_paragraphs(text),
{
}

/// A text of whose sampled lines fewer than one in ten are blank has one
/// paragraph in each line.
pub proof fn lemma_fewer_blank_is_new_line_style(text: Seq<char>)
    requires
        10 * blank_count(sampled_lines(text)) < sampled_lines(text).len(),
    ensures
        !is_blank_line_style(text),
        auto_group(text) == group_new_lines(text),
{
}

/// A line feed.
fn newline() -> (out: Vec<char>)
    ensures
        out@ == seq!['\n'],
{
    let mut out: Vec<char> = Vec::new();
    out.push('\n');
    assert(out@ =~= seq!['\n']);
    out
}

/// Two line feeds, which part two paragraphs.
fn blank_line() -> (out: Vec<char>)
    ensures
        out@ == seq!['\n', '\n'],
{
    let mut out: Vec<char> = Vec::new();
    out.push('\n');
    out.push('\n');
    assert(out@ =~= seq!['\n', '\n']);
    out
}

/// One space.
fn space() -> (out: Vec<char>)
    ensures
        out@ == seq![' '],
{
    let mut out: Vec<char> = Vec::new();
    out.push(' ');
    assert(out@ =~= seq![' ']);
    out
}

/// Whether blank lines part the paragraphs of `text`.
pub fn blank_line_style(text: &Vec<char>) -> (blank_style: bool)
    ensures
        blank_style == is_blank_line_style(text@),
{
    let all = split_text_on(text, &newline());
    let sample: usize = if all.len() <= 2000 {
        all.len()
    } else {
        2000
    };
    let ghost sampled = sampled_lines(text@);
    let ghost blank = |line: Seq<char>| is_blank(line);
    assert(sampled =~= texts(all@).take(sample as int));
    let mut count: usize = 0;
    let mut i: usize = 0;
    assert(sampled.take(0).filter(blank).len() == 0) by {
        reveal(Seq::filter);
    }
    while i < sample
        invariant
            i <= sample <= all.len(),
            sample <= 2000,
            count <= i,
            sampled == texts(all@).take(sample as int),
            blank == (|line: Seq<char>| is_blank(line)),
            count == sampled.take(i as int).filter(blank).len(),
        decreases sample - i,
    {
        assert(sampled.take(i + 1) =~= sampled.take(i as int).push(all@[i as int]@));
        proof {
            sampled.take(i as int).lemma_filter_push(all@[i as int]@, blank);
        }
        if is_blank_text(&all[i]) {
            count += 1;
        }
        i += 1;
    }
    assert(sampled.take(sample as int) =~= sampled);
    10 * count >= sample
}

/// Makes one paragraph of each line of `text` that is not blank.
pub fn new_line_grouper(text: &Vec<char>) -> (out: Vec<char>)
    ensures
        out@ == group_new_lines(text@),
{
    let kept = drop_blank(split_text_on(text, &newline()));
    join_with(&kept, &blank_line())
}

/// Counts the words of `text`.
pub fn count_words(text: &Vec<char>) -> (count: usize)
    ensures
        count == word_count(text@),
{
    let mut count: usize = 0;
    let mut i: usize = 0;
    while i < text.len()
        invariant
            i <= text.len(),
            count <= i,
            count == word_count(text@.take(i as int)),
        decreases text.len() - i,
    {
        let ghost next = text@.take(i + 1);
        assert(next.drop_last() =~= text@.take(i as int));
        assert(next.last() == text@[i as int]);
        assert(i > 0 ==> next[next.len() - 2] == text@[i - 1]);
        if !char_is_whitespace(text[i]) && (i == 0 || char_is_whitespace(text[i - 1])) {
            count += 1;
        }
        i += 1;
    }
    assert(text@.take(text.len() as int) =~= text@);
    count
}

/// Whether `text` holds a bullet.
pub fn holds_bullet(text: &Vec<char>) -> (found: bool)
    ensures
        found == has_bullet(text@),
{
    let mut i: usize = 0;
    while i < text.len()
        invariant
            i <= text.len(),
            forall|j: int| 0 <= j < i ==> !is_bullet(#[trigger] text@[j]),
        decreases text.len() - i,
    {
        if char_is_bullet(text[i]) {
            return true;
        }
        i += 1;
    }
    false
}

/// Whether `text` begins with e and a space.
pub fn begins_with_e(text: &Vec<char>) -> (found: bool)
    ensures
        found == starts_with_e(text@),
{
    text.len() >= 2 && text[0] == 'e' && text[1] == ' '
}

/// Puts one space in the place of each line break of `text` and of the
/// white space around it.
pub fn flow_text(text: &Vec<char>) -> (out: Vec<char>)
    ensures
        out@ == flow(text@),
{
    let breaks = find_matches(line_break(), text);
    replace_matches(text, &breaks, &space())
}

/// Cuts `text` before each bullet.
pub fn cut_at_bullets(text: &Vec<char>) -> (out: Vec<Vec<char>>)
    ensures
        texts(out@) == cut_before_bullets(text@),
{
    let mut out: Vec<Vec<char>> = Vec::new();
    let mut current: Vec<char> = Vec::new();
    let mut i: usize = 0;
    assert(texts(out@).push(current@) =~= cut_before_bullets(text@.take(0)));
    while i < text.len()
        invariant
            i <= text.len(),
            texts(out@).push(current@) == cut_before_bullets(text@.take(i as int)),
        decreases text.len() - i,
    {
        let ghost done = texts(out@);
        let ghost open = current@;
        let ghost next = text@.take(i + 1);
        assert(next.drop_last() =~= text@.take(i as int));
        assert(done.push(open).drop_last() =~= done);
        let c = text[i];
        if char_is_bullet(c) {
            out.push(current);
            current = Vec::new();
            current.push(c);
            assert(current@ =~= seq![c]);
            assert(texts(out@) =~= done.push(open));
        } else {
            current.push(c);
            assert(texts(out@).push(current@) =~= done.push(open.push(c)));
        }
        i += 1;
    }
    assert(text@.take(text.len() as int) =~= text@);
    let ghost done = texts(out@);
    out.push(current);
    assert(texts(out@) =~= done.push(current@));
    out
}

/// The items of a paragraph that holds a list.
pub fn group_bullets(paragraph: &Vec<char>) -> (out: Vec<Vec<char>>)
    ensures
        texts(out@) == group_bullet_paragraph(paragraph@),
{
    let marked = if begins_with_e(paragraph) {
        let mut marked: Vec<char> = Vec::new();
        marked.push('\u{b7}');
        let rest = slice_of(paragraph, 1, paragraph.len());
        let mut i: usize = 0;
        while i < rest.len()
            invariant
                i <= rest.len(),
                marked@ == seq!['\u{b7}'] + rest@.take(i as int),
            decreases rest.len() - i,
        {
            marked.push(rest[i]);
            assert(marked@ =~= seq!['\u{b7}'] + rest@.take(i + 1));
            i += 1;
        }
        assert(rest@.take(rest.len() as int) =~= rest@);
        assert(rest@ =~= paragraph@.skip(1));
        marked
    } else {
        let same = slice_of(paragraph, 0, paragraph.len());
        assert(same@ =~= paragraph@);
        same
    };
    let segments = cut_at_bullets(&marked);
    let ghost all = texts(segments@);
    let mut out: Vec<Vec<char>> = Vec::new();
    let mut i: usize = 0;
    assert(texts(out@) =~= flowed_segments(all.take(0)));
    while i < segments.len()
        invariant
            i <= segments.len(),
            all == texts(segments@),
            texts(out@) == flowed_segments(all.take(i as int)),
        decreases segments.len() - i,
    {
        let ghost before = texts(out@);
        assert(all.take(i + 1).drop_last() =~= all.take(i as int));
        assert(all.take(i + 1).last() == segments@[i as int]@);
        let flowed = flow_text(&segments[i]);
        if !is_blank_text(&flowed) {
            out.push(flowed);
            assert(texts(out@) =~= before + seq![flowed@]);
        } else {
            assert(before + Seq::<Seq<char>>::empty() =~= before);
        }
        i += 1;
    }
    assert(all.take(segments.len() as int) =~= all);
    out
}

/// Whether every line among `some` has fewer than five words.
fn lines_are_short(some: &Vec<Vec<char>>) -> (short: bool)
    ensures
        short == (forall|i: int|
            0 <= i < some.len() ==> word_count(#[trigger] texts(some@)[i]) < 5),
{
    let mut i: usize = 0;
    while i < some.len()
        invariant
            i <= some.len(),
            forall|j: int| 0 <= j < i ==> word_count(#[trigger] texts(some@)[j]) < 5,
        decreases some.len() - i,
    {
        assert(texts(some@)[i as int] == some@[i as int]@);
        if count_words(&some[i]) >= 5 {
            return false;
        }
        i += 1;
    }
    true
}

/// The paragraphs made of one paragraph between blank lines.
pub fn regroup_paragraph(paragraph: &Vec<char>) -> (out: Vec<Vec<char>>)
    ensures
        texts(out@) == paragraph_parts(paragraph@),
{
    if holds_bullet(paragraph) || begins_with_e(&trimmed(paragraph)) {
        return group_bullets(paragraph);
    }
    let its_lines = split_text_on(paragraph, &newline());
    if lines_are_short(&its_lines) {
        drop_blank(its_lines)
    } else {
        let mut out: Vec<Vec<char>> = Vec::new();
        let flowed = flow_text(paragraph);
        out.push(flowed);
        assert(texts(out@) =~= seq![flowed@]);
        out
    }
}

/// Regroups a text whose paragraphs are parted by blank lines.
pub fn regroup_broken_paragraphs(text: &Vec<char>) -> (out: Vec<char>)
    ensures
        out@ == group_broken_paragraphs(text@),
{
    let breaks = find_matches(paragraph_break(), text);
    let paragraphs = split_at_matches(text, &breaks);
    let ghost all = texts(paragraphs@);
    let mut parts: Vec<Vec<char>> = Vec::new();
    let mut i: usize = 0;
    assert(texts(parts@) =~= grouped_parts(all.take(0)));
    while i < paragraphs.len()
        invariant
            i <= paragraphs.len(),
            all == texts(paragraphs@),
            texts(parts@) == grouped_parts(all.take(i as int)),
        decreases paragraphs.len() - i,
    {
        let ghost before = texts(parts@);
        assert(all.take(i + 1).drop_last() =~= all.take(i as int));
        assert(all.take(i + 1).last() == paragraphs@[i as int]@);
        if !is_blank_text(&paragraphs[i]) {
            let mut more = regroup_paragraph(&paragraphs[i]);
            let ghost added = texts(more@);
            parts.append(&mut more);
            assert(texts(parts@) =~= before + added);
        } else {
            assert(before + Seq::<Seq<char>>::empty() =~= before);
        }
        i += 1;
    }
    assert(all.take(paragraphs.len() as int) =~= all);
    join_with(&parts, &blank_line())
}

/// Regroups the paragraphs of `text` in the way of its style.
pub fn regroup(text: &Vec<char>) -> (out: Vec<char>)
    ensures
        out@ == auto_group(text@),
{
    if blank_line_style(text) {
        regroup_broken_paragraphs(text)
    } else {
        new_line_grouper(text)
    }
}

} // verus!
