//! The cleaning steps that work character by character: white space,
//! ligatures, bullets and characters outside ASCII.

use crate::pattern::{find_matches, matched_spans, replace_matches, replace_spans};
use crate::text::{trim, trimmed};
use vstd::prelude::*;

verus! {

/// The pattern of a run of two or more spaces.
pub open spec fn space_run_pattern() -> Seq<char> {
    r"([ ]{2,})"@
}

/// The pattern of a run of two or more spaces.
pub fn space_run() -> (pattern: &'static str)
    ensures
        pattern@ == space_run_pattern(),
{
    r"([ ]{2,})"
}

/// `s` from index `i` on, with a space in the place of each no-break space
/// and of each line ending: a carriage return with a line feed after it, a
/// carriage return alone, a line feed alone.
pub open spec fn breaks_from(s: Seq<char>, i: int) -> Seq<char>
    decreases s.len() - i,
{
    if i < 0 || i >= s.len() {
        Seq::empty()
    } else if s[i] == '\r' && i + 1 < s.len() && s[i + 1] == '\n' {
        seq![' '] + breaks_from(s, i + 2)
    } else if s[i] == '\r' || s[i] == '\n' || s[i] == '\u{a0}' {
        seq![' '] + breaks_from(s, i + 1)
    } else {
        seq![s[i]] + breaks_from(s, i + 1)
    }
}

/// `s` with a space in the place of each no-break space and line ending.
pub open spec fn normalize_breaks(s: Seq<char>) -> Seq<char> {
    breaks_from(s, 0)
}

/// `s` with its line endings and no-break spaces made spaces, then with one
/// space in the place of each match of the space-run pattern, then trimmed.
pub open spec fn normalize_whitespace(s: Seq<char>) -> Seq<char> {
    let spaced = normalize_breaks(s);
    trim(replace_spans(spaced, matched_spans(space_run_pattern(), spaced), seq![' ']))
}

/// The letters that stand for `c` where it is a ligature, and `c` itself
/// where it is none.
pub open spec fn ligature_expansion(c: char) -> Seq<char> {
    if c == '\u{e6}' {
        seq!['a', 'e']
    } else if c == '\u{c6}' {
        seq!['A', 'E']
    } else if c == '\u{fb00}' {
        seq!['f', 'f']
    } else if c == '\u{fb01}' {
        seq!['f', 'i']
    } else if c == '\u{fb02}' {
        seq!['f', 'l']
    } else if c == '\u{fb03}' {
        seq!['f', 'f', 'i']
    } else if c == '\u{fb04}' {
        seq!['f', 'f', 'l']
    } else if c == '\u{fb05}' {
        seq!['f', 't']
    } else if c == '\u{2aa}' {
        seq!['l', 's']
    } else if c == '\u{153}' {
        seq!['o', 'e']
    } else if c == '\u{152}' {
        seq!['O', 'E']
    } else if c == '\u{239}' {
        seq!['q', 'p']
    } else if c == '\u{fb06}' {
        seq!['s', 't']
    } else if c == '\u{2a6}' {
        seq!['t', 's']
    } else {
        seq![c]
    }
}

/// Whether `c` is one of the ligatures that are written out.
pub open spec fn is_ligature(c: char) -> bool {
    ligature_expansion(c) != seq![c]
}

/// `s` with every ligature written out in letters.
pub open spec fn expand_ligatures(s: Seq<char>) -> Seq<char>
    decreases s.len(),
{
    if s.len() == 0 {
        Seq::empty()
    } else {
        expand_ligatures(s.drop_last()) + ligature_expansion(s.last())
    }
}

/// Whether `c` is one of the glyphs that mark an item of a list.
pub open spec fn is_bullet(c: char) -> bool {
    ||| c == '\u{95}'
    ||| c == '\u{2022}'
    ||| c == '\u{2023}'
    ||| c == '\u{2043}'
    ||| c == '\u{3164}'
    ||| c == '\u{204c}'
    ||| c == '\u{204d}'
    ||| c == '\u{2219}'
    ||| c == '\u{25cb}'
    ||| c == '\u{25cf}'
    ||| c == '\u{25d8}'
    ||| c == '\u{25e6}'
    ||| c == '\u{2619}'
    ||| c == '\u{2765}'
    ||| c == '\u{2767}'
    ||| c == '\u{29be}'
    ||| c == '\u{29bf}'
    ||| c == '-'
    ||| c == '\u{2013}'
    ||| c == '\u{25aa}'
    ||| c == '\u{25ab}'
    ||| c == '*'
    ||| c == '\u{b7}'
}

/// Whether `c` is no bullet.
pub open spec fn is_no_bullet(c: char) -> bool {
    !is_bullet(c)
}

/// Whether `c` is in the 7-bit range.
pub open spec fn is_ascii_char(c: char) -> bool {
    (c as u32) < 0x80
}

/// `s` without its bullets, trimmed.
pub open spec fn strip_bullets(s: Seq<char>) -> Seq<char> {
    trim(s.filter(|c: char| is_no_bullet(c)))
}

/// `s` without the characters outside ASCII.
pub open spec fn ascii_only(s: Seq<char>) -> Seq<char> {
    s.filter(|c: char| is_ascii_char(c))
}

/// The number of bullets in `s`.
pub open spec fn bullet_count(s: Seq<char>) -> nat {
    s.filter(|c: char| is_bullet(c)).len()
}

/// The number of ligatures in `s`.
pub open spec fn ligature_count(s: Seq<char>) -> nat {
    s.filter(|c: char| is_ligature(c)).len()
}

/// The number of characters of `s` outside ASCII.
pub open spec fn non_ascii_count(s: Seq<char>) -> nat {
    s.filter(|c: char| !is_ascii_char(c)).len()
}

/// Whether `c` marks an item of a list.
pub fn char_is_bullet(c: char) -> (b: bool)
    ensures
        b == is_bullet(c),
{
    c == '\u{95}' || c == '\u{2022}' || c == '\u{2023}' || c == '\u{2043}' || c == '\u{3164}' || c
        == '\u{204c}' || c == '\u{204d}' || c == '\u{2219}' || c == '\u{25cb}' || c == '\u{25cf}'
        || c == '\u{25d8}' || c == '\u{25e6}' || c == '\u{2619}' || c == '\u{2765}' || c
        == '\u{2767}' || c == '\u{29be}' || c == '\u{29bf}' || c == '-' || c == '\u{2013}' || c
        == '\u{25aa}' || c == '\u{25ab}' || c == '*' || c == '\u{b7}'
}

/// Makes spaces of the line endings and no-break spaces of `text`.
pub fn spaced_breaks(text: &Vec<char>) -> (out: Vec<char>)
    ensures
        out@ == normalize_breaks(text@),
{
    let mut out: Vec<char> = Vec::new();
    let mut i: usize = 0;
    assert(out@ + breaks_from(text@, 0) =~= breaks_from(text@, 0));
    while i < text.len()
        invariant
            i <= text.len(),
            normalize_breaks(text@) == out@ + breaks_from(text@, i as int),
        decreases text.len() - i,
    {
        let c = text[i];
        let ghost before = out@;
        if c == '\r' && i + 1 < text.len() && text[i + 1] == '\n' {
            out.push(' ');
            assert(out@ + breaks_from(text@, i + 2) =~= before + (seq![' '] + breaks_from(
                text@,
                i + 2,
            )));
            i += 2;
        } else if c == '\r' || c == '\n' || c == '\u{a0}' {
            out.push(' ');
            assert(out@ + breaks_from(text@, i + 1) =~= before + (seq![' '] + breaks_from(
                text@,
                i + 1,
            )));
            i += 1;
        } else {
            out.push(c);
            assert(out@ + breaks_from(text@, i + 1) =~= before + (seq![c] + breaks_from(
                text@,
                i + 1,
            )));
            i += 1;
        }
    }
    assert(out@ + Seq::<char>::empty() =~= out@);
    out
}

/// Makes single spaces of the white space of `text` and trims it.
pub fn clean_extra_whitespace(text: &Vec<char>) -> (out: Vec<char>)
    ensures
        out@ == normalize_whitespace(text@),
{
    let spaced = spaced_breaks(text);
    let runs = find_matches(space_run(), &spaced);
    let mut space: Vec<char> = Vec::new();
    space.push(' ');
    assert(space@ =~= seq![' ']);
    let single = replace_matches(&spaced, &runs, &space);
    trimmed(&single)
}

/// Appends two characters.
fn push_two(out: &mut Vec<char>, a: char, b: char)
    ensures
        final(out)@ == old(out)@ + seq![a, b],
{
    out.push(a);
    out.push(b);
    assert(out@ =~= old(out)@ + seq![a, b]);
}

/// Appends three characters.
fn push_three(out: &mut Vec<char>, a: char, b: char, c: char)
    ensures
        final(out)@ == old(out)@ + seq![a, b, c],
{
    out.push(a);
    out.push(b);
    out.push(c);
    assert(out@ =~= old(out)@ + seq![a, b, c]);
}

/// Appends to `out` what stands for `c`.
pub fn push_expansion(out: &mut Vec<char>, c: char)
    ensures
        final(out)@ == old(out)@ + ligature_expansion(c),
{
    if c == '\u{e6}' {
        push_two(out, 'a', 'e');
    } else if c == '\u{c6}' {
        push_two(out, 'A', 'E');
    } else if c == '\u{fb00}' {
        push_two(out, 'f', 'f');
    } else if c == '\u{fb01}' {
        push_two(out, 'f', 'i');
    } else if c == '\u{fb02}' {
        push_two(out, 'f', 'l');
    } else if c == '\u{fb03}' {
        push_three(out, 'f', 'f', 'i');
    } else if c == '\u{fb04}' {
        push_three(out, 'f', 'f', 'l');
    } else if c == '\u{fb05}' {
        push_two(out, 'f', 't');
    } else if c == '\u{2aa}' {
        push_two(out, 'l', 's');
    } else if c == '\u{153}' {
        push_two(out, 'o', 'e');
    } else if c == '\u{152}' {
        push_two(out, 'O', 'E');
    } else if c == '\u{239}' {
        push_two(out, 'q', 'p');
    } else if c == '\u{fb06}' {
        push_two(out, 's', 't');
    } else if c == '\u{2a6}' {
        push_two(out, 't', 's');
    } else {
        out.push(c);
        assert(out@ =~= old(out)@ + seq![c]);
    }
}

/// Writes out the ligatures of `text`.
pub fn clean_ligatures(text: &Vec<char>) -> (out: Vec<char>)
    ensures
        out@ == expand_ligatures(text@),
{
    let mut out: Vec<char> = Vec::new();
    let mut i: usize = 0;
    while i < text.len()
        invariant
            i <= text.len(),
            out@ == expand_ligatures(text@.take(i as int)),
        decreases text.len() - i,
    {
        assert(text@.take(i + 1).drop_last() =~= text@.take(i as int));
        push_expansion(&mut out, text[i]);
        i += 1;
    }
    assert(text@.take(text.len() as int) =~= text@);
    out
}

/// Takes the bullets out of `text` and trims it.
pub fn clean_bullets(text: &Vec<char>) -> (out: Vec<char>)
    ensures
        out@ == strip_bullets(text@),
{
    let ghost keep = |c: char| is_no_bullet(c);
    let mut kept: Vec<char> = Vec::new();
    let mut i: usize = 0;
    assert(kept@ =~= text@.take(0).filter(keep)) by {
        reveal(Seq::filter);
    }
    while i < text.len()
        invariant
            i <= text.len(),
            keep == (|c: char| is_no_bullet(c)),
            kept@ == text@.take(i as int).filter(keep),
        decreases text.len() - i,
    {
        assert(text@.take(i + 1) =~= text@.take(i as int).push(text@[i as int]));
        proof {
            text@.take(i as int).lemma_filter_push(text@[i as int], keep);
        }
        if !char_is_bullet(text[i]) {
            kept.push(text[i]);
        }
        i += 1;
    }
    assert(text@.take(text.len() as int) =~= text@);
    trimmed(&kept)
}

/// Takes the characters outside ASCII out of `text`.
pub fn clean_non_ascii_chars(text: &Vec<char>) -> (out: Vec<char>)
    ensures
        out@ == ascii_only(text@),
{
    let ghost keep = |c: char| is_ascii_char(c);
    let mut out: Vec<char> = Vec::new();
    let mut i: usize = 0;
    assert(out@ =~= text@.take(0).filter(keep)) by {
        reveal(Seq::filter);
    }
    while i < text.len()
        invariant
            i <= text.len(),
            keep == (|c: char| is_ascii_char(c)),
            out@ == text@.take(i as int).filter(keep),
        decreases text.len() - i,
    {
        assert(text@.take(i + 1) =~= text@.take(i as int).push(text@[i as int]));
        proof {
            text@.take(i as int).lemma_filter_push(text@[i as int], keep);
        }
        let c = text[i];
        let code: u32 = c as u32;
        if code < 0x80 {
            out.push(c);
        }
        i += 1;
    }
    assert(text@.take(text.len() as int) =~= text@);
    out
}

} // verus!
