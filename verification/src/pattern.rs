//! Matching of regular expressions. The `regex` crate finds where a pattern
//! matches, in byte offsets; what is made of the matches, a replacement or
//! a division of the text, is computed here on character indices.

use crate::text::{
    char_width, extend_with, holds_only, is_blank, lemma_blank_subrange, lemma_utf8_len_bounds,
    lemma_utf8_len_concat, lemma_utf8_len_push, slice_of, string_of, texts, utf8_len,
};
use regex::Regex;
use vstd::prelude::*;

verus! {

/// Whether the `regex` crate accepts `pattern`.
pub uninterp spec fn regex_accepts(pattern: Seq<char>) -> bool;

/// The matches that the `regex` crate finds for an accepted `pattern` in
/// `text`, each as the byte offsets of its start and its end.
pub uninterp spec fn regex_spans(pattern: Seq<char>, text: Seq<char>) -> Seq<(usize, usize)>;

/// The byte offset at which character `k` of `text` begins.
pub open spec fn byte_offset(text: Seq<char>, k: int) -> nat {
    utf8_len(text.take(k))
}

/// Whether a character of `text` begins at `offset`, or `text` ends there.
pub open spec fn is_boundary(text: Seq<char>, offset: int) -> bool {
    exists|k: int| 0 <= k <= text.len() && #[trigger] byte_offset(text, k) == offset
}

/// The index of the character of `text` that begins at `offset`.
pub open spec fn char_index(text: Seq<char>, offset: int) -> int {
    choose|k: int| 0 <= k <= text.len() && #[trigger] byte_offset(text, k) == offset
}

/// Spans in bytes that lie between characters of `text`, each one beginning
/// no earlier than the one before it ends.
pub open spec fn byte_spans_in_order(spans: Seq<(usize, usize)>, text: Seq<char>) -> bool {
    forall|i: int|
        0 <= i < spans.len() ==> {
            &&& is_boundary(text, (#[trigger] spans[i]).0 as int)
            &&& is_boundary(text, spans[i].1 as int)
            &&& spans[i].0 <= spans[i].1
            &&& i > 0 ==> spans[i - 1].1 <= spans[i].0
        }
}

/// Spans in characters within a text of `len` characters, each one
/// beginning no earlier than the one before it ends.
pub open spec fn spans_in_order(spans: Seq<(int, int)>, len: int) -> bool {
    forall|i: int|
        0 <= i < spans.len() ==> {
            &&& 0 <= (#[trigger] spans[i]).0 <= spans[i].1 <= len
            &&& i > 0 ==> spans[i - 1].1 <= spans[i].0
        }
}

/// The same spans with their offsets as integers.
pub open spec fn ints(spans: Seq<(usize, usize)>) -> Seq<(int, int)> {
    Seq::new(spans.len(), |i: int| (spans[i].0 as int, spans[i].1 as int))
}

/// The byte spans as spans of character indices.
pub open spec fn to_char_spans(spans: Seq<(usize, usize)>, text: Seq<char>) -> Seq<(int, int)> {
    Seq::new(
        spans.len(),
        |i: int| (char_index(text, spans[i].0 as int), char_index(text, spans[i].1 as int)),
    )
}

/// Where `pattern` matches in `text`, in character indices. A pattern that
/// the `regex` crate does not accept matches nowhere.
pub open spec fn matched_spans(pattern: Seq<char>, text: Seq<char>) -> Seq<(int, int)> {
    let spans = regex_spans(pattern, text);
    if regex_accepts(pattern) && byte_spans_in_order(spans, text) {
        to_char_spans(spans, text)
    } else {
        Seq::empty()
    }
}

/// `text` from index `from` on, with `rep` in the place of each span from
/// span `i` on.
pub open spec fn replace_from(
    text: Seq<char>,
    spans: Seq<(int, int)>,
    rep: Seq<char>,
    i: int,
    from: int,
) -> Seq<char>
    decreases spans.len() - i,
{
    if i < 0 || i >= spans.len() {
        text.subrange(from, text.len() as int)
    } else {
        text.subrange(from, spans[i].0) + rep + replace_from(text, spans, rep, i + 1, spans[i].1)
    }
}

/// `text` with `rep` in the place of each span.
pub open spec fn replace_spans(text: Seq<char>, spans: Seq<(int, int)>, rep: Seq<char>) -> Seq<
    char,
> {
    replace_from(text, spans, rep, 0, 0)
}

/// The pieces of `text` from index `from` on that lie between the spans
/// from span `i` on.
pub open spec fn split_from(text: Seq<char>, spans: Seq<(int, int)>, i: int, from: int) -> Seq<
    Seq<char>,
>
    decreases spans.len() - i,
{
    if i < 0 || i >= spans.len() {
        seq![text.subrange(from, text.len() as int)]
    } else {
        seq![text.subrange(from, spans[i].0)] + split_from(text, spans, i + 1, spans[i].1)
    }
}

/// The pieces of `text` that lie between the spans: one more than there
/// are spans, and some of them may be empty.
pub open spec fn split_spans(text: Seq<char>, spans: Seq<(int, int)>) -> Seq<Seq<char>> {
    split_from(text, spans, 0, 0)
}

/// A later character begins at a later byte.
pub proof fn lemma_byte_offset_increases(text: Seq<char>, j: int, k: int)
    requires
        0 <= j < k <= text.len(),
    ensures
        byte_offset(text, j) < byte_offset(text, k),
{
    let head = text.take(j);
    let rest = text.subrange(j, k);
    assert(text.take(k) =~= head + rest);
    lemma_utf8_len_concat(head, rest);
    lemma_utf8_len_bounds(rest);
}

/// Only one character begins at a given byte.
pub proof fn lemma_char_index_is(text: Seq<char>, k: int)
    requires
        0 <= k <= text.len(),
    ensures
        char_index(text, byte_offset(text, k) as int) == k,
{
    let found = char_index(text, byte_offset(text, k) as int);
    if found < k {
        lemma_byte_offset_increases(text, found, k);
    } else if found > k {
        lemma_byte_offset_increases(text, k, found);
    }
}

/// The matches of a pattern lie within the text, in order.
pub proof fn lemma_matches_in_order(pattern: Seq<char>, text: Seq<char>)
    ensures
        spans_in_order(matched_spans(pattern, text), text.len() as int),
{
    let found = matched_spans(pattern, text);
    if found.len() > 0 {
        let spans = regex_spans(pattern, text);
        assert forall|i: int| 0 <= i < found.len() implies {
            &&& 0 <= (#[trigger] found[i]).0 <= found[i].1 <= text.len()
            &&& i > 0 ==> found[i - 1].1 <= found[i].0
        } by {
            lemma_char_spans_in_order(spans, text, i);
        }
    }
}

/// Span `i` of byte spans in order is, in characters, within the text and
/// after the span before it.
pub proof fn lemma_char_spans_in_order(spans: Seq<(usize, usize)>, text: Seq<char>, i: int)
    requires
        byte_spans_in_order(spans, text),
        0 <= i < spans.len(),
    ensures
        0 <= to_char_spans(spans, text)[i].0 <= to_char_spans(spans, text)[i].1 <= text.len(),
        i > 0 ==> to_char_spans(spans, text)[i - 1].1 <= to_char_spans(spans, text)[i].0,
{
    let span = spans[i];
    let a = char_index(text, span.0 as int);
    let b = char_index(text, span.1 as int);
    assert(is_boundary(text, span.0 as int));
    assert(is_boundary(text, span.1 as int));
    if b < a {
        lemma_byte_offset_increases(text, b, a);
    }
    if i > 0 {
        let before = spans[i - 1];
        assert(is_boundary(text, before.1 as int));
        let c = char_index(text, before.1 as int);
        if a < c {
            lemma_byte_offset_increases(text, a, c);
        }
    }
}

/// What holds of every character of a text and of the replacement holds
/// of every character of the text with the replacement in it.
pub proof fn lemma_holds_replace(
    text: Seq<char>,
    spans: Seq<(int, int)>,
    rep: Seq<char>,
    i: int,
    from: int,
    allowed: spec_fn(char) -> bool,
)
    requires
        spans_in_order(spans, text.len() as int),
        0 <= i <= spans.len(),
        0 <= from <= text.len(),
        i < spans.len() ==> from <= spans[i].0,
        holds_only(text, allowed),
        holds_only(rep, allowed),
    ensures
        holds_only(replace_from(text, spans, rep, i, from), allowed),
    decreases spans.len() - i,
{
    let out = replace_from(text, spans, rep, i, from);
    if i < spans.len() {
        let kept = text.subrange(from, spans[i].0);
        let rest = replace_from(text, spans, rep, i + 1, spans[i].1);
        if i + 1 < spans.len() {
            assert(spans[i].1 <= spans[i + 1].0);
        }
        lemma_holds_replace(text, spans, rep, i + 1, spans[i].1, allowed);
        assert forall|k: int| 0 <= k < out.len() implies allowed(#[trigger] out[k]) by {
            if k < kept.len() {
                assert(out[k] == text[from + k]);
            } else if k < kept.len() + rep.len() {
                assert(out[k] == rep[k - kept.len()]);
            } else {
                assert(out[k] == rest[k - kept.len() - rep.len()]);
            }
        }
    } else {
        assert forall|k: int| 0 <= k < out.len() implies allowed(#[trigger] out[k]) by {
            assert(out[k] == text[from + k]);
        }
    }
}

/// The pieces of a blank text between spans are blank.
pub proof fn lemma_split_of_blank(text: Seq<char>, spans: Seq<(int, int)>, i: int, from: int)
    requires
        spans_in_order(spans, text.len() as int),
        0 <= i <= spans.len(),
        0 <= from <= text.len(),
        i < spans.len() ==> from <= spans[i].0,
        is_blank(text),
    ensures
        forall|j: int|
            0 <= j < split_from(text, spans, i, from).len() ==> is_blank(
                #[trigger] split_from(text, spans, i, from)[j],
            ),
    decreases spans.len() - i,
{
    let out = split_from(text, spans, i, from);
    if i < spans.len() {
        let rest = split_from(text, spans, i + 1, spans[i].1);
        if i + 1 < spans.len() {
            assert(spans[i].1 <= spans[i + 1].0);
        }
        lemma_split_of_blank(text, spans, i + 1, spans[i].1);
        lemma_blank_subrange(text, from, spans[i].0);
        assert forall|j: int| 0 <= j < out.len() implies is_blank(#[trigger] out[j]) by {
            if j > 0 {
                assert(out[j] == rest[j - 1]);
            }
        }
    } else {
        lemma_blank_subrange(text, from, text.len() as int);
    }
}

/// `regex::Regex::new` compiles the pattern, and `Regex::find_iter` gives
/// its matches in `text`. The result is `None` where `Regex::new` rejects
/// the pattern, which depends on the pattern alone. Otherwise it holds, for
/// each match in the order in which the iterator gives them, what
/// `Match::start` and `Match::end` return. The contract names both results
/// and claims nothing else of them.
#[verifier::external_body]
fn find_spans(pattern: &str, text: &str) -> (found: Option<Vec<(usize, usize)>>)
    ensures
        found is Some <==> regex_accepts(pattern@),
        found matches Some(spans) ==> spans@ == regex_spans(pattern@, text@),
{
    match Regex::new(pattern) {
        Ok(compiled) => Some(compiled.find_iter(text).map(|m| (m.start(), m.end())).collect()),
        Err(_) => None,
    }
}

/// Goes on from character `k`, which begins at byte `offset`, to the
/// character that begins at byte `target`, if there is one.
fn seek(text: &Vec<char>, k: usize, offset: usize, target: usize) -> (found: Option<usize>)
    requires
        k <= text.len(),
        offset == byte_offset(text@, k as int),
        offset <= target,
    ensures
        match found {
            Some(at) => k <= at <= text.len() && byte_offset(text@, at as int) == target,
            None => !is_boundary(text@, target as int),
        },
{
    let mut at: usize = k;
    let mut reached: usize = offset;
    while reached < target
        invariant
            k <= at <= text.len(),
            reached == byte_offset(text@, at as int),
            reached <= target,
        decreases text.len() - at,
    {
        if at == text.len() {
            proof {
                assert forall|j: int| 0 <= j <= text.len() implies #[trigger] byte_offset(text@, j)
                    != target by {
                    if j < text.len() {
                        lemma_byte_offset_increases(text@, j, text.len() as int);
                    }
                }
            }
            return None;
        }
        let width = char_width(text[at]);
        proof {
            assert(text@.take(at + 1) =~= text@.take(at as int).push(text@[at as int]));
            lemma_utf8_len_push(text@.take(at as int), text@[at as int]);
        }
        if width > target - reached {
            proof {
                assert forall|j: int| 0 <= j <= text.len() implies #[trigger] byte_offset(text@, j)
                    != target by {
                    if j < at {
                        lemma_byte_offset_increases(text@, j, at as int);
                    } else if at + 1 < j {
                        lemma_byte_offset_increases(text@, at + 1, j);
                    }
                }
            }
            return None;
        }
        reached = reached + width;
        at += 1;
    }
    Some(at)
}

/// Turns byte spans into spans of character indices; `None` where the
/// byte spans are not in order or do not lie between characters.
pub fn char_spans(text: &Vec<char>, spans: &Vec<(usize, usize)>) -> (out: Option<
    Vec<(usize, usize)>,
>)
    ensures
        out is Some <==> byte_spans_in_order(spans@, text@),
        out matches Some(found) ==> ints(found@) == to_char_spans(spans@, text@) && spans_in_order(
            ints(found@),
            text.len() as int,
        ),
{
    let mut out: Vec<(usize, usize)> = Vec::new();
    let mut k: usize = 0;
    let mut offset: usize = 0;
    let mut i: usize = 0;
    assert(text@.take(0) =~= Seq::<char>::empty());
    while i < spans.len()
        invariant
            i <= spans.len(),
            k <= text.len(),
            offset == byte_offset(text@, k as int),
            i == 0 ==> offset == 0,
            i > 0 ==> spans@[i - 1].1 == offset,
            out.len() == i,
            forall|j: int|
                0 <= j < i ==> {
                    &&& is_boundary(text@, (#[trigger] spans@[j]).0 as int)
                    &&& is_boundary(text@, spans@[j].1 as int)
                    &&& spans@[j].0 <= spans@[j].1
                    &&& j > 0 ==> spans@[j - 1].1 <= spans@[j].0
                },
            forall|j: int|
                0 <= j < i ==> (#[trigger] out@[j]).0 == char_index(text@, spans@[j].0 as int)
                    && out@[j].1 == char_index(text@, spans@[j].1 as int),
        decreases spans.len() - i,
    {
        let span = spans[i];
        assert(span == spans@[i as int]);
        if span.0 < offset || span.1 < span.0 {
            assert(!byte_spans_in_order(spans@, text@));
            return None;
        }
        let first = match seek(text, k, offset, span.0) {
            Some(at) => at,
            None => {
                assert(!byte_spans_in_order(spans@, text@));
                return None;
            },
        };
        let last = match seek(text, first, span.0, span.1) {
            Some(at) => at,
            None => {
                assert(!byte_spans_in_order(spans@, text@));
                return None;
            },
        };
        proof {
            lemma_char_index_is(text@, first as int);
            lemma_char_index_is(text@, last as int);
        }
        out.push((first, last));
        k = last;
        offset = span.1;
        i += 1;
    }
    assert(byte_spans_in_order(spans@, text@));
    assert(ints(out@) =~= to_char_spans(spans@, text@));
    assert forall|j: int| 0 <= j < ints(out@).len() implies {
        &&& 0 <= (#[trigger] ints(out@)[j]).0 <= ints(out@)[j].1 <= text.len()
        &&& j > 0 ==> ints(out@)[j - 1].1 <= ints(out@)[j].0
    } by {
        lemma_char_spans_in_order(spans@, text@, j);
    }
    Some(out)
}

/// Whether the `regex` crate accepts `pattern`.
pub fn is_accepted(pattern: &str) -> (accepted: bool)
    ensures
        accepted == regex_accepts(pattern@),
{
    find_spans(pattern, "").is_some()
}

/// Finds where `pattern` matches in `text`.
pub fn find_matches(pattern: &str, text: &Vec<char>) -> (out: Vec<(usize, usize)>)
    ensures
        ints(out@) == matched_spans(pattern@, text@),
        spans_in_order(ints(out@), text.len() as int),
{
    let haystack = string_of(text);
    if let Some(spans) = find_spans(pattern, haystack.as_str()) {
        if let Some(found) = char_spans(text, &spans) {
            return found;
        }
    }
    let out: Vec<(usize, usize)> = Vec::new();
    assert(ints(out@) =~= Seq::<(int, int)>::empty());
    out
}

/// Whether the spans lie within a text of `len` characters, each one
/// beginning no earlier than the one before it ends.
pub fn spans_fit(spans: &Vec<(usize, usize)>, len: usize) -> (fit: bool)
    ensures
        fit == spans_in_order(ints(spans@), len as int),
{
    let mut i: usize = 0;
    while i < spans.len()
        invariant
            i <= spans.len(),
            forall|j: int|
                0 <= j < i ==> {
                    &&& 0 <= (#[trigger] ints(spans@)[j]).0 <= ints(spans@)[j].1 <= len
                    &&& j > 0 ==> ints(spans@)[j - 1].1 <= ints(spans@)[j].0
                },
        decreases spans.len() - i,
    {
        let span = spans[i];
        assert(ints(spans@)[i as int] == (span.0 as int, span.1 as int));
        if span.0 > span.1 || span.1 > len || (i > 0 && spans[i - 1].1 > span.0) {
            return false;
        }
        i += 1;
    }
    true
}

/// Puts `rep` in the place of each span of `text`.
pub fn replace_matches(text: &Vec<char>, spans: &Vec<(usize, usize)>, rep: &Vec<char>) -> (out:
    Vec<char>)
    requires
        spans_in_order(ints(spans@), text.len() as int),
    ensures
        out@ == replace_spans(text@, ints(spans@), rep@),
{
    let mut out: Vec<char> = Vec::new();
    let mut from: usize = 0;
    let mut i: usize = 0;
    assert(out@ + replace_from(text@, ints(spans@), rep@, 0, 0) =~= replace_from(
        text@,
        ints(spans@),
        rep@,
        0,
        0,
    ));
    while i < spans.len()
        invariant
            i <= spans.len(),
            from <= text.len(),
            spans_in_order(ints(spans@), text.len() as int),
            i == 0 ==> from == 0,
            i > 0 ==> from == ints(spans@)[i - 1].1,
            replace_spans(text@, ints(spans@), rep@) == out@ + replace_from(
                text@,
                ints(spans@),
                rep@,
                i as int,
                from as int,
            ),
        decreases spans.len() - i,
    {
        let span = spans[i];
        assert(ints(spans@)[i as int] == (span.0 as int, span.1 as int));
        assert(from <= span.0 <= span.1 <= text.len());
        let ghost before = out@;
        let kept = slice_of(text, from, span.0);
        extend_with(&mut out, &kept);
        extend_with(&mut out, rep);
        assert(out@ + replace_from(text@, ints(spans@), rep@, i + 1, span.1 as int) =~= before + (
        kept@ + rep@ + replace_from(text@, ints(spans@), rep@, i + 1, span.1 as int)));
        from = span.1;
        i += 1;
    }
    let tail = slice_of(text, from, text.len());
    extend_with(&mut out, &tail);
    out
}

/// Divides `text` into the pieces between the spans.
pub fn split_at_matches(text: &Vec<char>, spans: &Vec<(usize, usize)>) -> (out: Vec<Vec<char>>)
    requires
        spans_in_order(ints(spans@), text.len() as int),
    ensures
        texts(out@) == split_spans(text@, ints(spans@)),
{
    let mut out: Vec<Vec<char>> = Vec::new();
    let mut from: usize = 0;
    let mut i: usize = 0;
    assert(texts(out@) + split_from(text@, ints(spans@), 0, 0) =~= split_from(
        text@,
        ints(spans@),
        0,
        0,
    ));
    while i < spans.len()
        invariant
            i <= spans.len(),
            from <= text.len(),
            spans_in_order(ints(spans@), text.len() as int),
            i == 0 ==> from == 0,
            i > 0 ==> from == ints(spans@)[i - 1].1,
            split_spans(text@, ints(spans@)) == texts(out@) + split_from(
                text@,
                ints(spans@),
                i as int,
                from as int,
            ),
        decreases spans.len() - i,
    {
        let span = spans[i];
        assert(ints(spans@)[i as int] == (span.0 as int, span.1 as int));
        assert(from <= span.0 <= span.1 <= text.len());
        let ghost before = texts(out@);
        let piece = slice_of(text, from, span.0);
        out.push(piece);
        assert(texts(out@) =~= before.push(piece@));
        assert(texts(out@) + split_from(text@, ints(spans@), i + 1, span.1 as int) =~= before + (
        seq![piece@] + split_from(text@, ints(spans@), i + 1, span.1 as int)));
        from = span.1;
        i += 1;
    }
    let ghost before = texts(out@);
    let tail = slice_of(text, from, text.len());
    out.push(tail);
    assert(texts(out@) =~= before + seq![tail@]);
    out
}

} // verus!
