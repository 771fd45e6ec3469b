//! Text as a sequence of characters.
//!
//! A text is modelled as `Seq<char>`. Its size is the number of bytes of its
//! UTF-8 encoding, so a piece of text is only ever cut between two
//! characters. The executable functions work on `Vec<char>`.

use vstd::prelude::*;

verus! {

/// The number of bytes that `c` takes in UTF-8.
pub open spec fn utf8_width(c: char) -> nat {
    if (c as u32) < 0x80 {
        1
    } else if (c as u32) < 0x800 {
        2
    } else if (c as u32) < 0x10000 {
        3
    } else {
        4
    }
}

/// The number of bytes that `s` takes in UTF-8.
pub open spec fn utf8_len(s: Seq<char>) -> nat
    decreases s.len(),
{
    if s.len() == 0 {
        0
    } else {
        utf8_len(s.drop_last()) + utf8_width(s.last())
    }
}

/// Unicode's `White_Space` property.
pub open spec fn is_whitespace(c: char) -> bool {
    let u = c as u32;
    ||| 0x09 <= u <= 0x0D
    ||| u == 0x20
    ||| u == 0x85
    ||| u == 0xA0
    ||| u == 0x1680
    ||| 0x2000 <= u <= 0x200A
    ||| u == 0x2028
    ||| u == 0x2029
    ||| u == 0x202F
    ||| u == 0x205F
    ||| u == 0x3000
}

/// A text without any character that is not white space.
pub open spec fn is_blank(s: Seq<char>) -> bool {
    forall|i: int| 0 <= i < s.len() ==> is_whitespace(#[trigger] s[i])
}

/// `s` without its leading white space.
pub open spec fn trim_start(s: Seq<char>) -> Seq<char>
    decreases s.len(),
{
    if s.len() > 0 && is_whitespace(s[0]) {
        trim_start(s.drop_first())
    } else {
        s
    }
}

/// `s` without its trailing white space.
pub open spec fn trim_end(s: Seq<char>) -> Seq<char>
    decreases s.len(),
{
    if s.len() > 0 && is_whitespace(s.last()) {
        trim_end(s.drop_last())
    } else {
        s
    }
}

/// `s` without its leading and trailing white space.
pub open spec fn trim(s: Seq<char>) -> Seq<char> {
    trim_end(trim_start(s))
}

/// The views of a vector of texts.
pub open spec fn texts(v: Seq<Vec<char>>) -> Seq<Seq<char>> {
    Seq::new(v.len(), |i: int| v[i]@)
}

/// The views of a vector of strings.
pub open spec fn strings(v: Seq<String>) -> Seq<Seq<char>> {
    Seq::new(v.len(), |i: int| v[i]@)
}

/// One more character makes a text larger by its width.
pub proof fn lemma_utf8_len_push(s: Seq<char>, c: char)
    ensures
        utf8_len(s.push(c)) == utf8_len(s) + utf8_width(c),
{
    assert(s.push(c).drop_last() =~= s);
}

/// Two texts in a row are as large as both together.
pub proof fn lemma_utf8_len_concat(a: Seq<char>, b: Seq<char>)
    ensures
        utf8_len(a + b) == utf8_len(a) + utf8_len(b),
    decreases b.len(),
{
    if b.len() == 0 {
        assert(a + b =~= a);
    } else {
        lemma_utf8_len_concat(a, b.drop_last());
        assert((a + b).drop_last() =~= a + b.drop_last());
    }
}

/// The size of a text is the length of its UTF-8 encoding.
pub proof fn lemma_utf8_len_is_encoded_length(s: Seq<char>)
    ensures
        utf8_len(s) == vstd::utf8::encode_utf8(s).len(),
    decreases s.len(),
{
    if s.len() > 0 {
        let head = seq![s[0]];
        assert(head + s.drop_first() =~= s);
        lemma_utf8_len_concat(head, s.drop_first());
        assert(head.drop_last().len() == 0);
        assert(utf8_len(head.drop_last()) == 0);
        assert(utf8_len(head) == utf8_width(s[0]));
        vstd::utf8::char_is_scalar(s[0]);
        lemma_utf8_len_is_encoded_length(s.drop_first());
    }
}

/// A text takes at least one byte for each character, and at most four.
pub proof fn lemma_utf8_len_bounds(s: Seq<char>)
    ensures
        s.len() <= utf8_len(s) <= 4 * s.len(),
    decreases s.len(),
{
    if s.len() > 0 {
        lemma_utf8_len_bounds(s.drop_last());
    }
}

/// A prefix of a text is no longer than the text.
pub proof fn lemma_utf8_len_take(s: Seq<char>, k: int)
    requires
        0 <= k <= s.len(),
    ensures
        utf8_len(s.take(k)) <= utf8_len(s),
        utf8_len(s.take(k)) + utf8_len(s.skip(k)) == utf8_len(s),
{
    lemma_utf8_len_concat(s.take(k), s.skip(k));
    assert(s.take(k) + s.skip(k) =~= s);
}

/// A text without its leading white space is the end of the text; what
/// was taken away is blank, and what is left begins with no white space.
pub proof fn lemma_trim_start_is_suffix(s: Seq<char>)
    ensures
        trim_start(s).len() <= s.len(),
        trim_start(s) == s.skip(s.len() - trim_start(s).len()),
        is_blank(s.take(s.len() - trim_start(s).len())),
        trim_start(s).len() > 0 ==> !is_whitespace(trim_start(s)[0]),
    decreases s.len(),
{
    if s.len() > 0 && is_whitespace(s[0]) {
        let r = s.drop_first();
        lemma_trim_start_is_suffix(r);
        let k = r.len() - trim_start(r).len();
        assert(r.skip(k) =~= s.skip(k + 1));
        assert forall|i: int| 0 <= i < k + 1 implies is_whitespace(#[trigger] s.take(k + 1)[i]) by {
            if i > 0 {
                assert(s.take(k + 1)[i] == r.take(k)[i - 1]);
            }
        }
    } else {
        assert(s.skip(0) =~= s);
    }
}

/// A text without its trailing white space is the beginning of the text;
/// what was taken away is blank, and what is left ends with no white space.
pub proof fn lemma_trim_end_is_prefix(s: Seq<char>)
    ensures
        trim_end(s).len() <= s.len(),
        trim_end(s) == s.take(trim_end(s).len() as int),
        is_blank(s.skip(trim_end(s).len() as int)),
        trim_end(s).len() > 0 ==> !is_whitespace(trim_end(s).last()),
    decreases s.len(),
{
    if s.len() > 0 && is_whitespace(s.last()) {
        let r = s.drop_last();
        lemma_trim_end_is_prefix(r);
        let k = trim_end(r).len() as int;
        assert(r.take(k) =~= s.take(k));
        assert forall|i: int| 0 <= i < s.len() - k implies is_whitespace(
            #[trigger] s.skip(k)[i],
        ) by {
            if i < r.len() - k {
                assert(s.skip(k)[i] == r.skip(k)[i]);
            }
        }
    } else {
        assert(s.take(s.len() as int) =~= s);
    }
}

/// A text is blank exactly when trimming leaves nothing of it.
pub proof fn lemma_blank_iff_trim_empty(s: Seq<char>)
    ensures
        is_blank(s) <==> trim(s).len() == 0,
{
    lemma_trim_start_is_suffix(s);
    let t = trim_start(s);
    lemma_trim_end_is_prefix(t);
    let k = s.len() - t.len();
    if is_blank(s) {
        if t.len() > 0 {
            assert(t[0] == s[k]);
        }
    }
    if trim(s).len() == 0 {
        if t.len() > 0 {
            assert(t.skip(0) =~= t);
            assert(is_blank(t));
        }
        assert forall|i: int| 0 <= i < s.len() implies is_whitespace(#[trigger] s[i]) by {
            if i < k {
                assert(s.take(k)[i] == s[i]);
            } else {
                assert(t[i - k] == s[i]);
            }
        }
    }
}

/// The width of one character.
pub fn char_width(c: char) -> (w: usize)
    ensures
        w == utf8_width(c),
        1 <= w <= 4,
{
    let u: u32 = c as u32;
    if u < 0x80 {
        1
    } else if u < 0x800 {
        2
    } else if u < 0x10000 {
        3
    } else {
        4
    }
}

/// Whether `c` is white space.
pub fn char_is_whitespace(c: char) -> (b: bool)
    ensures
        b == is_whitespace(c),
{
    let u: u32 = c as u32;
    (0x09 <= u && u <= 0x0D) || u == 0x20 || u == 0x85 || u == 0xA0 || u == 0x1680 || (0x2000 <= u
        && u <= 0x200A) || u == 0x2028 || u == 0x2029 || u == 0x202F || u == 0x205F || u == 0x3000
}

/// `std::string::String::push` appends one character.
pub assume_specification[ String::push ](s: &mut String, c: char)
    ensures
        final(s)@ == old(s)@.push(c),
;

/// The characters of a string.
pub fn chars_of(text: &str) -> (out: Vec<char>)
    ensures
        out@ == text@,
{
    let mut out: Vec<char> = Vec::new();
    for c in it: text.chars()
        invariant
            out@ == text@.take(it.index() as int),
            it.seq() == text@,
    {
        out.push(c);
    }
    out
}

/// The string made of the given characters.
pub fn string_of(chars: &Vec<char>) -> (out: String)
    ensures
        out@ == chars@,
{
    let mut out = String::new();
    let mut i: usize = 0;
    while i < chars.len()
        invariant
            i <= chars.len(),
            out@ == chars@.take(i as int),
        decreases chars.len() - i,
    {
        out.push(chars[i]);
        i += 1;
    }
    out
}

/// One string for each text.
pub fn strings_of(pieces: &Vec<Vec<char>>) -> (out: Vec<String>)
    ensures
        strings(out@) == texts(pieces@),
{
    let mut out: Vec<String> = Vec::new();
    let mut i: usize = 0;
    while i < pieces.len()
        invariant
            i <= pieces.len(),
            out.len() == i,
            forall|j: int| 0 <= j < i ==> (#[trigger] out[j])@ == pieces[j]@,
        decreases pieces.len() - i,
    {
        out.push(string_of(&pieces[i]));
        i += 1;
    }
    assert(strings(out@) =~= texts(pieces@));
    out
}

/// The characters of `text` from `from` up to `to`.
pub(crate) fn slice_of(text: &Vec<char>, from: usize, to: usize) -> (out: Vec<char>)
    requires
        from <= to <= text.len(),
    ensures
        out@ == text@.subrange(from as int, to as int),
{
    let mut out: Vec<char> = Vec::new();
    let mut i: usize = from;
    while i < to
        invariant
            from <= i <= to <= text.len(),
            out@ == text@.subrange(from as int, i as int),
        decreases to - i,
    {
        out.push(text[i]);
        i += 1;
    }
    out
}

/// Appends the characters of `more` to `text`.
pub fn extend_with(text: &mut Vec<char>, more: &Vec<char>)
    ensures
        final(text)@ == old(text)@ + more@,
{
    let mut i: usize = 0;
    while i < more.len()
        invariant
            i <= more.len(),
            text@ == old(text)@ + more@.take(i as int),
        decreases more.len() - i,
    {
        text.push(more[i]);
        i += 1;
    }
    assert(more@.take(more.len() as int) =~= more@);
}

/// Whether two texts hold the same characters.
pub fn same_text(a: &Vec<char>, b: &Vec<char>) -> (same: bool)
    ensures
        same == (a@ == b@),
{
    if a.len() != b.len() {
        return false;
    }
    let mut i: usize = 0;
    while i < a.len()
        invariant
            i <= a.len(),
            a.len() == b.len(),
            a@.take(i as int) == b@.take(i as int),
        decreases a.len() - i,
    {
        if a[i] != b[i] {
            return false;
        }
        assert(a@.take(i + 1) =~= a@.take(i as int).push(a@[i as int]));
        assert(b@.take(i + 1) =~= b@.take(i as int).push(b@[i as int]));
        i += 1;
    }
    assert(a@.take(a.len() as int) =~= a@);
    assert(b@.take(b.len() as int) =~= b@);
    true
}

/// The size of `text` in bytes where it is at most `limit`, and `None` where
/// it is more.
pub fn bounded_len(text: &Vec<char>, limit: usize) -> (len: Option<usize>)
    ensures
        match len {
            Some(n) => n == utf8_len(text@) && n <= limit,
            None => utf8_len(text@) > limit,
        },
{
    let mut total: usize = 0;
    let mut i: usize = 0;
    while i < text.len()
        invariant
            i <= text.len(),
            total == utf8_len(text@.take(i as int)),
            total <= limit,
        decreases text.len() - i,
    {
        let w = char_width(text[i]);
        proof {
            assert(text@.take(i + 1) =~= text@.take(i as int).push(text@[i as int]));
            lemma_utf8_len_push(text@.take(i as int), text@[i as int]);
        }
        if w > limit - total {
            proof {
                lemma_utf8_len_take(text@, i + 1);
            }
            return None;
        }
        total += w;
        i += 1;
    }
    assert(text@.take(text.len() as int) =~= text@);
    Some(total)
}

/// Whether `text` is blank.
pub fn is_blank_text(text: &Vec<char>) -> (blank: bool)
    ensures
        blank == is_blank(text@),
{
    let mut i: usize = 0;
    while i < text.len()
        invariant
            i <= text.len(),
            forall|j: int| 0 <= j < i ==> is_whitespace(#[trigger] text@[j]),
        decreases text.len() - i,
    {
        if !char_is_whitespace(text[i]) {
            return false;
        }
        i += 1;
    }
    true
}

/// `text` without its leading and trailing white space.
pub fn trimmed(text: &Vec<char>) -> (out: Vec<char>)
    ensures
        out@ == trim(text@),
{
    let mut start: usize = 0;
    assert(text@.skip(0) =~= text@);
    while start < text.len() && char_is_whitespace(text[start])
        invariant
            start <= text.len(),
            trim_start(text@) == trim_start(text@.skip(start as int)),
        decreases text.len() - start,
    {
        assert(text@.skip(start as int).drop_first() =~= text@.skip(start + 1));
        start += 1;
    }
    let ghost rest = text@.skip(start as int);
    assert(text@.subrange(start as int, text.len() as int) =~= rest);
    let mut end: usize = text.len();
    while end > start && char_is_whitespace(text[end - 1])
        invariant
            start <= end <= text.len(),
            rest == text@.skip(start as int),
            trim_end(rest) == trim_end(text@.subrange(start as int, end as int)),
        decreases end - start,
    {
        assert(text@.subrange(start as int, end as int).drop_last() =~= text@.subrange(
            start as int,
            end - 1,
        ));
        end -= 1;
    }
    slice_of(text, start, end)
}

/// Whether `sep` stands in `text` at index `i`.
pub open spec fn occurs_at(text: Seq<char>, sep: Seq<char>, i: int) -> bool {
    0 <= i && i + sep.len() <= text.len() && text.subrange(i, i + sep.len()) == sep
}

/// The pieces of `text` from index `start` on, where the piece that begins
/// at `start` has been found free of `sep` up to index `i`.
pub open spec fn split_scan(text: Seq<char>, sep: Seq<char>, start: int, i: int) -> Seq<Seq<char>>
    decreases text.len() - i,
{
    if sep.len() == 0 || i < 0 || i + sep.len() > text.len() {
        seq![text.subrange(start, text.len() as int)]
    } else if occurs_at(text, sep, i) {
        seq![text.subrange(start, i)] + split_scan(text, sep, i + sep.len(), i + sep.len())
    } else {
        split_scan(text, sep, start, i + 1)
    }
}

/// The pieces into which the occurrences of `sep` divide `text`: the
/// occurrences are taken from the left and do not overlap, and a piece may
/// be empty. The empty separator occurs nowhere.
pub open spec fn split_on(text: Seq<char>, sep: Seq<char>) -> Seq<Seq<char>> {
    split_scan(text, sep, 0, 0)
}

/// The pieces joined with `sep` between every two neighbours.
pub open spec fn join(parts: Seq<Seq<char>>, sep: Seq<char>) -> Seq<char>
    decreases parts.len(),
{
    if parts.len() == 0 {
        Seq::empty()
    } else if parts.len() == 1 {
        parts[0]
    } else {
        join(parts.drop_last(), sep) + sep + parts.last()
    }
}

/// Whether `piece` holds a character.
pub open spec fn is_nonempty(piece: Seq<char>) -> bool {
    piece.len() > 0
}

/// Whether `piece` holds a character that is no white space.
pub open spec fn is_nonblank(piece: Seq<char>) -> bool {
    !is_blank(piece)
}

/// Whether `sep` stands in `text` at index `i`.
pub fn occurs(text: &Vec<char>, sep: &Vec<char>, i: usize) -> (found: bool)
    ensures
        found == occurs_at(text@, sep@, i as int),
{
    if i > text.len() || sep.len() > text.len() - i {
        return false;
    }
    let mut k: usize = 0;
    while k < sep.len()
        invariant
            k <= sep.len(),
            i + sep.len() <= text.len(),
            forall|j: int| 0 <= j < k ==> text@[i + j] == sep@[j],
        decreases sep.len() - k,
    {
        if text[i + k] != sep[k] {
            assert(text@.subrange(i as int, i + sep.len())[k as int] != sep@[k as int]);
            return false;
        }
        k += 1;
    }
    assert(text@.subrange(i as int, i + sep.len()) =~= sep@);
    true
}

/// Divides `text` at the occurrences of `sep`.
pub fn split_text_on(text: &Vec<char>, sep: &Vec<char>) -> (out: Vec<Vec<char>>)
    ensures
        texts(out@) == split_on(text@, sep@),
{
    let mut out: Vec<Vec<char>> = Vec::new();
    if sep.len() == 0 {
        let whole = slice_of(text, 0, text.len());
        out.push(whole);
        assert(texts(out@) =~= seq![text@.subrange(0, text.len() as int)]);
        return out;
    }
    let mut start: usize = 0;
    let mut i: usize = 0;
    assert(texts(out@) + split_scan(text@, sep@, 0, 0) =~= split_scan(text@, sep@, 0, 0));
    while sep.len() <= text.len() - i
        invariant
            start <= i <= text.len(),
            sep.len() > 0,
            split_on(text@, sep@) == texts(out@) + split_scan(text@, sep@, start as int, i as int),
        decreases text.len() - i,
    {
        if occurs(text, sep, i) {
            let ghost before = texts(out@);
            let piece = slice_of(text, start, i);
            out.push(piece);
            i += sep.len();
            start = i;
            assert(texts(out@) =~= before.push(piece@));
            assert(texts(out@) + split_scan(text@, sep@, start as int, i as int) =~= before + (
            seq![piece@] + split_scan(text@, sep@, start as int, i as int)));
        } else {
            i += 1;
        }
    }
    let ghost before = texts(out@);
    let piece = slice_of(text, start, text.len());
    out.push(piece);
    assert(texts(out@) =~= before + seq![piece@]);
    out
}

/// Joins the pieces with `sep` between every two neighbours.
pub fn join_with(parts: &Vec<Vec<char>>, sep: &Vec<char>) -> (out: Vec<char>)
    ensures
        out@ == join(texts(parts@), sep@),
{
    let mut out: Vec<char> = Vec::new();
    let mut i: usize = 0;
    while i < parts.len()
        invariant
            i <= parts.len(),
            out@ == join(texts(parts@).take(i as int), sep@),
        decreases parts.len() - i,
    {
        let ghost done = texts(parts@).take(i as int);
        let ghost next = texts(parts@).take(i + 1);
        assert(next.drop_last() =~= done);
        assert(next.last() == parts@[i as int]@);
        if i > 0 {
            extend_with(&mut out, sep);
        }
        extend_with(&mut out, &parts[i]);
        assert(out@ =~= join(next, sep@));
        i += 1;
    }
    assert(texts(parts@).take(parts.len() as int) =~= texts(parts@));
    out
}

/// Keeps the pieces that hold at least one character.
pub fn drop_empty(parts: Vec<Vec<char>>) -> (out: Vec<Vec<char>>)
    ensures
        texts(out@) == texts(parts@).filter(|p: Seq<char>| is_nonempty(p)),
{
    let ghost all = texts(parts@);
    let ghost keep = |p: Seq<char>| is_nonempty(p);
    let mut out: Vec<Vec<char>> = Vec::new();
    let mut i: usize = 0;
    assert(texts(out@) =~= all.take(0).filter(keep)) by {
        reveal(Seq::filter);
    }
    while i < parts.len()
        invariant
            i <= parts.len(),
            all == texts(parts@),
            keep == (|p: Seq<char>| is_nonempty(p)),
            texts(out@) == all.take(i as int).filter(keep),
        decreases parts.len() - i,
    {
        let ghost before = texts(out@);
        assert(all.take(i + 1) =~= all.take(i as int).push(parts@[i as int]@));
        proof {
            all.take(i as int).lemma_filter_push(parts@[i as int]@, keep);
        }
        if parts[i].len() > 0 {
            let piece = slice_of(&parts[i], 0, parts[i].len());
            assert(piece@ =~= parts@[i as int]@);
            out.push(piece);
            assert(texts(out@) =~= before.push(piece@));
        }
        i += 1;
    }
    assert(all.take(parts.len() as int) =~= all);
    out
}

/// Keeps the pieces that are not blank.
pub fn drop_blank(parts: Vec<Vec<char>>) -> (out: Vec<Vec<char>>)
    ensures
        texts(out@) == texts(parts@).filter(|p: Seq<char>| is_nonblank(p)),
{
    let ghost all = texts(parts@);
    let ghost keep = |p: Seq<char>| is_nonblank(p);
    let mut out: Vec<Vec<char>> = Vec::new();
    let mut i: usize = 0;
    assert(texts(out@) =~= all.take(0).filter(keep)) by {
        reveal(Seq::filter);
    }
    while i < parts.len()
        invariant
            i <= parts.len(),
            all == texts(parts@),
            keep == (|p: Seq<char>| is_nonblank(p)),
            texts(out@) == all.take(i as int).filter(keep),
        decreases parts.len() - i,
    {
        let ghost before = texts(out@);
        assert(all.take(i + 1) =~= all.take(i as int).push(parts@[i as int]@));
        proof {
            all.take(i as int).lemma_filter_push(parts@[i as int]@, keep);
        }
        if !is_blank_text(&parts[i]) {
            let piece = slice_of(&parts[i], 0, parts[i].len());
            assert(piece@ =~= parts@[i as int]@);
            out.push(piece);
            assert(texts(out@) =~= before.push(piece@));
        }
        i += 1;
    }
    assert(all.take(parts.len() as int) =~= all);
    out
}

/// Whether `allowed` holds of every character of `s`.
pub open spec fn holds_only(s: Seq<char>, allowed: spec_fn(char) -> bool) -> bool {
    forall|i: int| 0 <= i < s.len() ==> allowed(#[trigger] s[i])
}

/// What holds of every character of a text holds of every character that
/// a filter keeps of it.
pub proof fn lemma_holds_filter(
    s: Seq<char>,
    kept: spec_fn(char) -> bool,
    allowed: spec_fn(char) -> bool,
)
    requires
        holds_only(s, allowed),
    ensures
        holds_only(s.filter(kept), allowed),
        holds_only(s.filter(kept), kept),
{
    let out = s.filter(kept);
    assert forall|i: int| 0 <= i < out.len() implies allowed(#[trigger] out[i]) && kept(out[i]) by {
        s.lemma_filter_pred(kept, i);
        assert(out.contains(out[i]));
        s.lemma_filter_contains_rev(kept, out[i]);
    }
}

/// A filter keeps the whole of a text whose characters it keeps all.
pub proof fn lemma_filter_keeps_all(s: Seq<char>, kept: spec_fn(char) -> bool)
    requires
        holds_only(s, kept),
    ensures
        s.filter(kept) == s,
    decreases s.len(),
{
    reveal(Seq::filter);
    if s.len() > 0 {
        lemma_filter_keeps_all(s.drop_last(), kept);
        assert(s.drop_last().push(s.last()) =~= s);
    }
}

/// A filter keeps nothing of a text of whose characters it keeps none.
pub proof fn lemma_filter_keeps_none(s: Seq<char>, kept: spec_fn(char) -> bool)
    requires
        holds_only(s, |c: char| !kept(c)),
    ensures
        s.filter(kept).len() == 0,
    decreases s.len(),
{
    reveal(Seq::filter);
    if s.len() > 0 {
        assert(!kept(s.last()));
        lemma_filter_keeps_none(s.drop_last(), kept);
    }
}

/// The place of a trimmed text in the text: it begins at the index that
/// is returned.
pub proof fn lemma_trim_is_subrange(s: Seq<char>) -> (at: int)
    ensures
        0 <= at,
        at + trim(s).len() <= s.len(),
        trim(s) == s.subrange(at, at + trim(s).len()),
{
    lemma_trim_start_is_suffix(s);
    let rest = trim_start(s);
    lemma_trim_end_is_prefix(rest);
    let at = s.len() - rest.len();
    assert(trim(s) =~= s.subrange(at, at + trim(s).len()));
    at
}

/// What holds of every character of a text holds of every character of
/// the trimmed text.
pub proof fn lemma_holds_trim(s: Seq<char>, allowed: spec_fn(char) -> bool)
    requires
        holds_only(s, allowed),
    ensures
        holds_only(trim(s), allowed),
{
    let at = lemma_trim_is_subrange(s);
    assert forall|i: int| 0 <= i < trim(s).len() implies allowed(#[trigger] trim(s)[i]) by {
        assert(trim(s)[i] == s[at + i]);
    }
}

/// Trimming a trimmed text changes nothing.
pub proof fn lemma_trim_twice(s: Seq<char>)
    ensures
        trim(trim(s)) == trim(s),
{
    lemma_trim_start_is_suffix(s);
    let rest = trim_start(s);
    lemma_trim_end_is_prefix(rest);
    let once = trim(s);
    if once.len() > 0 {
        assert(once[0] == rest[0]);
    }
}

/// A blank text stays blank where it is cut.
pub proof fn lemma_blank_subrange(s: Seq<char>, from: int, to: int)
    requires
        is_blank(s),
        0 <= from <= to <= s.len(),
    ensures
        is_blank(s.subrange(from, to)),
{
    assert forall|i: int| 0 <= i < to - from implies is_whitespace(
        #[trigger] s.subrange(from, to)[i],
    ) by {
        assert(s.subrange(from, to)[i] == s[from + i]);
    }
}

/// What holds of every character of the parts and of the separator holds
/// of every character of the joined text.
pub proof fn lemma_holds_join(parts: Seq<Seq<char>>, sep: Seq<char>, allowed: spec_fn(char) -> bool)
    requires
        forall|j: int| 0 <= j < parts.len() ==> holds_only(#[trigger] parts[j], allowed),
        holds_only(sep, allowed),
    ensures
        holds_only(join(parts, sep), allowed),
    decreases parts.len(),
{
    if parts.len() > 1 {
        let before = parts.drop_last();
        assert forall|j: int| 0 <= j < before.len() implies holds_only(
            #[trigger] before[j],
            allowed,
        ) by {
            assert(before[j] == parts[j]);
        }
        lemma_holds_join(before, sep, allowed);
        assert(holds_only(parts.last(), allowed));
    } else if parts.len() == 1 {
        assert(holds_only(parts[0], allowed));
    }
}

/// A text without the separator is one piece.
pub proof fn lemma_split_without_separator(text: Seq<char>, sep: Seq<char>, i: int)
    requires
        0 <= i,
        sep.len() > 0,
        forall|k: int| 0 <= k < text.len() ==> #[trigger] text[k] != sep[0],
    ensures
        split_scan(text, sep, 0, i) == seq![text],
    decreases text.len() - i,
{
    if i + sep.len() > text.len() {
        assert(text.subrange(0, text.len() as int) =~= text);
    } else {
        assert(text.subrange(i, i + sep.len())[0] == text[i]);
        lemma_split_without_separator(text, sep, i + 1);
    }
}

} // verus!
