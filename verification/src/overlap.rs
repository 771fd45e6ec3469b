//! The overlap merger: a text is divided into units of a third of the chunk
//! size, and every chunk is made of three units in a row, the last of which
//! is the first unit of the next chunk.

use crate::splitter::{lemma_split_hard_limit, split_tier, split_units, strs};
use crate::text::{
    chars_of, extend_with, lemma_utf8_len_concat, slice_of, strings, strings_of, texts, utf8_len,
};
use vstd::prelude::*;

verus! {

/// The number of chunks made of `n` units: one unit alone is one chunk, and
/// otherwise a new chunk begins at every second unit that still has a unit
/// after it.
pub open spec fn window_count(n: nat) -> nat {
    if n == 1 {
        1
    } else {
        n / 2
    }
}

/// The index of the first unit of chunk `k`.
pub open spec fn window_start(k: int) -> int {
    2 * k
}

/// The index after the last unit of chunk `k`, where there are `n` units.
pub open spec fn window_end(n: int, k: int) -> int {
    if 2 * k + 3 <= n {
        2 * k + 3
    } else {
        n
    }
}

/// Whether unit `j` is one of the units of chunk `k`, where there are `n`
/// units.
pub open spec fn in_window(n: int, k: int, j: int) -> bool {
    window_start(k) <= j < window_end(n, k)
}

/// The chunks made of the given units: chunk `k` holds the units from
/// `window_start(k)` up to `window_end(n, k)`, one after the other with
/// nothing between them.
pub open spec fn merge_windows(units: Seq<Seq<char>>) -> Seq<Seq<char>> {
    Seq::new(
        window_count(units.len()),
        |k: int| units.subrange(window_start(k), window_end(units.len() as int, k)).flatten(),
    )
}

/// The chunks of `text`: its units are at most a third of `chunk_size`
/// large. A text that is not empty and has no unit is one chunk.
pub open spec fn merged_chunks(text: Seq<char>, chunk_size: nat, seps: Seq<Seq<char>>) -> Seq<
    Seq<char>,
> {
    let units = split_units(text, chunk_size / 3, seps);
    if units.len() == 0 {
        if text.len() > 0 {
            seq![text]
        } else {
            seq![]
        }
    } else {
        merge_windows(units)
    }
}

/// Two chunks in a row have exactly one unit in common: the last unit of
/// the first chunk, which is the first unit of the second.
pub proof fn lemma_neighbours_share_one_unit(units: Seq<Seq<char>>, k: int)
    requires
        units.len() >= 3,
        0 <= k,
        k + 1 < merge_windows(units).len(),
    ensures
        forall|j: int|
            (#[trigger] in_window(units.len() as int, k, j) && in_window(
                units.len() as int,
                k + 1,
                j,
            )) <==> j == 2 * k + 2,
        merge_windows(units)[k] == units[2 * k] + units[2 * k + 1] + units[2 * k + 2],
        units[2 * k + 2].is_prefix_of(merge_windows(units)[k + 1]),
        units[2 * k + 2].is_suffix_of(merge_windows(units)[k]),
{
    let n = units.len() as int;
    let shared = units[2 * k + 2];
    let first = units.subrange(window_start(k), window_end(n, k));
    assert(first =~= seq![units[2 * k], units[2 * k + 1]].push(shared));
    assert(first.flatten() =~= units[2 * k] + units[2 * k + 1] + shared) by {
        seq![units[2 * k], units[2 * k + 1]].lemma_flatten_push(shared);
        seq![units[2 * k]].lemma_flatten_push(units[2 * k + 1]);
        Seq::<Seq<char>>::empty().lemma_flatten_push(units[2 * k]);
        assert(seq![units[2 * k]] =~= Seq::<Seq<char>>::empty().push(units[2 * k]));
        assert(seq![units[2 * k], units[2 * k + 1]] =~= seq![units[2 * k]].push(units[2 * k + 1]));
    }
    let second = units.subrange(window_start(k + 1), window_end(n, k + 1));
    assert(second.first() == shared);
    assert(second.flatten() == shared + second.drop_first().flatten());
    let whole = merge_windows(units)[k];
    assert(whole.subrange(whole.len() - shared.len(), whole.len() as int) =~= shared);
    assert(merge_windows(units)[k + 1].subrange(0, shared.len() as int) =~= shared);
}

/// A chunk is as large as its units together: where every unit is within a
/// third of `chunk_size`, every chunk is within `chunk_size`.
pub proof fn lemma_chunks_within_size(units: Seq<Seq<char>>, chunk_size: nat, k: int)
    requires
        forall|j: int| 0 <= j < units.len() ==> utf8_len(#[trigger] units[j]) <= chunk_size / 3,
        0 <= k < merge_windows(units).len(),
    ensures
        utf8_len(merge_windows(units)[k]) <= chunk_size,
{
    let n = units.len() as int;
    let each = chunk_size / 3;
    let part = units.subrange(window_start(k), window_end(n, k));
    assert forall|j: int| 0 <= j < part.len() implies utf8_len(#[trigger] part[j]) <= each by {
        assert(part[j] == units[window_start(k) + j]);
    }
    lemma_flatten_size_bound(part, each);
    assert(part.len() * each <= 3 * each) by (nonlinear_arith)
        requires
            part.len() <= 3,
    ;
}

/// Where a third of the chunk size is at least the four bytes of the
/// widest character, and the text has a unit, every chunk of the text is
/// within the chunk size.
pub proof fn lemma_merged_chunks_within_size(
    text: Seq<char>,
    chunk_size: nat,
    seps: Seq<Seq<char>>,
    k: int,
)
    requires
        chunk_size / 3 >= 4,
        split_units(text, chunk_size / 3, seps).len() > 0,
        0 <= k < merged_chunks(text, chunk_size, seps).len(),
    ensures
        utf8_len(merged_chunks(text, chunk_size, seps)[k]) <= chunk_size,
{
    let units = split_units(text, chunk_size / 3, seps);
    assert forall|j: int| 0 <= j < units.len() implies utf8_len(#[trigger] units[j]) <= chunk_size
        / 3 by {
        lemma_split_hard_limit(text, chunk_size / 3, seps, j);
    }
    lemma_chunks_within_size(units, chunk_size, k);
}

/// Units of at most `each` bytes make, together, at most `each` times their
/// number.
pub proof fn lemma_flatten_size_bound(units: Seq<Seq<char>>, each: nat)
    requires
        forall|j: int| 0 <= j < units.len() ==> utf8_len(#[trigger] units[j]) <= each,
    ensures
        utf8_len(units.flatten()) <= units.len() * each,
    decreases units.len(),
{
    if units.len() > 0 {
        let rest = units.drop_first();
        assert forall|j: int| 0 <= j < rest.len() implies utf8_len(#[trigger] rest[j]) <= each by {
            assert(rest[j] == units[j + 1]);
        }
        lemma_flatten_size_bound(rest, each);
        lemma_utf8_len_concat(units.first(), rest.flatten());
        assert(units.len() * each == rest.len() * each + each) by (nonlinear_arith)
            requires
                units.len() == rest.len() + 1,
        ;
    }
}

/// Puts the units from `from` up to `to` one after the other.
pub(crate) fn concat_units(units: &Vec<Vec<char>>, from: usize, to: usize) -> (out: Vec<char>)
    requires
        from <= to <= units.len(),
    ensures
        out@ == texts(units@).subrange(from as int, to as int).flatten(),
{
    let mut out: Vec<char> = Vec::new();
    let mut j: usize = from;
    while j < to
        invariant
            from <= j <= to <= units.len(),
            out@ == texts(units@).subrange(from as int, j as int).flatten(),
        decreases to - j,
    {
        let ghost done = texts(units@).subrange(from as int, j as int);
        proof {
            done.lemma_flatten_push(units@[j as int]@);
            assert(texts(units@).subrange(from as int, j + 1) =~= done.push(units@[j as int]@));
        }
        extend_with(&mut out, &units[j]);
        j += 1;
    }
    out
}

/// Makes the overlapping chunks of the given units.
pub fn merge_units(units: &Vec<Vec<char>>) -> (out: Vec<Vec<char>>)
    ensures
        texts(out@) == merge_windows(texts(units@)),
{
    let n = units.len();
    let count: usize = if n == 1 {
        1
    } else {
        n / 2
    };
    let mut out: Vec<Vec<char>> = Vec::new();
    let mut k: usize = 0;
    while k < count
        invariant
            k <= count,
            n == units.len(),
            count == window_count(n as nat),
            out.len() == k,
            forall|j: int|
                0 <= j < k ==> (#[trigger] out@[j])@ == texts(units@).subrange(
                    window_start(j),
                    window_end(n as int, j),
                ).flatten(),
        decreases count - k,
    {
        let start = 2 * k;
        let end = if n - start >= 3 {
            start + 3
        } else {
            n
        };
        out.push(concat_units(units, start, end));
        k += 1;
    }
    assert(texts(out@) =~= merge_windows(texts(units@)));
    out
}

/// The chunks of a text whose characters are given.
pub fn merge_chars(text: &Vec<char>, chunk_size: usize, seps: &Vec<Vec<char>>) -> (out: Vec<
    Vec<char>,
>)
    ensures
        texts(out@) == merged_chunks(text@, chunk_size as nat, texts(seps@)),
{
    assert(texts(seps@).skip(0) =~= texts(seps@));
    let units = split_tier(text, chunk_size / 3, seps, 0);
    assert(texts(units@).len() == units.len());
    if units.len() == 0 {
        let mut out: Vec<Vec<char>> = Vec::new();
        if text.len() > 0 {
            let whole = slice_of(text, 0, text.len());
            assert(whole@ =~= text@);
            out.push(whole);
            assert(texts(out@) =~= seq![text@]);
        } else {
            assert(texts(out@) =~= Seq::<Seq<char>>::empty());
        }
        out
    } else {
        merge_units(&units)
    }
}

/// Divides `text` into units of at most a third of `chunk_size` bytes and
/// makes of them chunks that overlap by one unit.
pub fn split_and_merge(text: &str, chunk_size: usize, separators: &[&str]) -> (out: Vec<String>)
    ensures
        strings(out@) == merged_chunks(text@, chunk_size as nat, strs(separators@)),
{
    let mut seps: Vec<Vec<char>> = Vec::new();
    let mut i: usize = 0;
    while i < separators.len()
        invariant
            i <= separators.len(),
            seps.len() == i,
            forall|j: int| 0 <= j < i ==> (#[trigger] seps@[j])@ == separators@[j]@,
        decreases separators.len() - i,
    {
        seps.push(chars_of(separators[i]));
        i += 1;
    }
    assert(texts(seps@) =~= strs(separators@));
    let chars = chars_of(text);
    let chunks = merge_chars(&chars, chunk_size, &seps);
    strings_of(&chunks)
}

} // verus!
