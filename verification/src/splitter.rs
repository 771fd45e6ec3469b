//! The recursive splitter: a text is divided at the first separator of a
//! list, a piece that is still too large is divided at the next separator,
//! and at the end of the list character by character. The pieces of one
//! tier are then put together again, greedily, as long as they fit.

use crate::text::{
    bounded_len, char_width, chars_of, drop_empty, extend_with, is_nonempty, lemma_utf8_len_bounds,
    lemma_utf8_len_concat, lemma_utf8_len_push, same_text, slice_of, split_on, split_text_on,
    strings, strings_of, texts, utf8_len, utf8_width,
};
use vstd::prelude::*;
use vstd::seq_lib::lemma_flatten_concat;

verus! {

/// The pieces of `text` from index `start` on, cut character by character:
/// the characters from `start` up to `i` are the piece being filled, which
/// is closed before the first character that would take it over `limit`.
/// A piece holds at least one character.
pub open spec fn pack_scan(text: Seq<char>, limit: nat, start: int, i: int) -> Seq<Seq<char>>
    decreases text.len() - i,
{
    if i < 0 || i >= text.len() {
        if start < i {
            seq![text.subrange(start, i)]
        } else {
            seq![]
        }
    } else if start < i && utf8_len(text.subrange(start, i)) + utf8_width(text[i]) > limit {
        seq![text.subrange(start, i)] + pack_scan(text, limit, i, i + 1)
    } else {
        pack_scan(text, limit, start, i + 1)
    }
}

/// The division of `text` by characters: a text that fits is one piece.
pub open spec fn char_pack(text: Seq<char>, limit: nat) -> Seq<Seq<char>> {
    if utf8_len(text) <= limit {
        seq![text]
    } else {
        pack_scan(text, limit, 0, 0)
    }
}

/// The non-empty pieces into which `sep` divides `text`. The empty separator
/// divides a text into its characters.
pub open spec fn pieces(text: Seq<char>, sep: Seq<char>) -> Seq<Seq<char>> {
    if sep.len() == 0 {
        Seq::new(text.len(), |i: int| seq![text[i]])
    } else {
        split_on(text, sep).filter(|p: Seq<char>| is_nonempty(p))
    }
}

/// The groups made of `current` and the units from index `i` on: a unit
/// joins the group before it, with one separator between them, as long as
/// the group stays within `limit`.
pub open spec fn regroup_scan(
    units: Seq<Seq<char>>,
    sep: Seq<char>,
    limit: nat,
    current: Seq<char>,
    i: int,
) -> Seq<Seq<char>>
    decreases units.len() - i,
{
    if i < 0 || i >= units.len() {
        seq![current]
    } else if utf8_len(current) + utf8_len(sep) + utf8_len(units[i]) > limit {
        seq![current] + regroup_scan(units, sep, limit, units[i], i + 1)
    } else {
        regroup_scan(units, sep, limit, current + sep + units[i], i + 1)
    }
}

/// All the groups into which the units are put together.
pub open spec fn regroup_all(units: Seq<Seq<char>>, sep: Seq<char>, limit: nat) -> Seq<Seq<char>> {
    if units.len() == 0 {
        seq![]
    } else {
        regroup_scan(units, sep, limit, units[0], 1)
    }
}

/// The groups that the splitter gives out: the last group is left out where
/// it repeats the one before it.
pub open spec fn regroup(units: Seq<Seq<char>>, sep: Seq<char>, limit: nat) -> Seq<Seq<char>> {
    let all = regroup_all(units, sep, limit);
    if all.len() >= 2 && all[all.len() - 2] == all.last() {
        all.drop_last()
    } else {
        all
    }
}

/// The pieces of `text` under the separators `seps`, tried in their order.
pub open spec fn split_units(text: Seq<char>, limit: nat, seps: Seq<Seq<char>>) -> Seq<Seq<char>>
    decreases seps.len(), 0nat,
{
    if seps.len() == 0 {
        char_pack(text, limit)
    } else {
        regroup(refine(pieces(text, seps[0]), limit, seps.drop_first()), seps[0], limit)
    }
}

/// The units of one tier: a piece that fits stays whole, a larger one is
/// divided with the separators that are left.
pub open spec fn refine(parts: Seq<Seq<char>>, limit: nat, rest: Seq<Seq<char>>) -> Seq<Seq<char>>
    decreases rest.len(), 1 + parts.len(),
{
    if parts.len() == 0 {
        seq![]
    } else {
        refine(parts.drop_last(), limit, rest) + if utf8_len(parts.last()) <= limit {
            seq![parts.last()]
        } else {
            split_units(parts.last(), limit, rest)
        }
    }
}

/// Whether a piece respects `limit`: it is within it, or it is one
/// character that alone is larger.
pub open spec fn piece_within(piece: Seq<char>, limit: nat) -> bool {
    utf8_len(piece) <= limit || piece.len() == 1
}

/// Whether every piece respects `limit`.
pub open spec fn all_within(parts: Seq<Seq<char>>, limit: nat) -> bool {
    forall|j: int| 0 <= j < parts.len() ==> piece_within(#[trigger] parts[j], limit)
}

/// The pieces cut character by character respect the limit, none of them
/// is empty, and one after the other they are the text that was cut.
pub proof fn lemma_pack_scan(text: Seq<char>, limit: nat, start: int, i: int)
    requires
        0 <= start <= i <= text.len(),
        piece_within(text.subrange(start, i), limit) || start == i,
    ensures
        all_within(pack_scan(text, limit, start, i), limit),
        forall|j: int|
            0 <= j < pack_scan(text, limit, start, i).len() ==> (#[trigger] pack_scan(
                text,
                limit,
                start,
                i,
            )[j]).len() > 0,
        pack_scan(text, limit, start, i).flatten() == text.subrange(start, text.len() as int),
    decreases text.len() - i,
{
    let out = pack_scan(text, limit, start, i);
    let open = text.subrange(start, i);
    if i >= text.len() {
        if start < i {
            assert(out =~= seq![open]);
            out.lemma_flatten_singleton();
        } else {
            assert(out.flatten() =~= text.subrange(start, text.len() as int));
        }
    } else if start < i && utf8_len(open) + utf8_width(text[i]) > limit {
        let rest = pack_scan(text, limit, i, i + 1);
        assert(text.subrange(i, i + 1).len() == 1);
        lemma_pack_scan(text, limit, i, i + 1);
        assert(out =~= seq![open] + rest);
        assert forall|j: int| 0 <= j < out.len() implies piece_within(#[trigger] out[j], limit)
            && out[j].len() > 0 by {
            if j > 0 {
                assert(out[j] == rest[j - 1]);
            }
        }
        lemma_flatten_concat(seq![open], rest);
        seq![open].lemma_flatten_singleton();
        assert(open + text.subrange(i, text.len() as int) =~= text.subrange(
            start,
            text.len() as int,
        ));
    } else {
        let longer = text.subrange(start, i + 1);
        assert(longer =~= open.push(text[i]));
        lemma_utf8_len_push(open, text[i]);
        lemma_pack_scan(text, limit, start, i + 1);
    }
}

/// Character fallback: every piece is within the limit, or is one
/// character that alone is larger; and the pieces, one after the other,
/// are the text.
pub proof fn lemma_char_pack(text: Seq<char>, limit: nat)
    ensures
        all_within(char_pack(text, limit), limit),
        char_pack(text, limit).flatten() == text,
{
    if utf8_len(text) <= limit {
        seq![text].lemma_flatten_singleton();
    } else {
        lemma_pack_scan(text, limit, 0, 0);
        assert(text.subrange(0, text.len() as int) =~= text);
    }
}

/// Where every character fits in the limit alone, every piece of the
/// character fallback is within the limit.
pub proof fn lemma_char_pack_hard_limit(text: Seq<char>, limit: nat, j: int)
    requires
        forall|k: int| 0 <= k < text.len() ==> utf8_width(#[trigger] text[k]) <= limit,
        0 <= j < char_pack(text, limit).len(),
    ensures
        utf8_len(char_pack(text, limit)[j]) <= limit,
{
    lemma_char_pack(text, limit);
    let parts = char_pack(text, limit);
    let piece = parts[j];
    if piece.len() == 1 && utf8_len(piece) > limit {
        lemma_flatten_holds(parts, j, 0);
        let k = choose|k: int| 0 <= k < text.len() && text[k] == piece[0];
        assert(piece.drop_last().len() == 0);
        assert(utf8_len(piece.drop_last()) == 0);
        assert(utf8_len(piece) == utf8_width(piece[0]));
    }
}

/// A character of a piece is a character of the pieces put together.
pub proof fn lemma_flatten_holds(parts: Seq<Seq<char>>, j: int, at: int)
    requires
        0 <= j < parts.len(),
        0 <= at < parts[j].len(),
    ensures
        exists|k: int| 0 <= k < parts.flatten().len() && parts.flatten()[k] == parts[j][at],
    decreases parts.len(),
{
    let rest = parts.drop_first();
    if j == 0 {
        assert(parts.flatten()[at] == parts[0][at]);
    } else {
        lemma_flatten_holds(rest, j - 1, at);
        let k = choose|k: int|
            0 <= k < rest.flatten().len() && rest.flatten()[k] == rest[j - 1][at];
        assert(parts.flatten()[parts.first().len() + k] == parts[j][at]);
    }
}

/// Groups made of units that respect the limit respect it too.
pub proof fn lemma_regroup_scan_within(
    units: Seq<Seq<char>>,
    sep: Seq<char>,
    limit: nat,
    current: Seq<char>,
    i: int,
)
    requires
        0 <= i <= units.len(),
        all_within(units, limit),
        piece_within(current, limit),
    ensures
        all_within(regroup_scan(units, sep, limit, current, i), limit),
    decreases units.len() - i,
{
    let out = regroup_scan(units, sep, limit, current, i);
    if i < units.len() {
        if utf8_len(current) + utf8_len(sep) + utf8_len(units[i]) > limit {
            let rest = regroup_scan(units, sep, limit, units[i], i + 1);
            lemma_regroup_scan_within(units, sep, limit, units[i], i + 1);
            assert forall|j: int| 0 <= j < out.len() implies piece_within(
                #[trigger] out[j],
                limit,
            ) by {
                if j > 0 {
                    assert(out[j] == rest[j - 1]);
                }
            }
        } else {
            lemma_utf8_len_concat(current, sep);
            lemma_utf8_len_concat(current + sep, units[i]);
            lemma_regroup_scan_within(units, sep, limit, current + sep + units[i], i + 1);
        }
    }
}

/// The groups of one tier respect the limit where its units do.
pub proof fn lemma_regroup_within(units: Seq<Seq<char>>, sep: Seq<char>, limit: nat)
    requires
        all_within(units, limit),
    ensures
        all_within(regroup(units, sep, limit), limit),
{
    if units.len() > 0 {
        lemma_regroup_scan_within(units, sep, limit, units[0], 1);
    }
    let all = regroup_all(units, sep, limit);
    let out = regroup(units, sep, limit);
    assert forall|j: int| 0 <= j < out.len() implies piece_within(#[trigger] out[j], limit) by {
        assert(out[j] == all[j]);
    }
}

/// The hard limit: every piece that the splitter gives is within `limit`,
/// or is one character that alone is larger than `limit`.
pub proof fn lemma_split_respects_limit(text: Seq<char>, limit: nat, seps: Seq<Seq<char>>)
    ensures
        all_within(split_units(text, limit, seps), limit),
    decreases seps.len(), 0nat,
{
    if seps.len() == 0 {
        lemma_char_pack(text, limit);
    } else {
        let parts = pieces(text, seps[0]);
        lemma_refine_respects_limit(parts, limit, seps.drop_first());
        lemma_regroup_within(refine(parts, limit, seps.drop_first()), seps[0], limit);
    }
}

/// Where the limit is at least the four bytes of the widest character,
/// every piece that the splitter gives is within the limit.
pub proof fn lemma_split_hard_limit(text: Seq<char>, limit: nat, seps: Seq<Seq<char>>, j: int)
    requires
        limit >= 4,
        0 <= j < split_units(text, limit, seps).len(),
    ensures
        utf8_len(split_units(text, limit, seps)[j]) <= limit,
{
    lemma_split_respects_limit(text, limit, seps);
    let piece = split_units(text, limit, seps)[j];
    assert(piece_within(piece, limit));
    lemma_utf8_len_bounds(piece);
}

/// The units of a tier respect the limit.
pub proof fn lemma_refine_respects_limit(parts: Seq<Seq<char>>, limit: nat, rest: Seq<Seq<char>>)
    ensures
        all_within(refine(parts, limit, rest), limit),
    decreases rest.len(), 1 + parts.len(),
{
    if parts.len() > 0 {
        let before = refine(parts.drop_last(), limit, rest);
        lemma_refine_respects_limit(parts.drop_last(), limit, rest);
        let more = if utf8_len(parts.last()) <= limit {
            seq![parts.last()]
        } else {
            split_units(parts.last(), limit, rest)
        };
        if utf8_len(parts.last()) > limit {
            lemma_split_respects_limit(parts.last(), limit, rest);
        }
        let out = refine(parts, limit, rest);
        assert forall|j: int| 0 <= j < out.len() implies piece_within(#[trigger] out[j], limit) by {
            if j < before.len() {
                assert(out[j] == before[j]);
            } else {
                assert(out[j] == more[j - before.len()]);
            }
        }
    }
}

/// The views of a slice of string slices.
pub open spec fn strs(v: Seq<&str>) -> Seq<Seq<char>> {
    Seq::new(v.len(), |i: int| v[i]@)
}

/// Divides `text` character by character into pieces within `limit`.
pub fn pack_chars(text: &Vec<char>, limit: usize) -> (out: Vec<Vec<char>>)
    ensures
        texts(out@) == char_pack(text@, limit as nat),
{
    let mut out: Vec<Vec<char>> = Vec::new();
    if bounded_len(text, limit).is_some() {
        let whole = slice_of(text, 0, text.len());
        assert(whole@ =~= text@);
        out.push(whole);
        assert(texts(out@) =~= seq![text@]);
        return out;
    }
    let mut start: usize = 0;
    let mut i: usize = 0;
    let mut used: usize = 0;
    assert(texts(out@) + pack_scan(text@, limit as nat, 0, 0) =~= pack_scan(
        text@,
        limit as nat,
        0,
        0,
    ));
    while i < text.len()
        invariant
            start <= i <= text.len(),
            used == utf8_len(text@.subrange(start as int, i as int)),
            used <= limit || used <= 4,
            pack_scan(text@, limit as nat, 0, 0) == texts(out@) + pack_scan(
                text@,
                limit as nat,
                start as int,
                i as int,
            ),
        decreases text.len() - i,
    {
        let w = char_width(text[i]);
        let over = used > limit || w > limit - used;
        if start < i && over {
            let ghost before = texts(out@);
            let piece = slice_of(text, start, i);
            out.push(piece);
            assert(texts(out@) =~= before.push(piece@));
            assert(texts(out@) + pack_scan(text@, limit as nat, i as int, i + 1) =~= before + (
            seq![piece@] + pack_scan(text@, limit as nat, i as int, i + 1)));
            start = i;
            used = 0;
        }
        proof {
            assert(text@.subrange(start as int, i + 1) =~= text@.subrange(
                start as int,
                i as int,
            ).push(text@[i as int]));
            lemma_utf8_len_push(text@.subrange(start as int, i as int), text@[i as int]);
        }
        used = used + w;
        i += 1;
    }
    if start < i {
        let ghost before = texts(out@);
        let piece = slice_of(text, start, i);
        out.push(piece);
        assert(texts(out@) =~= before + seq![piece@]);
    } else {
        assert(texts(out@) + Seq::<Seq<char>>::empty() =~= texts(out@));
    }
    out
}

/// The non-empty pieces into which `sep` divides `text`.
pub fn pieces_of(text: &Vec<char>, sep: &Vec<char>) -> (out: Vec<Vec<char>>)
    ensures
        texts(out@) == pieces(text@, sep@),
{
    if sep.len() == 0 {
        let mut out: Vec<Vec<char>> = Vec::new();
        let mut i: usize = 0;
        while i < text.len()
            invariant
                i <= text.len(),
                out.len() == i,
                forall|j: int| 0 <= j < i ==> (#[trigger] out@[j])@ == seq![text@[j]],
            decreases text.len() - i,
        {
            let piece = slice_of(text, i, i + 1);
            assert(piece@ =~= seq![text@[i as int]]);
            out.push(piece);
            i += 1;
        }
        assert(texts(out@) =~= pieces(text@, sep@));
        out
    } else {
        drop_empty(split_text_on(text, sep))
    }
}

/// Puts the units of one tier together again.
pub fn regroup_units(units: &Vec<Vec<char>>, sep: &Vec<char>, limit: usize) -> (out: Vec<Vec<char>>)
    ensures
        texts(out@) == regroup(texts(units@), sep@, limit as nat),
{
    let mut out: Vec<Vec<char>> = Vec::new();
    if units.len() == 0 {
        assert(texts(out@) =~= regroup(texts(units@), sep@, limit as nat));
        return out;
    }
    let ghost all_units = texts(units@);
    let sep_len = bounded_len(sep, limit);
    let mut current = slice_of(&units[0], 0, units[0].len());
    assert(current@ =~= all_units[0]);
    let mut current_len = bounded_len(&units[0], limit);
    let mut i: usize = 1;
    assert(texts(out@) + regroup_scan(all_units, sep@, limit as nat, current@, 1)
        =~= regroup_scan(all_units, sep@, limit as nat, current@, 1));
    while i < units.len()
        invariant
            1 <= i <= units.len(),
            all_units == texts(units@),
            match sep_len {
                Some(n) => n == utf8_len(sep@) && n <= limit,
                None => utf8_len(sep@) > limit,
            },
            match current_len {
                Some(n) => n == utf8_len(current@) && n <= limit,
                None => utf8_len(current@) > limit,
            },
            regroup_all(all_units, sep@, limit as nat) == texts(out@) + regroup_scan(
                all_units,
                sep@,
                limit as nat,
                current@,
                i as int,
            ),
        decreases units.len() - i,
    {
        let unit_len = bounded_len(&units[i], limit);
        let merged_len: Option<usize> = match (current_len, sep_len, unit_len) {
            (Some(a), Some(s), Some(u)) => if s <= limit - a && u <= limit - a - s {
                Some(a + s + u)
            } else {
                None
            },
            _ => None,
        };
        assert(all_units[i as int] == units@[i as int]@);
        match merged_len {
            Some(n) => {
                proof {
                    lemma_utf8_len_concat(current@, sep@);
                    lemma_utf8_len_concat(current@ + sep@, units@[i as int]@);
                }
                extend_with(&mut current, sep);
                extend_with(&mut current, &units[i]);
                current_len = Some(n);
            },
            None => {
                let ghost before = texts(out@);
                let ghost closed = current@;
                out.push(current);
                current = slice_of(&units[i], 0, units[i].len());
                assert(current@ =~= all_units[i as int]);
                current_len = unit_len;
                assert(texts(out@) =~= before.push(closed));
                assert(texts(out@) + regroup_scan(all_units, sep@, limit as nat, current@, i + 1)
                    =~= before + (seq![closed] + regroup_scan(
                    all_units,
                    sep@,
                    limit as nat,
                    current@,
                    i + 1,
                )));
            },
        }
        i += 1;
    }
    let ghost all = regroup_all(all_units, sep@, limit as nat);
    let ghost before = texts(out@);
    assert(all =~= before.push(current@));
    let repeats = out.len() > 0 && same_text(&out[out.len() - 1], &current);
    if repeats {
        assert(all.drop_last() =~= before);
    } else {
        out.push(current);
        assert(texts(out@) =~= all);
    }
    out
}

/// Divides `text` with the separators from index `tier` on.
pub(crate) fn split_tier(
    text: &Vec<char>,
    limit: usize,
    seps: &Vec<Vec<char>>,
    tier: usize,
) -> (out: Vec<Vec<char>>)
    requires
        tier <= seps.len(),
    ensures
        texts(out@) == split_units(text@, limit as nat, texts(seps@).skip(tier as int)),
    decreases seps.len() - tier,
{
    if tier == seps.len() {
        return pack_chars(text, limit);
    }
    let ghost rest = texts(seps@).skip(tier + 1);
    assert(texts(seps@).skip(tier as int).drop_first() =~= rest);
    assert(texts(seps@).skip(tier as int)[0] == seps@[tier as int]@);
    let sep = &seps[tier];
    let parts = pieces_of(text, sep);
    let ghost all_parts = texts(parts@);
    let mut units: Vec<Vec<char>> = Vec::new();
    let mut j: usize = 0;
    assert(texts(units@) =~= refine(all_parts.take(0), limit as nat, rest));
    while j < parts.len()
        invariant
            j <= parts.len(),
            tier < seps.len(),
            all_parts == texts(parts@),
            rest == texts(seps@).skip(tier + 1),
            texts(units@) == refine(all_parts.take(j as int), limit as nat, rest),
        decreases parts.len() - j,
    {
        let ghost before = texts(units@);
        assert(all_parts.take(j + 1).drop_last() =~= all_parts.take(j as int));
        assert(all_parts.take(j + 1).last() == parts@[j as int]@);
        if bounded_len(&parts[j], limit).is_some() {
            let whole = slice_of(&parts[j], 0, parts[j].len());
            assert(whole@ =~= parts@[j as int]@);
            units.push(whole);
            assert(texts(units@) =~= before + seq![whole@]);
        } else {
            let mut finer = split_tier(&parts[j], limit, seps, tier + 1);
            let ghost added = texts(finer@);
            units.append(&mut finer);
            assert(texts(units@) =~= before + added);
        }
        j += 1;
    }
    assert(all_parts.take(parts.len() as int) =~= all_parts);
    regroup_units(&units, sep, limit)
}

/// Divides `text` into pieces of at most `chunk_size` bytes, cutting at the
/// first of the `separators` where it can and at the later ones where it
/// must; a piece that no separator makes small enough is cut between
/// characters. Only a piece of one character that alone is larger than
/// `chunk_size` is larger than it.
pub fn split_text(text: &str, chunk_size: usize, separators: &[&str]) -> (out: Vec<String>)
    ensures
        strings(out@) == split_units(text@, chunk_size as nat, strs(separators@)),
        all_within(strings(out@), chunk_size as nat),
{
    let mut seps: Vec<Vec<char>> = Vec::new();
    let mut i: usize = 0;
    while i < separators.len()
        invariant
            i <= separators.len(),
            seps.len() == i,
            forall|j: int| 0 <= j < i ==> (#[trigger] seps@[j])@ == separators@[j]@,
        decreases separators.len() - i,
    {
        seps.push(chars_of(separators[i]));
        i += 1;
    }
    assert(texts(seps@).skip(0) =~= strs(separators@));
    let chars = chars_of(text);
    let units = split_tier(&chars, chunk_size, &seps, 0);
    proof {
        lemma_split_respects_limit(text@, chunk_size as nat, strs(separators@));
    }
    strings_of(&units)
}

} // verus!
