//! What the splitter keeps of a text: apart from the characters of its
//! separators, the pieces hold the characters of the text, in their order,
//! unless a tier leaves out a last group that repeats the one before it.

use crate::splitter::{
    lemma_char_pack, pieces, refine, regroup, regroup_all, regroup_scan, split_units,
};
use crate::text::{
    holds_only, is_nonempty, lemma_filter_keeps_none, occurs_at, split_on, split_scan, utf8_len,
};
use vstd::prelude::*;
use vstd::seq_lib::lemma_flatten_concat;

verus! {

/// Whether `c` is a character of one of the separators.
pub open spec fn in_separators(c: char, seps: Seq<Seq<char>>) -> bool {
    exists|j: int| 0 <= j < seps.len() && (#[trigger] seps[j]).contains(c)
}

/// The characters of `s` that are in none of the separators.
pub open spec fn content(s: Seq<char>, seps: Seq<Seq<char>>) -> Seq<char> {
    s.filter(|c: char| !in_separators(c, seps))
}

/// Whether the splitter gives all the groups of every tier: no last group
/// repeats the one before it.
pub open spec fn keeps_all_groups(text: Seq<char>, limit: nat, seps: Seq<Seq<char>>) -> bool
    decreases seps.len(), 0nat,
{
    seps.len() == 0 || {
        let units = refine(pieces(text, seps[0]), limit, seps.drop_first());
        &&& refine_keeps_all_groups(pieces(text, seps[0]), limit, seps.drop_first())
        &&& regroup(units, seps[0], limit) == regroup_all(units, seps[0], limit)
    }
}

/// Whether the splitter gives all the groups of every piece that it
/// divides further.
pub open spec fn refine_keeps_all_groups(
    parts: Seq<Seq<char>>,
    limit: nat,
    rest: Seq<Seq<char>>,
) -> bool
    decreases rest.len(), 1 + parts.len(),
{
    parts.len() == 0 || {
        &&& refine_keeps_all_groups(parts.drop_last(), limit, rest)
        &&& utf8_len(parts.last()) <= limit || keeps_all_groups(parts.last(), limit, rest)
    }
}

/// What a filter keeps of two lists of pieces in a row.
proof fn lemma_kept_of_concat(
    first: Seq<Seq<char>>,
    later: Seq<Seq<char>>,
    kept: spec_fn(char) -> bool,
)
    ensures
        (first + later).flatten().filter(kept) == first.flatten().filter(kept)
            + later.flatten().filter(kept),
{
    lemma_flatten_concat(first, later);
    Seq::filter_distributes_over_add(first.flatten(), later.flatten(), kept);
}

/// The pieces between the occurrences of a separator hold what the text
/// holds apart from the separator.
proof fn lemma_split_scan_content(
    text: Seq<char>,
    sep: Seq<char>,
    start: int,
    i: int,
    kept: spec_fn(char) -> bool,
)
    requires
        sep.len() > 0,
        0 <= start <= i <= text.len(),
        holds_only(sep, |c: char| !kept(c)),
    ensures
        split_scan(text, sep, start, i).flatten().filter(kept) == text.subrange(
            start,
            text.len() as int,
        ).filter(kept),
    decreases text.len() - i,
{
    let whole = text.subrange(start, text.len() as int);
    if i + sep.len() > text.len() {
        seq![whole].lemma_flatten_singleton();
    } else if occurs_at(text, sep, i) {
        let piece = text.subrange(start, i);
        let after = text.subrange(i + sep.len(), text.len() as int);
        let rest = split_scan(text, sep, i + sep.len(), i + sep.len());
        lemma_split_scan_content(text, sep, i + sep.len(), i + sep.len(), kept);
        lemma_kept_of_concat(seq![piece], rest, kept);
        seq![piece].lemma_flatten_singleton();
        assert(whole =~= piece + sep + after);
        Seq::filter_distributes_over_add(piece + sep, after, kept);
        Seq::filter_distributes_over_add(piece, sep, kept);
        lemma_filter_keeps_none(sep, kept);
        assert(sep.filter(kept) =~= Seq::<char>::empty());
        assert(piece.filter(kept) + sep.filter(kept) =~= piece.filter(kept));
    } else {
        lemma_split_scan_content(text, sep, start, i + 1, kept);
    }
}

/// Leaving out the empty pieces changes nothing of the pieces in a row.
proof fn lemma_nonempty_flatten(parts: Seq<Seq<char>>)
    ensures
        parts.filter(|p: Seq<char>| is_nonempty(p)).flatten() == parts.flatten(),
    decreases parts.len(),
{
    let keep = |p: Seq<char>| is_nonempty(p);
    reveal(Seq::filter);
    if parts.len() > 0 {
        let before = parts.drop_last();
        lemma_nonempty_flatten(before);
        assert(before.push(parts.last()) =~= parts);
        before.lemma_flatten_push(parts.last());
        if is_nonempty(parts.last()) {
            before.filter(keep).lemma_flatten_push(parts.last());
        } else {
            assert(before.flatten() + parts.last() =~= before.flatten());
        }
    }
}

/// The characters of a text, each a piece, are the text.
proof fn lemma_characters_flatten(text: Seq<char>)
    ensures
        Seq::new(text.len(), |i: int| seq![text[i]]).flatten() == text,
    decreases text.len(),
{
    let all = Seq::new(text.len(), |i: int| seq![text[i]]);
    if text.len() > 0 {
        let before = text.drop_last();
        let first = Seq::new(before.len(), |i: int| seq![before[i]]);
        lemma_characters_flatten(before);
        assert(all =~= first.push(seq![text.last()]));
        first.lemma_flatten_push(seq![text.last()]);
        assert(before + seq![text.last()] =~= text);
    } else {
        assert(all.flatten() =~= text);
    }
}

/// The pieces of a tier hold what the text holds apart from the separator.
proof fn lemma_pieces_content(text: Seq<char>, sep: Seq<char>, kept: spec_fn(char) -> bool)
    requires
        holds_only(sep, |c: char| !kept(c)),
    ensures
        pieces(text, sep).flatten().filter(kept) == text.filter(kept),
{
    if sep.len() == 0 {
        lemma_characters_flatten(text);
    } else {
        lemma_split_scan_content(text, sep, 0, 0, kept);
        lemma_nonempty_flatten(split_on(text, sep));
        assert(text.subrange(0, text.len() as int) =~= text);
    }
}

/// The groups hold what their units hold, apart from the separator that
/// was put between them.
proof fn lemma_regroup_scan_content(
    units: Seq<Seq<char>>,
    sep: Seq<char>,
    limit: nat,
    current: Seq<char>,
    i: int,
    kept: spec_fn(char) -> bool,
)
    requires
        0 <= i <= units.len(),
        holds_only(sep, |c: char| !kept(c)),
    ensures
        regroup_scan(units, sep, limit, current, i).flatten().filter(kept) == current.filter(kept)
            + units.skip(i).flatten().filter(kept),
    decreases units.len() - i,
{
    let later = units.skip(i);
    if i >= units.len() {
        seq![current].lemma_flatten_singleton();
        assert(later.flatten() =~= Seq::<char>::empty());
        assert(later.flatten().filter(kept) =~= Seq::<char>::empty()) by {
            reveal(Seq::filter);
        }
        assert(current.filter(kept) + later.flatten().filter(kept) =~= current.filter(kept));
    } else {
        let unit = units[i];
        let after = units.skip(i + 1);
        assert(later.first() == unit);
        assert(later.drop_first() =~= after);
        assert(later.flatten() == unit + after.flatten());
        Seq::filter_distributes_over_add(unit, after.flatten(), kept);
        if utf8_len(current) + utf8_len(sep) + utf8_len(unit) > limit {
            let rest = regroup_scan(units, sep, limit, unit, i + 1);
            lemma_regroup_scan_content(units, sep, limit, unit, i + 1, kept);
            lemma_kept_of_concat(seq![current], rest, kept);
            seq![current].lemma_flatten_singleton();
        } else {
            lemma_regroup_scan_content(units, sep, limit, current + sep + unit, i + 1, kept);
            Seq::filter_distributes_over_add(current + sep, unit, kept);
            Seq::filter_distributes_over_add(current, sep, kept);
            lemma_filter_keeps_none(sep, kept);
            assert(sep.filter(kept) =~= Seq::<char>::empty());
            assert(current.filter(kept) + sep.filter(kept) =~= current.filter(kept));
            assert(current.filter(kept) + unit.filter(kept) + after.flatten().filter(kept)
                =~= current.filter(kept) + (unit.filter(kept) + after.flatten().filter(kept)));
        }
    }
}

/// All the groups of a tier hold what its units hold.
proof fn lemma_regroup_all_content(
    units: Seq<Seq<char>>,
    sep: Seq<char>,
    limit: nat,
    kept: spec_fn(char) -> bool,
)
    requires
        holds_only(sep, |c: char| !kept(c)),
    ensures
        regroup_all(units, sep, limit).flatten().filter(kept) == units.flatten().filter(kept),
{
    if units.len() > 0 {
        lemma_regroup_scan_content(units, sep, limit, units[0], 1, kept);
        assert(units.drop_first() =~= units.skip(1));
        Seq::filter_distributes_over_add(units[0], units.skip(1).flatten(), kept);
    }
}

/// The pieces of a text hold what the text holds of the characters that
/// are in none of the separators.
proof fn lemma_split_content(
    text: Seq<char>,
    limit: nat,
    seps: Seq<Seq<char>>,
    kept: spec_fn(char) -> bool,
)
    requires
        forall|j: int| 0 <= j < seps.len() ==> holds_only(#[trigger] seps[j], |c: char| !kept(c)),
        keeps_all_groups(text, limit, seps),
    ensures
        split_units(text, limit, seps).flatten().filter(kept) == text.filter(kept),
    decreases seps.len(), 0nat,
{
    if seps.len() == 0 {
        lemma_char_pack(text, limit);
    } else {
        let rest = seps.drop_first();
        let parts = pieces(text, seps[0]);
        assert forall|j: int| 0 <= j < rest.len() implies holds_only(
            #[trigger] rest[j],
            |c: char| !kept(c),
        ) by {
            assert(rest[j] == seps[j + 1]);
        }
        lemma_refine_content(parts, limit, rest, kept);
        lemma_regroup_all_content(refine(parts, limit, rest), seps[0], limit, kept);
        lemma_pieces_content(text, seps[0], kept);
    }
}

/// The units of a tier hold what its pieces hold.
proof fn lemma_refine_content(
    parts: Seq<Seq<char>>,
    limit: nat,
    rest: Seq<Seq<char>>,
    kept: spec_fn(char) -> bool,
)
    requires
        forall|j: int| 0 <= j < rest.len() ==> holds_only(#[trigger] rest[j], |c: char| !kept(c)),
        refine_keeps_all_groups(parts, limit, rest),
    ensures
        refine(parts, limit, rest).flatten().filter(kept) == parts.flatten().filter(kept),
    decreases rest.len(), 1 + parts.len(),
{
    if parts.len() > 0 {
        let before = parts.drop_last();
        let last = parts.last();
        lemma_refine_content(before, limit, rest, kept);
        let more = if utf8_len(last) <= limit {
            seq![last]
        } else {
            split_units(last, limit, rest)
        };
        if utf8_len(last) <= limit {
            seq![last].lemma_flatten_singleton();
        } else {
            lemma_split_content(last, limit, rest, kept);
        }
        lemma_kept_of_concat(refine(before, limit, rest), more, kept);
        assert(before.push(last) =~= parts);
        before.lemma_flatten_push(last);
        Seq::filter_distributes_over_add(before.flatten(), last, kept);
    }
}

/// Where no tier leaves out a last group, the pieces that the splitter
/// gives hold, one after the other, the characters of the text that are in
/// none of the separators.
pub proof fn lemma_split_keeps_content(text: Seq<char>, limit: nat, seps: Seq<Seq<char>>)
    requires
        keeps_all_groups(text, limit, seps),
    ensures
        content(split_units(text, limit, seps).flatten(), seps) == content(text, seps),
{
    let kept = |c: char| !in_separators(c, seps);
    assert forall|j: int| 0 <= j < seps.len() implies holds_only(
        #[trigger] seps[j],
        |c: char| !kept(c),
    ) by {
        assert forall|k: int| 0 <= k < seps[j].len() implies in_separators(
            #[trigger] seps[j][k],
            seps,
        ) by {
            assert(seps[j].contains(seps[j][k]));
        }
    }
    lemma_split_content(text, limit, seps, kept);
}

} // verus!
