//! The mathematical model of matching: which positions a query character may
//! land on, what a complete alignment is, and what it scores. Contracts all
//! over the crate are stated against these definitions.
use vstd::prelude::*;
use crate::unicode::{is_uppercase_char, char_lower_of};
use crate::heat::{heat_at, heat_len};
use crate::constants::{DIST_WEIGHT, HEAT_WEIGHT, FACTOR_REDUCE};

verus! {

/// Whether a query character `c` may land on position `p` of the normalized
/// line `text`: the position is within the indexed prefix and holds `c`
/// itself, or an uppercase character whose lowercase mapping contains `c`.
pub open spec fn registered_char(text: Seq<char>, c: char, p: usize) -> bool {
    &&& 0 <= p < heat_len(text)
    &&& (text[p as int] == c || (is_uppercase_char(text[p as int]) && char_lower_of(
        text[p as int],
    ).contains(c)))
}

/// A complete alignment of the query `q` against `text`: one position per
/// query character, each admissible for its character, strictly increasing.
pub open spec fn valid_alignment(text: Seq<char>, q: Seq<char>, pos: Seq<usize>) -> bool {
    &&& pos.len() == q.len()
    &&& forall|i: int| 0 <= i < pos.len() ==> #[trigger] registered_char(text, q[i], pos[i])
    &&& forall|i: int, j: int|
        #![trigger pos[i], pos[j]]
        0 <= i < j < pos.len() ==> pos[i] < pos[j]
}

/// The summed heat of the chosen positions.
pub open spec fn heat_total(text: Seq<char>, pos: Seq<usize>) -> int
    decreases pos.len(),
{
    if pos.len() == 0 {
        0
    } else {
        heat_at(text, pos[0] as int) + heat_total(text, pos.drop_first())
    }
}

/// The compactness penalty: the total span of the alignment, averaged over
/// its gaps and weighted. Zero for fewer than two positions.
pub open spec fn gap_penalty(pos: Seq<usize>) -> int {
    if pos.len() < 2 {
        0
    } else {
        (pos.last() - pos[0]) * (DIST_WEIGHT as int) / (pos.len() - 1)
    }
}

/// The score of one alignment: weighted heat plus the weighted tie-break
/// factor, minus the compactness penalty.
pub open spec fn alignment_value(text: Seq<char>, factor: int, pos: Seq<usize>) -> int {
    heat_total(text, pos) * (HEAT_WEIGHT as int) + factor * (FACTOR_REDUCE as int) - gap_penalty(
        pos,
    )
}

/// What the matcher returns for `q` against `text` with tie-break `factor`:
/// no result exactly when no alignment exists, otherwise the score of a best
/// alignment.
pub open spec fn best_match(text: Seq<char>, factor: int, q: Seq<char>, r: Option<int>) -> bool {
    match r {
        None => forall|pos: Seq<usize>| !valid_alignment(text, q, pos),
        Some(s) => {
            &&& exists|pos: Seq<usize>|
                valid_alignment(text, q, pos) && #[trigger] alignment_value(text, factor, pos)
                    == s
            &&& forall|pos: Seq<usize>|
                valid_alignment(text, q, pos) ==> #[trigger] alignment_value(text, factor, pos)
                    <= s
        },
    }
}

/// Whether some alignment of `q` against `text` exists at all.
pub open spec fn matched(text: Seq<char>, q: Seq<char>) -> bool {
    exists|pos: Seq<usize>| valid_alignment(text, q, pos)
}

/// The whitespace-stripped, case-folded form of an (already normalized)
/// query character sequence: whitespace is dropped, an uppercase character
/// is replaced by its lowercase mapping, anything else kept as it is.
pub open spec fn fold_query(s: Seq<char>) -> Seq<char>
    decreases s.len(),
{
    if s.len() == 0 {
        Seq::empty()
    } else {
        fold_one(s[0]) + fold_query(s.drop_first())
    }
}

/// The folded form of one query character.
pub open spec fn fold_one(c: char) -> Seq<char> {
    if crate::unicode::is_whitespace_char(c) {
        Seq::empty()
    } else if is_uppercase_char(c) {
        char_lower_of(c)
    } else {
        seq![c]
    }
}

/// The query sequence that the entry points run against a record: NFKC
/// normalization, then whitespace stripping and case folding.
pub open spec fn query_of(raw: Seq<char>) -> Seq<char> {
    fold_query(crate::unicode::nfkc_of(raw))
}

/// A best score, when present, is unique.
pub proof fn lemma_best_match_unique(text: Seq<char>, factor: int, q: Seq<char>, s1: int, s2: int)
    requires
        best_match(text, factor, q, Some(s1)),
        best_match(text, factor, q, Some(s2)),
    ensures
        s1 == s2,
{
    let w1 = choose|pos: Seq<usize>|
        valid_alignment(text, q, pos) && #[trigger] alignment_value(text, factor, pos) == s1;
    let w2 = choose|pos: Seq<usize>|
        valid_alignment(text, q, pos) && #[trigger] alignment_value(text, factor, pos) == s2;
    assert(alignment_value(text, factor, w1) <= s2);
    assert(alignment_value(text, factor, w2) <= s1);
}

} // verus!
