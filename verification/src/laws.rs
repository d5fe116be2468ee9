//! Laws of the matching model: statements that relate whole calls, proved
//! once and for all against the same definitions the executable contracts
//! use.
use vstd::prelude::*;
use crate::model::{
    registered_char, valid_alignment, alignment_value, heat_total, gap_penalty, best_match,
    matched, fold_query, fold_one,
};
use crate::unicode::{is_whitespace_char, is_uppercase_char, char_lower_of};
use crate::heat::heat_len;
use crate::line::{lemma_heat_total_bounds, lemma_pos_ge_index};
use crate::constants::{MAX_LEN, DIST_WEIGHT, HEAT_WEIGHT, FACTOR_REDUCE, EXACT_BOOST, HEAT_BOUND};
use vstd::arithmetic::div_mod::{
    lemma_div_is_ordered, lemma_div_plus_one, lemma_div_pos_is_pos, lemma_div_nonincreasing,
};

verus! {

/// A query that holds a character with no admissible position in the line
/// never matches, whatever the tie-break factor.
pub proof fn lemma_absent_char_no_match(
    text: Seq<char>,
    factor: int,
    q: Seq<char>,
    i: int,
)
    requires
        0 <= i < q.len(),
        forall|p: usize| !registered_char(text, q[i], p),
    ensures
        forall|pos: Seq<usize>| !valid_alignment(text, q, pos),
        best_match(text, factor, q, None),
{
    assert forall|pos: Seq<usize>| !valid_alignment(text, q, pos) by {
        if valid_alignment(text, q, pos) {
            assert(registered_char(text, q[i], pos[i]));
        }
    }
}

/// An uppercase character is reachable through any character of its
/// lowercase mapping: the index registers both.
pub proof fn lemma_case_fold_registered(text: Seq<char>, c: char, p: usize)
    requires
        p < heat_len(text),
        crate::unicode::is_uppercase_char(text[p as int]),
        crate::unicode::char_lower_of(text[p as int]).contains(c),
    ensures
        registered_char(text, c, p),
{
}

/// The compactness penalty of a valid alignment is nonnegative and bounded.
proof fn lemma_gap_penalty_bounds(pos: Seq<usize>)
    requires
        pos.len() >= 2 ==> pos[0] <= pos.last() && pos.last() < MAX_LEN,
    ensures
        0 <= gap_penalty(pos) <= MAX_LEN * (DIST_WEIGHT as int),
{
    if pos.len() >= 2 {
        let num = (pos.last() - pos[0]) * (DIST_WEIGHT as int);
        let d = pos.len() - 1;
        assert(0 <= num <= MAX_LEN * (DIST_WEIGHT as int));
        lemma_div_pos_is_pos(num, d as int);
        lemma_div_nonincreasing(num, d as int);
    }
}

/// Matching a line against its own (folded, stripped) text, with the exact
/// match boost as the tie-break, scores at least as high as matching any
/// other query without the boost: the boost outweighs everything any heat
/// profile can offer.
pub proof fn lemma_exact_match_dominates(
    text: Seq<char>,
    qself: Seq<char>,
    q2: Seq<char>,
    s1: int,
    s2: int,
)
    requires
        best_match(text, EXACT_BOOST as int, qself, Some(s1)),
        best_match(text, 0, q2, Some(s2)),
    ensures
        s1 >= s2,
{
    let w1 = choose|pos: Seq<usize>|
        valid_alignment(text, qself, pos) && #[trigger] alignment_value(
            text,
            EXACT_BOOST as int,
            pos,
        ) == s1;
    let w2 = choose|pos: Seq<usize>|
        valid_alignment(text, q2, pos) && #[trigger] alignment_value(text, 0, pos) == s2;
    assert forall|k: int| 0 <= k < w1.len() implies #[trigger] w1[k] < heat_len(text) by {
        assert(registered_char(text, qself[k], w1[k]));
    }
    assert forall|k: int| 0 <= k < w2.len() implies #[trigger] w2[k] < heat_len(text) by {
        assert(registered_char(text, q2[k], w2[k]));
    }
    lemma_heat_total_bounds(text, w1);
    lemma_heat_total_bounds(text, w2);
    assert(heat_len(text) <= MAX_LEN);
    if w1.len() >= 2 {
        assert(w1[0] < w1[w1.len() - 1]);
    }
    lemma_gap_penalty_bounds(w1);
    if w2.len() >= 2 {
        assert(w2[0] < w2[w2.len() - 1]);
    }
    lemma_gap_penalty_bounds(w2);
    if w2.len() > 0 {
        lemma_pos_ge_index(w2, w2.len() - 1);
        assert(w2.len() <= MAX_LEN);
        assert(w2.len() * (HEAT_BOUND as int) <= MAX_LEN * (HEAT_BOUND as int))
            by (nonlinear_arith)
            requires
                w2.len() <= MAX_LEN,
        ;
    }
    assert(s1 >= (EXACT_BOOST as int) * (FACTOR_REDUCE as int) - MAX_LEN * (DIST_WEIGHT as int));
    assert(s2 <= MAX_LEN * (HEAT_BOUND as int) * (HEAT_WEIGHT as int));
}

/// Of two alignments with equal summed heat and equal length, the more
/// compact one scores strictly higher: the gap penalty grows with the span.
pub proof fn lemma_tighter_alignment_scores_higher(
    text: Seq<char>,
    factor: int,
    pos1: Seq<usize>,
    pos2: Seq<usize>,
)
    requires
        pos1.len() == pos2.len(),
        2 <= pos1.len(),
        pos1.len() <= MAX_LEN,
        heat_total(text, pos1) == heat_total(text, pos2),
        pos1[0] <= pos1.last(),
        pos2[0] <= pos2.last(),
        pos1.last() - pos1[0] < pos2.last() - pos2[0],
    ensures
        alignment_value(text, factor, pos1) > alignment_value(text, factor, pos2),
{
    let g1 = pos1.last() - pos1[0];
    let g2 = pos2.last() - pos2[0];
    let d = pos1.len() - 1;
    assert(1 <= d < DIST_WEIGHT as int);
    assert(g1 * (DIST_WEIGHT as int) + (DIST_WEIGHT as int) <= g2 * (DIST_WEIGHT as int))
        by (nonlinear_arith)
        requires
            g1 + 1 <= g2,
    ;
    lemma_div_is_ordered(
        g1 * (DIST_WEIGHT as int) + d,
        g2 * (DIST_WEIGHT as int),
        d as int,
    );
    lemma_div_plus_one(g1 * (DIST_WEIGHT as int), d as int);
    assert(gap_penalty(pos1) < gap_penalty(pos2));
}

/// The canonical self-alignment property: `pos` aligns the folded suffix of
/// `text` from `k` onto registered, ascending positions at or past `k`.
spec fn self_alignment_ok(text: Seq<char>, k: int, pos: Seq<usize>) -> bool {
    &&& pos.len() == fold_query(text.skip(k)).len()
    &&& (forall|t: int|
        0 <= t < pos.len() ==> registered_char(
            text,
            fold_query(text.skip(k))[t],
            #[trigger] pos[t],
        ))
    &&& (forall|a: int, b: int|
        #![trigger pos[a], pos[b]]
        0 <= a < b < pos.len() ==> pos[a] < pos[b])
    &&& (forall|t: int| 0 <= t < pos.len() ==> #[trigger] pos[t] >= k)
}

/// Builds, for the suffix of `text` starting at `k`, an ascending list of
/// positions at which its own folded characters are registered.
proof fn lemma_self_alignment_from(text: Seq<char>, k: int)
    requires
        0 <= k <= text.len(),
        text.len() <= MAX_LEN,
        forall|i: int|
            k <= i < text.len() && is_uppercase_char(#[trigger] text[i]) ==> char_lower_of(
                text[i],
            ).len() == 1,
    ensures
        exists|pos: Seq<usize>| self_alignment_ok(text, k, pos),
    decreases text.len() - k,
{
    let q = fold_query(text.skip(k));
    if k == text.len() {
        assert(text.skip(k) =~= Seq::<char>::empty());
        let pos = Seq::<usize>::empty();
        assert(self_alignment_ok(text, k, pos));
    } else {
        let c = text[k];
        lemma_self_alignment_from(text, k + 1);
        let rest = choose|pos: Seq<usize>| #[trigger] self_alignment_ok(text, k + 1, pos);
        assert(text.skip(k).drop_first() =~= text.skip(k + 1));
        assert(text.skip(k)[0] == c);
        assert(q == fold_one(c) + fold_query(text.skip(k + 1)));
        if is_whitespace_char(c) {
            assert(fold_one(c) =~= Seq::<char>::empty());
            assert(q =~= fold_query(text.skip(k + 1)));
            assert(self_alignment_ok(text, k, rest));
        } else {
            assert(fold_one(c).len() == 1);
            let e = fold_one(c)[0];
            assert(registered_char(text, e, k as usize)) by {
                assert(k < heat_len(text));
                if is_uppercase_char(c) {
                    assert(char_lower_of(c)[0] == e);
                    assert(char_lower_of(c).contains(e));
                } else {
                    assert(e == c);
                }
            }
            let pos = seq![k as usize] + rest;
            assert(pos[0] == k as usize);
            assert forall|t: int| 0 <= t < rest.len() implies pos[t + 1] == rest[t] by {}
            assert forall|t: int| 0 <= t < q.len() implies q[t] == (if t == 0 {
                e
            } else {
                fold_query(text.skip(k + 1))[t - 1]
            }) by {}
            assert(pos.len() == q.len());
            assert forall|t: int| 0 <= t < pos.len() implies registered_char(
                text,
                q[t],
                #[trigger] pos[t],
            ) by {
                if t > 0 {
                    assert(pos[t] == rest[t - 1]);
                    assert(registered_char(text, fold_query(text.skip(k + 1))[t - 1], rest[t - 1]));
                }
            }
            assert forall|a: int, b: int|
                #![trigger pos[a], pos[b]]
                0 <= a < b < pos.len() implies pos[a] < pos[b] by {
                if a == 0 {
                    assert(pos[b] == rest[b - 1]);
                    assert(rest[b - 1] >= k + 1);
                } else {
                    assert(pos[a] == rest[a - 1] && pos[b] == rest[b - 1]);
                }
            }
            assert forall|t: int| 0 <= t < pos.len() implies #[trigger] pos[t] >= k by {
                if t > 0 {
                    assert(pos[t] == rest[t - 1]);
                }
            }
            assert(self_alignment_ok(text, k, pos));
        }
    }
}

/// A line whose normalized form fits the cap, and whose uppercase
/// characters fold to single characters, always matches its own folded
/// text.
pub proof fn lemma_self_match_exists(text: Seq<char>)
    requires
        text.len() <= MAX_LEN,
        forall|i: int|
            0 <= i < text.len() && is_uppercase_char(#[trigger] text[i]) ==> char_lower_of(
                text[i],
            ).len() == 1,
    ensures
        matched(text, fold_query(text)),
{
    lemma_self_alignment_from(text, 0);
    let pos = choose|pos: Seq<usize>| #[trigger] self_alignment_ok(text, 0, pos);
    assert(text.skip(0) =~= text);
    assert(valid_alignment(text, fold_query(text), pos));
}

/// Matching a line against its own text, with the exact-match boost,
/// succeeds and ranks at or above the match of any other query without the
/// boost.
pub proof fn lemma_self_match_ranks_first(
    text: Seq<char>,
    q2: Seq<char>,
    r1: Option<int>,
    r2: Option<int>,
)
    requires
        text.len() <= MAX_LEN,
        forall|i: int|
            0 <= i < text.len() && is_uppercase_char(#[trigger] text[i]) ==> char_lower_of(
                text[i],
            ).len() == 1,
        best_match(text, EXACT_BOOST as int, fold_query(text), r1),
        best_match(text, 0, q2, r2),
    ensures
        r1 is Some,
        r2 is Some ==> r1->Some_0 >= r2->Some_0,
{
    lemma_self_match_exists(text);
    if r1 is None {
        let pos = choose|pos: Seq<usize>| valid_alignment(text, fold_query(text), pos);
        assert(!valid_alignment(text, fold_query(text), pos));
    }
    if r2 is Some {
        lemma_exact_match_dominates(text, fold_query(text), q2, r1->Some_0, r2->Some_0);
    }
}

} // verus!
