//! The line record: normalized text indexed by character, a heat value per
//! position, and a caller-supplied tie-break factor.
use vstd::prelude::*;
use std::collections::HashMap;
use crate::classify::{CharClass, char_class};
use crate::unicode::{nfkc_of, whitespace, uppercase, lowercase_chars, nfkc_chars};
use crate::heat::{
    acc_at, step_add, heat_at, heat_len, heat_models, lemma_acc_bounds,
};
use crate::model::{registered_char, valid_alignment, alignment_value, heat_total, gap_penalty, best_match};
use crate::constants::{
    MAX_LEN, SEPARATOR_FACTOR, AFTER_SEPARATOR_FACTOR, FIRST_FACTOR, CLASS_FACTOR,
    SEPARATOR_REDUCE, CLASS_REDUCE, HEAT_BOUND, FACTOR_LIMIT, DIST_WEIGHT, HEAT_WEIGHT,
    FACTOR_REDUCE,
};

verus! {

broadcast use vstd::std_specs::hash::group_hash_axioms;

/// A position list is strictly ascending and stays below `n`.
pub open spec fn pos_list_ok(ps: Seq<usize>, n: int) -> bool {
    &&& forall|i: int, j: int|
        #![trigger ps[i], ps[j]]
        0 <= i < j < ps.len() ==> ps[i] < ps[j]
    &&& forall|i: int| 0 <= i < ps.len() ==> #[trigger] ps[i] < n
}

/// Whether the index holds position `p` under the key of character `c`.
pub open spec fn list_has(m: Map<u32, Vec<usize>>, c: char, p: usize) -> bool {
    m.contains_key(c as u32) && m[c as u32]@.contains(p)
}

/// The index holds exactly the admissible positions of every character.
pub open spec fn index_models(m: Map<u32, Vec<usize>>, text: Seq<char>) -> bool {
    forall|c: char, p: usize| #[trigger] list_has(m, c, p) <==> registered_char(text, c, p)
}

/// What a position list looks like after registering `p`: unchanged when its
/// last entry is already `p`, extended by `p` otherwise, created fresh for an
/// absent key.
pub open spec fn push_pos_spec(m: Map<u32, Vec<usize>>, k: u32, p: usize) -> Seq<usize> {
    if m.contains_key(k) {
        if m[k]@.len() > 0 && m[k]@.last() == p {
            m[k]@
        } else {
            m[k]@.push(p)
        }
    } else {
        seq![p]
    }
}

proof fn lemma_push_contains<T>(s: Seq<T>, v: T, x: T)
    ensures
        s.push(v).contains(x) <==> (s.contains(x) || x == v),
{
    if s.contains(x) {
        let i = choose|i: int| 0 <= i < s.len() && s[i] == x;
        assert(s.push(v)[i] == x);
    }
    if x == v {
        assert(s.push(v)[s.len() as int] == x);
    }
    if s.push(v).contains(x) {
        let i = choose|i: int| 0 <= i < s.push(v).len() && s.push(v)[i] == x;
        if i < s.len() {
            assert(s[i] == x);
        }
    }
}

/// Two characters with the same code point are the same character.
proof fn lemma_char_cast_inj(a: char, b: char)
    requires
        a as u32 == b as u32,
    ensures
        a == b,
{
}

/// After `push_position(m, ch as u32, p)`: membership grows by exactly
/// `(ch, p)`.
proof fn lemma_push_pos_membership(
    m0: Map<u32, Vec<usize>>,
    m1: Map<u32, Vec<usize>>,
    ch: char,
    p: usize,
)
    requires
        m1.dom() == m0.dom().insert(ch as u32),
        forall|k2: u32|
            k2 != ch as u32 && m0.contains_key(k2) ==> #[trigger] m1[k2] == m0[k2],
        m1.contains_key(ch as u32),
        m1[ch as u32]@ == push_pos_spec(m0, ch as u32, p),
    ensures
        forall|c2: char, p2: usize| #[trigger]
            list_has(m1, c2, p2) <==> (list_has(m0, c2, p2) || (c2 == ch && p2 == p)),
{
    let k = ch as u32;
    assert forall|c2: char, p2: usize| #[trigger] list_has(m1, c2, p2) <==> (list_has(m0, c2, p2)
        || (c2 == ch && p2 == p)) by {
        if c2 as u32 == k {
            lemma_char_cast_inj(c2, ch);
            if m0.contains_key(k) {
                lemma_push_contains(m0[k]@, p, p2);
                if m0[k]@.len() > 0 && m0[k]@.last() == p {
                    assert(m0[k]@.contains(p));
                }
            } else {
                assert(m1[k]@ == seq![p]);
                assert(seq![p][0] == p);
                if list_has(m1, c2, p2) {
                    let i = choose|i: int| 0 <= i < m1[k]@.len() && m1[k]@[i] == p2;
                    assert(p2 == p);
                }
                assert(m1[k]@.contains(p));
            }
        } else {
            assert(m1.contains_key(c2 as u32) <==> m0.contains_key(c2 as u32));
        }
    }
}

/// Registers position `p` under key `k`, keeping the list ascending and
/// never recording the same position twice.
fn push_position(m: &mut HashMap<u32, Vec<usize>>, k: u32, p: usize)
    ensures
        final(m)@.dom() == old(m)@.dom().insert(k),
        forall|k2: u32|
            k2 != k && old(m)@.contains_key(k2) ==> #[trigger] final(m)@[k2] == old(m)@[k2],
        final(m)@.contains_key(k),
        final(m)@[k]@ == push_pos_spec(old(m)@, k, p),
{
    let got = m.remove(&k);
    match got {
        Some(mut v) => {
            let n = v.len();
            if n > 0 && v[n - 1] == p {
                m.insert(k, v);
            } else {
                v.push(p);
                m.insert(k, v);
            }
            proof {
                assert(m@.dom() =~= old(m)@.dom().insert(k));
            }
        },
        None => {
            let mut v: Vec<usize> = Vec::new();
            v.push(p);
            m.insert(k, v);
            proof {
                assert(v@ =~= seq![p]);
                assert(m@.dom() =~= old(m)@.dom().insert(k));
            }
        },
    }
}

/// A list whose entries are pairwise ascending and at most `n`.
pub open spec fn pos_list_le(ps: Seq<usize>, n: int) -> bool {
    &&& forall|i: int, j: int|
        #![trigger ps[i], ps[j]]
        0 <= i < j < ps.len() ==> ps[i] < ps[j]
    &&& forall|i: int| 0 <= i < ps.len() ==> #[trigger] ps[i] <= n
}

/// Registering `p` keeps a list ascending with entries at most `p`, since
/// the same position is never recorded twice.
proof fn lemma_push_keeps_le(m0: Map<u32, Vec<usize>>, k: u32, p: usize)
    requires
        m0.contains_key(k) ==> pos_list_le(m0[k]@, p as int),
    ensures
        pos_list_le(push_pos_spec(m0, k, p), p as int),
{
    let r = push_pos_spec(m0, k, p);
    if m0.contains_key(k) {
        let ps = m0[k]@;
        if ps.len() > 0 && ps.last() == p {
        } else {
            assert forall|i: int, j: int|
                #![trigger r[i], r[j]]
                0 <= i < j < r.len() implies r[i] < r[j] by {
                if j == r.len() - 1 {
                    if ps.len() > 0 {
                        if ps[i] == p {
                            if i < ps.len() - 1 {
                                assert(ps[i] < ps[ps.len() - 1]);
                            } else {
                                assert(ps.last() == p);
                            }
                            assert(false);
                        }
                    }
                }
            }
        }
    } else {
        assert(r == seq![p]);
        assert(r.len() == 1);
    }
}

/// Parsed information about one line, ready to be matched against queries.
pub struct LineInfo {
    line: String,
    map: HashMap<u32, Vec<usize>>,
    heat: Vec<i64>,
    factor: i64,
}

impl LineInfo {
    /// The raw text the record was built from.
    pub closed spec fn text(&self) -> Seq<char> {
        self.line@
    }

    /// The normalized character sequence that is indexed and matched.
    pub open spec fn norm(&self) -> Seq<char> {
        nfkc_of(self.text())
    }

    pub closed spec fn index(&self) -> Map<u32, Vec<usize>> {
        self.map@
    }

    pub closed spec fn heat_view(&self) -> Seq<i64> {
        self.heat@
    }

    pub closed spec fn factor_of(&self) -> int {
        self.factor as int
    }

    /// The record's invariant: the heat vector is the heat profile of the
    /// normalized text, the index holds exactly the admissible positions,
    /// every position list is ascending and in range, and the factor is
    /// within its limit.
    pub closed spec fn wf(&self) -> bool {
        &&& self.heat@.len() == heat_len(self.norm())
        &&& heat_models(self.heat@, self.norm())
        &&& index_models(self.map@, self.norm())
        &&& forall|k: u32| #[trigger]
            self.map@.contains_key(k) ==> pos_list_ok(self.map@[k]@, self.heat@.len() as int)
        &&& -FACTOR_LIMIT <= self.factor <= FACTOR_LIMIT
    }

    /// Builds the record: normalizes the text, walks it once to accumulate
    /// the heat profile, and registers every character's position under its
    /// own key and, for an uppercase character, under its lowercase mapping.
    pub fn new(item: &str, factor: i64) -> (r: LineInfo)
        requires
            -FACTOR_LIMIT <= factor <= FACTOR_LIMIT,
        ensures
            r.wf(),
            r.text() == item@,
            r.factor_of() == factor as int,
    {
        let norm: Vec<char> = nfkc_chars(item);
        let ghost ntext: Seq<char> = norm@;
        let mut map: HashMap<u32, Vec<usize>> = HashMap::new();
        let mut heat: Vec<i64> = Vec::new();
        let mut ws: u32 = 0;
        let mut cs: u32 = 0;
        let mut last_class = CharClass::First;
        let mut cs_change = false;
        let mut first_pending = true;

        let n = norm.len();
        let count = if n > MAX_LEN {
            MAX_LEN
        } else {
            n
        };
        assert(count as int == heat_len(ntext));

        let mut i: usize = 0;
        while i < count
            invariant
                count as int == heat_len(ntext),
                count <= MAX_LEN,
                i <= count,
                norm@ == ntext,
                norm@.len() >= count,
                ws as int == acc_at(ntext, i as int).ws,
                cs as int == acc_at(ntext, i as int).cs,
                last_class == acc_at(ntext, i as int).last,
                cs_change == acc_at(ntext, i as int).cs_change,
                first_pending == acc_at(ntext, i as int).first_pending,
                heat@.len() == i,
                forall|j: int| 0 <= j < i ==> #[trigger] heat@[j] as int == heat_at(ntext, j),
                forall|j: int| 0 <= j < i ==> 0 <= #[trigger] heat@[j] <= HEAT_BOUND,
                forall|k: u32| #[trigger]
                    map@.contains_key(k) ==> pos_list_ok(map@[k]@, i as int),
                forall|c2: char, p: usize| #[trigger]
                    list_has(map@, c2, p) <==> (p < i && registered_char(ntext, c2, p)),
            decreases count - i,
        {
            proof {
                lemma_acc_bounds(ntext, i as int);
            }
            let c = norm[i];
            let cls = char_class(c);
            let is_ws = whitespace(c);
            let ghost pre = acc_at(ntext, i as int);
            let ghost post_add = step_add(pre, c);

            let fboost: u32 = if first_pending && !is_ws {
                FIRST_FACTOR as u32
            } else {
                0
            };
            let new_pending = first_pending && is_ws;
            if cls == CharClass::Separator {
                ws = SEPARATOR_FACTOR as u32;
                cs = cs + fboost;
            } else {
                let sep_bonus: u32 = if last_class == CharClass::Separator {
                    AFTER_SEPARATOR_FACTOR as u32
                } else {
                    0
                };
                let class_bonus: u32 = if cls != last_class && !cs_change {
                    CLASS_FACTOR as u32
                } else {
                    0
                };
                cs = cs + fboost + sep_bonus + class_bonus;
                cs_change = cls != last_class;
            }
            last_class = cls;
            first_pending = new_pending;
            proof {
                assert(ws as int == post_add.ws);
                assert(cs as int == post_add.cs);
                assert(heat_at(ntext, i as int) == post_add.ws + post_add.cs);
            }
            heat.push((ws + cs) as i64);

            let ghost m0 = map@;
            push_position(&mut map, c as u32, i);
            proof {
                lemma_push_pos_membership(m0, map@, c, i);
                assert forall|c2: char, p: usize| #[trigger] list_has(map@, c2, p) <==> ((p < i
                    && registered_char(ntext, c2, p)) || (p == i && c2 == c)) by {
                    assert(list_has(map@, c2, p) <==> (list_has(m0, c2, p) || (c2 == c && p
                        == i)));
                    assert(list_has(m0, c2, p) <==> (p < i && registered_char(ntext, c2, p)));
                }
                assert forall|k: u32| #[trigger] map@.contains_key(k) implies pos_list_le(
                    map@[k]@,
                    i as int,
                ) by {
                    if k == c as u32 {
                        lemma_push_keeps_le(m0, k, i);
                    }
                }
            }
            let is_up = uppercase(c);
            if is_up {
                let folds = lowercase_chars(c);
                let m_len = folds.len();
                let mut j: usize = 0;
                while j < m_len
                    invariant
                        m_len == folds@.len(),
                        j <= m_len,
                        folds@ == crate::unicode::char_lower_of(c),
                        c == ntext[i as int],
                        crate::unicode::is_uppercase_char(c),
                        i < count,
                        count as int == heat_len(ntext),
                        forall|k: u32| #[trigger]
                            map@.contains_key(k) ==> pos_list_le(map@[k]@, i as int),
                        forall|c2: char, p: usize| #[trigger]
                            list_has(map@, c2, p) <==> ((p < i && registered_char(ntext, c2, p))
                                || (p == i && (c2 == c || folds@.take(j as int).contains(c2)))),
                    decreases m_len - j,
                {
                    let lc = folds[j];
                    let ghost m1 = map@;
                    push_position(&mut map, lc as u32, i);
                    proof {
                        lemma_push_pos_membership(m1, map@, lc, i);
                        assert(folds@.take(j as int + 1) =~= folds@.take(j as int).push(lc));
                        assert forall|c2: char, p: usize| #[trigger] list_has(map@, c2, p) <==> ((p
                            < i && registered_char(ntext, c2, p)) || (p == i && (c2 == c
                            || folds@.take(j as int + 1).contains(c2)))) by {
                            lemma_push_contains(folds@.take(j as int), lc, c2);
                            assert(list_has(map@, c2, p) <==> (list_has(m1, c2, p) || (c2 == lc
                                && p == i)));
                            assert(list_has(m1, c2, p) <==> ((p < i && registered_char(
                                ntext,
                                c2,
                                p,
                            )) || (p == i && (c2 == c || folds@.take(j as int).contains(c2)))));
                            assert(folds@.take(j as int + 1).contains(c2) <==> (folds@.take(
                                j as int,
                            ).contains(c2) || c2 == lc));
                        }
                        assert forall|k: u32| #[trigger] map@.contains_key(k) implies pos_list_le(
                            map@[k]@,
                            i as int,
                        ) by {
                            if k == lc as u32 {
                                lemma_push_keeps_le(m1, k, i);
                            }
                        }
                    }
                    j = j + 1;
                }
                proof {
                    assert(folds@.take(m_len as int) =~= folds@);
                }
            }
            proof {
                assert(registered_char(ntext, c, i));
                assert forall|c2: char, p: usize| #[trigger] list_has(map@, c2, p) <==> (p < i + 1
                    && registered_char(ntext, c2, p)) by {
                    if is_up {
                        assert(list_has(map@, c2, p) <==> ((p < i && registered_char(
                            ntext,
                            c2,
                            p,
                        )) || (p == i && (c2 == c || crate::unicode::char_lower_of(c).contains(
                            c2,
                        )))));
                    } else {
                        assert(list_has(map@, c2, p) <==> ((p < i && registered_char(
                            ntext,
                            c2,
                            p,
                        )) || (p == i && c2 == c)));
                        assert(!crate::unicode::is_uppercase_char(ntext[i as int]));
                    }
                }
                assert forall|k: u32| #[trigger] map@.contains_key(k) implies pos_list_ok(
                    map@[k]@,
                    i as int + 1,
                ) by {}
            }

            ws = ws / (SEPARATOR_REDUCE as u32);
            if !cs_change {
                cs = cs / (CLASS_REDUCE as u32);
            }
            proof {
                assert(acc_at(ntext, i as int + 1) == crate::heat::step_decay(post_add));
            }
            i = i + 1;
        }

        let r = LineInfo { line: item.to_owned(), map, heat, factor };
        proof {
            assert(r.norm() == ntext);
            assert forall|c2: char, p: usize| #[trigger] list_has(r.map@, c2, p)
                <==> registered_char(ntext, c2, p) by {}
        }
        r
    }

    /// Changes the tie-break factor after construction; the index and heat
    /// profile are untouched.
    pub fn set_factor(&mut self, factor: i64)
        requires
            old(self).wf(),
            -FACTOR_LIMIT <= factor <= FACTOR_LIMIT,
        ensures
            final(self).wf(),
            final(self).factor_of() == factor as int,
            final(self).text() == old(self).text(),
    {
        self.factor = factor;
    }

    /// The current tie-break factor.
    pub fn get_factor(&self) -> (r: i64)
        ensures
            r as int == self.factor_of(),
    {
        self.factor
    }
}

/// The result of a matcher call, as a mathematical option.
pub open spec fn opt_int(r: Option<i64>) -> Option<int> {
    match r {
        Some(v) => Some(v as int),
        None => None,
    }
}

/// The larger of two optional scores; an absent score loses to any present
/// one, and a tie keeps the first.
spec fn opt_max(a: Option<int>, b: Option<int>) -> Option<int> {
    match a {
        None => b,
        Some(x) => match b {
            None => a,
            Some(y) => if x >= y {
                a
            } else {
                b
            },
        },
    }
}

/// A strictly ascending position sequence grows at least as fast as its
/// indices.
pub proof fn lemma_pos_ge_index(pos: Seq<usize>, i: int)
    requires
        forall|a: int, b: int|
            #![trigger pos[a], pos[b]]
            0 <= a < b < pos.len() ==> pos[a] < pos[b],
        0 <= i < pos.len(),
    ensures
        pos[i] >= i,
    decreases i,
{
    if i > 0 {
        lemma_pos_ge_index(pos, i - 1);
        assert(pos[i - 1] < pos[i]);
    }
}

proof fn lemma_heat_total_take(text: Seq<char>, pos: Seq<usize>, i: int)
    requires
        0 <= i < pos.len(),
    ensures
        heat_total(text, pos.take(i + 1)) == heat_total(text, pos.take(i)) + heat_at(
            text,
            pos[i] as int,
        ),
    decreases i,
{
    if i == 0 {
        assert(pos.take(1).drop_first() =~= pos.take(0));
        assert(pos.take(0) =~= Seq::<usize>::empty());
    } else {
        let s = pos.drop_first();
        lemma_heat_total_take(text, s, i - 1);
        assert(pos.take(i + 1).drop_first() =~= s.take(i));
        assert(pos.take(i).drop_first() =~= s.take(i - 1));
        assert(heat_total(text, pos.take(i + 1)) == heat_at(text, pos[0] as int) + heat_total(
            text,
            s.take(i),
        ));
        assert(heat_total(text, pos.take(i)) == heat_at(text, pos[0] as int) + heat_total(
            text,
            s.take(i - 1),
        ));
        assert(s[i - 1] == pos[i]);
    }
}

/// The summed heat of in-range positions is nonnegative and bounded.
pub proof fn lemma_heat_total_bounds(text: Seq<char>, pos: Seq<usize>)
    requires
        forall|i: int| 0 <= i < pos.len() ==> #[trigger] pos[i] < heat_len(text),
    ensures
        0 <= heat_total(text, pos) <= pos.len() * (HEAT_BOUND as int),
    decreases pos.len(),
{
    if pos.len() > 0 {
        assert(pos[0] < heat_len(text));
        assert(heat_len(text) <= MAX_LEN);
        crate::heat::lemma_heat_at_bounds(text, pos[0] as int);
        let d = pos.drop_first();
        assert forall|i: int| 0 <= i < d.len() implies #[trigger] d[i] < heat_len(text) by {
            assert(d[i] == pos[i + 1]);
        }
        lemma_heat_total_bounds(text, d);
        assert(heat_total(text, pos) == heat_at(text, pos[0] as int) + heat_total(text, d));
        assert(pos.len() * (HEAT_BOUND as int) == (HEAT_BOUND as int) + d.len() * (
        HEAT_BOUND as int)) by (nonlinear_arith)
            requires
                pos.len() == d.len() + 1,
        ;
    }
}

/// What the backtracking search returns when the first `k` positions are
/// already fixed to `prefix.take(k)`: no result exactly when no complete
/// alignment extends the prefix, otherwise the best value among those that
/// do.
spec fn best_completion(
    text: Seq<char>,
    factor: int,
    q: Seq<char>,
    prefix: Seq<usize>,
    k: int,
    r: Option<int>,
) -> bool {
    match r {
        None => forall|pos: Seq<usize>|
            #![trigger valid_alignment(text, q, pos)]
            !(valid_alignment(text, q, pos) && pos.take(k) == prefix.take(k)),
        Some(s) => {
            &&& exists|pos: Seq<usize>|
                #![trigger valid_alignment(text, q, pos)]
                valid_alignment(text, q, pos) && pos.take(k) == prefix.take(k)
                    && alignment_value(text, factor, pos) == s
            &&& forall|pos: Seq<usize>|
                #![trigger valid_alignment(text, q, pos)]
                valid_alignment(text, q, pos) && pos.take(k) == prefix.take(k)
                    ==> alignment_value(text, factor, pos) <= s
        },
    }
}

/// As `best_completion`, restricted to alignments whose position for query
/// character `k` lies in `cand`.
spec fn best_within(
    text: Seq<char>,
    factor: int,
    q: Seq<char>,
    prefix: Seq<usize>,
    k: int,
    cand: Seq<usize>,
    r: Option<int>,
) -> bool {
    match r {
        None => forall|pos: Seq<usize>|
            #![trigger valid_alignment(text, q, pos)]
            !(valid_alignment(text, q, pos) && pos.take(k) == prefix.take(k) && cand.contains(
                pos[k],
            )),
        Some(s) => {
            &&& exists|pos: Seq<usize>|
                #![trigger valid_alignment(text, q, pos)]
                valid_alignment(text, q, pos) && pos.take(k) == prefix.take(k) && cand.contains(
                    pos[k],
                ) && alignment_value(text, factor, pos) == s
            &&& forall|pos: Seq<usize>|
                #![trigger valid_alignment(text, q, pos)]
                valid_alignment(text, q, pos) && pos.take(k) == prefix.take(k) && cand.contains(
                    pos[k],
                ) ==> alignment_value(text, factor, pos) <= s
        },
    }
}

/// As `best_completion`, restricted to alignments whose position for query
/// character `k` is exactly `p`.
spec fn best_at(
    text: Seq<char>,
    factor: int,
    q: Seq<char>,
    prefix: Seq<usize>,
    k: int,
    p: usize,
    r: Option<int>,
) -> bool {
    match r {
        None => forall|pos: Seq<usize>|
            #![trigger valid_alignment(text, q, pos)]
            !(valid_alignment(text, q, pos) && pos.take(k) == prefix.take(k) && pos[k] == p),
        Some(s) => {
            &&& exists|pos: Seq<usize>|
                #![trigger valid_alignment(text, q, pos)]
                valid_alignment(text, q, pos) && pos.take(k) == prefix.take(k) && pos[k] == p
                    && alignment_value(text, factor, pos) == s
            &&& forall|pos: Seq<usize>|
                #![trigger valid_alignment(text, q, pos)]
                valid_alignment(text, q, pos) && pos.take(k) == prefix.take(k) && pos[k] == p
                    ==> alignment_value(text, factor, pos) <= s
        },
    }
}

/// `s.take(i + 1)` is `s.take(i)` with `s[i]` appended.
proof fn lemma_take_succ(s: Seq<usize>, i: int)
    requires
        0 <= i < s.len(),
    ensures
        s.take(i + 1) == s.take(i).push(s[i]),
{
    assert(s.take(i + 1) =~= s.take(i).push(s[i]));
}

/// Extending the candidate prefix by one entry extends the covered
/// alignments by exactly those that use that entry.
proof fn lemma_extend_best_within(
    text: Seq<char>,
    factor: int,
    q: Seq<char>,
    prefix: Seq<usize>,
    k: int,
    cand: Seq<usize>,
    kk: int,
    p: usize,
    oldb: Option<int>,
    sub: Option<int>,
)
    requires
        0 <= kk < cand.len(),
        cand[kk] == p,
        best_within(text, factor, q, prefix, k, cand.take(kk), oldb),
        best_at(text, factor, q, prefix, k, p, sub),
    ensures
        best_within(text, factor, q, prefix, k, cand.take(kk + 1), opt_max(oldb, sub)),
{
    let taken = cand.take(kk);
    let candk1 = cand.take(kk + 1);
    assert(candk1 =~= taken.push(p));
    assert forall|x: usize| #[trigger] candk1.contains(x) <==> (taken.contains(x) || x == p) by {
        lemma_push_contains(taken, p, x);
    }
    let newb = opt_max(oldb, sub);
    match newb {
        None => {
            assert forall|pos: Seq<usize>|
                #![trigger valid_alignment(text, q, pos)]
                !(valid_alignment(text, q, pos) && pos.take(k) == prefix.take(k)
                    && candk1.contains(pos[k])) by {
                if valid_alignment(text, q, pos) && pos.take(k) == prefix.take(k)
                    && candk1.contains(pos[k]) {
                    if pos[k] == p {
                    } else {
                        assert(taken.contains(pos[k]));
                    }
                }
            }
        },
        Some(nb) => {
            if oldb is Some && oldb->Some_0 == nb {
                let w = choose|pos: Seq<usize>|
                    #![trigger valid_alignment(text, q, pos)]
                    valid_alignment(text, q, pos) && pos.take(k) == prefix.take(k)
                        && taken.contains(pos[k]) && alignment_value(text, factor, pos) == nb;
                assert(valid_alignment(text, q, w) && w.take(k) == prefix.take(k)
                    && candk1.contains(w[k]) && alignment_value(text, factor, w) == nb);
            } else {
                assert(sub == Some(nb));
                let w = choose|pos: Seq<usize>|
                    #![trigger valid_alignment(text, q, pos)]
                    valid_alignment(text, q, pos) && pos.take(k) == prefix.take(k) && pos[k] == p
                        && alignment_value(text, factor, pos) == nb;
                assert(valid_alignment(text, q, w) && w.take(k) == prefix.take(k)
                    && candk1.contains(w[k]) && alignment_value(text, factor, w) == nb);
            }
            assert forall|pos: Seq<usize>|
                valid_alignment(text, q, pos) && pos.take(k) == prefix.take(k)
                    && candk1.contains(pos[k]) implies alignment_value(text, factor, pos)
                <= nb by {
                if pos[k] == p {
                    assert(sub is Some && sub->Some_0 <= nb);
                } else {
                    assert(taken.contains(pos[k]));
                    assert(oldb is Some && oldb->Some_0 <= nb);
                }
            }
        },
    }
}

impl LineInfo {
    /// The ascending position list of a character, straight from the index.
    fn lookup(&self, c: char) -> (r: Option<&Vec<usize>>)
        requires
            self.wf(),
        ensures
            match r {
                Some(v) => {
                    &&& forall|p: usize| #[trigger]
                        v@.contains(p) <==> registered_char(self.norm(), c, p)
                    &&& pos_list_ok(v@, heat_len(self.norm()))
                },
                None => forall|p: usize| !registered_char(self.norm(), c, p),
            },
    {
        let k = c as u32;
        let got = self.map.get(&k);
        proof {
            match got {
                Some(v) => {
                    assert forall|p: usize| #[trigger] v@.contains(p) <==> registered_char(
                        self.norm(),
                        c,
                        p,
                    ) by {
                        assert(list_has(self.map@, c, p) <==> registered_char(self.norm(), c, p));
                    }
                    assert(self.heat@.len() == heat_len(self.norm()));
                },
                None => {
                    assert forall|p: usize| !registered_char(self.norm(), c, p) by {
                        assert(list_has(self.map@, c, p) <==> registered_char(self.norm(), c, p));
                    }
                },
            }
        }
        got
    }

    /// The score of one complete alignment: weighted heat of the chosen
    /// positions, plus the weighted factor, minus the compactness penalty.
    fn score_position(&self, position: &Vec<usize>) -> (r: i64)
        requires
            self.wf(),
            forall|i: int| 0 <= i < position@.len() ==> #[trigger] position@[i] < heat_len(
                self.norm(),
            ),
            forall|i: int, j: int|
                #![trigger position@[i], position@[j]]
                0 <= i < j < position@.len() ==> position@[i] < position@[j],
        ensures
            r as int == alignment_value(self.norm(), self.factor_of(), position@),
    {
        let ghost text = self.norm();
        let n = position.len();
        proof {
            assert(heat_len(text) <= MAX_LEN);
            if n > 0 {
                lemma_pos_ge_index(position@, n as int - 1);
            }
            assert(n <= MAX_LEN);
        }
        let mut hs: i64 = 0;
        let mut i: usize = 0;
        while i < n
            invariant
                self.wf(),
                text == self.norm(),
                n == position@.len(),
                n <= MAX_LEN,
                i <= n,
                forall|ii: int| 0 <= ii < position@.len() ==> #[trigger] position@[ii] < heat_len(
                    text,
                ),
                hs as int == heat_total(text, position@.take(i as int)),
                0 <= hs as int <= i * (HEAT_BOUND as int),
            decreases n - i,
        {
            let p = position[i];
            proof {
                lemma_heat_total_take(text, position@, i as int);
                assert(heat_len(text) <= MAX_LEN);
                crate::heat::lemma_heat_at_bounds(text, p as int);
                assert(self.heat@[p as int] as int == heat_at(text, p as int));
                assert(hs as int <= MAX_LEN * (HEAT_BOUND as int)) by (nonlinear_arith)
                    requires
                        hs as int <= i * (HEAT_BOUND as int),
                        0 <= i <= MAX_LEN as int,
                ;
                assert((i + 1) * (HEAT_BOUND as int) == i * (HEAT_BOUND as int) + (
                HEAT_BOUND as int)) by (nonlinear_arith);
            }
            hs = hs + self.heat[p];
            i = i + 1;
        }
        proof {
            assert(position@.take(n as int) =~= position@);
            assert(hs as int <= MAX_LEN * (HEAT_BOUND as int)) by (nonlinear_arith)
                requires
                    hs as int <= n * (HEAT_BOUND as int),
                    0 <= n <= MAX_LEN as int,
            ;
        }
        let penalty: usize = if n < 2 {
            0
        } else {
            let first = position[0];
            let last = position[n - 1];
            proof {
                assert(position@[0] < position@[n as int - 1]);
                assert(last < MAX_LEN);
            }
            let gap = last - first;
            (gap * (DIST_WEIGHT as usize)) / (n - 1)
        };
        proof {
            assert(penalty as int == gap_penalty(position@));
            assert(0 <= penalty as int <= MAX_LEN * (DIST_WEIGHT as int)) by {
                if n >= 2 {
                    vstd::arithmetic::div_mod::lemma_div_is_ordered(
                        (position@.last() - position@[0]) * (DIST_WEIGHT as int),
                        MAX_LEN * (DIST_WEIGHT as int),
                        n as int - 1,
                    );
                    vstd::arithmetic::div_mod::lemma_div_by_multiple(
                        MAX_LEN * (DIST_WEIGHT as int),
                        1,
                    );
                }
            }
        }
        hs * HEAT_WEIGHT + self.factor * FACTOR_REDUCE - (penalty as i64)
    }

    /// Exhaustive backtracking over the remaining query characters, keeping
    /// the best complete alignment that extends the fixed prefix.
    fn best_from(&self, query: &Vec<char>, position: &mut Vec<usize>, idx: usize) -> (r: Option<
        i64,
    >)
        requires
            self.wf(),
            idx <= query@.len(),
            old(position)@.len() == query@.len(),
            forall|i: int| 0 <= i < idx ==> registered_char(
                self.norm(),
                query@[i],
                #[trigger] old(position)@[i],
            ),
            forall|i: int, j: int|
                #![trigger old(position)@[i], old(position)@[j]]
                0 <= i < j < idx ==> old(position)@[i] < old(position)@[j],
        ensures
            final(position)@.len() == old(position)@.len(),
            forall|i: int| 0 <= i < idx ==> #[trigger] final(position)@[i] == old(position)@[i],
            best_completion(
                self.norm(),
                self.factor_of(),
                query@,
                final(position)@,
                idx as int,
                opt_int(r),
            ),
        decreases query@.len() - idx,
    {
        let ghost text = self.norm();
        let qlen = query.len();
        if idx == qlen {
            proof {
                assert forall|i: int| 0 <= i < position@.len() implies #[trigger] position@[i]
                    < heat_len(text) by {
                    assert(registered_char(text, query@[i], position@[i]));
                }
                assert(valid_alignment(text, query@, position@));
            }
            let s = self.score_position(position);
            proof {
                assert forall|pos: Seq<usize>|
                    valid_alignment(text, query@, pos) && pos.take(idx as int) == position@.take(
                        idx as int,
                    ) implies alignment_value(text, self.factor_of(), pos) == s as int by {
                    assert(pos.take(idx as int) =~= pos);
                    assert(position@.take(idx as int) =~= position@);
                    assert(pos == position@);
                }
                assert(valid_alignment(text, query@, position@) && position@.take(idx as int)
                    == position@.take(idx as int) && alignment_value(
                    text,
                    self.factor_of(),
                    position@,
                ) == s as int);
            }
            Some(s)
        } else {
            let copt = self.lookup(query[idx]);
            match copt {
                None => {
                    proof {
                        assert forall|pos: Seq<usize>| !(valid_alignment(text, query@, pos)
                            && pos.take(idx as int) == position@.take(idx as int)) by {
                            if valid_alignment(text, query@, pos) {
                                assert(registered_char(text, query@[idx as int], pos[idx as int]));
                            }
                        }
                    }
                    None
                },
                Some(list_ref) => {
                    let ghost cand = list_ref@;
                    let llen = list_ref.len();
                    let mut best: Option<i64> = None;
                    let mut kk: usize = 0;
                    proof {
                        assert(cand.take(0) =~= Seq::<usize>::empty());
                    }
                    while kk < llen
                        invariant
                            self.wf(),
                            text == self.norm(),
                            idx < query@.len(),
                            qlen == query@.len(),
                            kk <= llen,
                            llen == cand.len(),
                            forall|p: usize| #[trigger]
                                cand.contains(p) <==> registered_char(text, query@[idx as int], p),
                            pos_list_ok(cand, heat_len(text)),
                            list_ref@ == cand,
                            position@.len() == query@.len(),
                            forall|i: int| 0 <= i < idx ==> #[trigger] position@[i] == old(
                                position,
                            )@[i],
                            forall|i: int| 0 <= i < idx ==> registered_char(
                                text,
                                query@[i],
                                #[trigger] position@[i],
                            ),
                            forall|i: int, j: int|
                                #![trigger position@[i], position@[j]]
                                0 <= i < j < idx ==> position@[i] < position@[j],
                            best_within(
                                text,
                                self.factor_of(),
                                query@,
                                position@,
                                idx as int,
                                cand.take(kk as int),
                                opt_int(best),
                            ),
                        decreases llen - kk,
                    {
                        let p = list_ref[kk];
                        let ghost prefix0 = position@;
                        let ghost oldb = opt_int(best);
                        let admissible = if idx == 0 {
                            true
                        } else {
                            position[idx - 1] < p
                        };
                        if admissible {
                            position[idx] = p;
                            proof {
                                assert(position@ == prefix0.update(idx as int, p));
                                assert(position@.take(idx as int) =~= prefix0.take(idx as int));
                                assert(cand.contains(p)) by {
                                    assert(cand[kk as int] == p);
                                }
                                assert(registered_char(text, query@[idx as int], p));
                            }
                            let sub = self.best_from(query, position, idx + 1);
                            proof {
                                assert forall|i: int| 0 <= i < idx implies #[trigger] position@[i]
                                    == prefix0[i] by {}
                                assert(position@[idx as int] == p);
                                assert(position@.take(idx as int) =~= prefix0.take(idx as int));
                                // A completion fixing position `idx` to `p` is exactly a
                                // completion of the extended prefix.
                                assert(best_at(
                                    text,
                                    self.factor_of(),
                                    query@,
                                    position@,
                                    idx as int,
                                    p,
                                    opt_int(sub),
                                )) by {
                                    lemma_take_succ(position@, idx as int);
                                    assert forall|pos: Seq<usize>|
                                        #![trigger valid_alignment(text, query@, pos)]
                                        valid_alignment(text, query@, pos) implies ((pos.take(
                                        idx as int,
                                    ) == position@.take(idx as int) && pos[idx as int] == p)
                                        <==> pos.take(idx as int + 1) == position@.take(
                                        idx as int + 1,
                                    )) by {
                                        if pos.len() > idx {
                                            lemma_take_succ(pos, idx as int);
                                            if pos.take(idx as int + 1) == position@.take(
                                                idx as int + 1,
                                            ) {
                                                assert(pos.take(idx as int) =~= pos.take(
                                                    idx as int + 1,
                                                ).take(idx as int));
                                                assert(position@.take(idx as int)
                                                    =~= position@.take(idx as int + 1).take(
                                                    idx as int,
                                                ));
                                                assert(pos.take(idx as int + 1)[idx as int]
                                                    == pos[idx as int]);
                                                assert(position@.take(idx as int + 1)[idx as int]
                                                    == p);
                                            } else if pos.take(idx as int) == position@.take(
                                                idx as int,
                                            ) && pos[idx as int] == p {
                                                assert(pos.take(idx as int + 1) =~= position@.take(
                                                    idx as int + 1,
                                                ));
                                            }
                                        }
                                    }
                                    match opt_int(sub) {
                                        None => {},
                                        Some(sv) => {
                                            let w = choose|pos: Seq<usize>|
                                                #![trigger valid_alignment(text, query@, pos)]
                                                valid_alignment(text, query@, pos) && pos.take(
                                                    idx as int + 1,
                                                ) == position@.take(idx as int + 1)
                                                    && alignment_value(
                                                    text,
                                                    self.factor_of(),
                                                    pos,
                                                ) == sv;
                                            assert(valid_alignment(text, query@, w) && w.take(
                                                idx as int,
                                            ) == position@.take(idx as int) && w[idx as int] == p
                                                && alignment_value(text, self.factor_of(), w)
                                                == sv);
                                        },
                                    }
                                }
                                lemma_extend_best_within(
                                    text,
                                    self.factor_of(),
                                    query@,
                                    position@,
                                    idx as int,
                                    cand,
                                    kk as int,
                                    p,
                                    oldb,
                                    opt_int(sub),
                                );
                            }
                            match sub {
                                Some(sv) => {
                                    let replace = match best {
                                        Some(b) => sv > b,
                                        None => true,
                                    };
                                    if replace {
                                        best = Some(sv);
                                    }
                                    proof {
                                        assert(opt_int(best) == opt_max(oldb, opt_int(sub)));
                                    }
                                },
                                None => {
                                    proof {
                                        assert(opt_int(best) == opt_max(oldb, opt_int(sub)));
                                    }
                                },
                            }
                        } else {
                            proof {
                                assert(cand.contains(p)) by {
                                    assert(cand[kk as int] == p);
                                }
                                assert(best_at(
                                    text,
                                    self.factor_of(),
                                    query@,
                                    position@,
                                    idx as int,
                                    p,
                                    None,
                                )) by {
                                    assert forall|pos: Seq<usize>|
                                        #![trigger valid_alignment(text, query@, pos)]
                                        !(valid_alignment(text, query@, pos) && pos.take(
                                            idx as int,
                                        ) == position@.take(idx as int) && pos[idx as int]
                                            == p) by {
                                        if valid_alignment(text, query@, pos) && pos.take(
                                            idx as int,
                                        ) == position@.take(idx as int) && pos[idx as int] == p {
                                            assert(pos.take(idx as int)[idx as int - 1] == pos[
                                                idx as int - 1]);
                                            assert(pos[idx as int - 1] == position@[idx as int
                                                - 1]);
                                            assert(pos[idx as int - 1] < pos[idx as int]);
                                        }
                                    }
                                }
                                lemma_extend_best_within(
                                    text,
                                    self.factor_of(),
                                    query@,
                                    position@,
                                    idx as int,
                                    cand,
                                    kk as int,
                                    p,
                                    oldb,
                                    None,
                                );
                                assert(opt_int(best) == opt_max(oldb, None));
                            }
                        }
                        kk = kk + 1;
                    }
                    proof {
                        assert(cand.take(llen as int) =~= cand);
                        match best {
                            None => {
                                assert forall|pos: Seq<usize>| !(valid_alignment(
                                    text,
                                    query@,
                                    pos,
                                ) && pos.take(idx as int) == position@.take(idx as int)) by {
                                    if valid_alignment(text, query@, pos) && pos.take(idx as int)
                                        == position@.take(idx as int) {
                                        assert(registered_char(
                                            text,
                                            query@[idx as int],
                                            pos[idx as int],
                                        ));
                                        assert(cand.contains(pos[idx as int]));
                                    }
                                }
                            },
                            Some(_) => {
                                assert forall|pos: Seq<usize>|
                                    valid_alignment(text, query@, pos) && pos.take(idx as int)
                                        == position@.take(idx as int) implies cand.contains(
                                    pos[idx as int],
                                ) by {
                                    assert(registered_char(
                                        text,
                                        query@[idx as int],
                                        pos[idx as int],
                                    ));
                                }
                            },
                        }
                    }
                    best
                },
            }
        }
    }
}

impl LineInfo {
    /// A copy of the raw line text.
    pub fn text_string(&self) -> (r: String)
        ensures
            r@ == self.text(),
    {
        self.line.clone()
    }

    /// Matches a normalized, whitespace-stripped, case-folded query against
    /// this record: no result exactly when the query cannot be aligned, the
    /// best alignment's score otherwise.
    pub fn score(&self, query: &Vec<char>) -> (r: Option<i64>)
        requires
            self.wf(),
        ensures
            best_match(self.norm(), self.factor_of(), query@, opt_int(r)),
    {
        let ghost text = self.norm();
        let qlen = query.len();
        let mut t: usize = 0;
        while t < qlen
            invariant
                self.wf(),
                text == self.norm(),
                qlen == query@.len(),
                t <= qlen,
            decreases qlen - t,
        {
            let present = self.lookup(query[t]);
            if present.is_none() {
                proof {
                    assert forall|pos: Seq<usize>| !valid_alignment(text, query@, pos) by {
                        if valid_alignment(text, query@, pos) {
                            assert(registered_char(text, query@[t as int], pos[t as int]));
                        }
                    }
                }
                return None;
            }
            t = t + 1;
        }
        let mut position: Vec<usize> = Vec::new();
        let mut u: usize = 0;
        while u < qlen
            invariant
                position@.len() == u,
                u <= qlen,
            decreases qlen - u,
        {
            position.push(0);
            u = u + 1;
        }
        let r = self.best_from(query, &mut position, 0);
        proof {
            let pre = position@;
            match opt_int(r) {
                None => {
                    assert forall|pos: Seq<usize>| !valid_alignment(text, query@, pos) by {
                        assert(pos.take(0) =~= pre.take(0));
                    }
                },
                Some(sv) => {
                    let w = choose|pos: Seq<usize>|
                        #![trigger valid_alignment(text, query@, pos)]
                        valid_alignment(text, query@, pos) && pos.take(0) == pre.take(0)
                            && alignment_value(text, self.factor_of(), pos) == sv;
                    assert(valid_alignment(text, query@, w) && alignment_value(
                        text,
                        self.factor_of(),
                        w,
                    ) == sv);
                    assert forall|pos: Seq<usize>|
                        valid_alignment(text, query@, pos) implies alignment_value(
                        text,
                        self.factor_of(),
                        pos,
                    ) <= sv by {
                        assert(pos.take(0) =~= pre.take(0));
                    }
                },
            }
        }
        r
    }
}

} // verus!
