//! The entry points: the standalone scorer and the corpus ranker.
use vstd::prelude::*;
use crate::line::{LineInfo, opt_int};
use crate::unicode::{nfkc_of, whitespace, uppercase, lowercase_chars, nfkc_chars, str_eq};
use crate::model::{
    fold_query, fold_one, query_of, best_match, matched, valid_alignment, alignment_value,
};
use crate::constants::{EXACT_BOOST, FACTOR_LIMIT};

verus! {

proof fn lemma_fold_query_take(s: Seq<char>, i: int)
    requires
        0 <= i < s.len(),
    ensures
        fold_query(s.take(i + 1)) == fold_query(s.take(i)) + fold_one(s[i]),
    decreases i,
{
    if i == 0 {
        assert(s.take(1).drop_first() =~= s.take(0));
        assert(s.take(0) =~= Seq::<char>::empty());
        assert(fold_query(s.take(0)) + fold_one(s[0]) =~= fold_one(s[0]));
        assert(fold_query(s.take(1)) == fold_one(s.take(1)[0]) + fold_query(s.take(1).drop_first()));
        assert(fold_query(s.take(1)) =~= fold_one(s[0]));
    } else {
        let d = s.drop_first();
        lemma_fold_query_take(d, i - 1);
        assert(s.take(i + 1).drop_first() =~= d.take(i));
        assert(s.take(i).drop_first() =~= d.take(i - 1));
        assert(d[i - 1] == s[i]);
        assert(fold_query(s.take(i + 1)) == fold_one(s[0]) + fold_query(d.take(i)));
        assert(fold_query(s.take(i)) == fold_one(s[0]) + fold_query(d.take(i - 1)));
        assert(fold_one(s[0]) + (fold_query(d.take(i - 1)) + fold_one(d[i - 1])) =~= (fold_one(
            s[0],
        ) + fold_query(d.take(i - 1))) + fold_one(d[i - 1]));
    }
}

/// Normalizes a query: NFKC, whitespace stripped, uppercase characters
/// folded to their lowercase mapping.
pub fn normalize_query(pattern: &str) -> (r: Vec<char>)
    ensures
        r@ == query_of(pattern@),
{
    let norm = nfkc_chars(pattern);
    let ghost ns = norm@;
    let mut out: Vec<char> = Vec::new();
    let n = norm.len();
    let mut i: usize = 0;
    while i < n
        invariant
            n == ns.len(),
            i <= n,
            norm@ == ns,
            out@ == fold_query(ns.take(i as int)),
        decreases n - i,
    {
        let c = norm[i];
        proof {
            lemma_fold_query_take(ns, i as int);
        }
        let is_ws = whitespace(c);
        if !is_ws {
            if uppercase(c) {
                let folds = lowercase_chars(c);
                let m = folds.len();
                let ghost base = out@;
                let mut j: usize = 0;
                while j < m
                    invariant
                        m == folds@.len(),
                        j <= m,
                        folds@ == crate::unicode::char_lower_of(c),
                        out@ == base + folds@.take(j as int),
                    decreases m - j,
                {
                    let lc = folds[j];
                    out.push(lc);
                    proof {
                        assert(base + folds@.take(j as int + 1) =~= (base + folds@.take(
                            j as int,
                        )).push(lc));
                    }
                    j = j + 1;
                }
                proof {
                    assert(folds@.take(m as int) =~= folds@);
                    assert(fold_one(c) == crate::unicode::char_lower_of(c));
                }
            } else {
                out.push(c);
                proof {
                    assert(fold_query(ns.take(i as int)) + fold_one(c) =~= fold_query(
                        ns.take(i as int),
                    ).push(c));
                }
            }
        } else {
            proof {
                assert(fold_query(ns.take(i as int)) + fold_one(c) =~= fold_query(
                    ns.take(i as int),
                ));
            }
        }
        i = i + 1;
    }
    proof {
        assert(ns.take(n as int) =~= ns);
    }
    out
}

/// Scores one line against one pattern, with no corpus: no result when
/// either is empty or the pattern cannot be aligned; otherwise the best
/// alignment's score, with a large tie-break boost when line and pattern
/// are exactly equal.
pub fn score(line: &str, pattern: &str) -> (r: Option<i64>)
    ensures
        (line@.len() == 0 || pattern@.len() == 0) ==> r is None,
        (line@.len() > 0 && pattern@.len() > 0) ==> best_match(
            nfkc_of(line@),
            if line@ == pattern@ {
                EXACT_BOOST as int
            } else {
                0
            },
            query_of(pattern@),
            opt_int(r),
        ),
{
    if line.is_empty() || pattern.is_empty() {
        return None;
    }
    let factor: i64 = if str_eq(line, pattern) {
        EXACT_BOOST
    } else {
        0
    };
    let li = LineInfo::new(line, factor);
    let q = normalize_query(pattern);
    li.score(&q)
}

/// The selection key of a ranked candidate: score first, tie-break factor
/// second, both descending.
pub open spec fn key_le(s1: int, f1: int, s2: int, f2: int) -> bool {
    s1 < s2 || (s1 == s2 && f1 <= f2)
}

/// A ranking candidate carries its score, its record's factor, and the
/// record's position in the corpus.
pub open spec fn cand_ok(recs: Seq<LineInfo>, q: Seq<char>, c: (i64, i64, usize)) -> bool {
    &&& 0 <= c.2 < recs.len()
    &&& best_match(recs[c.2 as int].norm(), recs[c.2 as int].factor_of(), q, Some(c.0 as int))
    &&& c.1 as int == recs[c.2 as int].factor_of()
}

/// What a query's output promises: each entry is the text of a distinct
/// matched record (`sel` names it, `sc` its best score), entries come best
/// first, and a matched record was left out only because the output is full
/// and its key is no better than the worst kept one.
pub open spec fn query_result_ok(
    recs: Seq<LineInfo>,
    q: Seq<char>,
    limit: int,
    out: Seq<String>,
    sel: Seq<int>,
    sc: Seq<int>,
) -> bool {
    &&& sel.len() == out.len()
    &&& sc.len() == out.len()
    &&& forall|i: int| 0 <= i < sel.len() ==> 0 <= #[trigger] sel[i] < recs.len()
    &&& forall|i: int, j: int|
        #![trigger sel[i], sel[j]]
        0 <= i < j < sel.len() ==> sel[i] != sel[j]
    &&& forall|i: int| 0 <= i < sel.len() ==> #[trigger] out[i]@ == recs[sel[i]].text()
    &&& forall|i: int|
        0 <= i < sel.len() ==> best_match(
            recs[sel[i]].norm(),
            recs[sel[i]].factor_of(),
            q,
            Some(#[trigger] sc[i]),
        )
    &&& forall|i: int, j: int|
        #![trigger sc[i], sc[j]]
        0 <= i < j < sel.len() ==> key_le(
            sc[j],
            recs[sel[j]].factor_of(),
            sc[i],
            recs[sel[i]].factor_of(),
        )
    &&& forall|j: int|
        0 <= j < recs.len() && matched(#[trigger] recs[j].norm(), q) && !sel.contains(j) ==> {
            &&& sel.len() == limit
            &&& sel.len() == 0 || (forall|s: int|
                best_match(recs[j].norm(), recs[j].factor_of(), q, Some(s)) ==> key_le(
                    s,
                    recs[j].factor_of(),
                    sc.last(),
                    recs[sel.last()].factor_of(),
                ))
        }
}

/// A corpus of line records, queried as a whole and ranked best first.
pub struct SearchBase {
    lines: Vec<LineInfo>,
}

impl SearchBase {
    pub closed spec fn records(&self) -> Seq<LineInfo> {
        self.lines@
    }

    pub closed spec fn wf(&self) -> bool {
        forall|i: int| 0 <= i < self.lines@.len() ==> (#[trigger] self.lines@[i]).wf()
    }

    /// An empty corpus.
    pub fn new() -> (r: SearchBase)
        ensures
            r.wf(),
            r.records().len() == 0,
    {
        SearchBase { lines: Vec::new() }
    }

    /// Appends one prebuilt record.
    pub fn add(&mut self, li: LineInfo)
        requires
            old(self).wf(),
            li.wf(),
        ensures
            final(self).wf(),
            final(self).records() == old(self).records().push(li),
    {
        self.lines.push(li);
    }

    /// Builds a record from raw text and a tie-break factor and appends it.
    pub fn add_line(&mut self, text: &str, factor: i64)
        requires
            old(self).wf(),
            -FACTOR_LIMIT <= factor <= FACTOR_LIMIT,
        ensures
            final(self).wf(),
            final(self).records().len() == old(self).records().len() + 1,
            final(self).records().take(old(self).records().len() as int) == old(self).records(),
            final(self).records().last().text() == text@,
            final(self).records().last().factor_of() == factor as int,
    {
        let li = LineInfo::new(text, factor);
        self.lines.push(li);
        proof {
            assert(self.lines@.take(old(self).lines@.len() as int) =~= old(self).lines@);
        }
    }


    /// Ranks the corpus against a pattern: every record is matched, the
    /// best `limit` matching lines are returned best first.
    pub fn query(&self, pattern: &str, limit: usize) -> (r: Vec<String>)
        requires
            self.wf(),
        ensures
            r@.len() <= limit,
            (pattern@.len() == 0 || limit == 0) ==> r@.len() == 0,
            (pattern@.len() > 0 && limit > 0) ==> exists|sel: Seq<int>, sc: Seq<int>|
                query_result_ok(self.records(), query_of(pattern@), limit as int, r@, sel, sc),
    {
        let mut out: Vec<String> = Vec::new();
        if pattern.is_empty() || limit == 0 {
            return out;
        }
        let ghost recs = self.lines@;
        let q = normalize_query(pattern);
        let mut cands: Vec<(i64, i64, usize)> = Vec::new();
        let n = self.lines.len();
        let mut i: usize = 0;
        while i < n
            invariant
                self.wf(),
                recs == self.lines@,
                n == recs.len(),
                i <= n,
                q@ == query_of(pattern@),
                forall|t: int| 0 <= t < cands@.len() ==> cand_ok(recs, q@, #[trigger] cands@[t]),
                forall|t: int| 0 <= t < cands@.len() ==> (#[trigger] cands@[t]).2 < i,
                forall|t1: int, t2: int|
                    #![trigger cands@[t1], cands@[t2]]
                    0 <= t1 < t2 < cands@.len() ==> cands@[t1].2 < cands@[t2].2,
                forall|j: int|
                    0 <= j < i && matched((#[trigger] recs[j]).norm(), q@) ==> exists|t: int|
                        0 <= t < cands@.len() && (#[trigger] cands@[t]).2 == j,
            decreases n - i,
        {
            let sres = self.lines[i].score(&q);
            let f = self.lines[i].get_factor();
            match sres {
                Some(s) => {
                    let ghost c0 = cands@;
                    cands.push((s, f, i));
                    proof {
                        assert(cands@[c0.len() as int].2 == i);
                        assert forall|j: int|
                            0 <= j < i + 1 && matched((#[trigger] recs[j]).norm(), q@)
                            implies exists|t: int|
                            0 <= t < cands@.len() && (#[trigger] cands@[t]).2 == j by {
                            if j < i {
                                let t = choose|t: int| 0 <= t < c0.len() && (#[trigger] c0[t]).2
                                    == j;
                                assert(cands@[t].2 == j);
                            } else {
                                assert(cands@[c0.len() as int].2 == j);
                            }
                        }
                    }
                },
                None => {
                    proof {
                        assert(!matched(recs[i as int].norm(), q@)) by {
                            if matched(recs[i as int].norm(), q@) {
                                let pos = choose|pos: Seq<usize>|
                                    valid_alignment(recs[i as int].norm(), q@, pos);
                                assert(!valid_alignment(recs[i as int].norm(), q@, pos));
                            }
                        }
                    }
                },
            }
            i = i + 1;
        }
        let mut picked: Vec<(i64, i64, usize)> = Vec::new();
        while out.len() < limit && cands.len() > 0
            invariant
                self.wf(),
                recs == self.lines@,
                q@ == query_of(pattern@),
                out@.len() == picked@.len(),
                picked@.len() <= limit,
                forall|t: int| 0 <= t < cands@.len() ==> cand_ok(recs, q@, #[trigger] cands@[t]),
                forall|u: int| 0 <= u < picked@.len() ==> cand_ok(recs, q@, #[trigger] picked@[u]),
                forall|u: int| 0 <= u < picked@.len() ==> #[trigger] out@[u]@ == recs[picked@[
                    u].2 as int].text(),
                forall|t1: int, t2: int|
                    #![trigger cands@[t1], cands@[t2]]
                    0 <= t1 < t2 < cands@.len() ==> cands@[t1].2 != cands@[t2].2,
                forall|u1: int, u2: int|
                    #![trigger picked@[u1], picked@[u2]]
                    0 <= u1 < u2 < picked@.len() ==> picked@[u1].2 != picked@[u2].2,
                forall|t: int, u: int|
                    #![trigger cands@[t], picked@[u]]
                    0 <= t < cands@.len() && 0 <= u < picked@.len() ==> cands@[t].2 != picked@[
                        u].2,
                forall|j: int|
                    0 <= j < recs.len() && matched((#[trigger] recs[j]).norm(), q@) ==> (exists|
                        t: int,
                    | 0 <= t < cands@.len() && (#[trigger] cands@[t]).2 == j) || (exists|u: int|
                        0 <= u < picked@.len() && (#[trigger] picked@[u]).2 == j),
                forall|u1: int, u2: int|
                    #![trigger picked@[u1], picked@[u2]]
                    0 <= u1 < u2 < picked@.len() ==> key_le(
                        picked@[u2].0 as int,
                        picked@[u2].1 as int,
                        picked@[u1].0 as int,
                        picked@[u1].1 as int,
                    ),
                forall|t: int|
                    0 <= t < cands@.len() && picked@.len() > 0 ==> key_le(
                        (#[trigger] cands@[t]).0 as int,
                        cands@[t].1 as int,
                        picked@.last().0 as int,
                        picked@.last().1 as int,
                    ),
            decreases cands@.len(),
        {
            let m = cands.len();
            let mut bt: usize = 0;
            let mut t: usize = 1;
            while t < m
                invariant
                    m == cands@.len(),
                    0 < m,
                    bt < t,
                    t <= m,
                    forall|u: int|
                        0 <= u < t ==> key_le(
                            (#[trigger] cands@[u]).0 as int,
                            cands@[u].1 as int,
                            cands@[bt as int].0 as int,
                            cands@[bt as int].1 as int,
                        ),
                decreases m - t,
            {
                let better = cands[t].0 > cands[bt].0 || (cands[t].0 == cands[bt].0 && cands[t].1
                    > cands[bt].1);
                if better {
                    bt = t;
                }
                t = t + 1;
            }
            let ghost c0 = cands@;
            let ghost p0 = picked@;
            let chosen = cands.remove(bt);
            proof {
                assert(chosen == c0[bt as int]);
                assert(cands@ == c0.remove(bt as int));
                assert forall|x: int| 0 <= x < cands@.len() implies #[trigger] cands@[x] == (if x
                    < bt {
                    c0[x]
                } else {
                    c0[x + 1]
                }) by {}
                assert(cand_ok(recs, q@, chosen));
                assert(chosen.2 < recs.len());
            }
            out.push(self.lines[chosen.2].text_string());
            picked.push(chosen);
            proof {
                assert(picked@ == p0.push(chosen));
                assert(picked@.last() == chosen);
                // every remaining candidate is no better than the one chosen
                assert forall|x: int|
                    0 <= x < cands@.len() implies key_le(
                    (#[trigger] cands@[x]).0 as int,
                    cands@[x].1 as int,
                    chosen.0 as int,
                    chosen.1 as int,
                ) by {
                    if x < bt {
                        assert(cands@[x] == c0[x]);
                    } else {
                        assert(cands@[x] == c0[x + 1]);
                    }
                }
                // the chosen one is no better than anything picked earlier
                assert forall|u: int|
                    0 <= u < p0.len() implies key_le(
                    chosen.0 as int,
                    chosen.1 as int,
                    (#[trigger] p0[u]).0 as int,
                    p0[u].1 as int,
                ) by {
                    assert(key_le(
                        c0[bt as int].0 as int,
                        c0[bt as int].1 as int,
                        p0.last().0 as int,
                        p0.last().1 as int,
                    ));
                    assert(key_le(
                        p0.last().0 as int,
                        p0.last().1 as int,
                        p0[u].0 as int,
                        p0[u].1 as int,
                    ));
                }
                // a matched record still sits in one of the two pools
                assert forall|j: int|
                    0 <= j < recs.len() && matched((#[trigger] recs[j]).norm(), q@) implies (
                exists|t2: int| 0 <= t2 < cands@.len() && (#[trigger] cands@[t2]).2 == j) || (
                exists|u: int| 0 <= u < picked@.len() && (#[trigger] picked@[u]).2 == j) by {
                    if exists|t2: int| 0 <= t2 < c0.len() && (#[trigger] c0[t2]).2 == j {
                        let t2 = choose|t2: int| 0 <= t2 < c0.len() && (#[trigger] c0[t2]).2 == j;
                        if t2 == bt {
                            assert(picked@[p0.len() as int].2 == j);
                        } else if t2 < bt {
                            assert(cands@[t2].2 == j);
                        } else {
                            assert(cands@[t2 - 1].2 == j);
                        }
                    } else {
                        let u = choose|u: int| 0 <= u < p0.len() && (#[trigger] p0[u]).2 == j;
                        assert(picked@[u].2 == j);
                    }
                }
            }
        }
        proof {
            let sel = Seq::new(picked@.len() as nat, |u: int| picked@[u].2 as int);
            let sc = Seq::new(picked@.len() as nat, |u: int| picked@[u].0 as int);
            assert(query_result_ok(recs, q@, limit as int, out@, sel, sc)) by {
                assert forall|u: int| 0 <= u < sel.len() implies #[trigger] out@[u]@ == recs[
                    sel[u]].text() by {
                    assert(out@[u]@ == recs[picked@[u].2 as int].text());
                }
                assert forall|u: int| 0 <= u < sel.len() implies best_match(
                    recs[sel[u]].norm(),
                    recs[sel[u]].factor_of(),
                    q@,
                    Some(#[trigger] sc[u]),
                ) by {
                    assert(cand_ok(recs, q@, picked@[u]));
                }
                assert forall|j: int|
                    0 <= j < recs.len() && matched((#[trigger] recs[j]).norm(), q@)
                        && !sel.contains(j) implies {
                    &&& sel.len() == limit
                    &&& sel.len() == 0 || (forall|s: int|
                        best_match(recs[j].norm(), recs[j].factor_of(), q@, Some(s)) ==> key_le(
                            s,
                            recs[j].factor_of(),
                            sc.last(),
                            recs[sel.last()].factor_of(),
                        ))
                } by {
                    if exists|u: int| 0 <= u < picked@.len() && (#[trigger] picked@[u]).2 == j {
                        let u = choose|u: int|
                            0 <= u < picked@.len() && (#[trigger] picked@[u]).2 == j;
                        assert(sel[u] == j);
                        assert(false);
                    }
                    let t = choose|t: int| 0 <= t < cands@.len() && (#[trigger] cands@[t]).2 == j;
                    assert(out@.len() == limit);
                    assert(picked@.len() > 0);
                    assert(cand_ok(recs, q@, cands@[t]));
                    assert forall|s: int|
                        best_match(recs[j].norm(), recs[j].factor_of(), q@, Some(s))
                            implies key_le(
                        s,
                        recs[j].factor_of(),
                        sc.last(),
                        recs[sel.last()].factor_of(),
                    ) by {
                        crate::model::lemma_best_match_unique(
                            recs[j].norm(),
                            recs[j].factor_of(),
                            q@,
                            s,
                            cands@[t].0 as int,
                        );
                        assert(key_le(
                            cands@[t].0 as int,
                            cands@[t].1 as int,
                            picked@.last().0 as int,
                            picked@.last().1 as int,
                        ));
                        assert(sc.last() == picked@[picked@.len() - 1].0 as int);
                        assert(sel.last() == picked@[picked@.len() - 1].2 as int);
                        assert(cand_ok(recs, q@, picked@[picked@.len() - 1]));
                    }
                }
            }
            assert(recs == self.records());
            assert(query_result_ok(
                self.records(),
                query_of(pattern@),
                limit as int,
                out@,
                sel,
                sc,
            ));
        }
        out
    }

    /// The number of records in the corpus.
    pub fn len(&self) -> (r: usize)
        ensures
            r == self.records().len(),
    {
        self.lines.len()
    }
}

} // verus!
