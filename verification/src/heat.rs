//! The heat profile: a per-position desirability value, defined as a fold
//! over the normalized character sequence. The executable indexer is proved
//! to compute exactly this fold.
use vstd::prelude::*;
use crate::classify::{CharClass, spec_char_class};
use crate::unicode::is_whitespace_char;
use crate::constants::{
    MAX_LEN, SEPARATOR_FACTOR, AFTER_SEPARATOR_FACTOR, FIRST_FACTOR, CLASS_FACTOR,
    SEPARATOR_REDUCE, CLASS_REDUCE, HEAT_BOUND,
};

verus! {

/// The running state of the heat fold: the separator accumulator, the class
/// accumulator, the class of the previous character, whether the current
/// class run has already been boosted, and whether the first non-whitespace
/// character is still to come.
pub struct HeatAcc {
    pub ws: int,
    pub cs: int,
    pub last: CharClass,
    pub cs_change: bool,
    pub first_pending: bool,
}

pub open spec fn init_acc() -> HeatAcc {
    HeatAcc { ws: 0, cs: 0, last: CharClass::First, cs_change: false, first_pending: true }
}

/// The additions a character makes to the accumulators: a separator resets
/// the separator accumulator; any other character collects an
/// after-separator bonus and, once per run, a class-transition bonus; the
/// first non-whitespace character of the line collects an extra boost.
pub open spec fn step_add(acc: HeatAcc, c: char) -> HeatAcc {
    let cls = spec_char_class(c);
    let fboost: int = if acc.first_pending && !is_whitespace_char(c) {
        FIRST_FACTOR as int
    } else {
        0
    };
    let pending = acc.first_pending && is_whitespace_char(c);
    if cls == CharClass::Separator {
        HeatAcc {
            ws: SEPARATOR_FACTOR as int,
            cs: acc.cs + fboost,
            last: cls,
            cs_change: acc.cs_change,
            first_pending: pending,
        }
    } else {
        let sep_bonus: int = if acc.last == CharClass::Separator {
            AFTER_SEPARATOR_FACTOR as int
        } else {
            0
        };
        let class_bonus: int = if cls != acc.last && !acc.cs_change {
            CLASS_FACTOR as int
        } else {
            0
        };
        HeatAcc {
            ws: acc.ws,
            cs: acc.cs + fboost + sep_bonus + class_bonus,
            last: cls,
            cs_change: cls != acc.last,
            first_pending: pending,
        }
    }
}

/// The heat recorded for a position: both accumulators, after the additions
/// and before the decay.
pub open spec fn emit(acc: HeatAcc) -> int {
    acc.ws + acc.cs
}

/// The geometric decay applied after every position; the class accumulator
/// is held steady while a fresh class run is still being rewarded.
pub open spec fn step_decay(acc: HeatAcc) -> HeatAcc {
    HeatAcc {
        ws: acc.ws / (SEPARATOR_REDUCE as int),
        cs: if !acc.cs_change {
            acc.cs / (CLASS_REDUCE as int)
        } else {
            acc.cs
        },
        last: acc.last,
        cs_change: acc.cs_change,
        first_pending: acc.first_pending,
    }
}

/// The accumulator state after the first `n` characters of `text`.
pub open spec fn acc_at(text: Seq<char>, n: int) -> HeatAcc
    decreases n,
{
    if n <= 0 {
        init_acc()
    } else {
        step_decay(step_add(acc_at(text, n - 1), text[n - 1]))
    }
}

/// The heat of position `i` of `text`.
pub open spec fn heat_at(text: Seq<char>, i: int) -> int {
    emit(step_add(acc_at(text, i), text[i]))
}

/// How many positions of `text` are indexed and heat-scored.
pub open spec fn heat_len(text: Seq<char>) -> int {
    if text.len() <= MAX_LEN {
        text.len() as int
    } else {
        MAX_LEN as int
    }
}

/// Whether the stored heat vector is exactly the heat profile of `text`.
pub open spec fn heat_models(h: Seq<i64>, text: Seq<char>) -> bool {
    &&& h.len() == heat_len(text)
    &&& forall|i: int| 0 <= i < h.len() ==> #[trigger] h[i] as int == heat_at(text, i)
}

pub proof fn lemma_acc_bounds(text: Seq<char>, n: int)
    requires
        0 <= n,
    ensures
        0 <= acc_at(text, n).ws <= SEPARATOR_FACTOR as int,
        0 <= acc_at(text, n).cs <= 160 * n,
    decreases n,
{
    if n > 0 {
        lemma_acc_bounds(text, n - 1);
    }
}

/// Every position's heat is nonnegative and bounded by `HEAT_BOUND`.
pub proof fn lemma_heat_at_bounds(text: Seq<char>, i: int)
    requires
        0 <= i < MAX_LEN,
    ensures
        0 <= heat_at(text, i) <= HEAT_BOUND as int,
{
    lemma_acc_bounds(text, i);
}

} // verus!
