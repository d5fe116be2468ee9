use vstd::prelude::*;

verus! {

/// Number of leading characters of a normalized line that are indexed and
/// heat-scored; characters beyond this cap are ignored.
pub const MAX_LEN: usize = 80;

/// Heat contributed while the separator accumulator is fresh.
pub const SEPARATOR_FACTOR: i64 = 50;

/// Boost to the class accumulator for the character right after a separator.
pub const AFTER_SEPARATOR_FACTOR: i64 = 100;

/// Boost to the class accumulator for the first non-whitespace character.
pub const FIRST_FACTOR: i64 = 30;

/// Boost to the class accumulator at a character-class transition.
pub const CLASS_FACTOR: i64 = 30;

/// Divisor applied to the separator accumulator after every position.
pub const SEPARATOR_REDUCE: i64 = 2;

/// Divisor applied to the class accumulator after a position inside a run.
pub const CLASS_REDUCE: i64 = 2;

/// Weight of the average-gap penalty in the final score (subtracted).
pub const DIST_WEIGHT: i64 = 400;

/// Weight of the summed heat in the final score.
pub const HEAT_WEIGHT: i64 = 10;

/// Weight of the per-line tie-break factor in the final score.
pub const FACTOR_REDUCE: i64 = 10;

/// Tie-break factor granted by `score` when the line equals the pattern.
pub const EXACT_BOOST: i64 = 10_000_000;

/// Largest admissible magnitude of a caller-supplied tie-break factor.
pub const FACTOR_LIMIT: i64 = 1_000_000_000;

/// Largest heat value any single position can carry: the separator
/// accumulator never exceeds `SEPARATOR_FACTOR`, and the class accumulator
/// grows by at most `FIRST_FACTOR + AFTER_SEPARATOR_FACTOR + CLASS_FACTOR`
/// per position.
pub const HEAT_BOUND: i64 = 50 + 160 * 80;

} // verus!
