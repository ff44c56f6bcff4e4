//! Difficulty adjustment.
use crate::bytes::{array_less, be_value, lemma_be_value_bound};
use crate::constants::{DIFFICULTY_ADJUSTMENT_INTERVAL, TARGET_BLOCK_TIME};
use crate::types::{
    bytes_of_compact, compact_of, compactible, genesis_bytes, Hash32, Target, Timestamp,
};
use vstd::prelude::*;

verus! {

/// The shortest and the longest span that an adjustment takes into account.
pub open spec fn clamped_span(span: nat) -> nat {
    if span < 5760 {
        5760
    } else if span > 9600 {
        9600
    } else {
        span
    }
}

/// The number that the easiest target writes.
pub open spec fn easiest_value() -> nat {
    be_value(genesis_bytes())
}

/// The number that the hardest target writes: a thousandth of the easiest.
pub open spec fn hardest_value() -> nat {
    easiest_value() / 1000
}

/// A number moved into the range between the hardest and the easiest target.
pub open spec fn bounded_value(v: nat) -> nat {
    if v > easiest_value() {
        easiest_value()
    } else if v < hardest_value() {
        hardest_value()
    } else {
        v
    }
}

/// The target that follows `v` when the last interval of blocks took `span` seconds: `v` times the
/// expected span over the clamped one, within the bounds.
pub open spec fn adjusted_for_span(v: nat, span: nat) -> nat {
    if span == 0 {
        v
    } else {
        bounded_value(
            v * (DIFFICULTY_ADJUSTMENT_INTERVAL * TARGET_BLOCK_TIME) as nat / clamped_span(span),
        )
    }
}

/// The seconds between the first and the last block of an interval.
pub open spec fn last_span(timestamps: Seq<Timestamp>, interval: int) -> int {
    timestamps.last() - timestamps[timestamps.len() - interval - 1]
}

/// The target that follows `v` after blocks with these timestamps.
pub open spec fn adjusted_value(timestamps: Seq<Timestamp>, v: nat) -> nat {
    if timestamps.len() < DIFFICULTY_ADJUSTMENT_INTERVAL + 1 {
        v
    } else {
        adjusted_for_span(v, last_span(timestamps, DIFFICULTY_ADJUSTMENT_INTERVAL as int) as nat)
    }
}

/// The target that follows `current_target` when the last interval of blocks took `actual_time`
/// seconds.
pub fn adjust_for_span(actual_time: u64, current_target: &Target) -> (r: Target)
    ensures
        be_value(r.0@) == adjusted_for_span(be_value(current_target.0@), actual_time as nat),
{
    if actual_time == 0 {
        return *current_target;
    }
    let expected_time: u64 = DIFFICULTY_ADJUSTMENT_INTERVAL * TARGET_BLOCK_TIME;
    let clamped_actual: u64 = if actual_time < 5760 {
        5760
    } else if actual_time > 9600 {
        9600
    } else {
        actual_time
    };
    let adjusted = current_target.scaled_integer(expected_time, clamped_actual);
    let easiest = Target::genesis();
    let hardest = easiest.scaled_integer(1, 1000);
    proof {
        lemma_be_value_bound(easiest.0@);
        assert(easiest_value() * 1 == easiest_value());
    }
    if array_less(&easiest.0, &adjusted.0) {
        return easiest;
    }
    if array_less(&adjusted.0, &hardest.0) {
        return hardest;
    }
    adjusted
}

/// The target that follows `current_target` after blocks with these timestamps.
pub fn adjust_difficulty(timestamps: &[Timestamp], current_target: &Target) -> (r: Target)
    requires
        timestamps@.len() >= DIFFICULTY_ADJUSTMENT_INTERVAL + 1 ==> last_span(
            timestamps@,
            DIFFICULTY_ADJUSTMENT_INTERVAL as int,
        ) >= 0,
    ensures
        be_value(r.0@) == adjusted_value(timestamps@, be_value(current_target.0@)),
{
    match calculate_time_span(timestamps, DIFFICULTY_ADJUSTMENT_INTERVAL as usize) {
        Some(actual_time) => adjust_for_span(actual_time, current_target),
        None => *current_target,
    }
}

/// The seconds that the last `interval` blocks took, where there are that many.
pub fn calculate_time_span(timestamps: &[Timestamp], interval: usize) -> (r: Option<u64>)
    requires
        interval < usize::MAX,
        timestamps@.len() >= interval + 1 ==> last_span(timestamps@, interval as int) >= 0,
    ensures
        r == if timestamps@.len() < interval + 1 {
            None::<u64>
        } else {
            Some(last_span(timestamps@, interval as int) as u64)
        },
{
    if timestamps.len() < interval + 1 {
        return None;
    }
    let start: u64 = timestamps[timestamps.len() - interval - 1];
    let end: u64 = timestamps[timestamps.len() - 1];
    Some(end - start)
}

/// The compact form of a target.
pub fn compact_from_target(target: &Target) -> (r: u32)
    requires
        compactible(target.0@),
    ensures
        r == compact_of(target.0@),
{
    target.compact()
}

/// The target that a compact form stands for.
pub fn target_from_compact(compact: u32) -> (r: Target)
    requires
        compact / 0x100_0000 <= 32,
    ensures
        r.0@ == bytes_of_compact(compact),
{
    Target::from_compact(compact)
}

/// Whether a hash is at most the target, both read as numbers.
pub fn hash_meets_target(hash: &Hash32, target: &Target) -> (r: bool)
    ensures
        r == (be_value(hash@) <= be_value(target.0@)),
{
    target.is_met_by(hash)
}

/// An adjustment over a span that took time ends between the hardest and the easiest target.
pub proof fn law_adjusted_target_is_bounded(v: nat, span: nat)
    requires
        span > 0,
    ensures
        hardest_value() <= adjusted_for_span(v, span) <= easiest_value(),
{
}

/// An adjustment moves a target by a quarter at the most, but for the bounds and rounding: up to
/// five quarters of it where blocks came fast, and down to three quarters where they came slowly.
pub proof fn law_adjustment_is_a_quarter(v: nat, span: nat)
    requires
        span > 0,
        hardest_value() < adjusted_for_span(v, span) < easiest_value(),
    ensures
        4 * adjusted_for_span(v, span) <= 5 * v,
        4 * adjusted_for_span(v, span) + 4 > 3 * v,
{
    let c = clamped_span(span);
    let q = v * 7200nat / c;
    assert(q == adjusted_for_span(v, span));
    assert(4 * q <= 5 * v && 4 * q + 4 > 3 * v) by (nonlinear_arith)
        requires
            5760 <= c <= 9600,
            q == v * 7200nat / c,
    ;
}

/// The hardest target is a thousandth of the easiest, rounded down: blocks that come ever more
/// slowly end there.
pub proof fn law_hardest_target(v: nat, span: nat)
    requires
        span > 0,
        v * 7200 / clamped_span(span) < hardest_value(),
    ensures
        adjusted_for_span(v, span) == easiest_value() / 1000,
{
}

/// A span of the expected length leaves a target within the bounds as it is.
pub proof fn law_expected_span_keeps_target(v: nat)
    requires
        hardest_value() <= v <= easiest_value(),
    ensures
        adjusted_for_span(v, 7200) == v,
{
    assert(v * 7200nat / 7200nat == v) by (nonlinear_arith);
}

/// Where the bounds do not decide, the new target is to the old one what two hours are to the span,
/// rounded down; a span below 96 minutes counts as 96, one above 160 minutes as 160.
pub proof fn law_target_follows_the_span(v: nat, span: nat)
    requires
        span > 0,
        hardest_value() < adjusted_for_span(v, span) < easiest_value(),
    ensures
        5_760 <= span <= 9_600 ==> adjusted_for_span(v, span) * span <= v * 7_200 < (
        adjusted_for_span(v, span) + 1) * span,
        span < 5_760 ==> adjusted_for_span(v, span) * 5_760 <= v * 7_200 < (adjusted_for_span(
            v,
            span,
        ) + 1) * 5_760,
        span > 9_600 ==> adjusted_for_span(v, span) * 9_600 <= v * 7_200 < (adjusted_for_span(
            v,
            span,
        ) + 1) * 9_600,
{
    let c = clamped_span(span);
    let q = adjusted_for_span(v, span);
    assert(q == v * 7200nat / c);
    assert(q * c <= v * 7200nat < (q + 1) * c) by (nonlinear_arith)
        requires
            5760 <= c <= 9600,
            q == v * 7200nat / c,
    ;
}

/// Blocks that took longer never leave a higher target than blocks that took less time.
pub proof fn law_slow_blocks_lower_the_target(v: nat, fast: nat, slow: nat)
    requires
        0 < fast <= slow,
    ensures
        adjusted_for_span(v, slow) <= adjusted_for_span(v, fast),
{
    let a = clamped_span(fast);
    let b = clamped_span(slow);
    assert(v * 7200nat / b <= v * 7200nat / a) by (nonlinear_arith)
        requires
            0 < a <= b,
    ;
}

/// The adjustment looks at two timestamps only: the last one and the one of the block 120 before
/// it. Without that block the target stays.
pub proof fn law_adjustment_looks_at_120_blocks(
    a: Seq<Timestamp>,
    b: Seq<Timestamp>,
    v: nat,
)
    requires
        a.len() >= 121,
        b.len() >= 121,
    ensures
        a.last() - a[a.len() - 121] == b.last() - b[b.len() - 121] ==> adjusted_value(a, v)
            == adjusted_value(b, v),
        a.last() == a[a.len() - 121] + 7_200 && hardest_value() <= v <= easiest_value()
            ==> adjusted_value(a, v) == v,
        forall|n: int| 0 <= n <= 120 ==> adjusted_value(#[trigger] a.take(n), v) == v,
{
    if hardest_value() <= v <= easiest_value() {
        law_expected_span_keeps_target(v);
    }
}

} // verus!
