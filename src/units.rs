//! Fixed-point conversions of chart quantities.

use vstd::arithmetic::div_mod::{lemma_div_is_ordered, lemma_div_is_ordered_by_denominator, lemma_div_pos_is_pos};
use vstd::arithmetic::mul::lemma_mul_inequality;
use vstd::prelude::*;

verus! {

/// Microseconds per tick at a tempo of one thousandth of a beat per minute:
/// a beat is 60 s and holds 32 ticks.
pub const TICK_NUMERATOR: i64 = 1_875_000_000;

/// Floor positions are divided by the height ratio 0.83175.
pub const HEIGHT_NUM: i64 = 100_000;

pub const HEIGHT_DEN: i64 = 83_175;

/// Note positions across the line are scaled by the width ratio 0.13175016.
pub const NOTE_WIDTH_NUM: i64 = 13_175_016;

pub const NOTE_WIDTH_DEN: i64 = 100_000_000;

/// Division rounded towards zero.
pub open spec fn trunc_div(x: int, d: int) -> int {
    if x >= 0 {
        x / d
    } else {
        -((-x) / d)
    }
}

/// The time in microseconds of a tick count at a tempo given in thousandths
/// of a beat per minute.
pub open spec fn tick_time(ticks: int, bpm: int) -> int {
    trunc_div(ticks * TICK_NUMERATOR, bpm)
}

/// A floor position scaled by the height ratio.
pub open spec fn to_height(v: int) -> int {
    trunc_div(v * HEIGHT_NUM, HEIGHT_DEN as int)
}

pub proof fn lemma_trunc_div_bounded(x: int, d: int)
    requires
        d >= 1,
    ensures
        x >= 0 ==> 0 <= trunc_div(x, d) <= x,
        x < 0 ==> x <= trunc_div(x, d) <= 0,
{
    if x >= 0 {
        lemma_div_pos_is_pos(x, d);
        lemma_div_is_ordered_by_denominator(x, 1, d);
    } else {
        lemma_div_pos_is_pos(-x, d);
        lemma_div_is_ordered_by_denominator(-x, 1, d);
    }
}

/// Scaling and rounding towards zero keeps the order of its inputs.
pub proof fn lemma_trunc_div_monotone(a: int, b: int, k: int, d: int)
    requires
        a <= b,
        k >= 0,
        d >= 1,
    ensures
        trunc_div(a * k, d) <= trunc_div(b * k, d),
{
    lemma_mul_inequality(a, b, k);
    if a * k >= 0 {
        lemma_div_is_ordered(a * k, b * k, d);
    } else if b * k < 0 {
        lemma_div_is_ordered(-(b * k), -(a * k), d);
    } else {
        lemma_trunc_div_bounded(a * k, d);
        lemma_trunc_div_bounded(b * k, d);
    }
}

/// `v * num / den`, rounded towards zero.
pub fn scale(v: i64, num: i64, den: i64) -> (r: i64)
    requires
        num >= 0,
        den >= 1,
        -0x7000_0000_0000_0000 <= v * num <= 0x7000_0000_0000_0000,
    ensures
        r == trunc_div(v * num, den as int),
{
    let p: i128 = v as i128 * num as i128;
    proof {
        lemma_trunc_div_bounded(p as int, den as int);
    }
    if p >= 0 {
        (p / den as i128) as i64
    } else {
        (-((-p) / den as i128)) as i64
    }
}

pub fn tick_to_time(ticks: i64, bpm: u32) -> (r: i64)
    requires
        bpm >= 1,
        -0x1_0000_0000 <= ticks <= 0x1_0000_0000,
    ensures
        r == tick_time(ticks as int, bpm as int),
{
    assert(-0x7000_0000_0000_0000 <= ticks * TICK_NUMERATOR <= 0x7000_0000_0000_0000) by (nonlinear_arith)
        requires -0x1_0000_0000 <= ticks <= 0x1_0000_0000;
    scale(ticks, TICK_NUMERATOR, bpm as i64)
}

pub fn height_of(v: i64) -> (r: i64)
    requires
        -0x1000_0000_0000 <= v <= 0x1000_0000_0000,
    ensures
        r == to_height(v as int),
{
    assert(-0x7000_0000_0000_0000 <= v * HEIGHT_NUM <= 0x7000_0000_0000_0000) by (nonlinear_arith)
        requires -0x1000_0000_0000 <= v <= 0x1000_0000_0000;
    scale(v, HEIGHT_NUM, HEIGHT_DEN)
}

} // verus!
