//! Piecewise keyframe timelines evaluated at a moving query time.

use vstd::arithmetic::div_mod::{lemma_div_is_ordered, lemma_div_multiples_vanish, lemma_div_pos_is_pos};
use vstd::arithmetic::mul::{lemma_mul_inequality, lemma_mul_nonnegative};
use vstd::prelude::*;

verus! {

/// Largest magnitude of a keyframe time or value; keeps interpolation
/// products inside `i128`.
pub const BOUND: i64 = 0x3fff_ffff_ffff_ffff;

/// How a keyframe's value carries on until the next keyframe.
#[derive(Clone, Copy, Debug, PartialEq, Eq, Structural)]
pub enum Tween {
    /// The value stays until the next keyframe.
    Hold,
    /// The value moves in a straight line towards the next keyframe.
    Linear,
}

#[derive(Clone, Copy, Debug, PartialEq, Eq, Structural)]
pub struct Keyframe {
    pub time: i64,
    pub value: i64,
    pub tween: Tween,
}

pub open spec fn bounded(x: int) -> bool {
    -BOUND <= x <= BOUND
}

/// Keyframe times never decrease, and every time and value is bounded.
pub open spec fn keyframes_ok(kfs: Seq<Keyframe>) -> bool {
    &&& forall|i: int, j: int| 0 <= i <= j < kfs.len() ==> #[trigger] kfs[i].time <= #[trigger] kfs[j].time
    &&& forall|i: int|
        0 <= i < kfs.len() ==> bounded(#[trigger] kfs[i].time as int) && bounded(kfs[i].value as int)
}

/// Straight-line interpolation from `(t0, v0)` to `(t1, v1)`, clamped to the
/// segment and rounded towards `v0`.
pub open spec fn lerp(v0: int, v1: int, t0: int, t1: int, t: int) -> int {
    if t <= t0 {
        v0
    } else if t >= t1 {
        v1
    } else if v1 >= v0 {
        v0 + (v1 - v0) * (t - t0) / (t1 - t0)
    } else {
        v0 - (v0 - v1) * (t - t0) / (t1 - t0)
    }
}

/// The value of the segment that starts at keyframe `i`, at time `t`.
pub open spec fn segment_value(kfs: Seq<Keyframe>, i: int, t: int) -> int {
    if i + 1 < kfs.len() && kfs[i].tween == Tween::Linear {
        lerp(
            kfs[i].value as int,
            kfs[i + 1].value as int,
            kfs[i].time as int,
            kfs[i + 1].time as int,
            t,
        )
    } else {
        kfs[i].value as int
    }
}

/// Scanning forward from keyframe `i`: the value in the last segment that
/// has started by time `t`.
pub open spec fn value_from(kfs: Seq<Keyframe>, i: int, t: int) -> int
    decreases kfs.len() - i,
{
    if i + 1 < kfs.len() && kfs[i + 1].time <= t {
        value_from(kfs, i + 1, t)
    } else {
        segment_value(kfs, i, t)
    }
}

/// The value of a keyframe sequence at time `t`; an empty sequence reads 0.
pub open spec fn value_at(kfs: Seq<Keyframe>, t: int) -> int {
    if kfs.len() == 0 {
        0
    } else {
        value_from(kfs, 0, t)
    }
}

/// A scan that starts at any keyframe already reached gives the same value
/// as a scan from the start.
pub proof fn lemma_scan_from(kfs: Seq<Keyframe>, c: int, t: int)
    requires
        keyframes_ok(kfs),
        0 <= c < kfs.len(),
        kfs[c].time <= t,
    ensures
        value_from(kfs, 0, t) == value_from(kfs, c, t),
    decreases c,
{
    if c > 0 {
        assert(kfs[c - 1].time <= kfs[c].time);
        lemma_scan_from(kfs, c - 1, t);
    }
}

proof fn lemma_lerp_step(dv: int, dt: int, span: int)
    requires
        0 <= dv,
        0 <= dt <= span,
        0 < span,
    ensures
        0 <= dv * dt / span <= dv,
{
    lemma_mul_nonnegative(dv, dt);
    lemma_div_pos_is_pos(dv * dt, span);
    lemma_mul_inequality(dt, span, dv);
    assert(dv * dt == dt * dv && span * dv == dv * span) by (nonlinear_arith);
    lemma_div_is_ordered(dv * dt, span * dv, span);
    lemma_div_multiples_vanish(dv, span);
}

/// Executable form of [`lerp`].
pub fn lerp_value(v0: i64, v1: i64, t0: i64, t1: i64, t: i64) -> (r: i64)
    requires
        bounded(v0 as int),
        bounded(v1 as int),
        bounded(t0 as int),
        bounded(t1 as int),
    ensures
        r == lerp(v0 as int, v1 as int, t0 as int, t1 as int, t as int),
{
    if t <= t0 {
        v0
    } else if t >= t1 {
        v1
    } else {
        let dt = t as i128 - t0 as i128;
        let span = t1 as i128 - t0 as i128;
        if v1 >= v0 {
            let dv = v1 as i128 - v0 as i128;
            assert(dv * dt <= 0x8000_0000_0000_0000 * 0x8000_0000_0000_0000) by (nonlinear_arith)
                requires 0 <= dv <= 0x8000_0000_0000_0000, 0 <= dt <= 0x8000_0000_0000_0000;
            proof {
                lemma_lerp_step(dv as int, dt as int, span as int);
            }
            let q = dv * dt / span;
            (v0 as i128 + q) as i64
        } else {
            let dv = v0 as i128 - v1 as i128;
            assert(dv * dt <= 0x8000_0000_0000_0000 * 0x8000_0000_0000_0000) by (nonlinear_arith)
                requires 0 <= dv <= 0x8000_0000_0000_0000, 0 <= dt <= 0x8000_0000_0000_0000;
            proof {
                lemma_lerp_step(dv as int, dt as int, span as int);
            }
            let q = dv * dt / span;
            (v0 as i128 - q) as i64
        }
    }
}

/// A keyframe timeline with a cursor at the segment of the last query, so
/// that queries at non-decreasing times scan forward only.
#[derive(Debug)]
pub struct Timeline {
    pub keyframes: Vec<Keyframe>,
    pub cursor: usize,
    pub time: i64,
}

impl Timeline {
    /// The keyframes are in order and the cursor sits at the last segment
    /// that has started by the current time.
    pub open spec fn wf(&self) -> bool {
        let kfs = self.keyframes@;
        &&& keyframes_ok(kfs)
        &&& (kfs.len() == 0 ==> self.cursor == 0)
        &&& (kfs.len() > 0 ==> self.cursor < kfs.len())
        &&& (self.cursor > 0 ==> kfs[self.cursor as int].time <= self.time)
        &&& (self.cursor + 1 < kfs.len() ==> kfs[self.cursor + 1].time > self.time)
    }

    /// The value at the current time.
    pub open spec fn value(&self) -> int {
        value_at(self.keyframes@, self.time as int)
    }

    pub fn new(keyframes: Vec<Keyframe>) -> (r: Timeline)
        requires
            keyframes_ok(keyframes@),
        ensures
            r.wf(),
            r.keyframes@ == keyframes@,
            r.time == 0,
    {
        let mut r = Timeline { keyframes, cursor: 0, time: i64::MIN };
        r.set_time(0);
        r
    }

    /// A timeline that holds `value` at every time.
    pub fn fixed(value: i64) -> (r: Timeline)
        requires
            bounded(value as int),
        ensures
            r.wf(),
            r.keyframes@ == seq![Keyframe { time: 0, value, tween: Tween::Hold }],
            r.time == 0,
            r.value() == value,
    {
        let r = Timeline { keyframes: vec![Keyframe { time: 0, value, tween: Tween::Hold }], cursor: 0, time: 0 };
        assert(r.keyframes@ =~= seq![Keyframe { time: 0, value, tween: Tween::Hold }]);
        r
    }

    /// A timeline without keyframes.
    pub fn empty() -> (r: Timeline)
        ensures
            r.wf(),
            r.keyframes@.len() == 0,
            r.time == 0,
    {
        Timeline { keyframes: Vec::new(), cursor: 0, time: 0 }
    }

    /// Moves the query time to `t`. Later times move the cursor forward; an
    /// earlier time sends it back to the start.
    pub fn set_time(&mut self, t: i64)
        requires
            old(self).wf(),
        ensures
            final(self).wf(),
            final(self).keyframes@ == old(self).keyframes@,
            final(self).time == t,
    {
        self.time = t;
        let n = self.keyframes.len();
        if n == 0 {
            return;
        }
        if self.cursor > 0 && t < self.keyframes[self.cursor].time {
            self.cursor = 0;
        }
        while self.cursor + 1 < n && self.keyframes[self.cursor + 1].time <= t
            invariant
                n == self.keyframes@.len(),
                n > 0,
                self.keyframes@ == old(self).keyframes@,
                keyframes_ok(self.keyframes@),
                self.time == t,
                self.cursor < n,
                self.cursor > 0 ==> self.keyframes@[self.cursor as int].time <= t,
            decreases n - self.cursor,
        {
            self.cursor = self.cursor + 1;
        }
    }

    /// The value at the current time; 0 when there are no keyframes.
    pub fn now(&self) -> (r: i64)
        requires
            self.wf(),
        ensures
            r == self.value(),
    {
        let n = self.keyframes.len();
        if n == 0 {
            return 0;
        }
        let c = self.cursor;
        proof {
            if c > 0 {
                lemma_scan_from(self.keyframes@, c as int, self.time as int);
            }
        }
        let k = self.keyframes[c];
        if c + 1 < n && k.tween == Tween::Linear {
            let k1 = self.keyframes[c + 1];
            lerp_value(k.value, k1.value, k.time, k1.time, self.time)
        } else {
            k.value
        }
    }

    /// The value at the current time, or `None` when there are no keyframes.
    pub fn now_opt(&self) -> (r: Option<i64>)
        requires
            self.wf(),
        ensures
            r is Some <==> self.keyframes@.len() > 0,
            r matches Some(v) ==> v == self.value(),
    {
        if self.keyframes.len() == 0 {
            None
        } else {
            Some(self.now())
        }
    }
}

/// Evaluation does not depend on the query history: two timelines over the
/// same keyframes, brought to the same time by any sequences of queries, hold
/// the same value as one queried at that time alone.
pub proof fn lemma_history_transparent(a: Timeline, b: Timeline)
    requires
        a.wf(),
        b.wf(),
        a.keyframes@ == b.keyframes@,
        a.time == b.time,
    ensures
        a.value() == b.value(),
{
}

/// Before the first keyframe the value is the first value; at or after the
/// last keyframe it is the last value.
pub proof fn lemma_outside_keyframes(kfs: Seq<Keyframe>, t: int)
    requires
        keyframes_ok(kfs),
        kfs.len() > 0,
    ensures
        t < kfs[0].time ==> value_at(kfs, t) == kfs[0].value,
        t >= kfs[kfs.len() - 1].time ==> value_at(kfs, t) == kfs[kfs.len() - 1].value,
{
    if t < kfs[0].time && kfs.len() > 1 {
        assert(kfs[0].time <= kfs[1].time);
    }
    if t >= kfs[kfs.len() - 1].time {
        lemma_scan_from(kfs, kfs.len() - 1, t);
    }
}

/// A `Hold` segment from `kfs[i]` to `kfs[i + 1]` gives `kfs[i].value` at
/// every time of the half-open interval `[kfs[i].time, kfs[i + 1].time)`.
pub proof fn lemma_hold_segment(kfs: Seq<Keyframe>, i: int, t: int)
    requires
        keyframes_ok(kfs),
        0 <= i,
        i + 1 < kfs.len(),
        kfs[i].tween == Tween::Hold,
        kfs[i].time <= t < kfs[i + 1].time,
    ensures
        value_at(kfs, t) == kfs[i].value,
{
    lemma_scan_from(kfs, i, t);
}

/// A `Linear` segment from `(t0, v0)` to `(t1, v1)`, with `t0 < t1`, gives
/// `v0` at `t0`, `v1` at `t1` (when no later keyframe shares `t1`), and the
/// mean of the two at the midpoint, where both sums are even.
pub proof fn lemma_linear_segment(kfs: Seq<Keyframe>, i: int)
    requires
        keyframes_ok(kfs),
        0 <= i,
        i + 1 < kfs.len(),
        kfs[i].tween == Tween::Linear,
        kfs[i].time < kfs[i + 1].time,
    ensures
        value_at(kfs, kfs[i].time as int) == kfs[i].value,
        (i + 2 >= kfs.len() || kfs[i + 2].time > kfs[i + 1].time) ==> value_at(
            kfs,
            kfs[i + 1].time as int,
        ) == kfs[i + 1].value,
        ((kfs[i].time + kfs[i + 1].time) % 2 == 0 && (kfs[i].value + kfs[i + 1].value) % 2 == 0)
            ==> 2 * value_at(kfs, (kfs[i].time + kfs[i + 1].time) / 2) == kfs[i].value
            + kfs[i + 1].value,
{
    let t0 = kfs[i].time as int;
    let t1 = kfs[i + 1].time as int;
    let v0 = kfs[i].value as int;
    let v1 = kfs[i + 1].value as int;
    lemma_scan_from(kfs, i, t0);
    lemma_scan_from(kfs, i + 1, t1);
    if (t0 + t1) % 2 == 0 && (v0 + v1) % 2 == 0 {
        let m = (t0 + t1) / 2;
        let h = (t1 - t0) / 2;
        assert(m - t0 == h && t1 - t0 == 2 * h && h > 0);
        lemma_scan_from(kfs, i, m);
        if v1 >= v0 {
            let e = (v1 - v0) / 2;
            assert(v1 - v0 == 2 * e);
            assert((v1 - v0) * (m - t0) == (2 * h) * e) by (nonlinear_arith)
                requires v1 - v0 == 2 * e, m - t0 == h;
            lemma_div_multiples_vanish(e, 2 * h);
        } else {
            let e = (v0 - v1) / 2;
            assert(v0 - v1 == 2 * e);
            assert((v0 - v1) * (m - t0) == (2 * h) * e) by (nonlinear_arith)
                requires v0 - v1 == 2 * e, m - t0 == h;
            lemma_div_multiples_vanish(e, 2 * h);
        }
    }
}

} // verus!
