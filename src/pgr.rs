//! Conversion of a decoded chart in the tick-based event format into judge
//! lines. Times are in ticks, values in thousandths, tempo in thousandths of
//! a beat per minute.

use crate::chart::Chart;
use crate::line::{ColorTimeline, JudgeLine, JudgeLineKind, Transform};
use crate::note::{JudgeStatus, Note, NoteKind};
use crate::timeline::{keyframes_ok, value_at, Keyframe, Timeline, Tween};
use crate::units::{
    height_of, lemma_trunc_div_bounded, lemma_trunc_div_monotone, scale, tick_time, tick_to_time,
    to_height, trunc_div, NOTE_WIDTH_DEN, NOTE_WIDTH_NUM, TICK_NUMERATOR,
};
use vstd::prelude::*;

verus! {

/// The last event of a list must end after this tick.
pub const MIN_END_TIME: i32 = 900_000_000;

/// Bound on a synthesised floor position, in thousandths.
pub const FLOOR_LIMIT: i64 = 10_000_000_000_000;

#[derive(Clone, Copy, Debug, PartialEq, Eq, Structural)]
pub struct PgrEvent {
    pub start_time: i32,
    pub end_time: i32,
    pub start: i32,
    pub end: i32,
    pub start2: i32,
    pub end2: i32,
}

#[derive(Clone, Copy, Debug, PartialEq, Eq, Structural)]
pub struct PgrSpeedEvent {
    pub start_time: i32,
    pub end_time: i32,
    /// Rate, in thousandths per second.
    pub value: i32,
    pub floor_position: i32,
}

#[derive(Clone, Copy, Debug, PartialEq, Eq, Structural)]
pub struct PgrNote {
    pub kind: u8,
    pub time: i32,
    pub position_x: i32,
    pub hold_time: i32,
    pub speed: i32,
    pub floor_position: i32,
}

#[derive(Debug)]
pub struct PgrJudgeLine {
    pub bpm: u32,
    pub alpha_events: Vec<PgrEvent>,
    pub rotate_events: Vec<PgrEvent>,
    pub move_events: Vec<PgrEvent>,
    pub speed_events: Vec<PgrSpeedEvent>,
    pub notes_above: Vec<PgrNote>,
    pub notes_below: Vec<PgrNote>,
}

#[derive(Debug)]
pub struct PgrChart {
    /// Microseconds.
    pub offset: i64,
    pub judge_line_list: Vec<PgrJudgeLine>,
}

#[derive(Clone, Copy, Debug, PartialEq, Eq, Structural)]
pub enum EventError {
    Empty,
    InvalidTimeRange,
    NotContiguous,
    EndTimeTooSmall,
}

#[derive(Clone, Copy, Debug, PartialEq, Eq, Structural)]
pub enum ParseError {
    Events(EventError),
    ZeroBpm,
    SpeedStartNotZero,
    NotesNotSorted,
    UnknownNoteKind(u8),
}

/// An event reduced to what validation and keyframes read: start tick, end
/// tick, start value, end value.
pub type Span = (i32, i32, i32, i32);

/// The first rule that a list of events breaks, if any.
pub open spec fn events_error(s: Seq<Span>) -> Option<EventError> {
    if s.len() == 0 {
        Some(EventError::Empty)
    } else if exists|i: int| 0 <= i < s.len() && (#[trigger] s[i]).0 > s[i].1 {
        Some(EventError::InvalidTimeRange)
    } else if exists|i: int| 0 <= i < s.len() - 1 && (#[trigger] s[i]).1 != s[i + 1].0 {
        Some(EventError::NotContiguous)
    } else if s[s.len() - 1].1 <= MIN_END_TIME {
        Some(EventError::EndTimeTooSmall)
    } else {
        None
    }
}

/// Checks that the events are non-empty, not inverted, contiguous, and run
/// long enough.
pub fn validate_events(s: &Vec<Span>) -> (r: Result<(), EventError>)
    ensures
        r == (match events_error(s@) {
            Some(e) => Err(e),
            None => Ok(()),
        }),
{
    let n = s.len();
    if n == 0 {
        return Err(EventError::Empty);
    }
    let mut i: usize = 0;
    while i < n
        invariant
            i <= n,
            n == s@.len(),
            forall|k: int| 0 <= k < i ==> (#[trigger] s@[k]).0 <= s@[k].1,
        decreases n - i,
    {
        if s[i].0 > s[i].1 {
            return Err(EventError::InvalidTimeRange);
        }
        i = i + 1;
    }
    let mut i: usize = 0;
    while i + 1 < n
        invariant
            i + 1 <= n,
            n == s@.len(),
            forall|k: int| 0 <= k < n ==> (#[trigger] s@[k]).0 <= s@[k].1,
            forall|k: int| 0 <= k < i ==> (#[trigger] s@[k]).1 == s@[k + 1].0,
        decreases n - i,
    {
        if s[i].1 != s[i + 1].0 {
            return Err(EventError::NotContiguous);
        }
        i = i + 1;
    }
    if s[n - 1].1 <= MIN_END_TIME {
        return Err(EventError::EndTimeTooSmall);
    }
    Ok(())
}

pub open spec fn clamp0(t: int) -> int {
    if t < 0 {
        0
    } else {
        t
    }
}

/// One keyframe at each breakpoint of contiguous events, with the start of
/// an event left out where the previous keyframe already holds its value.
/// The trailing keyframe is still included.
pub open spec fn event_keyframes(bpm: int, s: Seq<Span>) -> Seq<Keyframe>
    decreases s.len(),
{
    if s.len() == 0 {
        seq![]
    } else {
        let prev = event_keyframes(bpm, s.drop_last());
        let e = s.last();
        let with_start = if prev.len() > 0 && prev.last().value == e.2 {
            prev
        } else {
            prev.push(
                Keyframe { time: clamp0(tick_time(e.0 as int, bpm)) as i64, value: e.2 as i64, tween: Tween::Linear },
            )
        };
        with_start.push(
            Keyframe { time: clamp0(tick_time(e.1 as int, bpm)) as i64, value: e.3 as i64, tween: Tween::Linear },
        )
    }
}

proof fn lemma_tick_time_range(ticks: int, bpm: int)
    requires
        bpm >= 1,
        -0x8000_0000 <= ticks < 0x8000_0000,
    ensures
        -0x3800_0000_0000_0000 <= tick_time(ticks, bpm) <= 0x3800_0000_0000_0000,
{
    assert(-0x3800_0000_0000_0000 <= ticks * TICK_NUMERATOR <= 0x3800_0000_0000_0000) by (nonlinear_arith)
        requires -0x8000_0000 <= ticks < 0x8000_0000;
    lemma_trunc_div_bounded(ticks * TICK_NUMERATOR, bpm);
}

/// Builds the keyframes of a list of valid events: the breakpoints, with
/// equal neighbouring values merged and the trailing keyframe dropped.
fn keyframes_of_spans(bpm: u32, s: &Vec<Span>) -> (r: Vec<Keyframe>)
    requires
        bpm >= 1,
        events_error(s@) is None,
    ensures
        r@ == event_keyframes(bpm as int, s@).drop_last(),
        keyframes_ok(r@),
{
    let n = s.len();
    let mut kfs: Vec<Keyframe> = Vec::new();
    let mut i: usize = 0;
    while i < n
        invariant
            i <= n,
            n == s@.len(),
            bpm >= 1,
            events_error(s@) is None,
            kfs@ == event_keyframes(bpm as int, s@.take(i as int)),
            keyframes_ok(kfs@),
            i > 0 ==> kfs@.len() > 0 && kfs@.last().time == clamp0(tick_time(s@[i - 1].1 as int, bpm as int)),
        decreases n - i,
    {
        let e = s[i];
        proof {
            assert(s@.take(i + 1).drop_last() =~= s@.take(i as int));
            assert(s@.take(i + 1).last() == e);
            assert(e.0 <= e.1);
            if i > 0 {
                assert(s@[i - 1].1 == s@[i as int].0);
            }
            lemma_tick_time_range(e.0 as int, bpm as int);
            lemma_tick_time_range(e.1 as int, bpm as int);
            lemma_trunc_div_monotone(e.0 as int, e.1 as int, TICK_NUMERATOR as int, bpm as int);
        }
        let st = tick_to_time(e.0 as i64, bpm);
        let en = tick_to_time(e.1 as i64, bpm);
        let st = if st < 0 { 0 } else { st };
        let en = if en < 0 { 0 } else { en };
        let ghost k0 = kfs@;
        if !(kfs.len() > 0 && kfs[kfs.len() - 1].value == e.2 as i64) {
            kfs.push(Keyframe { time: st, value: e.2 as i64, tween: Tween::Linear });
        }
        let ghost k1 = kfs@;
        proof {
            if i > 0 {
                assert(st == k0.last().time);
            }
        }
        assert(keyframes_ok(k1)) by {
            assert forall|a: int, b: int| 0 <= a <= b < k1.len() implies #[trigger] k1[a].time <= #[trigger] k1[b].time by {
                if b == k1.len() - 1 && k1.len() > k0.len() && a < b {
                    assert(k0[a].time <= k0[k0.len() - 1].time);
                }
            }
        }
        kfs.push(Keyframe { time: en, value: e.3 as i64, tween: Tween::Linear });
        assert(keyframes_ok(kfs@)) by {
            let k2 = kfs@;
            assert forall|a: int, b: int| 0 <= a <= b < k2.len() implies #[trigger] k2[a].time <= #[trigger] k2[b].time by {
                if b == k2.len() - 1 && a < b {
                    assert(k1[a].time <= k1[k1.len() - 1].time);
                }
            }
        }
        i = i + 1;
    }
    assert(s@.take(n as int) =~= s@);
    kfs.pop();
    kfs
}

pub open spec fn float_spans(evs: Seq<PgrEvent>) -> Seq<Span> {
    evs.map_values(|e: PgrEvent| (e.start_time, e.end_time, e.start, e.end))
}

pub open spec fn second_spans(evs: Seq<PgrEvent>) -> Seq<Span> {
    evs.map_values(|e: PgrEvent| (e.start_time, e.end_time, e.start2, e.end2))
}

fn spans_of(evs: &Vec<PgrEvent>, second: bool) -> (r: Vec<Span>)
    ensures
        r@ == if second { second_spans(evs@) } else { float_spans(evs@) },
{
    let mut r: Vec<Span> = Vec::new();
    let mut i: usize = 0;
    while i < evs.len()
        invariant
            i <= evs@.len(),
            r@ == (if second { second_spans(evs@) } else { float_spans(evs@) }).take(i as int),
        decreases evs@.len() - i,
    {
        let e = evs[i];
        if second {
            r.push((e.start_time, e.end_time, e.start2, e.end2));
        } else {
            r.push((e.start_time, e.end_time, e.start, e.end));
        }
        i = i + 1;
    }
    r
}

/// Converts scalar events into a timeline of their breakpoints.
pub fn parse_float_events(bpm: u32, evs: &Vec<PgrEvent>) -> (r: Result<Timeline, EventError>)
    requires
        bpm >= 1,
    ensures
        events_error(float_spans(evs@)) matches Some(e) ==> r == Err::<Timeline, EventError>(e),
        events_error(float_spans(evs@)) is None ==> (r matches Ok(t) && t.wf() && t.time == 0
            && t.keyframes@ == event_keyframes(bpm as int, float_spans(evs@)).drop_last()),
{
    let s = spans_of(evs, false);
    match validate_events(&s) {
        Err(e) => Err(e),
        Ok(()) => Ok(Timeline::new(keyframes_of_spans(bpm, &s))),
    }
}

/// Maps a position in `[0, 1]` (thousandths) onto `[-1, 1]`.
pub open spec fn recentre(kfs: Seq<Keyframe>) -> Seq<Keyframe> {
    kfs.map_values(|k: Keyframe| Keyframe { value: (2 * k.value - 1000) as i64, ..k })
}

fn recentre_keyframes(kfs: Vec<Keyframe>) -> (r: Vec<Keyframe>)
    requires
        keyframes_ok(kfs@),
        forall|i: int| 0 <= i < kfs@.len() ==> -0x8000_0000 <= (#[trigger] kfs@[i]).value < 0x8000_0000,
    ensures
        r@ == recentre(kfs@),
        keyframes_ok(r@),
{
    let mut r: Vec<Keyframe> = Vec::new();
    let mut i: usize = 0;
    while i < kfs.len()
        invariant
            i <= kfs@.len(),
            keyframes_ok(kfs@),
            forall|i: int| 0 <= i < kfs@.len() ==> -0x8000_0000 <= (#[trigger] kfs@[i]).value < 0x8000_0000,
            r@ == recentre(kfs@).take(i as int),
        decreases kfs@.len() - i,
    {
        let k = kfs[i];
        r.push(Keyframe { value: 2 * k.value - 1000, ..k });
        i = i + 1;
    }
    assert(r@ =~= recentre(kfs@));
    r
}

proof fn lemma_event_values(bpm: int, s: Seq<Span>)
    ensures
        forall|i: int|
            0 <= i < event_keyframes(bpm, s).len() ==> -0x8000_0000 <= (#[trigger] event_keyframes(bpm, s)[i]).value
                < 0x8000_0000,
    decreases s.len(),
{
    if s.len() > 0 {
        lemma_event_values(bpm, s.drop_last());
    }
}

/// Converts movement events into the two translation timelines, mapped from
/// `[0, 1]` onto `[-1, 1]`.
pub fn parse_move_events(bpm: u32, evs: &Vec<PgrEvent>) -> (r: Result<(Timeline, Timeline), EventError>)
    requires
        bpm >= 1,
    ensures
        events_error(float_spans(evs@)) matches Some(e) ==> r == Err::<(Timeline, Timeline), EventError>(e),
        events_error(float_spans(evs@)) is None ==> (r matches Ok((x, y)) && x.wf() && y.wf() && x.time == 0
            && y.time == 0 && x.keyframes@ == recentre(event_keyframes(bpm as int, float_spans(evs@)).drop_last())
            && y.keyframes@ == recentre(event_keyframes(bpm as int, second_spans(evs@)).drop_last())),
{
    let s1 = spans_of(evs, false);
    let s2 = spans_of(evs, true);
    match validate_events(&s1) {
        Err(e) => Err(e),
        Ok(()) => {
            assert(events_error(s2@) == events_error(s1@)) by {
                assert(s1@.len() == s2@.len());
                assert forall|i: int| #![trigger s1@[i]] #![trigger s2@[i]] 0 <= i < s1@.len() implies s1@[i].0 == s2@[i].0 && s1@[i].1 == s2@[i].1 by {}
            }
            let k1 = keyframes_of_spans(bpm, &s1);
            let k2 = keyframes_of_spans(bpm, &s2);
            proof {
                lemma_event_values(bpm as int, s1@);
                lemma_event_values(bpm as int, s2@);
            }
            let x = Timeline::new(recentre_keyframes(k1));
            let y = Timeline::new(recentre_keyframes(k2));
            Ok((x, y))
        },
    }
}

pub open spec fn speed_spans(evs: Seq<PgrSpeedEvent>) -> Seq<Span> {
    evs.map_values(|e: PgrSpeedEvent| (e.start_time, e.end_time, e.floor_position, e.value))
}

/// The first rule that a list of speed events breaks, if any: the event
/// rules, then a start at tick 0.
pub open spec fn speed_error(evs: Seq<PgrSpeedEvent>) -> Option<ParseError> {
    match events_error(speed_spans(evs)) {
        Some(e) => Some(ParseError::Events(e)),
        None => if evs[0].start_time != 0 {
            Some(ParseError::SpeedStartNotZero)
        } else {
            None
        },
    }
}

pub open spec fn clamp_floor(v: int) -> int {
    if v > FLOOR_LIMIT {
        FLOOR_LIMIT as int
    } else if v < -FLOOR_LIMIT {
        -FLOOR_LIMIT
    } else {
        v
    }
}

/// The floor position reached at `max_time` by integrating the rate of the
/// last speed event, bounded by [`FLOOR_LIMIT`].
pub open spec fn final_floor(bpm: int, last: PgrSpeedEvent, max_time: int) -> int {
    clamp_floor(
        last.floor_position + trunc_div((max_time - tick_time(last.start_time as int, bpm)) * last.value, 1_000_000),
    )
}

/// The floor-position keyframes: one per event start, rising linearly, then
/// a held keyframe at `max_time` (or at the last start, if that is later).
pub open spec fn speed_keyframes(bpm: int, evs: Seq<PgrSpeedEvent>, max_time: int) -> Seq<Keyframe> {
    let last = evs.last();
    let st = tick_time(last.start_time as int, bpm);
    evs.map_values(
        |e: PgrSpeedEvent|
            Keyframe {
                time: tick_time(e.start_time as int, bpm) as i64,
                value: to_height(e.floor_position as int) as i64,
                tween: Tween::Linear,
            },
    ).push(
        Keyframe {
            time: (if max_time > st { max_time } else { st }) as i64,
            value: to_height(final_floor(bpm, last, max_time)) as i64,
            tween: Tween::Hold,
        },
    )
}

fn div_trunc(x: i128, d: i128) -> (r: i128)
    requires
        d >= 1,
        -0x4000_0000_0000_0000_0000_0000_0000_0000 <= x <= 0x4000_0000_0000_0000_0000_0000_0000_0000,
    ensures
        r == trunc_div(x as int, d as int),
{
    proof {
        lemma_trunc_div_bounded(x as int, d as int);
    }
    if x >= 0 {
        x / d
    } else {
        -((-x) / d)
    }
}

/// Converts speed events into the line's floor-position timeline.
pub fn parse_speed_events(bpm: u32, evs: &Vec<PgrSpeedEvent>, max_time: i64) -> (r: Result<Timeline, ParseError>)
    requires
        bpm >= 1,
        -0x3900_0000_0000_0000 <= max_time <= 0x3900_0000_0000_0000,
    ensures
        speed_error(evs@) matches Some(e) ==> r == Err::<Timeline, ParseError>(e),
        speed_error(evs@) is None ==> (r matches Ok(t) && t.wf() && t.keyframes@ == speed_keyframes(
            bpm as int,
            evs@,
            max_time as int,
        )),
{
    let mut spans: Vec<Span> = Vec::new();
    let mut i: usize = 0;
    while i < evs.len()
        invariant
            i <= evs@.len(),
            spans@ == speed_spans(evs@).take(i as int),
        decreases evs@.len() - i,
    {
        let e = evs[i];
        spans.push((e.start_time, e.end_time, e.floor_position, e.value));
        i = i + 1;
    }
    assert(spans@ =~= speed_spans(evs@));
    if let Err(e) = validate_events(&spans) {
        return Err(ParseError::Events(e));
    }
    if evs[0].start_time != 0 {
        return Err(ParseError::SpeedStartNotZero);
    }
    let n = evs.len();
    let mut kfs: Vec<Keyframe> = Vec::new();
    let mut i: usize = 0;
    while i < n
        invariant
            i <= n,
            n == evs@.len(),
            n == spans@.len(),
            bpm >= 1,
            spans@ == speed_spans(evs@),
            events_error(spans@) is None,
            kfs@ =~= speed_keyframes(bpm as int, evs@, max_time as int).take(i as int),
            keyframes_ok(kfs@),
            i > 0 ==> kfs@.last().time == tick_time(evs@[i - 1].start_time as int, bpm as int),
        decreases n - i,
    {
        let e = evs[i];
        proof {
            assert(spans@[i as int].0 <= spans@[i as int].1);
            if i > 0 {
                assert(spans@[i - 1].1 == spans@[i as int].0);
                assert(spans@[i - 1].0 <= spans@[i - 1].1);
                lemma_trunc_div_monotone(
                    evs@[i - 1].start_time as int,
                    e.start_time as int,
                    TICK_NUMERATOR as int,
                    bpm as int,
                );
            }
            lemma_tick_time_range(e.start_time as int, bpm as int);
        }
        let t = tick_to_time(e.start_time as i64, bpm);
        let v = height_of(e.floor_position as i64);
        let ghost k0 = kfs@;
        kfs.push(Keyframe { time: t, value: v, tween: Tween::Linear });
        assert(keyframes_ok(kfs@)) by {
            let k1 = kfs@;
            assert forall|a: int, b: int| 0 <= a <= b < k1.len() implies #[trigger] k1[a].time <= #[trigger] k1[b].time by {
                if b == k1.len() - 1 && a < b {
                    assert(k0[a].time <= k0[k0.len() - 1].time);
                }
            }
            lemma_trunc_div_bounded(e.floor_position * 100_000, 83_175);
        }
        i = i + 1;
    }
    let last = evs[n - 1];
    proof {
        lemma_tick_time_range(last.start_time as int, bpm as int);
    }
    let st = tick_to_time(last.start_time as i64, bpm);
    let dt: i128 = max_time as i128 - st as i128;
    assert(-0x4000_0000_0000_0000_0000_0000_0000_0000 <= dt * last.value <= 0x4000_0000_0000_0000_0000_0000_0000_0000)
        by (nonlinear_arith)
        requires -0x8000_0000_0000_0000 <= dt <= 0x8000_0000_0000_0000, -0x8000_0000 <= last.value < 0x8000_0000;
    let q = div_trunc(dt * last.value as i128, 1_000_000);
    let f: i128 = last.floor_position as i128 + q;
    let f: i128 = if f > FLOOR_LIMIT as i128 {
        FLOOR_LIMIT as i128
    } else if f < -(FLOOR_LIMIT as i128) {
        -(FLOOR_LIMIT as i128)
    } else {
        f
    };
    let v = height_of(f as i64);
    let end = if max_time > st { max_time } else { st };
    let ghost k0 = kfs@;
    kfs.push(Keyframe { time: end, value: v, tween: Tween::Hold });
    assert(keyframes_ok(kfs@)) by {
        let k1 = kfs@;
        assert forall|a: int, b: int| 0 <= a <= b < k1.len() implies #[trigger] k1[a].time <= #[trigger] k1[b].time by {
            if b == k1.len() - 1 && a < b {
                assert(k0[a].time <= k0[k0.len() - 1].time);
            }
        }
        lemma_trunc_div_bounded(f * 100_000, 83_175);
    }
    assert(kfs@ =~= speed_keyframes(bpm as int, evs@, max_time as int));
    Ok(Timeline::new(kfs))
}

pub open spec fn kind_known(k: u8) -> bool {
    1 <= k <= 4
}

/// Index of the first note whose kind code is unknown.
pub open spec fn first_unknown(ns: Seq<PgrNote>) -> int {
    choose|i: int|
        0 <= i < ns.len() && !kind_known(ns[i].kind) && forall|j: int|
            0 <= j < i ==> kind_known(#[trigger] ns[j].kind)
}

/// The first rule that a list of notes breaks, if any: times in order, then
/// known kind codes.
pub open spec fn notes_error(ns: Seq<PgrNote>) -> Option<ParseError> {
    if exists|i: int| 0 <= i < ns.len() - 1 && (#[trigger] ns[i]).time > ns[i + 1].time {
        Some(ParseError::NotesNotSorted)
    } else if exists|i: int| 0 <= i < ns.len() && !kind_known((#[trigger] ns[i]).kind) {
        Some(ParseError::UnknownNoteKind(ns[first_unknown(ns)].kind))
    } else {
        None
    }
}

/// The note built from a decoded note on one side of a line, given the
/// keyframes of the line's floor position.
pub open spec fn note_of(bpm: int, above: bool, floor: Seq<Keyframe>, n: PgrNote) -> Note {
    let end_time = tick_time(n.time + n.hold_time, bpm);
    Note {
        kind: if n.kind == 1 {
            NoteKind::Click
        } else if n.kind == 2 {
            NoteKind::Drag
        } else if n.kind == 3 {
            NoteKind::Hold { end_time: end_time as i64, end_height: value_at(floor, end_time) as i64 }
        } else {
            NoteKind::Flick
        },
        time: tick_time(n.time as int, bpm) as i64,
        translation_x: trunc_div(n.position_x * NOTE_WIDTH_NUM, NOTE_WIDTH_DEN as int) as i64,
        translation_y: 0,
        speed: n.speed as i64,
        height: to_height(n.floor_position as int) as i64,
        above,
        is_plain: false,
        fake: false,
        judge: JudgeStatus::Pending,
    }
}

fn convert_note(bpm: u32, p: PgrNote, above: bool, height: &mut Timeline) -> (r: Note)
    requires
        bpm >= 1,
        old(height).wf(),
        kind_known(p.kind),
    ensures
        final(height).wf(),
        final(height).keyframes@ == old(height).keyframes@,
        r == note_of(bpm as int, above, old(height).keyframes@, p),
{
    proof {
        lemma_tick_time_range(p.time as int, bpm as int);
    }
    let kind = if p.kind == 1 {
        NoteKind::Click
    } else if p.kind == 2 {
        NoteKind::Drag
    } else if p.kind == 3 {
        let end_time = tick_to_time(p.time as i64 + p.hold_time as i64, bpm);
        height.set_time(end_time);
        NoteKind::Hold { end_time, end_height: height.now() }
    } else {
        NoteKind::Flick
    };
    assert(-0x7000_0000_0000_0000 <= p.position_x * NOTE_WIDTH_NUM <= 0x7000_0000_0000_0000) by (nonlinear_arith)
        requires -0x8000_0000 <= p.position_x < 0x8000_0000;
    Note {
        kind,
        time: tick_to_time(p.time as i64, bpm),
        translation_x: scale(p.position_x as i64, NOTE_WIDTH_NUM, NOTE_WIDTH_DEN),
        translation_y: 0,
        speed: p.speed as i64,
        height: height_of(p.floor_position as i64),
        above,
        is_plain: false,
        fake: false,
        judge: JudgeStatus::Pending,
    }
}

/// Converts the notes of one side of a line.
pub fn parse_notes(bpm: u32, ns: &Vec<PgrNote>, above: bool, height: &mut Timeline) -> (r: Result<Vec<Note>, ParseError>)
    requires
        bpm >= 1,
        old(height).wf(),
    ensures
        final(height).wf(),
        final(height).keyframes@ == old(height).keyframes@,
        notes_error(ns@) matches Some(e) ==> r == Err::<Vec<Note>, ParseError>(e),
        notes_error(ns@) is None ==> (r matches Ok(v) && v@ == ns@.map_values(
            |n: PgrNote| note_of(bpm as int, above, old(height).keyframes@, n),
        )),
{
    let n = ns.len();
    let mut i: usize = 0;
    while n > 0 && i < n - 1
        invariant
            i <= n,
            n == ns@.len(),
            *height == *old(height),
            height.wf(),
            forall|k: int| 0 <= k < i && k + 1 < n ==> (#[trigger] ns@[k]).time <= ns@[k + 1].time,
        decreases n - i,
    {
        if ns[i].time > ns[i + 1].time {
            return Err(ParseError::NotesNotSorted);
        }
        i = i + 1;
    }
    let ghost floor = height.keyframes@;
    let mut out: Vec<Note> = Vec::new();
    let mut i: usize = 0;
    while i < n
        invariant
            i <= n,
            n == ns@.len(),
            bpm >= 1,
            height.wf(),
            height.keyframes@ == floor,
            floor == old(height).keyframes@,
            forall|k: int| 0 <= k && k + 1 < n ==> (#[trigger] ns@[k]).time <= ns@[k + 1].time,
            forall|k: int| 0 <= k < i ==> kind_known((#[trigger] ns@[k]).kind),
            out@ == ns@.map_values(|n: PgrNote| note_of(bpm as int, above, floor, n)).take(i as int),
        decreases n - i,
    {
        let p = ns[i];
        if p.kind < 1 || p.kind > 4 {
            assert(first_unknown(ns@) == i) by {
                let c = first_unknown(ns@);
                assert(0 <= c < n && !kind_known(ns@[c].kind));
                if c < i {
                    assert(kind_known(ns@[c].kind));
                }
                if c > i {
                    assert(kind_known(ns@[i as int].kind));
                }
            }
            return Err(ParseError::UnknownNoteKind(p.kind));
        }
        let note = convert_note(bpm, p, above, height);
        out.push(note);
        i = i + 1;
    }
    assert(out@ =~= ns@.map_values(|n: PgrNote| note_of(bpm as int, above, floor, n)));
    Ok(out)
}

/// The part of a decoded line that a conversion error comes from.
#[derive(Clone, Copy, Debug, PartialEq, Eq, Structural)]
pub enum LinePart {
    Bpm,
    SpeedEvents,
    NotesAbove,
    NotesBelow,
    AlphaEvents,
    RotateEvents,
    MoveEvents,
}

#[derive(Clone, Copy, Debug, PartialEq, Eq, Structural)]
pub struct LineError {
    pub part: LinePart,
    pub error: ParseError,
}

/// A conversion error with the index of the line it comes from.
#[derive(Clone, Copy, Debug, PartialEq, Eq, Structural)]
pub struct ChartError {
    pub line: usize,
    pub part: LinePart,
    pub error: ParseError,
}

pub open spec fn part_error(part: LinePart, e: Option<ParseError>) -> Option<LineError> {
    match e {
        Some(error) => Some(LineError { part, error }),
        None => None,
    }
}

pub open spec fn event_part_error(part: LinePart, e: Option<EventError>) -> Option<LineError> {
    match e {
        Some(error) => Some(LineError { part, error: ParseError::Events(error) }),
        None => None,
    }
}

/// The first error of a decoded line, in the order in which its parts are
/// converted.
#[verifier::opaque]
pub open spec fn line_error(l: &PgrJudgeLine) -> Option<LineError> {
    if l.bpm == 0 {
        Some(LineError { part: LinePart::Bpm, error: ParseError::ZeroBpm })
    } else if speed_error(l.speed_events@) is Some {
        part_error(LinePart::SpeedEvents, speed_error(l.speed_events@))
    } else if notes_error(l.notes_above@) is Some {
        part_error(LinePart::NotesAbove, notes_error(l.notes_above@))
    } else if notes_error(l.notes_below@) is Some {
        part_error(LinePart::NotesBelow, notes_error(l.notes_below@))
    } else if events_error(float_spans(l.alpha_events@)) is Some {
        event_part_error(LinePart::AlphaEvents, events_error(float_spans(l.alpha_events@)))
    } else if events_error(float_spans(l.rotate_events@)) is Some {
        event_part_error(LinePart::RotateEvents, events_error(float_spans(l.rotate_events@)))
    } else {
        event_part_error(LinePart::MoveEvents, events_error(float_spans(l.move_events@)))
    }
}

/// `jl` is the line converted from `l`, with floor positions extended to
/// `max_time`.
#[verifier::opaque]
pub open spec fn line_built(l: &PgrJudgeLine, max_time: int, jl: &JudgeLine) -> bool {
    let bpm = l.bpm as int;
    let floor = speed_keyframes(bpm, l.speed_events@, max_time);
    &&& jl.wf()
    &&& jl.height.keyframes@ == floor
    &&& jl.object.alpha.keyframes@ == event_keyframes(bpm, float_spans(l.alpha_events@)).drop_last()
    &&& jl.object.rotation.keyframes@ == event_keyframes(bpm, float_spans(l.rotate_events@)).drop_last()
    &&& jl.object.translation_x.keyframes@ == recentre(
        event_keyframes(bpm, float_spans(l.move_events@)).drop_last(),
    )
    &&& jl.object.translation_y.keyframes@ == recentre(
        event_keyframes(bpm, second_spans(l.move_events@)).drop_last(),
    )
    &&& jl.notes@.to_multiset() == (l.notes_above@.map_values(|n: PgrNote| note_of(bpm, true, floor, n))
        + l.notes_below@.map_values(|n: PgrNote| note_of(bpm, false, floor, n))).to_multiset()
    &&& jl.parent is None
    &&& jl.show_below
}

/// Converts one decoded line; `max_time` is where its floor positions end.
pub fn parse_judge_line(pgr: &PgrJudgeLine, max_time: i64) -> (r: Result<JudgeLine, LineError>)
    requires
        -0x3900_0000_0000_0000 <= max_time <= 0x3900_0000_0000_0000,
    ensures
        line_error(pgr) matches Some(e) ==> r == Err::<JudgeLine, LineError>(e),
        line_error(pgr) is None ==> (r matches Ok(jl) && line_built(pgr, max_time as int, &jl)),
        r matches Ok(jl) ==> jl.wf() && jl.parent is None,
        r matches Err(e) ==> line_error(pgr) == Some(e),
{
    proof {
        reveal(line_error);
    }
    let bpm = pgr.bpm;
    if bpm == 0 {
        return Err(LineError { part: LinePart::Bpm, error: ParseError::ZeroBpm });
    }
    let mut height = match parse_speed_events(bpm, &pgr.speed_events, max_time) {
        Ok(h) => h,
        Err(error) => return Err(LineError { part: LinePart::SpeedEvents, error }),
    };
    let ghost floor = height.keyframes@;
    let mut notes = match parse_notes(bpm, &pgr.notes_above, true, &mut height) {
        Ok(v) => v,
        Err(error) => return Err(LineError { part: LinePart::NotesAbove, error }),
    };
    let mut below = match parse_notes(bpm, &pgr.notes_below, false, &mut height) {
        Ok(v) => v,
        Err(error) => return Err(LineError { part: LinePart::NotesBelow, error }),
    };
    let alpha = match parse_float_events(bpm, &pgr.alpha_events) {
        Ok(t) => t,
        Err(e) => return Err(LineError { part: LinePart::AlphaEvents, error: ParseError::Events(e) }),
    };
    let rotation = match parse_float_events(bpm, &pgr.rotate_events) {
        Ok(t) => t,
        Err(e) => return Err(LineError { part: LinePart::RotateEvents, error: ParseError::Events(e) }),
    };
    let (translation_x, translation_y) = match parse_move_events(bpm, &pgr.move_events) {
        Ok(p) => p,
        Err(e) => return Err(LineError { part: LinePart::MoveEvents, error: ParseError::Events(e) }),
    };
    let ghost above_notes = notes@;
    let ghost below_notes = below@;
    notes.append(&mut below);
    assert(notes@ == above_notes + below_notes);
    let object = Transform {
        translation_x,
        translation_y,
        rotation,
        scale_x: Timeline::empty(),
        scale_y: Timeline::empty(),
        alpha,
    };
    let color = ColorTimeline {
        r: Timeline::empty(),
        g: Timeline::empty(),
        b: Timeline::empty(),
        a: Timeline::empty(),
    };
    let jl = JudgeLine::new(
        object,
        JudgeLineKind::Normal,
        height,
        Timeline::empty(),
        notes,
        color,
        None,
        0,
        true,
        None,
    );
    proof {
        reveal(line_built);
    }
    Ok(jl)
}

pub open spec fn opt_max(a: Option<int>, b: Option<int>) -> Option<int> {
    match (a, b) {
        (Some(x), Some(y)) => Some(if x >= y { x } else { y }),
        (Some(x), None) => Some(x),
        (None, _) => b,
    }
}

/// The latest note tick of a list, if any.
pub open spec fn max_tick(s: Seq<PgrNote>) -> Option<int>
    decreases s.len(),
{
    if s.len() == 0 {
        None
    } else {
        opt_max(max_tick(s.drop_last()), Some(s.last().time as int))
    }
}

/// The time of the latest note of a line, or 0 when it has none.
pub open spec fn line_end(l: &PgrJudgeLine) -> int {
    match opt_max(max_tick(l.notes_above@), max_tick(l.notes_below@)) {
        Some(m) => if l.bpm == 0 {
            0
        } else {
            tick_time(m, l.bpm as int)
        },
        None => 0,
    }
}

pub open spec fn lines_end(ls: Seq<PgrJudgeLine>) -> Option<int>
    decreases ls.len(),
{
    if ls.len() == 0 {
        None
    } else {
        opt_max(lines_end(ls.drop_last()), Some(line_end(&ls.last())))
    }
}

/// One second past the latest note of the chart.
pub open spec fn chart_max_time(ls: Seq<PgrJudgeLine>) -> int {
    match lines_end(ls) {
        Some(m) => m + 1_000_000,
        None => 1_000_000,
    }
}

proof fn lemma_max_tick_range(s: Seq<PgrNote>)
    ensures
        max_tick(s) matches Some(m) ==> -0x8000_0000 <= m < 0x8000_0000,
    decreases s.len(),
{
    if s.len() > 0 {
        lemma_max_tick_range(s.drop_last());
    }
}

proof fn lemma_lines_end_range(ls: Seq<PgrJudgeLine>)
    ensures
        lines_end(ls) matches Some(m) ==> -0x3800_0000_0000_0000 <= m <= 0x3800_0000_0000_0000,
    decreases ls.len(),
{
    if ls.len() > 0 {
        lemma_lines_end_range(ls.drop_last());
        let l = ls.last();
        lemma_max_tick_range(l.notes_above@);
        lemma_max_tick_range(l.notes_below@);
        if let Some(m) = opt_max(max_tick(l.notes_above@), max_tick(l.notes_below@)) {
            if l.bpm != 0 {
                lemma_tick_time_range(m, l.bpm as int);
            }
        }
    }
}

fn max_note_tick(ns: &Vec<PgrNote>) -> (r: Option<i32>)
    ensures
        r matches Some(v) ==> max_tick(ns@) == Some(v as int),
        r is None ==> max_tick(ns@) is None,
{
    let mut m: Option<i32> = None;
    let mut i: usize = 0;
    while i < ns.len()
        invariant
            i <= ns@.len(),
            m matches Some(v) ==> max_tick(ns@.take(i as int)) == Some(v as int),
            m is None ==> max_tick(ns@.take(i as int)) is None,
        decreases ns@.len() - i,
    {
        assert(ns@.take(i + 1).drop_last() =~= ns@.take(i as int));
        let t = ns[i].time;
        m = match m {
            Some(v) => Some(if v >= t { v } else { t }),
            None => Some(t),
        };
        i = i + 1;
    }
    assert(ns@.take(ns@.len() as int) =~= ns@);
    m
}

fn line_end_time(l: &PgrJudgeLine) -> (r: i64)
    ensures
        r == line_end(l),
{
    let a = max_note_tick(&l.notes_above);
    let b = max_note_tick(&l.notes_below);
    let m = match (a, b) {
        (Some(x), Some(y)) => Some(if x >= y { x } else { y }),
        (Some(x), None) => Some(x),
        (None, _) => b,
    };
    match m {
        Some(v) => if l.bpm == 0 {
            0
        } else {
            tick_to_time(v as i64, l.bpm)
        },
        None => 0,
    }
}

/// The time at which every line's floor position ends: one second past the
/// latest note.
pub fn max_time_of(ls: &Vec<PgrJudgeLine>) -> (r: i64)
    ensures
        r == chart_max_time(ls@),
        -0x3900_0000_0000_0000 <= r <= 0x3900_0000_0000_0000,
{
    let mut m: Option<i64> = None;
    let mut i: usize = 0;
    while i < ls.len()
        invariant
            i <= ls@.len(),
            m matches Some(v) ==> lines_end(ls@.take(i as int)) == Some(v as int),
            m is None ==> lines_end(ls@.take(i as int)) is None,
        decreases ls@.len() - i,
    {
        assert(ls@.take(i + 1).drop_last() =~= ls@.take(i as int));
        let t = line_end_time(&ls[i]);
        m = match m {
            Some(v) => Some(if v >= t { v } else { t }),
            None => Some(t),
        };
        i = i + 1;
    }
    assert(ls@.take(ls@.len() as int) =~= ls@);
    proof {
        lemma_lines_end_range(ls@);
    }
    match m {
        Some(v) => v + 1_000_000,
        None => 1_000_000,
    }
}

/// Index of the first line that fails to convert.
pub open spec fn first_bad_line(ls: Seq<PgrJudgeLine>) -> int {
    choose|i: int|
        0 <= i < ls.len() && line_error(&ls[i]) is Some && forall|j: int|
            0 <= j < i ==> line_error(&(#[trigger] ls[j])) is None
}

proof fn lemma_first_bad_line(ls: Seq<PgrJudgeLine>, i: int)
    requires
        0 <= i < ls.len(),
        line_error(&ls[i]) is Some,
        forall|k: int| 0 <= k < i ==> line_error(&(#[trigger] ls[k])) is None,
    ensures
        first_bad_line(ls) == i,
{
    let c = first_bad_line(ls);
    assert(0 <= c < ls.len() && line_error(&ls[c]) is Some);
    if c < i {
        assert(line_error(&ls[c]) is None);
    }
    if c > i {
        assert(line_error(&ls[i]) is None);
    }
}

/// Converts a decoded chart. The first line that fails aborts the whole
/// chart with its index, part and error; otherwise every line is converted
/// with floor positions extended to one second past the latest note.
pub fn build_chart(pgr: &PgrChart) -> (r: Result<Chart, ChartError>)
    ensures
        (exists|i: int| 0 <= i < pgr.judge_line_list@.len() && line_error(&(#[trigger] pgr.judge_line_list@[i])) is Some)
            ==> (r matches Err(e) && e.line == first_bad_line(pgr.judge_line_list@) && line_error(
            &pgr.judge_line_list@[e.line as int],
        ) == Some(LineError { part: e.part, error: e.error })),
        (forall|i: int| 0 <= i < pgr.judge_line_list@.len() ==> line_error(&(#[trigger] pgr.judge_line_list@[i])) is None)
            ==> (r matches Ok(c) && c.wf() && c.offset == pgr.offset && c.lines@.len()
            == pgr.judge_line_list@.len() && forall|i: int|
            0 <= i < c.lines@.len() ==> line_built(
                &pgr.judge_line_list@[i],
                chart_max_time(pgr.judge_line_list@),
                &(#[trigger] c.lines@[i]),
            )),
{
    let ls = &pgr.judge_line_list;
    let max_time = max_time_of(ls);
    let mut lines: Vec<JudgeLine> = Vec::new();
    let mut i: usize = 0;
    while i < ls.len()
        invariant
            i <= ls@.len(),
            ls@ == pgr.judge_line_list@,
            max_time == chart_max_time(ls@),
            -0x3900_0000_0000_0000 <= max_time <= 0x3900_0000_0000_0000,
            lines@.len() == i,
            forall|k: int| 0 <= k < i ==> line_error(&(#[trigger] ls@[k])) is None,
            forall|k: int| 0 <= k < i ==> line_built(&ls@[k], max_time as int, &(#[trigger] lines@[k])),
            forall|k: int| 0 <= k < i ==> (#[trigger] lines@[k]).wf() && lines@[k].parent is None,
        decreases ls@.len() - i,
    {
        match parse_judge_line(&ls[i], max_time) {
            Ok(jl) => {
                lines.push(jl);
            },
            Err(e) => {
                proof {
                    lemma_first_bad_line(ls@, i as int);
                }
                return Err(ChartError { line: i, part: e.part, error: e.error });
            },
        }
        i = i + 1;
    }
    let chart = Chart { offset: pgr.offset, lines };
    assert(crate::chart::parents_ok(chart.lines@));
    Ok(chart)
}

} // verus!
