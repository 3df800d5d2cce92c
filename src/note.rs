//! Notes: timed events bound to a judge line.

use vstd::prelude::*;

verus! {

#[derive(Clone, Copy, Debug, PartialEq, Eq, Structural)]
pub enum NoteKind {
    Click,
    Drag,
    Flick,
    Hold { end_time: i64, end_height: i64 },
}

/// Judgement moves one way only: `Pending` to `Judged`.
#[derive(Clone, Copy, Debug, PartialEq, Eq, Structural)]
pub enum JudgeStatus {
    Pending,
    Judged,
}

#[derive(Clone, Copy, Debug, PartialEq, Eq, Structural)]
pub struct Note {
    pub kind: NoteKind,
    /// Hit time, in microseconds.
    pub time: i64,
    /// Local translation across the line.
    pub translation_x: i64,
    /// Local translation along the fall axis.
    pub translation_y: i64,
    pub speed: i64,
    /// Floor position.
    pub height: i64,
    pub above: bool,
    /// Always drawn, outside the grouping into runs.
    pub is_plain: bool,
    pub fake: bool,
    pub judge: JudgeStatus,
}

/// A note needs updates while it is pending, and a judged hold until its end.
pub open spec fn is_live(n: Note, t: int) -> bool {
    n.judge == JudgeStatus::Pending || match n.kind {
        NoteKind::Hold { end_time, .. } => t < end_time,
        _ => false,
    }
}

/// The load order of notes: plain notes first, then the above side, then by
/// speed, then by floor position plus local offset.
pub open spec fn key_le(a: Note, b: Note) -> bool {
    if a.is_plain != b.is_plain {
        a.is_plain
    } else if a.above != b.above {
        a.above
    } else if a.speed != b.speed {
        a.speed < b.speed
    } else {
        a.height + a.translation_y <= b.height + b.translation_y
    }
}

pub open spec fn notes_sorted(s: Seq<Note>) -> bool {
    forall|i: int, j: int| 0 <= i < j < s.len() ==> key_le(#[trigger] s[i], #[trigger] s[j])
}

/// Two notes that may share a run: grouped notes on one side with one speed.
pub open spec fn same_run(a: Note, b: Note) -> bool {
    !a.is_plain && !b.is_plain && a.above == b.above && a.speed == b.speed
}

/// Offset of a note from its line along the fall axis, once the line has
/// reached floor position `line_height`.
pub open spec fn offset(n: Note, line_height: int) -> int {
    n.height - line_height + n.translation_y
}

impl Note {
    /// Whether the note no longer needs updates at time `t`.
    pub fn dead(&self, t: i64) -> (r: bool)
        ensures
            r == !is_live(*self, t as int),
    {
        match self.judge {
            JudgeStatus::Pending => false,
            JudgeStatus::Judged => match self.kind {
                NoteKind::Hold { end_time, .. } => t >= end_time,
                _ => true,
            },
        }
    }

    /// The key of the load order, compared as a tuple.
    pub fn sort_key(&self) -> (r: (bool, bool, i64, i128))
        ensures
            r.0 == !self.is_plain,
            r.1 == !self.above,
            r.2 == self.speed,
            r.3 == self.height + self.translation_y,
    {
        (!self.is_plain, !self.above, self.speed, self.height as i128 + self.translation_y as i128)
    }

    pub fn same_run(&self, other: &Note) -> (r: bool)
        ensures
            r == same_run(*self, *other),
    {
        !self.is_plain && !other.is_plain && self.above == other.above && self.speed == other.speed
    }

    /// Whether the note lies within `extent` of a line at floor position
    /// `line_height`.
    pub fn within(&self, line_height: i64, extent: i64) -> (r: bool)
        ensures
            r == (offset(*self, line_height as int) <= extent),
    {
        self.height as i128 - line_height as i128 + self.translation_y as i128 <= extent as i128
    }
}

} // verus!
