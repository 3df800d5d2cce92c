//! Judge lines: animated transforms, their notes and per-frame passes.

use crate::cache::{
    advance_runs, covered, cursors_ok, cursors_pending, distinct_runs, in_run, live_filter, retain_live,
    JudgeLineCache,
};
use crate::note::{notes_sorted, offset, same_run, JudgeStatus, Note};
use crate::timeline::Timeline;
use vstd::prelude::*;

verus! {

/// Elements of the play interface that a line may carry along.
#[derive(Clone, Copy, Debug, PartialEq, Eq, Structural)]
pub enum UIElement {
    Bar,
    Pause,
    ComboNumber,
    Combo,
    Score,
    Name,
    Level,
}

/// A bundle of timelines evaluated together into one 2D transform.
#[derive(Debug)]
pub struct Transform {
    pub translation_x: Timeline,
    pub translation_y: Timeline,
    /// Degrees, interpolated without wrapping.
    pub rotation: Timeline,
    pub scale_x: Timeline,
    pub scale_y: Timeline,
    pub alpha: Timeline,
}

impl Transform {
    pub open spec fn wf(&self) -> bool {
        &&& self.translation_x.wf()
        &&& self.translation_y.wf()
        &&& self.rotation.wf()
        &&& self.scale_x.wf()
        &&& self.scale_y.wf()
        &&& self.alpha.wf()
    }

    pub open spec fn at(&self, t: int) -> bool {
        &&& self.translation_x.time == t
        &&& self.translation_y.time == t
        &&& self.rotation.time == t
        &&& self.scale_x.time == t
        &&& self.scale_y.time == t
        &&& self.alpha.time == t
    }

    pub fn set_time(&mut self, t: i64)
        requires
            old(self).wf(),
        ensures
            final(self).wf(),
            final(self).at(t as int),
            final(self).translation_x.keyframes@ == old(self).translation_x.keyframes@,
            final(self).translation_y.keyframes@ == old(self).translation_y.keyframes@,
            final(self).rotation.keyframes@ == old(self).rotation.keyframes@,
            final(self).scale_x.keyframes@ == old(self).scale_x.keyframes@,
            final(self).scale_y.keyframes@ == old(self).scale_y.keyframes@,
            final(self).alpha.keyframes@ == old(self).alpha.keyframes@,
    {
        self.translation_x.set_time(t);
        self.translation_y.set_time(t);
        self.rotation.set_time(t);
        self.scale_x.set_time(t);
        self.scale_y.set_time(t);
        self.alpha.set_time(t);
    }
}

/// A colour whose channels animate independently.
#[derive(Debug)]
pub struct ColorTimeline {
    pub r: Timeline,
    pub g: Timeline,
    pub b: Timeline,
    pub a: Timeline,
}

impl ColorTimeline {
    pub open spec fn wf(&self) -> bool {
        self.r.wf() && self.g.wf() && self.b.wf() && self.a.wf()
    }

    pub fn set_time(&mut self, t: i64)
        requires
            old(self).wf(),
        ensures
            final(self).wf(),
            final(self).r.time == t && final(self).g.time == t && final(self).b.time == t
                && final(self).a.time == t,
    {
        self.r.set_time(t);
        self.g.set_time(t);
        self.b.set_time(t);
        self.a.set_time(t);
    }

    /// The colour now, or `None` when any channel has no keyframes.
    pub fn now_opt(&self) -> (r: Option<(i64, i64, i64, i64)>)
        requires
            self.wf(),
        ensures
            r is Some <==> (self.r.keyframes@.len() > 0 && self.g.keyframes@.len() > 0
                && self.b.keyframes@.len() > 0 && self.a.keyframes@.len() > 0),
            r matches Some(c) ==> c.0 == self.r.value() && c.1 == self.g.value() && c.2
                == self.b.value() && c.3 == self.a.value(),
    {
        match (self.r.now_opt(), self.g.now_opt(), self.b.now_opt(), self.a.now_opt()) {
            (Some(r), Some(g), Some(b), Some(a)) => Some((r, g, b, a)),
            _ => None,
        }
    }
}

/// How a line itself is drawn.
#[derive(Debug)]
pub enum JudgeLineKind {
    Normal,
    /// A texture, by the renderer's handle.
    Texture(u64),
    /// Animated text: the timeline holds, with `Hold` keyframes, an index
    /// into `texts`.
    Text { texts: Vec<String>, index: Timeline },
}

/// Line alpha doubles as a control code when it is negative.
#[derive(Clone, Copy, Debug, PartialEq, Eq, Structural)]
pub enum AlphaControl {
    Normal,
    /// Neither the notes nor the rest of the line are drawn.
    Hidden,
    /// Notes that have passed below the line are not drawn.
    SuppressBelow,
    /// Notes appear only this many microseconds before their time.
    AppearBefore(i64),
}

/// The meaning of a line alpha, in thousandths. Without the extension every
/// negative alpha hides the notes; with it the whole part of the magnitude
/// selects a code, and unknown codes render normally.
pub open spec fn alpha_control(alpha: int, extension: bool) -> AlphaControl {
    if alpha >= 0 {
        AlphaControl::Normal
    } else if !extension {
        AlphaControl::Hidden
    } else {
        let w = (-alpha) / 1000;
        if w == 1 {
            AlphaControl::Hidden
        } else if w == 2 {
            AlphaControl::SuppressBelow
        } else if 100 <= w < 1000 {
            AlphaControl::AppearBefore(((w - 100) * 100_000) as i64)
        } else {
            AlphaControl::Normal
        }
    }
}

pub fn decode_alpha(alpha: i64, extension: bool) -> (r: AlphaControl)
    ensures
        r == alpha_control(alpha as int, extension),
{
    if alpha >= 0 {
        AlphaControl::Normal
    } else if !extension {
        AlphaControl::Hidden
    } else {
        let w: i128 = (-(alpha as i128)) / 1000;
        if w == 1 {
            AlphaControl::Hidden
        } else if w == 2 {
            AlphaControl::SuppressBelow
        } else if 100 <= w && w < 1000 {
            AlphaControl::AppearBefore(((w - 100) * 100_000) as i64)
        } else {
            AlphaControl::Normal
        }
    }
}

/// What the host knows of the frame being drawn.
#[derive(Clone, Copy, Debug, PartialEq, Eq, Structural)]
pub struct RenderView {
    /// Stop scanning a run at its first note beyond the visible extent.
    pub aggressive: bool,
    /// Read negative line alpha as a control code.
    pub alpha_extension: bool,
    /// Visible extent above the line, along the fall axis.
    pub height_above: i64,
    /// Visible extent below the line, along the fall axis.
    pub height_below: i64,
}

/// What a line hands to the renderer for one frame.
#[derive(Debug)]
pub struct LineRender {
    pub alpha: i64,
    /// The line colour, or `None` to use the renderer's default.
    pub color: Option<(i64, i64, i64, i64)>,
    /// For a text line, the index of the text to show.
    pub text: Option<i64>,
    pub control: AlphaControl,
    pub draw_below: bool,
    pub height: i64,
    pub incline: i64,
    /// Indices of the notes to draw on the above side, in drawing order.
    pub above: Vec<usize>,
    /// Indices of the notes to draw on the below side, in drawing order.
    pub below: Vec<usize>,
}

/// The rotation and translation of a parent line, now.
#[derive(Clone, Copy, Debug, PartialEq, Eq, Structural)]
pub struct ParentFrame {
    pub rotation: i64,
    pub translation_x: i64,
    pub translation_y: i64,
}

/// The parts of a line's world transform, now. With a parent, the world
/// translation is the parent's rotation applied to the local translation,
/// offset by the parent's translation; rotation and scale are the line's own.
#[derive(Clone, Copy, Debug, PartialEq, Eq, Structural)]
pub struct LineTransform {
    pub parent: Option<ParentFrame>,
    pub translation_x: i64,
    pub translation_y: i64,
    pub rotation: i64,
    pub scale_x: i64,
    pub scale_y: i64,
}

/// Note `j` is drawn on the given side: plain notes always, grouped notes
/// when a cursor reaches them and they lie within `extent`.
pub open spec fn shown(notes: Seq<Note>, cs: Seq<usize>, above: bool, h: int, extent: int, j: int) -> bool {
    &&& 0 <= j < notes.len()
    &&& notes[j].above == above
    &&& (notes[j].is_plain || (covered(notes, cs, j) && offset(notes[j], h) <= extent))
}

/// Appends the notes of the run from `c` that lie within `extent`. An
/// aggressive scan stops at the first note beyond it.
fn scan_run(notes: &Vec<Note>, c: usize, h: i64, extent: i64, aggressive: bool, out: &mut Vec<usize>)
    requires
        notes_sorted(notes@),
        c < notes@.len(),
        !notes@[c as int].is_plain,
    ensures
        forall|x: usize|
            #[trigger] final(out)@.contains(x) <==> (old(out)@.contains(x) || (in_run(notes@, c as int, x as int)
                && offset(notes@[x as int], h as int) <= extent)),
{
    let n = notes.len();
    let mut j = c;
    while j < n && notes[c].same_run(&notes[j]) && (!aggressive || notes[j].within(h, extent))
        invariant
            c <= j <= n,
            n == notes@.len(),
            notes_sorted(notes@),
            forall|k: int| c <= k < j ==> same_run(notes@[c as int], #[trigger] notes@[k]),
            forall|x: usize|
                #[trigger] out@.contains(x) <==> (old(out)@.contains(x) || (c <= x < j && offset(
                    notes@[x as int],
                    h as int,
                ) <= extent)),
        decreases n - j,
    {
        let ghost o = out@;
        if notes[j].within(h, extent) {
            out.push(j);
            assert forall|x: usize| #[trigger] out@.contains(x) <==> (o.contains(x) || x == j) by {
                if out@.contains(x) && x != j {
                    let m = choose|m: int| 0 <= m < out@.len() && out@[m] == x;
                    assert(o[m] == x);
                }
                if o.contains(x) {
                    let m = choose|m: int| 0 <= m < o.len() && o[m] == x;
                    assert(out@[m] == x);
                }
                if x == j {
                    assert(out@[out@.len() - 1] == x);
                }
            }
        }
        j = j + 1;
    }
    assert forall|x: usize|
        #[trigger] out@.contains(x) <==> (old(out)@.contains(x) || (in_run(notes@, c as int, x as int)
            && offset(notes@[x as int], h as int) <= extent)) by {
        if in_run(notes@, c as int, x as int) && offset(notes@[x as int], h as int) <= extent && x >= j {
            assert(same_run(notes@[c as int], notes@[j as int]));
            if x > j {
                assert(key_le_hint(notes@, j as int, x as int));
            }
        }
        if c <= x < j {
            assert(in_run(notes@, c as int, x as int));
        }
    }
}

spec fn key_le_hint(notes: Seq<Note>, a: int, b: int) -> bool {
    crate::note::key_le(notes[a], notes[b])
}

/// Some of the first `k` cursors reaches note `x` within its run.
spec fn reached(notes: Seq<Note>, cs: Seq<usize>, k: int, x: int) -> bool {
    exists|m: int| 0 <= m < k && #[trigger] in_run(notes, cs[m] as int, x)
}

proof fn lemma_reached_step(notes: Seq<Note>, cs: Seq<usize>, k: int, x: int)
    requires
        0 <= k < cs.len(),
    ensures
        reached(notes, cs, k + 1, x) == (reached(notes, cs, k, x) || in_run(notes, cs[k] as int, x)),
{
    if reached(notes, cs, k + 1, x) && !in_run(notes, cs[k] as int, x) {
        let m = choose|m: int| 0 <= m < k + 1 && #[trigger] in_run(notes, cs[m] as int, x);
        assert(m < k);
    }
}

/// The notes of one side to draw: the plain ones first, then each run from
/// its cursor.
fn scan_side(notes: &Vec<Note>, cs: &Vec<usize>, above: bool, h: i64, extent: i64, aggressive: bool) -> (r: Vec<usize>)
    requires
        notes_sorted(notes@),
        cursors_ok(notes@, cs@, above),
    ensures
        forall|x: usize| #[trigger] r@.contains(x) <==> shown(notes@, cs@, above, h as int, extent as int, x as int),
{
    let n = notes.len();
    let mut out: Vec<usize> = Vec::new();
    let mut i: usize = 0;
    while i < n && notes[i].is_plain
        invariant
            i <= n,
            n == notes@.len(),
            forall|k: int| 0 <= k < i ==> (#[trigger] notes@[k]).is_plain,
            forall|x: usize|
                #[trigger] out@.contains(x) <==> (x < i && notes@[x as int].is_plain && notes@[x as int].above == above),
        decreases n - i,
    {
        let ghost o = out@;
        if notes[i].above == above {
            out.push(i);
            assert forall|x: usize| #[trigger] out@.contains(x) <==> (o.contains(x) || x == i) by {
                if out@.contains(x) && x != i {
                    let m = choose|m: int| 0 <= m < out@.len() && out@[m] == x;
                    assert(o[m] == x);
                }
                if o.contains(x) {
                    let m = choose|m: int| 0 <= m < o.len() && o[m] == x;
                    assert(out@[m] == x);
                }
                if x == i {
                    assert(out@[out@.len() - 1] == x);
                }
            }
        }
        i = i + 1;
    }
    assert forall|x: int| 0 <= x < n && (#[trigger] notes@[x]).is_plain implies x < i by {
        if x >= i {
            assert(crate::note::key_le(notes@[i as int], notes@[x]));
        }
    }
    let mut k: usize = 0;
    while k < cs.len()
        invariant
            k <= cs@.len(),
            n == notes@.len(),
            notes_sorted(notes@),
            cursors_ok(notes@, cs@, above),
            forall|x: int| 0 <= x < n && (#[trigger] notes@[x]).is_plain ==> x < i,
            forall|x: usize|
                #[trigger] out@.contains(x) <==> ((x < i && notes@[x as int].is_plain && notes@[x as int].above
                    == above) || reached(notes@, cs@, k as int, x as int) && offset(notes@[x as int], h as int)
                    <= extent),
        decreases cs@.len() - k,
    {
        let c = cs[k];
        let ghost o = out@;
        scan_run(notes, c, h, extent, aggressive, &mut out);
        assert forall|x: usize|
            #[trigger] out@.contains(x) <==> ((x < i && notes@[x as int].is_plain && notes@[x as int].above
                == above) || reached(notes@, cs@, k + 1, x as int) && offset(notes@[x as int], h as int)
                <= extent) by {
            lemma_reached_step(notes@, cs@, k as int, x as int);
            assert(o.contains(x) <==> ((x < i && notes@[x as int].is_plain && notes@[x as int].above
                == above) || reached(notes@, cs@, k as int, x as int) && offset(notes@[x as int], h as int)
                <= extent));
        }
        k = k + 1;
    }
    assert forall|x: usize| #[trigger] out@.contains(x) <==> shown(notes@, cs@, above, h as int, extent as int, x as int) by {
        if reached(notes@, cs@, cs@.len() as int, x as int) {
            let m = choose|m: int| 0 <= m < cs@.len() && #[trigger] in_run(notes@, cs@[m] as int, x as int);
            assert(same_run(notes@[cs@[m] as int], notes@[x as int]));
        }
        if shown(notes@, cs@, above, h as int, extent as int, x as int) && !notes@[x as int].is_plain {
            let m = choose|m: int| 0 <= m < cs@.len() && #[trigger] in_run(notes@, cs@[m] as int, x as int);
        }
    }
    out
}

pub struct JudgeLine {
    pub object: Transform,
    pub kind: JudgeLineKind,
    /// Floor position of the line.
    pub height: Timeline,
    pub incline: Timeline,
    /// In load order, fixed once the line is built.
    pub notes: Vec<Note>,
    pub color: ColorTimeline,
    pub parent: Option<usize>,
    pub z_index: i32,
    pub show_below: bool,
    pub attach_ui: Option<UIElement>,
    pub cache: JudgeLineCache,
}

pub open spec fn kind_wf(kind: &JudgeLineKind) -> bool {
    match kind {
        JudgeLineKind::Text { index, .. } => index.wf(),
        _ => true,
    }
}

/// The full statement of what [`JudgeLine::render`] hands out.
pub open spec fn rendered(line: &JudgeLine, view: RenderView, r: &LineRender) -> bool {
    let alpha = if line.object.alpha.keyframes@.len() == 0 { 1000 } else { line.object.alpha.value() };
    let notes = line.notes@;
    let h = line.height.value();
    &&& r.alpha == alpha
    &&& (r.color is Some <==> (line.color.r.keyframes@.len() > 0 && line.color.g.keyframes@.len() > 0
        && line.color.b.keyframes@.len() > 0 && line.color.a.keyframes@.len() > 0))
    &&& (r.color matches Some(c) ==> c.0 == line.color.r.value() && c.1 == line.color.g.value() && c.2
        == line.color.b.value() && c.3 == line.color.a.value())
    &&& r.text == match &line.kind {
        JudgeLineKind::Text { index, .. } => Some(index.value() as i64),
        _ => None,
    }
    &&& r.control == alpha_control(alpha, view.alpha_extension)
    &&& r.height == h
    &&& r.incline == line.incline.value()
    &&& r.draw_below == (line.show_below && r.control != AlphaControl::SuppressBelow)
    &&& forall|x: usize|
        #[trigger] r.above@.contains(x) <==> (r.control != AlphaControl::Hidden && shown(
            notes,
            line.cache.above_indices@,
            true,
            h,
            view.height_above as int,
            x as int,
        ))
    &&& forall|x: usize|
        #[trigger] r.below@.contains(x) <==> (r.control != AlphaControl::Hidden && shown(
            notes,
            line.cache.below_indices@,
            false,
            h,
            view.height_below as int,
            x as int,
        ))
}

impl JudgeLine {
    pub open spec fn wf(&self) -> bool {
        &&& self.object.wf()
        &&& kind_wf(&self.kind)
        &&& self.height.wf()
        &&& self.incline.wf()
        &&& self.color.wf()
        &&& notes_sorted(self.notes@)
        &&& self.cache.wf(self.notes@)
    }

    /// Builds a line: the notes are put into load order and the cache is
    /// built over them.
    pub fn new(
        object: Transform,
        kind: JudgeLineKind,
        height: Timeline,
        incline: Timeline,
        notes: Vec<Note>,
        color: ColorTimeline,
        parent: Option<usize>,
        z_index: i32,
        show_below: bool,
        attach_ui: Option<UIElement>,
    ) -> (r: JudgeLine)
        requires
            object.wf(),
            kind_wf(&kind),
            height.wf(),
            incline.wf(),
            color.wf(),
        ensures
            r.wf(),
            r.object == object,
            r.height == height,
            r.incline == incline,
            r.color == color,
            r.notes@.to_multiset() == notes@.to_multiset(),
            r.parent == parent,
            r.z_index == z_index,
            r.show_below == show_below,
            r.attach_ui == attach_ui,
            r.cache.update_order@ == Seq::new(notes@.len(), |i: int| i as usize),
    {
        let mut notes = notes;
        let cache = JudgeLineCache::new(&mut notes);
        JudgeLine {
            object,
            kind,
            height,
            incline,
            notes,
            color,
            parent,
            z_index,
            show_below,
            attach_ui,
            cache,
        }
    }

    /// One tick at time `t`: the line's timelines move to `t`, notes that
    /// are no longer live leave the update order, and each run cursor moves
    /// to the first pending note of its run, or the run leaves the cache.
    pub fn update(&mut self, t: i64)
        requires
            old(self).wf(),
        ensures
            final(self).wf(),
            final(self).notes@ == old(self).notes@,
            final(self).parent == old(self).parent,
            final(self).object.at(t as int),
            final(self).height.time == t,
            final(self).incline.time == t,
            final(self).height.keyframes@ == old(self).height.keyframes@,
            final(self).cache.update_order@ == old(self).cache.update_order@.filter(
                live_filter(old(self).notes@, t as int),
            ),
            cursors_pending(final(self).notes@, final(self).cache.above_indices@),
            cursors_pending(final(self).notes@, final(self).cache.below_indices@),
    {
        self.object.set_time(t);
        match &mut self.kind {
            JudgeLineKind::Text { index, .. } => index.set_time(t),
            _ => {},
        }
        self.color.set_time(t);
        self.height.set_time(t);
        self.incline.set_time(t);
        let order = retain_live(&self.notes, &self.cache.update_order, t);
        let above = advance_runs(&self.notes, &self.cache.above_indices, Ghost(true));
        let below = advance_runs(&self.notes, &self.cache.below_indices, Ghost(false));
        self.cache.update_order = order;
        self.cache.above_indices = above;
        self.cache.below_indices = below;
    }

    /// Marks note `i` as judged; judgement is never undone.
    pub fn judge(&mut self, i: usize)
        requires
            old(self).wf(),
            i < old(self).notes@.len(),
        ensures
            final(self).wf(),
            final(self).notes@ == old(self).notes@.update(
                i as int,
                Note { judge: JudgeStatus::Judged, ..old(self).notes@[i as int] },
            ),
            final(self).cache.update_order@ == old(self).cache.update_order@,
            final(self).cache.above_indices@ == old(self).cache.above_indices@,
            final(self).cache.below_indices@ == old(self).cache.below_indices@,
    {
        let ghost old_notes = self.notes@;
        let mut note = self.notes[i];
        note.judge = JudgeStatus::Judged;
        self.notes.set(i, note);
        let ghost notes = self.notes@;
        assert forall|a: int, b: int| 0 <= a < b < notes.len() implies crate::note::key_le(
            #[trigger] notes[a],
            #[trigger] notes[b],
        ) by {
            assert(crate::note::key_le(old_notes[a], old_notes[b]));
        }
        assert forall|j: int| 0 <= j < notes.len() && (#[trigger] notes[j]).judge == JudgeStatus::Pending
            implies covered(notes, self.cache.above_indices@, j) || notes[j].is_plain || !notes[j].above by {
            if !notes[j].is_plain && notes[j].above {
                assert(old_notes[j].judge == JudgeStatus::Pending);
                assert(covered(old_notes, self.cache.above_indices@, j));
                let k = choose|k: int|
                    0 <= k < self.cache.above_indices@.len() && #[trigger] in_run(
                        old_notes,
                        self.cache.above_indices@[k] as int,
                        j,
                    );
                assert(in_run(notes, self.cache.above_indices@[k] as int, j));
            }
        }
        assert forall|j: int| 0 <= j < notes.len() && (#[trigger] notes[j]).judge == JudgeStatus::Pending
            implies covered(notes, self.cache.below_indices@, j) || notes[j].is_plain || notes[j].above by {
            if !notes[j].is_plain && !notes[j].above {
                assert(old_notes[j].judge == JudgeStatus::Pending);
                assert(covered(old_notes, self.cache.below_indices@, j));
                let k = choose|k: int|
                    0 <= k < self.cache.below_indices@.len() && #[trigger] in_run(
                        old_notes,
                        self.cache.below_indices@[k] as int,
                        j,
                    );
                assert(in_run(notes, self.cache.below_indices@[k] as int, j));
            }
        }
        assert forall|j: int| 0 <= j < notes.len() && (#[trigger] notes[j]).judge == JudgeStatus::Pending
            implies self.cache.update_order@.contains(j as usize) by {
            assert(old_notes[j].judge == JudgeStatus::Pending);
        }
        assert forall|a: int, b: int| in_run(notes, a, b) implies #[trigger] in_run(old_notes, a, b) by {
            assert forall|k: int| a <= k <= b implies same_run(old_notes[a], #[trigger] old_notes[k]) by {
                assert(same_run(notes[a], notes[k]));
            }
        }
        assert(distinct_runs(notes, self.cache.above_indices@));
        assert(distinct_runs(notes, self.cache.below_indices@));
    }

    /// The parts of the line's world transform now; the parent, if any, is
    /// looked up in `lines`.
    pub fn now_transform(&self, lines: &Vec<JudgeLine>) -> (r: LineTransform)
        requires
            self.object.wf(),
            self.parent matches Some(p) ==> p < lines@.len() && lines@[p as int].object.wf(),
        ensures
            r.translation_x == self.object.translation_x.value(),
            r.translation_y == self.object.translation_y.value(),
            r.rotation == self.object.rotation.value(),
            r.scale_x == self.object.scale_x.value(),
            r.scale_y == self.object.scale_y.value(),
            r.parent is Some <==> self.parent is Some,
            self.parent matches Some(p) ==> r.parent == Some(
                ParentFrame {
                    rotation: lines@[p as int].object.rotation.value() as i64,
                    translation_x: lines@[p as int].object.translation_x.value() as i64,
                    translation_y: lines@[p as int].object.translation_y.value() as i64,
                },
            ),
    {
        let parent = match self.parent {
            Some(p) => {
                let po = &lines[p].object;
                Some(
                    ParentFrame {
                        rotation: po.rotation.now(),
                        translation_x: po.translation_x.now(),
                        translation_y: po.translation_y.now(),
                    },
                )
            },
            None => None,
        };
        LineTransform {
            parent,
            translation_x: self.object.translation_x.now(),
            translation_y: self.object.translation_y.now(),
            rotation: self.object.rotation.now(),
            scale_x: self.object.scale_x.now(),
            scale_y: self.object.scale_y.now(),
        }
    }

    /// What to draw of the line this frame: its alpha and the control code
    /// it carries, and on each side the plain notes followed by the notes of
    /// each surviving run, from its cursor, that lie within the view.
    pub fn render(&self, view: &RenderView) -> (r: LineRender)
        requires
            self.wf(),
        ensures
            rendered(self, *view, &r),
    {
        let alpha = match self.object.alpha.now_opt() {
            Some(a) => a,
            None => 1000,
        };
        let control = decode_alpha(alpha, view.alpha_extension);
        let color = self.color.now_opt();
        let text = match &self.kind {
            JudgeLineKind::Text { index, .. } => Some(index.now()),
            _ => None,
        };
        let height = self.height.now();
        let incline = self.incline.now();
        let (above, below) = if control == AlphaControl::Hidden {
            (Vec::new(), Vec::new())
        } else {
            (
                scan_side(&self.notes, &self.cache.above_indices, true, height, view.height_above, view.aggressive),
                scan_side(&self.notes, &self.cache.below_indices, false, height, view.height_below, view.aggressive),
            )
        };
        LineRender {
            alpha,
            color,
            text,
            control,
            draw_below: self.show_below && control != AlphaControl::SuppressBelow,
            height,
            incline,
            above,
            below,
        }
    }
}

/// Aggressive culling draws exactly the notes that a full scan with
/// per-note culling draws, on both sides, for the same line and view.
pub proof fn lemma_aggressive_culling_exact(
    line: &JudgeLine,
    fast: RenderView,
    full: RenderView,
    a: &LineRender,
    b: &LineRender,
)
    requires
        line.wf(),
        fast.aggressive,
        !full.aggressive,
        fast.alpha_extension == full.alpha_extension,
        fast.height_above == full.height_above,
        fast.height_below == full.height_below,
        rendered(line, fast, a),
        rendered(line, full, b),
    ensures
        forall|x: usize| a.above@.contains(x) <==> b.above@.contains(x),
        forall|x: usize| a.below@.contains(x) <==> b.below@.contains(x),
{
}

/// Notes of one run share their side and their speed.
pub proof fn lemma_run_shares_side_and_speed(notes: Seq<Note>, i: int, j: int)
    requires
        in_run(notes, i, j),
    ensures
        notes[i].above == notes[j].above,
        notes[i].speed == notes[j].speed,
{
    assert(same_run(notes[i], notes[j]));
}

/// Once every note of a run is judged, no cursor of an updated cache lies in
/// that run, so it is never scanned again.
pub proof fn lemma_judged_run_dropped(notes: Seq<Note>, cs: Seq<usize>, i: int, j: int)
    requires
        cursors_pending(notes, cs),
        0 <= i <= j < notes.len(),
        forall|k: int| i <= k <= j ==> (#[trigger] notes[k]).judge == JudgeStatus::Judged,
    ensures
        forall|k: int| 0 <= k < cs.len() ==> !(i <= #[trigger] cs[k] <= j),
{
    assert forall|k: int| 0 <= k < cs.len() implies !(i <= #[trigger] cs[k] <= j) by {
        assert(notes[cs[k] as int].judge == JudgeStatus::Pending);
    }
}

} // verus!
