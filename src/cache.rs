//! The per-line note scheduling cache: which notes still need updates, and
//! one live cursor per run of grouped notes.

use crate::note::{is_live, notes_sorted, same_run, JudgeStatus, Note};
use vstd::prelude::*;

verus! {

/// Notes `i..=j` form one stretch of a run.
pub open spec fn in_run(notes: Seq<Note>, i: int, j: int) -> bool {
    &&& 0 <= i <= j < notes.len()
    &&& forall|k: int| i <= k <= j ==> same_run(notes[i], #[trigger] notes[k])
}

/// Some cursor of `cs` starts a stretch of its run that reaches note `j`.
pub open spec fn covered(notes: Seq<Note>, cs: Seq<usize>, j: int) -> bool {
    exists|k: int| 0 <= k < cs.len() && #[trigger] in_run(notes, cs[k] as int, j)
}

/// Every cursor points at a grouped note of the given side, and every
/// pending grouped note of that side is reached from some cursor.
pub open spec fn cursors_ok(notes: Seq<Note>, cs: Seq<usize>, above: bool) -> bool {
    &&& forall|k: int|
        0 <= k < cs.len() ==> (#[trigger] cs[k]) < notes.len() && !notes[cs[k] as int].is_plain
            && notes[cs[k] as int].above == above
    &&& forall|j: int|
        0 <= j < notes.len() && !(#[trigger] notes[j]).is_plain && notes[j].above == above
            && notes[j].judge == JudgeStatus::Pending ==> covered(notes, cs, j)
}

/// Cursors are strictly increasing and no two lie in one stretch of a run:
/// at most one cursor per run.
pub open spec fn distinct_runs(notes: Seq<Note>, cs: Seq<usize>) -> bool {
    forall|a: int, b: int|
        0 <= a < b < cs.len() ==> #[trigger] cs[a] < #[trigger] cs[b] && !in_run(notes, cs[a] as int, cs[b] as int)
}

/// A cursor moved forward within its run stays before, and in another run
/// than, a later cursor moved forward within its own.
proof fn lemma_advanced_distinct(notes: Seq<Note>, ca: int, cb: int, oa: int, ob: int)
    requires
        in_run(notes, ca, oa),
        in_run(notes, cb, ob),
        ca < cb,
        !in_run(notes, ca, cb),
    ensures
        oa < ob,
        !in_run(notes, oa, ob),
{
    if oa >= cb {
        assert forall|k: int| ca <= k <= cb implies same_run(notes[ca], #[trigger] notes[k]) by {
            assert(same_run(notes[ca], notes[k]));
        }
        assert(in_run(notes, ca, cb));
    }
    if in_run(notes, oa, ob) {
        assert forall|k: int| ca <= k <= cb implies same_run(notes[ca], #[trigger] notes[k]) by {
            if k > oa {
                assert(same_run(notes[oa], notes[k]));
                assert(same_run(notes[ca], notes[oa]));
            }
        }
        assert(in_run(notes, ca, cb));
    }
}

/// No stretch of a run reaches across a run boundary at `s`.
proof fn lemma_boundary(notes: Seq<Note>, c: int, s: int)
    requires
        0 <= c < s < notes.len(),
        !same_run(notes[s - 1], notes[s]),
    ensures
        !in_run(notes, c, s),
{
    if in_run(notes, c, s) {
        assert(same_run(notes[c], notes[s - 1]));
        assert(same_run(notes[c], notes[s]));
    }
}

/// Every cursor points at a pending note.
pub open spec fn cursors_pending(notes: Seq<Note>, cs: Seq<usize>) -> bool {
    forall|k: int| 0 <= k < cs.len() ==> notes[#[trigger] cs[k] as int].judge == JudgeStatus::Pending
}

/// Strictly increasing indices of notes, holding every pending note.
pub open spec fn order_ok(notes: Seq<Note>, order: Seq<usize>) -> bool {
    &&& forall|a: int, b: int| 0 <= a < b < order.len() ==> #[trigger] order[a] < #[trigger] order[b]
    &&& forall|k: int| 0 <= k < order.len() ==> #[trigger] order[k] < notes.len()
    &&& forall|j: int|
        0 <= j < notes.len() && (#[trigger] notes[j]).judge == JudgeStatus::Pending
            ==> order.contains(j as usize)
}

pub open spec fn live_filter(notes: Seq<Note>, t: int) -> spec_fn(usize) -> bool {
    |i: usize| is_live(notes[i as int], t)
}

pub struct JudgeLineCache {
    pub update_order: Vec<usize>,
    pub above_indices: Vec<usize>,
    pub below_indices: Vec<usize>,
}

/// Relies on `slice::sort_by_key` of std: it permutes the elements into
/// non-decreasing order of the key; tuples compare lexicographically, with
/// `false < true`.
#[verifier::external_body]
fn sort_notes(notes: &mut Vec<Note>)
    ensures
        final(notes)@.to_multiset() == old(notes)@.to_multiset(),
        final(notes)@.len() == old(notes)@.len(),
        notes_sorted(final(notes)@),
{
    notes.sort_by_key(|n| n.sort_key());
}

proof fn lemma_run_prefix(notes: Seq<Note>, i: int, j: int, m: int)
    requires
        in_run(notes, i, j),
        i <= m <= j,
    ensures
        in_run(notes, i, m),
        in_run(notes, m, j),
{
    assert forall|k: int| m <= k <= j implies same_run(notes[m], #[trigger] notes[k]) by {
        assert(same_run(notes[i], notes[m]));
        assert(same_run(notes[i], notes[k]));
    }
}

impl JudgeLineCache {
    pub open spec fn wf(&self, notes: Seq<Note>) -> bool {
        &&& order_ok(notes, self.update_order@)
        &&& cursors_ok(notes, self.above_indices@, true)
        &&& cursors_ok(notes, self.below_indices@, false)
        &&& distinct_runs(notes, self.above_indices@)
        &&& distinct_runs(notes, self.below_indices@)
    }

    /// Sorts the notes into their load order and builds the cache over them.
    pub fn new(notes: &mut Vec<Note>) -> (r: Self)
        ensures
            final(notes)@.to_multiset() == old(notes)@.to_multiset(),
            final(notes)@.len() == old(notes)@.len(),
            notes_sorted(final(notes)@),
            r.wf(final(notes)@),
            r.update_order@ == Seq::new(final(notes)@.len(), |i: int| i as usize),
            forall|j: int|
                0 <= j < final(notes)@.len() && !(#[trigger] final(notes)@[j]).is_plain ==> covered(
                    final(notes)@,
                    if final(notes)@[j].above {
                        r.above_indices@
                    } else {
                        r.below_indices@
                    },
                    j,
                ),
    {
        sort_notes(notes);
        let mut res = JudgeLineCache {
            update_order: Vec::new(),
            above_indices: Vec::new(),
            below_indices: Vec::new(),
        };
        res.reset(notes);
        res
    }

    /// Rebuilds the cache from the fixed note sequence: every note needs
    /// updates again and every run gets a cursor at its first note.
    pub fn reset(&mut self, notes: &Vec<Note>)
        ensures
            final(self).wf(notes@),
            final(self).update_order@ == Seq::new(notes@.len(), |i: int| i as usize),
            forall|j: int|
                0 <= j < notes@.len() && !(#[trigger] notes@[j]).is_plain ==> covered(
                    notes@,
                    if notes@[j].above {
                        final(self).above_indices@
                    } else {
                        final(self).below_indices@
                    },
                    j,
                ),
    {
        let n = notes.len();
        let mut order: Vec<usize> = Vec::new();
        let mut i: usize = 0;
        while i < n
            invariant
                i <= n,
                order@ == Seq::new(i as nat, |k: int| k as usize),
            decreases n - i,
        {
            order.push(i);
            i = i + 1;
        }
        assert forall|j: int| 0 <= j < n implies #[trigger] order@.contains(j as usize) by {
            assert(order@[j] == j as usize);
        }
        let mut above: Vec<usize> = Vec::new();
        let mut below: Vec<usize> = Vec::new();
        let mut index: usize = 0;
        while index < n
            invariant
                index <= n,
                n == notes@.len(),
                forall|k: int|
                    0 <= k < above@.len() ==> (#[trigger] above@[k]) < n && !notes@[above@[k] as int].is_plain
                        && notes@[above@[k] as int].above,
                forall|k: int|
                    0 <= k < below@.len() ==> (#[trigger] below@[k]) < n && !notes@[below@[k] as int].is_plain
                        && !notes@[below@[k] as int].above,
                forall|j: int|
                    0 <= j < index && !(#[trigger] notes@[j]).is_plain ==> covered(
                        notes@,
                        if notes@[j].above {
                            above@
                        } else {
                            below@
                        },
                        j,
                    ),
                distinct_runs(notes@, above@),
                distinct_runs(notes@, below@),
                forall|k: int| 0 <= k < above@.len() ==> (#[trigger] above@[k]) < index,
                forall|k: int| 0 <= k < below@.len() ==> (#[trigger] below@[k]) < index,
                0 < index < n ==> !same_run(notes@[index - 1], notes@[index as int]),
            decreases n - index,
        {
            if notes[index].is_plain {
                index = index + 1;
            } else {
                let start = index;
                let ghost a0 = above@;
                let ghost b0 = below@;
                proof {
                    assert forall|k: int| 0 <= k < a0.len() implies !in_run(notes@, #[trigger] a0[k] as int, start as int) by {
                        lemma_boundary(notes@, a0[k] as int, start as int);
                    }
                    assert forall|k: int| 0 <= k < b0.len() implies !in_run(notes@, #[trigger] b0[k] as int, start as int) by {
                        lemma_boundary(notes@, b0[k] as int, start as int);
                    }
                }
                if notes[start].above {
                    above.push(start);
                } else {
                    below.push(start);
                }
                assert(distinct_runs(notes@, above@)) by {
                    assert forall|a: int, b: int| 0 <= a < b < above@.len() implies #[trigger] above@[a] < #[trigger] above@[b]
                        && !in_run(notes@, above@[a] as int, above@[b] as int) by {
                        if b < a0.len() {
                            assert(above@[a] == a0[a] && above@[b] == a0[b]);
                        } else if above@.len() > a0.len() {
                            assert(above@[a] == a0[a]);
                        }
                    }
                }
                assert(distinct_runs(notes@, below@)) by {
                    assert forall|a: int, b: int| 0 <= a < b < below@.len() implies #[trigger] below@[a] < #[trigger] below@[b]
                        && !in_run(notes@, below@[a] as int, below@[b] as int) by {
                        if b < b0.len() {
                            assert(below@[a] == b0[a] && below@[b] == b0[b]);
                        } else if below@.len() > b0.len() {
                            assert(below@[a] == b0[a]);
                        }
                    }
                }
                let ghost cs = if notes@[start as int].above { above@ } else { below@ };
                assert forall|j: int| 0 <= j < start && !(#[trigger] notes@[j]).is_plain implies covered(
                    notes@,
                    if notes@[j].above { above@ } else { below@ },
                    j,
                ) by {
                    let old_cs = if notes@[j].above { a0 } else { b0 };
                    let k = choose|k: int| 0 <= k < old_cs.len() && #[trigger] in_run(notes@, old_cs[k] as int, j);
                    if notes@[j].above {
                        assert(above@[k] == a0[k]);
                    } else {
                        assert(below@[k] == b0[k]);
                    }
                }
                index = index + 1;
                while index < n && notes[start].same_run(&notes[index])
                    invariant
                        start < index <= n,
                        n == notes@.len(),
                        !notes@[start as int].is_plain,
                        cs == (if notes@[start as int].above { above@ } else { below@ }),
                        cs[cs.len() - 1] == start,
                        in_run(notes@, start as int, index - 1),
                        distinct_runs(notes@, above@),
                        distinct_runs(notes@, below@),
                        forall|k: int| 0 <= k < above@.len() ==> (#[trigger] above@[k]) < index,
                        forall|k: int| 0 <= k < below@.len() ==> (#[trigger] below@[k]) < index,
                        forall|j: int|
                            0 <= j < start && !(#[trigger] notes@[j]).is_plain ==> covered(
                                notes@,
                                if notes@[j].above {
                                    above@
                                } else {
                                    below@
                                },
                                j,
                            ),
                    decreases n - index,
                {
                    index = index + 1;
                }
                if index < n {
                    assert(same_run(notes@[start as int], notes@[index - 1]));
                }
                assert forall|j: int| 0 <= j < index && !(#[trigger] notes@[j]).is_plain implies covered(
                    notes@,
                    if notes@[j].above { above@ } else { below@ },
                    j,
                ) by {
                    if j >= start {
                        lemma_run_prefix(notes@, start as int, index - 1, j);
                        assert(same_run(notes@[start as int], notes@[j]));
                        assert(in_run(notes@, cs[cs.len() - 1] as int, j));
                    }
                }
            }
        }
        self.update_order = order;
        self.above_indices = above;
        self.below_indices = below;
    }
}

/// Moves each cursor past the judged notes at the front of its run, and
/// drops the cursors whose runs are judged to the end.
pub fn advance_runs(notes: &Vec<Note>, cs: &Vec<usize>, Ghost(above): Ghost<bool>) -> (r: Vec<usize>)
    requires
        cursors_ok(notes@, cs@, above),
        distinct_runs(notes@, cs@),
    ensures
        cursors_ok(notes@, r@, above),
        cursors_pending(notes@, r@),
        distinct_runs(notes@, r@),
{
    let ghost mut origin: Seq<int> = seq![];
    let n = notes.len();
    let mut out: Vec<usize> = Vec::new();
    let mut i: usize = 0;
    while i < cs.len()
        invariant
            i <= cs@.len(),
            n == notes@.len(),
            forall|k: int|
                0 <= k < cs@.len() ==> (#[trigger] cs@[k]) < n && !notes@[cs@[k] as int].is_plain
                    && notes@[cs@[k] as int].above == above,
            forall|k: int|
                0 <= k < out@.len() ==> (#[trigger] out@[k]) < n && !notes@[out@[k] as int].is_plain
                    && notes@[out@[k] as int].above == above,
            cursors_pending(notes@, out@),
            distinct_runs(notes@, cs@),
            distinct_runs(notes@, out@),
            origin.len() == out@.len(),
            forall|m: int| 0 <= m < origin.len() ==> 0 <= #[trigger] origin[m] < i,
            forall|m: int|
                0 <= m < origin.len() ==> in_run(notes@, cs@[origin[m]] as int, #[trigger] out@[m] as int),
            forall|a: int, b: int| 0 <= a < b < origin.len() ==> #[trigger] origin[a] < #[trigger] origin[b],
            forall|j: int, k: int|
                0 <= k < i && 0 <= j < n && notes@[j].judge == JudgeStatus::Pending && #[trigger] in_run(
                    notes@,
                    cs@[k] as int,
                    j,
                ) ==> covered(notes@, out@, j),
        decreases cs@.len() - i,
    {
        let c0 = cs[i];
        let mut c = c0;
        let mut keep = true;
        while keep && notes[c].judge == JudgeStatus::Judged
            invariant
                c0 <= c < n,
                n == notes@.len(),
                in_run(notes@, c0 as int, c as int),
                forall|m: int| c0 <= m < c ==> (#[trigger] notes@[m]).judge == JudgeStatus::Judged,
                !keep ==> notes@[c as int].judge == JudgeStatus::Judged && (c + 1 >= n || !same_run(
                    notes@[c as int],
                    notes@[c + 1],
                )),
            decreases n - c, if keep { 1int } else { 0int },
        {
            if c + 1 < n && notes[c].same_run(&notes[c + 1]) {
                c = c + 1;
            } else {
                keep = false;
            }
        }
        let ghost out0 = out@;
        let ghost origin0 = origin;
        if keep {
            out.push(c);
            proof {
                origin = origin.push(i as int);
                assert forall|a: int, b: int| 0 <= a < b < out@.len() implies #[trigger] out@[a] < #[trigger] out@[b]
                    && !in_run(notes@, out@[a] as int, out@[b] as int) by {
                    if b < out0.len() {
                        assert(out@[a] == out0[a] && out@[b] == out0[b]);
                    } else {
                        assert(out@[a] == out0[a]);
                        assert(in_run(notes@, cs@[origin0[a]] as int, out0[a] as int));
                        lemma_advanced_distinct(notes@, cs@[origin0[a]] as int, c0 as int, out0[a] as int, c as int);
                    }
                }
                assert forall|m: int| 0 <= m < origin.len() implies in_run(notes@, cs@[origin[m]] as int, #[trigger] out@[m] as int) by {
                    if m < out0.len() {
                        assert(out@[m] == out0[m]);
                    }
                }
            }
        }
        assert forall|j: int, k: int|
            0 <= k < i + 1 && 0 <= j < n && notes@[j].judge == JudgeStatus::Pending && #[trigger] in_run(
                notes@,
                cs@[k] as int,
                j,
            ) implies covered(notes@, out@, j) by {
            if k < i {
                let m = choose|m: int| 0 <= m < out0.len() && #[trigger] in_run(notes@, out0[m] as int, j);
                assert(out@[m] == out0[m]);
            } else {
                if j < c {
                    assert(notes@[j].judge == JudgeStatus::Judged);
                }
                if !keep && j > c {
                    assert(same_run(notes@[c0 as int], notes@[c as int]));
                    assert(same_run(notes@[c0 as int], notes@[c + 1]));
                }
                lemma_run_prefix(notes@, c0 as int, j, c as int);
                assert(in_run(notes@, out@[out@.len() - 1] as int, j));
            }
        }
        i = i + 1;
    }
    assert forall|j: int|
        0 <= j < notes@.len() && !(#[trigger] notes@[j]).is_plain && notes@[j].above == above
            && notes@[j].judge == JudgeStatus::Pending implies covered(notes@, out@, j) by {
        let k = choose|k: int| 0 <= k < cs@.len() && #[trigger] in_run(notes@, cs@[k] as int, j);
    }
    out
}

/// Keeps, in order, the indices of notes that are still live at time `t`.
pub fn retain_live(notes: &Vec<Note>, order: &Vec<usize>, t: i64) -> (r: Vec<usize>)
    requires
        order_ok(notes@, order@),
    ensures
        r@ == order@.filter(live_filter(notes@, t as int)),
        order_ok(notes@, r@),
{
    let mut out: Vec<usize> = Vec::new();
    let mut i: usize = 0;
    while i < order.len()
        invariant
            i <= order@.len(),
            order_ok(notes@, order@),
            out@ == order@.take(i as int).filter(live_filter(notes@, t as int)),
            forall|a: int, b: int| 0 <= a < b < out@.len() ==> #[trigger] out@[a] < #[trigger] out@[b],
            forall|k: int| 0 <= k < out@.len() ==> #[trigger] out@[k] < notes@.len(),
            forall|k: int, m: int|
                0 <= k < out@.len() && i <= m < order@.len() ==> #[trigger] out@[k] < #[trigger] order@[m],
        decreases order@.len() - i,
    {
        let idx = order[i];
        proof {
            assert(order@.take(i + 1).drop_last() =~= order@.take(i as int));
            assert(order@.take(i + 1).last() == idx);
            reveal(Seq::filter);
        }
        if !notes[idx].dead(t) {
            out.push(idx);
        }
        i = i + 1;
    }
    let n = notes.len();
    assert(order@.take(order@.len() as int) =~= order@);
    assert forall|j: int|
        0 <= j < notes@.len() && (#[trigger] notes@[j]).judge == JudgeStatus::Pending implies out@.contains(
        j as usize) by {
        assert(order@.contains(j as usize));
        let m = choose|m: int| 0 <= m < order@.len() && order@[m] == j as usize;
        assert(live_filter(notes@, t as int)(order@[m]));
        order@.lemma_filter_contains(live_filter(notes@, t as int), m);
    }
    out
}

} // verus!
