//! A chart: its judge lines and their parent links.

use crate::line::{JudgeLine, LineTransform};
use vstd::prelude::*;

verus! {

/// Parent links name another line that has no parent itself.
pub open spec fn parents_ok(lines: Seq<JudgeLine>) -> bool {
    forall|i: int|
        0 <= i < lines.len() ==> match (#[trigger] lines[i]).parent {
            Some(p) => p < lines.len() && p != i && lines[p as int].parent is None,
            None => true,
        }
}

#[derive(Clone, Copy, Debug, PartialEq, Eq, Structural)]
pub enum ParentErrorKind {
    /// The parent index is past the last line.
    Missing,
    /// The line names itself.
    OwnParent,
    /// The parent has a parent of its own.
    NestedParent,
}

#[derive(Clone, Copy, Debug, PartialEq, Eq, Structural)]
pub struct ParentError {
    pub line: usize,
    pub kind: ParentErrorKind,
}

pub struct Chart {
    /// Microseconds.
    pub offset: i64,
    pub lines: Vec<JudgeLine>,
}

impl Chart {
    pub open spec fn wf(&self) -> bool {
        &&& parents_ok(self.lines@)
        &&& forall|i: int| 0 <= i < self.lines@.len() ==> (#[trigger] self.lines@[i]).wf()
    }

    /// Builds a chart, rejecting a parent link that is out of range, names
    /// its own line, or names a line that has a parent.
    pub fn new(offset: i64, lines: Vec<JudgeLine>) -> (r: Result<Chart, ParentError>)
        requires
            forall|i: int| 0 <= i < lines@.len() ==> (#[trigger] lines@[i]).wf(),
        ensures
            r is Ok <==> parents_ok(lines@),
            r matches Ok(c) ==> c.wf() && c.offset == offset && c.lines@ == lines@,
            r matches Err(e) ==> e.line < lines@.len() && match lines@[e.line as int].parent {
                Some(p) => match e.kind {
                    ParentErrorKind::Missing => p >= lines@.len(),
                    ParentErrorKind::OwnParent => p < lines@.len() && p == e.line,
                    ParentErrorKind::NestedParent => p < lines@.len() && p != e.line
                        && lines@[p as int].parent is Some,
                },
                None => false,
            },
    {
        let n = lines.len();
        let mut i: usize = 0;
        while i < n
            invariant
                i <= n,
                n == lines@.len(),
                forall|k: int|
                    0 <= k < i ==> match (#[trigger] lines@[k]).parent {
                        Some(p) => p < n && p != k && lines@[p as int].parent is None,
                        None => true,
                    },
            decreases n - i,
        {
            if let Some(p) = lines[i].parent {
                if p >= n {
                    return Err(ParentError { line: i, kind: ParentErrorKind::Missing });
                }
                if p == i {
                    return Err(ParentError { line: i, kind: ParentErrorKind::OwnParent });
                }
                if lines[p].parent.is_some() {
                    return Err(ParentError { line: i, kind: ParentErrorKind::NestedParent });
                }
            }
            i = i + 1;
        }
        Ok(Chart { offset, lines })
    }

    /// Advances every line to time `t`.
    pub fn update(&mut self, t: i64)
        requires
            old(self).wf(),
        ensures
            final(self).wf(),
            final(self).offset == old(self).offset,
            final(self).lines@.len() == old(self).lines@.len(),
            forall|i: int|
                0 <= i < final(self).lines@.len() ==> (#[trigger] final(self).lines@[i]).notes@
                    == old(self).lines@[i].notes@ && final(self).lines@[i].object.at(t as int),
    {
        let n = self.lines.len();
        let mut i: usize = 0;
        while i < n
            invariant
                i <= n,
                n == self.lines@.len(),
                n == old(self).lines@.len(),
                self.offset == old(self).offset,
                forall|k: int| 0 <= k < n ==> (#[trigger] self.lines@[k]).wf(),
                forall|k: int| 0 <= k < n ==> (#[trigger] self.lines@[k]).parent == old(self).lines@[k].parent,
                forall|k: int| 0 <= k < n ==> (#[trigger] self.lines@[k]).notes@ == old(self).lines@[k].notes@,
                forall|k: int| 0 <= k < i ==> (#[trigger] self.lines@[k]).object.at(t as int),
                parents_ok(old(self).lines@),
            decreases n - i,
        {
            self.lines[i].update(t);
            i = i + 1;
        }
        assert forall|k: int| 0 <= k < n implies match (#[trigger] self.lines@[k]).parent {
            Some(p) => p < n && p != k && self.lines@[p as int].parent is None,
            None => true,
        } by {
            assert(match old(self).lines@[k].parent {
                Some(p) => p < n && p != k && old(self).lines@[p as int].parent is None,
                None => true,
            });
        }
    }

    /// The parts of the world transform of line `i` now, with its parent
    /// resolved.
    pub fn now_transform(&self, i: usize) -> (r: LineTransform)
        requires
            self.wf(),
            i < self.lines@.len(),
        ensures
            r.translation_x == self.lines@[i as int].object.translation_x.value(),
            r.translation_y == self.lines@[i as int].object.translation_y.value(),
            r.rotation == self.lines@[i as int].object.rotation.value(),
            r.parent is Some <==> self.lines@[i as int].parent is Some,
    {
        assert(self.lines@[i as int].wf());
        self.lines[i].now_transform(&self.lines)
    }
}

} // verus!
