//! Undo and redo of canvas states: two stacks of snapshots, the undo stack
//! bounded in length.
use vstd::prelude::*;

verus! {

/// The number of states that the undo stack keeps at most.
pub const MAX_UNDO_HISTORY: usize = 50;

/// The undo and redo stacks of snapshots of type `S`; the most recent
/// snapshot is last.
pub struct UndoHistory<S> {
    pub undo_stack: Vec<S>,
    pub redo_stack: Vec<S>,
}

impl<S> UndoHistory<S> {
    /// The two stacks hold at most [`MAX_UNDO_HISTORY`] snapshots together. A
    /// new history has this property and every operation keeps it.
    pub open spec fn well_formed(&self) -> bool {
        self.undo_stack@.len() + self.redo_stack@.len() <= MAX_UNDO_HISTORY
    }

    /// Empty stacks.
    pub fn new() -> (h: Self)
        ensures
            h.undo_stack@ == Seq::<S>::empty(),
            h.redo_stack@ == Seq::<S>::empty(),
            h.well_formed(),
    {
        UndoHistory { undo_stack: Vec::new(), redo_stack: Vec::new() }
    }

    /// Whether there is a state to go back to.
    pub fn can_undo(&self) -> (r: bool)
        ensures
            r == (self.undo_stack@.len() > 0),
    {
        self.undo_stack.len() > 0
    }

    /// Whether there is a state to go forward to.
    pub fn can_redo(&self) -> (r: bool)
        ensures
            r == (self.redo_stack@.len() > 0),
    {
        self.redo_stack.len() > 0
    }

    /// Records `current`, the state before a change: it becomes the most
    /// recent undo state, the oldest undo state is dropped when the undo stack
    /// would exceed [`MAX_UNDO_HISTORY`], and the redo stack is cleared.
    pub fn push_undo(&mut self, current: S)
        ensures
            old(self).undo_stack@.len() <= MAX_UNDO_HISTORY ==> final(self).well_formed(),
            final(self).undo_stack@ == (if old(self).undo_stack@.len() + 1 > MAX_UNDO_HISTORY {
                old(self).undo_stack@.push(current).drop_first()
            } else {
                old(self).undo_stack@.push(current)
            }),
            final(self).redo_stack@ == Seq::<S>::empty(),
    {
        self.undo_stack.push(current);
        if self.undo_stack.len() > MAX_UNDO_HISTORY {
            self.undo_stack.remove(0);
            assert(self.undo_stack@ =~= old(self).undo_stack@.push(current).drop_first());
        }
        self.redo_stack.clear();
    }

    /// Goes back one state: the most recent undo state is taken off and
    /// returned, and `current` becomes the most recent redo state. With no
    /// undo state nothing changes and the result is `None`.
    pub fn undo(&mut self, current: S) -> (r: Option<S>)
        ensures
            old(self).well_formed() ==> final(self).well_formed(),
            undo_step(
                old(self).undo_stack@,
                old(self).redo_stack@,
                current,
                final(self).undo_stack@,
                final(self).redo_stack@,
                r,
            ),
    {
        match self.undo_stack.pop() {
            Some(prev) => {
                self.redo_stack.push(current);
                Some(prev)
            },
            None => None,
        }
    }

    /// Goes forward one state: the most recent redo state is taken off and
    /// returned, and `current` becomes the most recent undo state. With no
    /// redo state nothing changes and the result is `None`.
    pub fn redo(&mut self, current: S) -> (r: Option<S>)
        ensures
            old(self).well_formed() ==> final(self).well_formed(),
            redo_step(
                old(self).undo_stack@,
                old(self).redo_stack@,
                current,
                final(self).undo_stack@,
                final(self).redo_stack@,
                r,
            ),
    {
        match self.redo_stack.pop() {
            Some(next) => {
                self.undo_stack.push(current);
                Some(next)
            },
            None => None,
        }
    }
}

/// How undoing from state `current` turns stacks `(u, r)` into `(u2, r2)`
/// with result `out`: the most recent undo state is taken off and returned,
/// and `current` goes onto the redo stack; with no undo state nothing changes.
pub open spec fn undo_step<S>(u: Seq<S>, r: Seq<S>, current: S, u2: Seq<S>, r2: Seq<S>, out: Option<S>) -> bool {
    if u.len() == 0 {
        out is None && u2 == u && r2 == r
    } else {
        out == Some(u.last()) && u2 == u.drop_last() && r2 == r.push(current)
    }
}

/// How redoing from state `current` turns stacks `(u, r)` into `(u2, r2)`
/// with result `out`: as [`undo_step`], with the stacks' roles exchanged.
pub open spec fn redo_step<S>(u: Seq<S>, r: Seq<S>, current: S, u2: Seq<S>, r2: Seq<S>, out: Option<S>) -> bool {
    if r.len() == 0 {
        out is None && u2 == u && r2 == r
    } else {
        out == Some(r.last()) && r2 == r.drop_last() && u2 == u.push(current)
    }
}

/// Undoing and then redoing gives back the state that was current before the
/// undo, and leaves both stacks as they were.
pub proof fn law_undo_then_redo<S>(
    u0: Seq<S>,
    r0: Seq<S>,
    a: S,
    u1: Seq<S>,
    r1: Seq<S>,
    b: S,
    u2: Seq<S>,
    r2: Seq<S>,
    out: Option<S>,
)
    requires
        undo_step(u0, r0, a, u1, r1, Some(b)),
        redo_step(u1, r1, b, u2, r2, out),
    ensures
        out == Some(a),
        u2 == u0,
        r2 == r0,
{
    assert(u0.drop_last().push(b) =~= u0);
    assert(r0.push(a).drop_last() =~= r0);
}

/// Redoing and then undoing gives back the state that was current before the
/// redo, and leaves both stacks as they were.
pub proof fn law_redo_then_undo<S>(
    u0: Seq<S>,
    r0: Seq<S>,
    a: S,
    u1: Seq<S>,
    r1: Seq<S>,
    b: S,
    u2: Seq<S>,
    r2: Seq<S>,
    out: Option<S>,
)
    requires
        redo_step(u0, r0, a, u1, r1, Some(b)),
        undo_step(u1, r1, b, u2, r2, out),
    ensures
        out == Some(a),
        u2 == u0,
        r2 == r0,
{
    assert(u0.push(a).drop_last() =~= u0);
    assert(r0.drop_last().push(b) =~= r0);
}

} // verus!
