use vstd::prelude::*;

verus! {

/// Abstract state of an undo history: the states that `undo` can go back to
/// (most recent last), the states that `redo` can go forward to (most recent
/// last), and the capacity of the undo side.
pub struct UndoView<T> {
    pub undo: Seq<T>,
    pub redo: Seq<T>,
    pub max: nat,
}

impl<T> UndoView<T> {
    /// Every history reachable from `UndoStack::new` holds at most `max` states in all.
    pub open spec fn wf(self) -> bool {
        self.undo.len() + self.redo.len() <= self.max
    }

    /// The history after recording `state`: it is appended to the undo side,
    /// the oldest undo state is dropped when the capacity is exceeded, and the
    /// redo side is emptied.
    pub open spec fn pushed(self, state: T) -> UndoView<T> {
        let u = self.undo.push(state);
        UndoView {
            undo: if u.len() > self.max { u.drop_first() } else { u },
            redo: Seq::empty(),
            max: self.max,
        }
    }

    /// The history and the returned state after `undo(current)`.
    pub open spec fn undone(self, current: T) -> (UndoView<T>, Option<T>) {
        if self.undo.len() == 0 {
            (self, None)
        } else {
            (
                UndoView {
                    undo: self.undo.drop_last(),
                    redo: self.redo.push(current),
                    max: self.max,
                },
                Some(self.undo.last()),
            )
        }
    }

    /// The history and the returned state after `redo(current)`.
    pub open spec fn redone(self, current: T) -> (UndoView<T>, Option<T>) {
        if self.redo.len() == 0 {
            (self, None)
        } else {
            (
                UndoView {
                    undo: self.undo.push(current),
                    redo: self.redo.drop_last(),
                    max: self.max,
                },
                Some(self.redo.last()),
            )
        }
    }
}

/// Recording a state and then undoing gives that state back, and the state
/// handed to `undo` becomes the only redo state (for any capacity of at least one).
pub proof fn law_undo_returns_pushed<T>(h: UndoView<T>, state: T, current: T)
    requires
        h.wf(),
        h.max > 0,
    ensures
        h.pushed(state).undone(current).1 == Some(state),
        h.pushed(state).undone(current).0.redo == seq![current],
{
    assert(h.pushed(state).redo =~= Seq::<T>::empty());
    assert(Seq::<T>::empty().push(current) =~= seq![current]);
}

/// Redo undoes an undo: stepping back and then forward with the returned
/// state restores the history exactly and returns the state that was current.
pub proof fn law_redo_after_undo<T>(h: UndoView<T>, current: T)
    requires
        h.undo.len() > 0,
    ensures
        h.undone(current).0.redone(h.undone(current).1.unwrap()) == (h, Some(current)),
{
    assert(h.undo.drop_last().push(h.undo.last()) =~= h.undo);
    assert(h.redo.push(current).drop_last() =~= h.redo);
}

/// Undo undoes a redo: stepping forward and then back with the returned
/// state restores the history exactly and returns the state that was current.
pub proof fn law_undo_after_redo<T>(h: UndoView<T>, current: T)
    requires
        h.redo.len() > 0,
    ensures
        h.redone(current).0.undone(h.redone(current).1.unwrap()) == (h, Some(current)),
{
    assert(h.redo.drop_last().push(h.redo.last()) =~= h.redo);
    assert(h.undo.push(current).drop_last() =~= h.undo);
}

/// Recording a state always leaves nothing to redo and keeps the bound on the history.
pub proof fn law_push_bounds_history<T>(h: UndoView<T>, state: T)
    requires
        h.wf(),
    ensures
        h.pushed(state).redo.len() == 0,
        h.pushed(state).wf(),
        h.pushed(state).undo.len() <= h.max,
{
}

/// Recording a state forgets at most one state, the oldest, and only when the
/// undo side is full: below the capacity the state is simply appended; at the
/// capacity the oldest state goes and the newest `max` states stay, so the undo
/// side holds the smaller of its old size plus one and the capacity.
pub proof fn law_push_drops_only_the_oldest<T>(h: UndoView<T>, state: T)
    requires
        h.undo.len() <= h.max,
    ensures
        h.pushed(state).undo.len() == if h.undo.len() + 1 <= h.max { h.undo.len() + 1 } else { h.max },
        h.undo.len() < h.max ==> h.pushed(state).undo == h.undo.push(state),
        h.undo.len() == h.max && h.max > 0 ==> h.pushed(state).undo == h.undo.drop_first().push(state),
        h.max > 0 ==> h.pushed(state).undo.last() == state,
        forall|k: int| 0 <= k < h.pushed(state).undo.len() - 1
            ==> #[trigger] h.pushed(state).undo[k] == h.undo[h.undo.len() + 1 - h.pushed(state).undo.len() + k],
{
    if h.undo.len() == h.max && h.max > 0 {
        assert(h.undo.push(state).drop_first() =~= h.undo.drop_first().push(state));
    }
}

/// A bounded undo/redo history of editor states.
pub struct UndoStack<T> {
    undo: Vec<T>,
    redo: Vec<T>,
    max: usize,
}

impl<T> View for UndoStack<T> {
    type V = UndoView<T>;

    closed spec fn view(&self) -> UndoView<T> {
        UndoView { undo: self.undo@, redo: self.redo@, max: self.max as nat }
    }
}

impl<T> UndoStack<T> {
    /// An empty history that keeps at most `max` undo states.
    pub fn new(max: usize) -> (s: Self)
        ensures
            s@.undo == Seq::<T>::empty(),
            s@.redo == Seq::<T>::empty(),
            s@.max == max,
            s@.wf(),
    {
        Self { undo: Vec::new(), redo: Vec::new(), max }
    }

    /// Records `state` as the newest undo state and forgets everything that
    /// could have been redone.
    pub fn push(&mut self, state: T)
        ensures
            final(self)@ == old(self)@.pushed(state),
            old(self)@.wf() ==> final(self)@.wf(),
    {
        self.undo.push(state);
        self.redo.clear();
        if self.undo.len() > self.max {
            self.undo.remove(0);
        }
        proof {
            assert(self.undo@.len() > self.max ==> self.undo@ =~= old(self).undo@.push(state).drop_first());
        }
    }

    /// Steps back: returns the newest undo state, if any, and keeps `current`
    /// so that `redo` can return to it.
    pub fn undo(&mut self, current: T) -> (prev: Option<T>)
        ensures
            (final(self)@, prev) == old(self)@.undone(current),
            old(self)@.wf() ==> final(self)@.wf(),
    {
        let prev = match self.undo.pop() {
            Some(p) => p,
            None => return None,
        };
        self.redo.push(current);
        Some(prev)
    }

    /// Steps forward: returns the newest redo state, if any, and keeps
    /// `current` so that `undo` can return to it.
    pub fn redo(&mut self, current: T) -> (next: Option<T>)
        ensures
            (final(self)@, next) == old(self)@.redone(current),
            old(self)@.wf() ==> final(self)@.wf(),
    {
        let next = match self.redo.pop() {
            Some(n) => n,
            None => return None,
        };
        self.undo.push(current);
        Some(next)
    }

    /// Whether `undo` would return a state.
    pub fn can_undo(&self) -> (b: bool)
        ensures
            b == (self@.undo.len() > 0),
    {
        !self.undo.is_empty()
    }

    /// Whether `redo` would return a state.
    pub fn can_redo(&self) -> (b: bool)
        ensures
            b == (self@.redo.len() > 0),
    {
        !self.redo.is_empty()
    }
}

} // verus!
