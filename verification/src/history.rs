//! The undo / redo stacks behind the settings history: committed steps, the
//! bundle currently in place, and the steps undone since the last commit.

use vstd::prelude::*;

verus! {

/// Maximum number of steps kept on the undo stack.
pub const CAP: usize = 100;

/// What a history is: the steps that can be undone (oldest first), the
/// committed value, and the steps that can be redone (the next one last).
pub struct HistoryView<T> {
    pub undo: Seq<T>,
    pub committed: T,
    pub redo: Seq<T>,
}

/// `view` after committing `next`: the committed value goes onto the undo
/// stack, dropping the oldest step past [`CAP`], and the redo stack empties.
pub open spec fn spec_commit<T>(view: HistoryView<T>, next: T) -> HistoryView<T> {
    let pushed = view.undo.push(view.committed);
    HistoryView {
        undo: if pushed.len() > CAP { pushed.drop_first() } else { pushed },
        committed: next,
        redo: Seq::empty(),
    }
}

/// `view` after an undo: the last undone step comes back into place and the
/// value it replaces goes onto the redo stack. `None` with nothing to undo.
pub open spec fn spec_undo<T>(view: HistoryView<T>) -> Option<HistoryView<T>> {
    if view.undo.len() == 0 {
        None
    } else {
        Some(
            HistoryView {
                undo: view.undo.drop_last(),
                committed: view.undo.last(),
                redo: view.redo.push(view.committed),
            },
        )
    }
}

/// `view` after a redo: the last undone step is put back in place and the
/// value it replaces goes onto the undo stack. `None` with nothing to redo.
pub open spec fn spec_redo<T>(view: HistoryView<T>) -> Option<HistoryView<T>> {
    if view.redo.len() == 0 {
        None
    } else {
        Some(
            HistoryView {
                undo: view.undo.push(view.committed),
                committed: view.redo.last(),
                redo: view.redo.drop_last(),
            },
        )
    }
}

/// Undo / redo stacks over values of `T`.
pub struct UndoHistory<T> {
    undo: Vec<T>,
    redo: Vec<T>,
    committed: T,
}

impl<T> View for UndoHistory<T> {
    type V = HistoryView<T>;

    closed spec fn view(&self) -> HistoryView<T> {
        HistoryView { undo: self.undo@, committed: self.committed, redo: self.redo@ }
    }
}

impl<T> UndoHistory<T> {
    /// A history with `initial` in place and nothing to undo or redo.
    pub fn new(initial: T) -> (history: Self)
        ensures
            history@ == (HistoryView { undo: Seq::empty(), committed: initial, redo: Seq::<T>::empty() }),
    {
        UndoHistory { undo: Vec::new(), redo: Vec::new(), committed: initial }
    }

    /// Make `next` the committed value as a new step.
    pub fn commit(&mut self, next: T)
        ensures
            final(self)@ == spec_commit(old(self)@, next),
    {
        let mut previous = next;
        std::mem::swap(&mut self.committed, &mut previous);
        self.undo.push(previous);
        if self.undo.len() > CAP {
            self.undo.remove(0);
            assert(self.undo@ =~= old(self).undo@.push(old(self).committed).drop_first());
        }
        self.redo.clear();
    }

    /// Undo the last committed step. `false`, and nothing changed, when there
    /// is none.
    pub fn undo(&mut self) -> (done: bool)
        ensures
            done == (old(self)@.undo.len() > 0),
            done ==> spec_undo(old(self)@) == Some(final(self)@),
            !done ==> final(self)@ == old(self)@,
    {
        match self.undo.pop() {
            Some(previous) => {
                let mut replaced = previous;
                std::mem::swap(&mut self.committed, &mut replaced);
                self.redo.push(replaced);
                true
            },
            None => false,
        }
    }

    /// Redo the last undone step. `false`, and nothing changed, when there
    /// is none.
    pub fn redo(&mut self) -> (done: bool)
        ensures
            done == (old(self)@.redo.len() > 0),
            done ==> spec_redo(old(self)@) == Some(final(self)@),
            !done ==> final(self)@ == old(self)@,
    {
        match self.redo.pop() {
            Some(next) => {
                let mut replaced = next;
                std::mem::swap(&mut self.committed, &mut replaced);
                self.undo.push(replaced);
                true
            },
            None => false,
        }
    }

    /// The value the last step left in place.
    pub fn committed(&self) -> (value: &T)
        ensures
            *value == self@.committed,
    {
        &self.committed
    }

    pub fn can_undo(&self) -> (can: bool)
        ensures
            can == (self@.undo.len() > 0),
    {
        self.undo.len() > 0
    }

    pub fn can_redo(&self) -> (can: bool)
        ensures
            can == (self@.redo.len() > 0),
    {
        self.redo.len() > 0
    }

    /// Steps on the undo stack.
    pub fn undo_len(&self) -> (n: usize)
        ensures
            n == self@.undo.len(),
    {
        self.undo.len()
    }
}

/// Undoing a step and redoing it puts everything back as it was.
pub proof fn law_undo_then_redo_round_trips<T>(view: HistoryView<T>)
    requires
        view.undo.len() > 0,
    ensures
        spec_undo(view) matches Some(undone) && spec_redo(undone) == Some(view),
{
    let undone = spec_undo(view).unwrap();
    assert(undone.undo.push(undone.committed) =~= view.undo);
    assert(undone.redo.drop_last() =~= view.redo);
}

/// Redoing a step and undoing it puts everything back as it was.
pub proof fn law_redo_then_undo_round_trips<T>(view: HistoryView<T>)
    requires
        view.redo.len() > 0,
    ensures
        spec_redo(view) matches Some(redone) && spec_undo(redone) == Some(view),
{
    let redone = spec_redo(view).unwrap();
    assert(redone.redo.push(redone.committed) =~= view.redo);
    assert(redone.undo.drop_last() =~= view.undo);
}

/// A commit puts the value in place, leaves nothing to redo, keeps at most
/// [`CAP`] steps, and undoing it brings back the value it replaced.
pub proof fn law_commit_then_undo_restores<T>(view: HistoryView<T>, next: T)
    requires
        view.undo.len() <= CAP,
    ensures
        spec_commit(view, next).committed == next,
        spec_commit(view, next).redo.len() == 0,
        spec_commit(view, next).undo.len() <= CAP,
        spec_undo(spec_commit(view, next)) matches Some(undone) && undone.committed
            == view.committed,
{
}

} // verus!
