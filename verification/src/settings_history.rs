//! Undo / redo history over the app's settings. Callers report the live
//! settings every frame; a change becomes a step only once it has settled:
//! at once when the pointer that made it is released, or after it has sat
//! unchanged for [`SETTLE_MS`] when it was typed. Undo, redo and record
//! commit an unsettled change first, so undoing right after a change
//! reverts that change rather than the one before it.
//!
//! The settings are compared with `==` on `T`; what is stated of the
//! history holds for every `T` whose `==` is the one its `eq_spec` gives.

use vstd::prelude::*;
use vstd::std_specs::cmp::PartialEqSpec;
use crate::history::{HistoryView, UndoHistory, spec_commit, spec_undo, spec_redo};

verus! {

/// How long, in milliseconds, a change made without the pointer has to sit
/// unchanged before it is committed as its own step.
pub const SETTLE_MS: u64 = 300;

/// Whether `a` and `b` are the same settings, as `==` on `T` decides.
pub open spec fn same<T: PartialEq>(a: T, b: T) -> bool {
    a.eq_spec(&b)
}

fn is_same<T: PartialEq>(a: &T, b: &T) -> (r: bool)
    ensures
        T::obeys_eq_spec() ==> r == same(*a, *b),
{
    a.eq(b)
}

/// A change that has not settled yet: the settings last seen, when they
/// last changed (milliseconds on the caller's clock), and whether a pointer
/// button was down at any point of it.
pub struct PendingChange<T> {
    pub seen: T,
    pub since: u64,
    pub held: bool,
}

/// What a settings history is: its undo / redo stacks and the change
/// waiting to settle.
pub struct SettingsHistoryView<T> {
    pub steps: HistoryView<T>,
    pub pending: Option<PendingChange<T>>,
}

/// Whether a change last seen changing at `since` has sat still long
/// enough by `now`. A clock that went backwards counts as no time passed.
pub open spec fn has_settled(since: u64, now: u64) -> bool {
    now >= since && now - since >= SETTLE_MS
}

/// `steps` after `value` is committed as `copy` (its clone) unless it is
/// already the committed value.
pub open spec fn commit_unless_same<T: PartialEq>(steps: HistoryView<T>, value: T, copy: T) -> HistoryView<T> {
    if same(value, steps.committed) {
        steps
    } else {
        spec_commit(steps, copy)
    }
}

/// The history after reporting `current` (cloned as `copy`) at `now`, with
/// the pointer held or not, and whether a step was recorded.
pub open spec fn spec_observe<T: PartialEq>(
    h: SettingsHistoryView<T>,
    current: T,
    copy: T,
    now: u64,
    hold: bool,
) -> (SettingsHistoryView<T>, bool) {
    if same(current, h.steps.committed) {
        (SettingsHistoryView { steps: h.steps, pending: None }, false)
    } else {
        match h.pending {
            Some(p) => if same(p.seen, current) {
                let held = p.held || hold;
                if hold {
                    (
                        SettingsHistoryView {
                            steps: h.steps,
                            pending: Some(PendingChange { seen: p.seen, since: p.since, held }),
                        },
                        false,
                    )
                } else if held || has_settled(p.since, now) {
                    (SettingsHistoryView { steps: spec_commit(h.steps, copy), pending: None }, true)
                } else {
                    (
                        SettingsHistoryView {
                            steps: h.steps,
                            pending: Some(PendingChange { seen: p.seen, since: p.since, held }),
                        },
                        false,
                    )
                }
            } else {
                (
                    SettingsHistoryView {
                        steps: h.steps,
                        pending: Some(PendingChange { seen: copy, since: now, held: p.held || hold }),
                    },
                    false,
                )
            },
            None => (
                SettingsHistoryView {
                    steps: h.steps,
                    pending: Some(PendingChange { seen: copy, since: now, held: hold }),
                },
                false,
            ),
        }
    }
}

/// The steps after recording `next` (cloned as `next_copy`) right after
/// `current` (cloned as `current_copy`): each becomes a step of its own
/// unless it is the value already in place.
pub open spec fn spec_record<T: PartialEq>(
    steps: HistoryView<T>,
    current: T,
    current_copy: T,
    next: T,
    next_copy: T,
) -> HistoryView<T> {
    commit_unless_same(commit_unless_same(steps, current, current_copy), next, next_copy)
}

/// Undo / redo history over settings of type `T`.
pub struct SettingsHistory<T> {
    steps: UndoHistory<T>,
    pending: Option<PendingChange<T>>,
}

impl<T> View for SettingsHistory<T> {
    type V = SettingsHistoryView<T>;

    closed spec fn view(&self) -> SettingsHistoryView<T> {
        SettingsHistoryView { steps: self.steps@, pending: self.pending }
    }
}

impl<T: Clone + PartialEq> SettingsHistory<T> {
    /// A history with `initial` in place, nothing to undo or redo and no
    /// change waiting.
    pub fn new(initial: T) -> (history: Self)
        ensures
            history@.steps == (HistoryView { undo: Seq::empty(), committed: initial, redo: Seq::<T>::empty() }),
            history@.pending is None,
    {
        SettingsHistory { steps: UndoHistory::new(initial), pending: None }
    }

    fn commit(&mut self, next: T)
        ensures
            final(self)@.steps == spec_commit(old(self)@.steps, next),
            final(self)@.pending is None,
    {
        self.steps.commit(next);
        self.pending = None;
    }

    /// Commit `current` unless it is the value in place; returns the clone
    /// that was committed, if any.
    fn commit_if_changed(&mut self, current: &T) -> (copy: Ghost<T>)
        ensures
            cloned(*current, copy@),
            T::obeys_eq_spec() ==> final(self)@.steps == commit_unless_same(old(self)@.steps, *current, copy@),
            T::obeys_eq_spec() ==> final(self)@.pending == (if same(*current, old(self)@.steps.committed) {
                old(self)@.pending
            } else {
                None
            }),
    {
        if !is_same(current, self.steps.committed()) {
            let copy = current.clone();
            let ghost g = copy;
            self.commit(copy);
            Ghost(g)
        } else {
            Ghost(*current)
        }
    }

    /// Report the live settings at `now` (milliseconds on the caller's
    /// clock), with `hold` telling whether a pointer button is down.
    /// Returns whether a step was just recorded: a change made while held
    /// is committed the moment the button is released, one made without
    /// the pointer once it has stayed the same for [`SETTLE_MS`].
    pub fn observe(&mut self, current: &T, now: u64, hold: bool) -> (stepped: bool)
        ensures
            stepped ==> final(self)@.pending is None,
            !stepped ==> final(self)@.steps == old(self)@.steps,
            T::obeys_eq_spec() ==> exists|copy: T|
                cloned(*current, copy) && spec_observe(old(self)@, *current, copy, now, hold) == (
                final(self)@,
                stepped,
            ),
    {
        let copy = current.clone();
        let ghost g = copy;
        let ghost before = self@;
        let mut stepped = false;
        if is_same(current, self.steps.committed()) {
            self.pending = None;
        } else {
            let pending = self.pending.take();
            match pending {
                Some(p) => {
                    if is_same(&p.seen, current) {
                        let held = p.held || hold;
                        if !hold && (held || (now >= p.since && now - p.since >= SETTLE_MS)) {
                            self.commit(copy);
                            stepped = true;
                        } else {
                            self.pending = Some(PendingChange { seen: p.seen, since: p.since, held });
                        }
                    } else {
                        self.pending = Some(PendingChange { seen: copy, since: now, held: p.held || hold });
                    }
                },
                None => {
                    self.pending = Some(PendingChange { seen: copy, since: now, held: hold });
                },
            }
        }
        proof {
            if T::obeys_eq_spec() {
                assert(cloned(*current, g));
                assert(spec_observe(before, *current, g, now, hold) == (self@, stepped));
            }
        }
        stepped
    }

    /// Record `next` as its own step, without waiting for it to settle. An
    /// unsettled change in `current` is committed first, so both stay
    /// separate steps; settings already in place add nothing.
    pub fn record(&mut self, current: &T, next: &T)
        ensures
            T::obeys_eq_spec() ==> exists|c: T, n: T|
                cloned(*current, c) && cloned(*next, n) && final(self)@.steps == spec_record(
                    old(self)@.steps,
                    *current,
                    c,
                    *next,
                    n,
                ),
            final(self)@.pending is None,
    {
        let ghost before = self@.steps;
        let c = self.commit_if_changed(current);
        let n = self.commit_if_changed(next);
        self.pending = None;
        proof {
            if T::obeys_eq_spec() {
                assert(cloned(*current, c@) && cloned(*next, n@));
                assert(self@.steps == spec_record(before, *current, c@, *next, n@));
            }
        }
    }

    /// A change is waiting to settle.
    pub fn pending(&self) -> (waiting: bool)
        ensures
            waiting == (self@.pending is Some),
    {
        self.pending.is_some()
    }

    /// Undo the last step, returning the settings to restore. An unsettled
    /// change in `current` is committed first, so calling this right after
    /// a change reverts that change.
    pub fn undo(&mut self, current: &T) -> (restored: Option<T>)
        ensures
            restored matches Some(value) ==> cloned(final(self)@.steps.committed, value) && final(self)@.pending is None,
            restored is None ==> final(self)@.steps.undo.len() == 0,
            T::obeys_eq_spec() ==> exists|c: T|
                cloned(*current, c) && {
                    let mid = commit_unless_same(old(self)@.steps, *current, c);
                    match restored {
                        Some(value) => {
                            &&& spec_undo(mid) == Some(final(self)@.steps)
                            &&& cloned(final(self)@.steps.committed, value)
                            &&& final(self)@.pending is None
                        },
                        None => {
                            &&& mid.undo.len() == 0
                            &&& final(self)@.steps == mid
                            &&& final(self)@.pending == (if same(*current, old(self)@.steps.committed) {
                                old(self)@.pending
                            } else {
                                None
                            })
                        },
                    }
                },
    {
        let c = self.commit_if_changed(current);
        if !self.steps.undo() {
            return None;
        }
        self.pending = None;
        Some(self.steps.committed().clone())
    }

    /// Redo the last undone step, returning the settings to restore. An
    /// unsettled change in `current` is committed first; since a commit
    /// empties the redo stack, redoing right after one returns `None`.
    pub fn redo(&mut self, current: &T) -> (restored: Option<T>)
        ensures
            restored matches Some(value) ==> cloned(final(self)@.steps.committed, value) && final(self)@.pending is None,
            restored is None ==> final(self)@.steps.redo.len() == 0,
            T::obeys_eq_spec() ==> exists|c: T|
                cloned(*current, c) && {
                    let mid = commit_unless_same(old(self)@.steps, *current, c);
                    match restored {
                        Some(value) => {
                            &&& spec_redo(mid) == Some(final(self)@.steps)
                            &&& cloned(final(self)@.steps.committed, value)
                            &&& final(self)@.pending is None
                        },
                        None => {
                            &&& mid.redo.len() == 0
                            &&& final(self)@.steps == mid
                            &&& final(self)@.pending == (if same(*current, old(self)@.steps.committed) {
                                old(self)@.pending
                            } else {
                                None
                            })
                        },
                    }
                },
    {
        let c = self.commit_if_changed(current);
        if !self.steps.redo() {
            return None;
        }
        self.pending = None;
        Some(self.steps.committed().clone())
    }

    /// The settings the last step left in place: what a change is compared
    /// against.
    pub fn committed(&self) -> (value: &T)
        ensures
            *value == self@.steps.committed,
    {
        self.steps.committed()
    }

    pub fn can_undo(&self) -> (can: bool)
        ensures
            can == (self@.steps.undo.len() > 0),
    {
        self.steps.can_undo()
    }

    pub fn can_redo(&self) -> (can: bool)
        ensures
            can == (self@.steps.redo.len() > 0),
    {
        self.steps.can_redo()
    }
}

/// Reporting the settings already in place records nothing, leaves the
/// stacks alone and drops any change that was waiting.
pub proof fn law_the_committed_settings_record_nothing<T: PartialEq>(
    h: SettingsHistoryView<T>,
    current: T,
    copy: T,
    now: u64,
    hold: bool,
)
    requires
        same(current, h.steps.committed),
    ensures
        spec_observe(h, current, copy, now, hold) == (SettingsHistoryView { steps: h.steps, pending: None::<PendingChange<T>> }, false),
{
}

/// A change made while a pointer button was down is committed as one step
/// the moment the button is released, however long it took.
pub proof fn law_a_held_change_commits_on_release<T: PartialEq>(
    h: SettingsHistoryView<T>,
    current: T,
    copy: T,
    now: u64,
)
    requires
        !same(current, h.steps.committed),
        h.pending matches Some(p) && p.held && same(p.seen, current),
    ensures
        spec_observe(h, current, copy, now, false) == (
            SettingsHistoryView { steps: spec_commit(h.steps, copy), pending: None::<PendingChange<T>> },
            true,
        ),
{
}

/// While a pointer button is down nothing is committed, however long the
/// change has sat still.
pub proof fn law_nothing_commits_while_held<T: PartialEq>(
    h: SettingsHistoryView<T>,
    current: T,
    copy: T,
    now: u64,
)
    ensures
        spec_observe(h, current, copy, now, true).0.steps == h.steps,
        !spec_observe(h, current, copy, now, true).1,
{
}

/// A typed change is committed once it has stayed the same for
/// [`SETTLE_MS`], and not before.
pub proof fn law_a_typed_change_settles_after_the_delay<T: PartialEq>(
    h: SettingsHistoryView<T>,
    current: T,
    copy: T,
    now: u64,
)
    requires
        !same(current, h.steps.committed),
        h.pending matches Some(p) && !p.held && same(p.seen, current),
    ensures
        spec_observe(h, current, copy, now, false).1 == has_settled(h.pending->0.since, now),
        spec_observe(h, current, copy, now, false).1 ==> spec_observe(h, current, copy, now, false).0.steps
            == spec_commit(h.steps, copy),
        !spec_observe(h, current, copy, now, false).1 ==> spec_observe(h, current, copy, now, false).0 == h,
{
}

/// A change that keeps moving never settles: each new value restarts the
/// wait from the moment it was seen.
pub proof fn law_a_moving_change_restarts_the_wait<T: PartialEq>(
    h: SettingsHistoryView<T>,
    current: T,
    copy: T,
    now: u64,
    hold: bool,
)
    requires
        !same(current, h.steps.committed),
        !(h.pending matches Some(p) && same(p.seen, current)),
    ensures
        !spec_observe(h, current, copy, now, hold).1,
        spec_observe(h, current, copy, now, hold).0.steps == h.steps,
        spec_observe(h, current, copy, now, hold).0.pending matches Some(q) && q.seen == copy && q.since
            == now,
{
}

/// Undoing right after an unsettled change reverts that change: the
/// settings committed before it come back, and the change can be redone.
pub proof fn law_undo_after_a_change_reverts_it<T: PartialEq>(steps: HistoryView<T>, current: T, copy: T)
    requires
        !same(current, steps.committed),
    ensures
        spec_undo(commit_unless_same(steps, current, copy)) matches Some(undone) && undone.committed
            == steps.committed && undone.redo == seq![copy],
{
    let pushed = steps.undo.push(steps.committed);
    if pushed.len() > crate::history::CAP {
        assert(pushed.drop_first().last() == steps.committed);
    }
    let undone = spec_undo(commit_unless_same(steps, current, copy)).unwrap();
    assert(undone.redo =~= seq![copy]);
}

/// Redoing right after an unsettled change finds nothing to redo: the
/// change was committed first, and a commit empties the redo stack.
pub proof fn law_redo_after_a_change_finds_nothing<T: PartialEq>(steps: HistoryView<T>, current: T, copy: T)
    requires
        !same(current, steps.committed),
    ensures
        spec_redo(commit_unless_same(steps, current, copy)) is None,
{
}

/// Recording right after an unsettled change keeps the two as separate
/// steps, and recording the settings already in place adds none.
pub proof fn law_record_keeps_the_change_and_the_new_settings_apart<T: PartialEq>(
    steps: HistoryView<T>,
    current: T,
    current_copy: T,
    next: T,
    next_copy: T,
)
    requires
        steps.undo.len() + 2 <= crate::history::CAP,
    ensures
        !same(current, steps.committed) && !same(next, current_copy) ==> spec_record(
            steps,
            current,
            current_copy,
            next,
            next_copy,
        ) == (HistoryView {
            undo: steps.undo.push(steps.committed).push(current_copy),
            committed: next_copy,
            redo: Seq::<T>::empty(),
        }),
        same(current, steps.committed) && same(next, steps.committed) ==> spec_record(
            steps,
            current,
            current_copy,
            next,
            next_copy,
        ) == steps,
{
}

} // verus!
