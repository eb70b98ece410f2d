use qualetize_gui::settings::QualetizeSettings;
use qualetize_gui::settings_history::{SettingsHistory, SETTLE_MS};

fn bundle(tile_width: u16) -> QualetizeSettings {
    QualetizeSettings { tile_width, ..Default::default() }
}

/// An arbitrary starting point on the caller's millisecond clock.
const NOW: u64 = 10_000;

#[test]
fn change_settles_after_delay_and_not_before() {
    let start = bundle(8);
    let mut history = SettingsHistory::new(start.clone());
    let changed = bundle(16);

    assert!(!history.observe(&changed, NOW, false));
    assert!(history.pending());
    assert!(!history.observe(&changed, NOW + SETTLE_MS - 1, false));
    assert!(history.observe(&changed, NOW + SETTLE_MS, false));
    assert!(!history.pending());
    assert!(history.can_undo());
}

#[test]
fn two_changes_within_settle_become_one_step() {
    let start = bundle(8);
    let mut history = SettingsHistory::new(start.clone());

    assert!(!history.observe(&bundle(16), NOW, false));
    assert!(!history.observe(&bundle(24), NOW + 100, false));
    assert!(history.observe(&bundle(24), NOW + 100 + SETTLE_MS, false));

    // Only one step: undoing once returns to the original.
    let restored = history.undo(&bundle(24)).expect("a step was recorded");
    assert_eq!(restored, start);
    assert!(!history.can_undo());
}

#[test]
fn a_change_that_keeps_moving_does_not_settle() {
    let mut history = SettingsHistory::new(bundle(8));
    let step = 100;

    // Ten values in a row, each less than the settle delay after the
    // previous one.
    for i in 1..=10u64 {
        assert!(!history.observe(&bundle(8 + i as u16), NOW + step * i, false));
    }
    // Held down (dragging) it stays pending past the delay.
    assert!(!history.observe(&bundle(18), NOW + step * 10 + SETTLE_MS, true));
    // Released: exactly one step, at once.
    assert!(history.observe(&bundle(18), NOW + step * 10 + SETTLE_MS, false));
    let restored = history.undo(&bundle(18)).expect("a step was recorded");
    assert_eq!(restored, bundle(8));
    assert!(!history.can_undo());
}

#[test]
fn a_dragged_change_commits_on_release() {
    let mut history = SettingsHistory::new(bundle(8));
    assert!(!history.observe(&bundle(16), NOW, true));
    assert!(history.observe(&bundle(16), NOW + 1, false));
    assert!(history.can_undo());
}

#[test]
fn undo_right_after_unsettled_change_reverts_it() {
    let start = bundle(8);
    let mut history = SettingsHistory::new(start.clone());
    let changed = bundle(16);

    // Change is observed but has not settled yet.
    assert!(!history.observe(&changed, NOW, false));

    let undone = history.undo(&changed).expect("the pending change to undo");
    assert_eq!(undone, start);
}

#[test]
fn redo_right_after_unsettled_change_returns_none() {
    let start = bundle(8);
    let mut history = SettingsHistory::new(start.clone());
    let changed = bundle(16);
    history.observe(&changed, NOW, false);
    history.observe(&changed, NOW + SETTLE_MS, false);
    history.undo(&changed);

    // A new, unsettled change is committed first, which empties the redo
    // stack.
    let other = bundle(24);
    assert!(history.redo(&other).is_none());
    assert!(!history.can_redo());
}

#[test]
fn record_commits_the_unsettled_change_and_the_new_one_as_two_steps() {
    let start = bundle(8);
    let mut history = SettingsHistory::new(start.clone());
    let unsettled = bundle(16);
    history.observe(&unsettled, NOW, false);
    assert!(history.pending());

    let applied = bundle(24);
    history.record(&unsettled, &applied);
    assert!(!history.pending());
    assert_eq!(*history.committed(), applied);

    assert_eq!(history.undo(&applied).expect("the applied step"), unsettled);
    assert_eq!(history.undo(&unsettled).expect("the earlier step"), start);
    assert!(!history.can_undo());
}

#[test]
fn recording_the_settings_already_in_place_adds_no_step() {
    let start = bundle(8);
    let mut history = SettingsHistory::new(start.clone());
    history.record(&start, &start);
    assert!(!history.can_undo());
}

#[test]
fn reporting_the_committed_settings_drops_the_waiting_change() {
    let mut history = SettingsHistory::new(bundle(8));
    assert!(!history.observe(&bundle(16), NOW, false));
    assert!(history.pending());
    assert!(!history.observe(&bundle(8), NOW + 1, false));
    assert!(!history.pending());
    assert!(!history.observe(&bundle(8), NOW + 10 * SETTLE_MS, false));
    assert!(!history.can_undo());
}

#[test]
fn a_clock_that_goes_backwards_does_not_settle_a_change() {
    let mut history = SettingsHistory::new(bundle(8));
    assert!(!history.observe(&bundle(16), NOW, false));
    assert!(!history.observe(&bundle(16), NOW - SETTLE_MS, false));
    assert!(history.pending());
}

#[test]
fn redo_after_undo_puts_the_change_back() {
    let mut history = SettingsHistory::new(bundle(8));
    history.observe(&bundle(16), NOW, true);
    assert!(history.observe(&bundle(16), NOW, false));
    assert_eq!(history.undo(&bundle(16)), Some(bundle(8)));
    assert_eq!(history.redo(&bundle(8)), Some(bundle(16)));
    assert!(!history.can_redo());
}
