use qualetize_gui::history::{UndoHistory, CAP};

#[test]
fn undo_then_redo_round_trips() {
    let mut history = UndoHistory::new(8u16);
    history.commit(16);
    assert!(history.undo());
    assert_eq!(*history.committed(), 8);
    assert!(history.redo());
    assert_eq!(*history.committed(), 16);
}

#[test]
fn new_change_after_undo_clears_redo() {
    let mut history = UndoHistory::new(8u16);
    history.commit(16);
    history.undo();
    assert!(history.can_redo());
    history.commit(24);
    assert!(!history.can_redo());
    assert!(!history.redo());
    assert_eq!(*history.committed(), 24);
}

#[test]
fn nothing_to_undo_changes_nothing() {
    let mut history = UndoHistory::new(1u8);
    assert!(!history.can_undo());
    assert!(!history.undo());
    assert_eq!(*history.committed(), 1);
}

#[test]
fn cap_drops_the_oldest_step() {
    let mut history = UndoHistory::new(0u16);
    for i in 1..=(CAP + 1) as u16 {
        history.commit(i);
    }
    assert_eq!(history.undo_len(), CAP);
    for _ in 0..CAP {
        assert!(history.undo());
    }
    assert!(!history.can_undo());
    assert_eq!(*history.committed(), 1);
}
