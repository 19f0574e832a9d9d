use fractal_wizard::undo::UndoStack;

#[test]
fn undo_returns_pushed_state() {
    let mut s = UndoStack::new(10);
    assert!(!s.can_undo());
    s.push(1);
    s.push(2);
    assert!(s.can_undo());
    assert_eq!(s.undo(3), Some(2));
    assert!(s.can_redo());
    assert_eq!(s.undo(2), Some(1));
    assert_eq!(s.undo(1), None);
    assert!(!s.can_undo());
}

#[test]
fn redo_after_undo_restores() {
    let mut s = UndoStack::new(10);
    s.push("a");
    assert_eq!(s.undo("b"), Some("a"));
    assert_eq!(s.redo("a"), Some("b"));
    assert!(!s.can_redo());
    assert!(s.can_undo());
    assert_eq!(s.undo("b"), Some("a"));
}

#[test]
fn push_clears_redo() {
    let mut s = UndoStack::new(10);
    s.push(1);
    s.push(2);
    assert_eq!(s.undo(3), Some(2));
    s.push(4);
    assert!(!s.can_redo());
    assert_eq!(s.redo(5), None);
    assert_eq!(s.undo(5), Some(4));
    assert_eq!(s.undo(4), Some(1));
}

#[test]
fn capacity_drops_oldest() {
    let mut s = UndoStack::new(2);
    s.push(1);
    s.push(2);
    s.push(3);
    assert_eq!(s.undo(9), Some(3));
    assert_eq!(s.undo(3), Some(2));
    assert_eq!(s.undo(2), None);
}

#[test]
fn zero_capacity_keeps_nothing() {
    let mut s = UndoStack::new(0);
    s.push(1);
    assert!(!s.can_undo());
    assert_eq!(s.undo(2), None);
    assert!(!s.can_redo());
}
