use layers::history::{UndoHistory, MAX_UNDO_HISTORY};

#[test]
fn undo_and_redo_walk_the_states() {
    let mut h: UndoHistory<u32> = UndoHistory::new();
    assert!(!h.can_undo());
    assert!(!h.can_redo());
    // State 0 -> 1 -> 2, recording the state before each change.
    h.push_undo(0);
    h.push_undo(1);
    let current = 2;
    let back = h.undo(current).unwrap();
    assert_eq!(back, 1);
    assert!(h.can_redo());
    let back2 = h.undo(back).unwrap();
    assert_eq!(back2, 0);
    assert!(!h.can_undo());
    assert_eq!(h.undo(back2), None);
    let fwd = h.redo(back2).unwrap();
    assert_eq!(fwd, 1);
    let fwd2 = h.redo(fwd).unwrap();
    assert_eq!(fwd2, 2);
    assert_eq!(h.redo(fwd2), None);
    assert_eq!(h.undo_stack, vec![0, 1]);
    assert!(h.redo_stack.is_empty());
}

#[test]
fn undo_then_redo_restores() {
    let mut h: UndoHistory<&str> = UndoHistory::new();
    h.push_undo("a");
    h.push_undo("b");
    let before_undo = (h.undo_stack.clone(), h.redo_stack.clone());
    let prev = h.undo("c").unwrap();
    assert_eq!(prev, "b");
    assert_eq!(h.redo(prev), Some("c"));
    assert_eq!((h.undo_stack.clone(), h.redo_stack.clone()), before_undo);
}

#[test]
fn new_change_clears_redo() {
    let mut h: UndoHistory<u32> = UndoHistory::new();
    h.push_undo(0);
    assert_eq!(h.undo(1), Some(0));
    assert!(h.can_redo());
    h.push_undo(0);
    assert!(!h.can_redo());
    assert_eq!(h.undo_stack, vec![0]);
}

#[test]
fn undo_stack_keeps_the_latest_fifty() {
    assert_eq!(MAX_UNDO_HISTORY, 50);
    let mut h: UndoHistory<u32> = UndoHistory::new();
    for i in 0..60 {
        h.push_undo(i);
    }
    assert_eq!(h.undo_stack.len(), 50);
    assert_eq!(h.undo_stack[0], 10);
    assert_eq!(h.undo_stack[49], 59);
}

#[test]
fn empty_history_changes_nothing() {
    let mut h: UndoHistory<u32> = UndoHistory::new();
    assert_eq!(h.undo(5), None);
    assert_eq!(h.redo(5), None);
    assert!(h.undo_stack.is_empty());
    assert!(h.redo_stack.is_empty());
}

#[test]
fn an_overfull_undo_stack_is_still_served() {
    let mut h: UndoHistory<u32> = UndoHistory { undo_stack: (0..60).collect(), redo_stack: vec![7] };
    h.push_undo(60);
    assert_eq!(h.undo_stack.len(), 60);
    assert_eq!(h.undo_stack[0], 1);
    assert_eq!(h.undo_stack[59], 60);
    assert!(h.redo_stack.is_empty());
    assert_eq!(h.undo(61), Some(60));
    assert_eq!(h.redo_stack, vec![61]);
}
