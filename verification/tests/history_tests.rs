use proof_engine::history::{BranchingHistory, SnapshotHistory, UndoHistory, UndoStack, MAX_UNDO_STEPS};

#[test]
fn test_undo_history_ring_buffer() {
    let mut h: UndoHistory<u32> = UndoHistory::new(200);
    for i in 0..210u32 {
        h.push_executed(i);
    }
    assert!(h.len() <= 200);
    assert_eq!(h.len(), 200);
    // the oldest commands were evicted
    assert_eq!(*h.command(0), 10);
    assert_eq!(*h.command(199), 209);
}

#[test]
fn undo_history_undo_then_redo() {
    let mut h: UndoHistory<&str> = UndoHistory::new(10);
    assert!(!h.can_undo());
    assert_eq!(h.undo_step(), None);
    h.push_executed("spawn");
    h.push_executed("move");
    assert!(h.can_undo());
    assert!(!h.can_redo());
    assert_eq!(h.undo_step(), Some(1));
    assert!(h.can_redo());
    assert_eq!(h.redo_step(), Some(1));
    assert_eq!(h.redo_step(), None);
    assert_eq!(h.recent_indices(5), vec![1, 0]);
    assert_eq!(h.recent_indices(1), vec![1]);
}

#[test]
fn undo_history_push_drops_redo_future() {
    let mut h: UndoHistory<&str> = UndoHistory::new(10);
    h.push_executed("a");
    h.push_executed("b");
    h.push_executed("c");
    assert_eq!(h.undo_step(), Some(2));
    assert_eq!(h.undo_step(), Some(1));
    h.push_executed("d");
    assert_eq!(h.len(), 2);
    assert_eq!(*h.command(1), "d");
    assert!(!h.can_redo());
    *h.command_mut(0) = "a2";
    assert_eq!(*h.command(0), "a2");
    h.clear();
    assert!(h.is_empty());
    assert!(!h.can_undo());
}

#[test]
fn snapshot_history_steps() {
    let mut h: SnapshotHistory<u32> = SnapshotHistory::new();
    h.snapshot(10);
    assert_eq!(h.undo(), None);
    h.snapshot(20);
    h.snapshot(30);
    assert_eq!(h.position_index(), 3);
    assert_eq!(h.undo(), Some(&20));
    assert_eq!(h.undo(), Some(&10));
    assert_eq!(h.undo(), None);
    assert_eq!(h.redo(), Some(&20));
    assert_eq!(h.redo(), Some(&30));
    assert_eq!(h.redo(), None);
    assert_eq!(h.undo(), Some(&20));
    h.snapshot(40);
    assert_eq!(h.len(), 3);
    assert_eq!(h.redo(), None);
}

#[test]
fn undo_stack_round_trip() {
    let mut s: UndoStack<&str> = UndoStack::new();
    assert_eq!(s.undo("now"), None);
    s.push("before");
    assert!(s.can_undo());
    assert_eq!(s.undo("after"), Some("before"));
    assert!(s.can_redo());
    assert_eq!(s.redo("before"), Some("after"));
    assert_eq!(s.redo("after"), None);
    assert_eq!(s.undo("after"), Some("before"));
    s.push("other");
    assert!(!s.can_redo());
    s.clear();
    assert!(!s.can_undo());
}

#[test]
fn undo_stack_is_bounded() {
    let mut s: UndoStack<usize> = UndoStack::new();
    for i in 0..(MAX_UNDO_STEPS + 5) {
        s.push(i);
    }
    assert_eq!(s.undo.len(), MAX_UNDO_STEPS);
    assert_eq!(s.undo.front(), Some(&5));
}

#[test]
fn branching_history_keeps_branches() {
    let mut hist: BranchingHistory<&str> = BranchingHistory::new();
    let a = hist.push("v0", "initial");
    let b = hist.push("v1", "step1");
    assert_eq!(hist.undo(), Some(&"v0"));
    let c = hist.push("v2", "branch");
    assert_eq!(hist.branch_count(), 1);
    assert_eq!(hist.path_to_root(), vec![c, a]);
    assert_eq!(hist.undo(), Some(&"v0"));
    assert_eq!(hist.list_children(), vec![(b, "step1"), (c, "branch")]);
    assert_eq!(hist.redo_to(b), Some(&"v1"));
    assert_eq!(hist.redo_to(c), None);
    assert_eq!(hist.path_to_root(), vec![b, a]);
    assert_eq!(hist.undo(), Some(&"v0"));
    assert_eq!(hist.undo(), None);
}
