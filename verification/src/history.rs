//! Undo/redo histories: the command history of the editor, the snapshot
//! history of the node editor, the two-stack snapshot history of the
//! modeling editor and its branching variant.

use std::borrow::ToOwned;
use std::collections::HashMap;
use std::collections::VecDeque;
use vstd::prelude::*;

verus! {

/// Cursor after one undo step.
pub open spec fn undone_cursor(cursor: nat) -> nat {
    if cursor == 0 {
        0
    } else {
        (cursor - 1) as nat
    }
}

/// Cursor after one redo step over `len` recorded commands.
pub open spec fn redone_cursor(cursor: nat, len: nat) -> nat {
    if cursor >= len {
        cursor
    } else {
        cursor + 1
    }
}

/// Bounded undo/redo history of executed commands.  The cursor points one
/// past the last executed command; commands after it can be redone.
pub struct UndoHistory<C> {
    commands: Vec<C>,
    cursor: usize,
    max_size: usize,
}

impl<C> UndoHistory<C> {
    pub closed spec fn commands(&self) -> Seq<C> {
        self.commands@
    }

    pub closed spec fn cursor(&self) -> nat {
        self.cursor as nat
    }

    pub closed spec fn max_size(&self) -> nat {
        self.max_size as nat
    }

    /// The cursor lies within the history, which never exceeds its capacity.
    pub open spec fn wf(&self) -> bool {
        self.cursor() <= self.commands().len() <= self.max_size()
    }

    pub fn new(max_size: usize) -> (h: Self)
        ensures
            h.wf(),
            h.commands() == Seq::<C>::empty(),
            h.cursor() == 0,
            h.max_size() == max_size,
    {
        UndoHistory { commands: Vec::with_capacity(max_size), cursor: 0, max_size }
    }

    /// Records a command that has just been executed.  Commands that could
    /// still be redone are dropped first; when the history is then over
    /// capacity the oldest command is evicted.
    pub fn push_executed(&mut self, cmd: C)
        requires
            old(self).wf(),
        ensures
            final(self).wf(),
            final(self).max_size() == old(self).max_size(),
            ({
                let pushed = old(self).commands().take(old(self).cursor() as int).push(cmd);
                if pushed.len() > old(self).max_size() {
                    &&& final(self).commands() == pushed.subrange(1, pushed.len() as int)
                    &&& final(self).cursor() == old(self).cursor()
                } else {
                    &&& final(self).commands() == pushed
                    &&& final(self).cursor() == old(self).cursor() + 1
                }
            }),
            final(self).cursor() == final(self).commands().len(),
    {
        if self.cursor < self.commands.len() {
            self.commands.truncate(self.cursor);
        }
        assert(self.commands@ == old(self).commands@.take(old(self).cursor as int));
        self.commands.push(cmd);
        if self.commands.len() > self.max_size {
            self.commands.remove(0);
        } else {
            self.cursor = self.cursor + 1;
        }
    }

    /// Steps the cursor back and returns the index of the command to undo,
    /// or `None` when there is nothing to undo.
    pub fn undo_step(&mut self) -> (r: Option<usize>)
        requires
            old(self).wf(),
        ensures
            final(self).wf(),
            final(self).commands() == old(self).commands(),
            final(self).max_size() == old(self).max_size(),
            final(self).cursor() == undone_cursor(old(self).cursor()),
            r == (if old(self).cursor() == 0 {
                None
            } else {
                Some((old(self).cursor() - 1) as usize)
            }),
    {
        if self.cursor == 0 {
            return None;
        }
        self.cursor = self.cursor - 1;
        Some(self.cursor)
    }

    /// Returns the index of the command to redo and steps the cursor past
    /// it, or `None` when there is nothing to redo.
    pub fn redo_step(&mut self) -> (r: Option<usize>)
        requires
            old(self).wf(),
        ensures
            final(self).wf(),
            final(self).commands() == old(self).commands(),
            final(self).max_size() == old(self).max_size(),
            final(self).cursor() == redone_cursor(old(self).cursor(), old(self).commands().len()),
            r == (if old(self).cursor() >= old(self).commands().len() {
                None
            } else {
                Some(old(self).cursor() as usize)
            }),
    {
        if self.cursor >= self.commands.len() {
            return None;
        }
        let i = self.cursor;
        self.cursor = self.cursor + 1;
        Some(i)
    }

    pub fn can_undo(&self) -> (r: bool)
        ensures
            r == (self.cursor() > 0),
    {
        self.cursor > 0
    }

    pub fn can_redo(&self) -> (r: bool)
        ensures
            r == (self.cursor() < self.commands().len()),
    {
        self.cursor < self.commands.len()
    }

    pub fn clear(&mut self)
        requires
            old(self).wf(),
        ensures
            final(self).wf(),
            final(self).commands() == Seq::<C>::empty(),
            final(self).cursor() == 0,
            final(self).max_size() == old(self).max_size(),
    {
        self.commands.clear();
        self.cursor = 0;
    }

    pub fn len(&self) -> (r: usize)
        ensures
            r == self.commands().len(),
    {
        self.commands.len()
    }

    pub fn is_empty(&self) -> (r: bool)
        ensures
            r == (self.commands().len() == 0),
    {
        self.commands.len() == 0
    }

    pub fn command(&self, i: usize) -> (r: &C)
        requires
            i < self.commands().len(),
        ensures
            *r == self.commands()[i as int],
    {
        &self.commands[i]
    }

    pub fn command_mut(&mut self, i: usize) -> (r: &mut C)
        requires
            old(self).wf(),
            i < old(self).commands().len(),
        ensures
            *r == old(self).commands()[i as int],
            final(self).commands() == old(self).commands().update(i as int, *final(r)),
            final(self).cursor() == old(self).cursor(),
            final(self).max_size() == old(self).max_size(),
    {
        &mut self.commands[i]
    }

    /// Indices of the last `n` executed commands, most recent first.
    pub fn recent_indices(&self, n: usize) -> (r: Vec<usize>)
        requires
            self.wf(),
        ensures
            r@.len() == if self.cursor() > n {
                n as nat
            } else {
                self.cursor()
            },
            forall|k: int| 0 <= k < r@.len() ==> #[trigger] r@[k] == self.cursor() - 1 - k,
    {
        let start = if self.cursor > n {
            self.cursor - n
        } else {
            0
        };
        let mut out: Vec<usize> = Vec::new();
        let mut i = self.cursor;
        while i > start
            invariant
                start <= i <= self.cursor,
                out@.len() == self.cursor - i,
                forall|k: int| 0 <= k < out@.len() ==> #[trigger] out@[k] == self.cursor - 1 - k,
            decreases i,
        {
            i = i - 1;
            out.push(i);
        }
        out
    }
}

/// Undoing and then redoing returns the cursor to where it was.
pub proof fn lemma_undo_then_redo(cursor: nat, len: nat)
    requires
        0 < cursor <= len,
    ensures
        redone_cursor(undone_cursor(cursor), len) == cursor,
{
}

/// Redoing and then undoing returns the cursor to where it was.
pub proof fn lemma_redo_then_undo(cursor: nat, len: nat)
    requires
        cursor < len,
    ensures
        undone_cursor(redone_cursor(cursor, len)) == cursor,
{
}

/// Linear snapshot history of the node editor: the position points one
/// past the snapshot that matches the current state.
#[derive(Debug)]
pub struct SnapshotHistory<S> {
    undo_stack: Vec<S>,
    undo_pos: usize,
}

impl<S> SnapshotHistory<S> {
    pub closed spec fn snapshots(&self) -> Seq<S> {
        self.undo_stack@
    }

    pub closed spec fn position(&self) -> nat {
        self.undo_pos as nat
    }

    pub open spec fn wf(&self) -> bool {
        self.position() <= self.snapshots().len()
    }

    pub fn new() -> (h: Self)
        ensures
            h.wf(),
            h.snapshots() == Seq::<S>::empty(),
            h.position() == 0,
    {
        SnapshotHistory { undo_stack: Vec::new(), undo_pos: 0 }
    }

    /// Records the current state, dropping the snapshots that could be redone.
    pub fn snapshot(&mut self, s: S)
        requires
            old(self).wf(),
        ensures
            final(self).wf(),
            final(self).snapshots() == old(self).snapshots().take(old(self).position() as int).push(s),
            final(self).position() == final(self).snapshots().len(),
    {
        self.undo_stack.truncate(self.undo_pos);
        self.undo_stack.push(s);
        self.undo_pos = self.undo_stack.len();
    }

    /// Steps back and returns the snapshot to restore; the first snapshot
    /// is the oldest state and is never stepped past.
    pub fn undo(&mut self) -> (r: Option<&S>)
        requires
            old(self).wf(),
        ensures
            final(self).wf(),
            final(self).snapshots() == old(self).snapshots(),
            old(self).position() > 1 ==> {
                &&& final(self).position() == old(self).position() - 1
                &&& r == Some(&old(self).snapshots()[old(self).position() - 2])
            },
            old(self).position() <= 1 ==> final(self).position() == old(self).position() && r is None,
    {
        if self.undo_pos > 1 {
            self.undo_pos = self.undo_pos - 1;
            Some(&self.undo_stack[self.undo_pos - 1])
        } else {
            None
        }
    }

    /// Returns the snapshot to restore and steps forward, if any.
    pub fn redo(&mut self) -> (r: Option<&S>)
        requires
            old(self).wf(),
        ensures
            final(self).wf(),
            final(self).snapshots() == old(self).snapshots(),
            old(self).position() < old(self).snapshots().len() ==> {
                &&& final(self).position() == old(self).position() + 1
                &&& r == Some(&old(self).snapshots()[old(self).position() as int])
            },
            old(self).position() >= old(self).snapshots().len() ==> final(self).position()
                == old(self).position() && r is None,
    {
        if self.undo_pos < self.undo_stack.len() {
            let i = self.undo_pos;
            self.undo_pos = self.undo_pos + 1;
            Some(&self.undo_stack[i])
        } else {
            None
        }
    }

    pub fn len(&self) -> (r: usize)
        ensures
            r == self.snapshots().len(),
    {
        self.undo_stack.len()
    }

    pub fn position_index(&self) -> (r: usize)
        ensures
            r == self.position(),
    {
        self.undo_pos
    }
}

/// Capacity of the modeling editor's undo stack.
pub const MAX_UNDO_STEPS: usize = 64;

/// Undo stack after recording `s`: the oldest entry is dropped when the
/// stack is full.
pub open spec fn pushed_undo<S>(undo: Seq<S>, s: S) -> Seq<S> {
    if undo.len() >= MAX_UNDO_STEPS {
        undo.drop_first().push(s)
    } else {
        undo.push(s)
    }
}

/// (undo stack, redo stack, snapshot to restore) after undoing from state `current`.
pub open spec fn undo_transition<S>(undo: Seq<S>, redo: Seq<S>, current: S) -> (Seq<S>, Seq<S>, Option<S>) {
    if undo.len() == 0 {
        (undo, redo, None)
    } else {
        (undo.drop_last(), redo.push(current), Some(undo.last()))
    }
}

/// (undo stack, redo stack, snapshot to restore) after redoing from state `current`.
pub open spec fn redo_transition<S>(undo: Seq<S>, redo: Seq<S>, current: S) -> (Seq<S>, Seq<S>, Option<S>) {
    if redo.len() == 0 {
        (undo, redo, None)
    } else {
        (undo.push(current), redo.drop_last(), Some(redo.last()))
    }
}

/// Two-stack snapshot history of the modeling editor.  Undoing hands back
/// the snapshot to restore and keeps the state it replaces for redo.
#[derive(Debug)]
pub struct UndoStack<S> {
    pub undo: VecDeque<S>,
    pub redo: VecDeque<S>,
}

impl<S> UndoStack<S> {
    pub fn new() -> (r: Self)
        ensures
            r.undo@ == Seq::<S>::empty(),
            r.redo@ == Seq::<S>::empty(),
    {
        UndoStack { undo: VecDeque::new(), redo: VecDeque::new() }
    }

    /// Records a snapshot taken before an edit; the redo stack is cleared.
    pub fn push(&mut self, snapshot: S)
        ensures
            final(self).undo@ == pushed_undo(old(self).undo@, snapshot),
            final(self).redo@ == Seq::<S>::empty(),
    {
        self.redo.clear();
        if self.undo.len() >= MAX_UNDO_STEPS {
            self.undo.pop_front();
        }
        self.undo.push_back(snapshot);
    }

    /// Undoes from state `current`: returns the snapshot to restore, or
    /// `None` (and drops `current`) when there is nothing to undo.
    pub fn undo(&mut self, current: S) -> (r: Option<S>)
        ensures
            (final(self).undo@, final(self).redo@, r) == undo_transition(old(self).undo@, old(self).redo@, current),
    {
        match self.undo.pop_back() {
            Some(snap) => {
                self.redo.push_back(current);
                Some(snap)
            },
            None => None,
        }
    }

    /// Redoes from state `current`: returns the snapshot to restore, or
    /// `None` (and drops `current`) when there is nothing to redo.
    pub fn redo(&mut self, current: S) -> (r: Option<S>)
        ensures
            (final(self).undo@, final(self).redo@, r) == redo_transition(old(self).undo@, old(self).redo@, current),
    {
        match self.redo.pop_back() {
            Some(snap) => {
                self.undo.push_back(current);
                Some(snap)
            },
            None => None,
        }
    }

    pub fn can_undo(&self) -> (r: bool)
        ensures
            r == (self.undo@.len() > 0),
    {
        self.undo.len() > 0
    }

    pub fn can_redo(&self) -> (r: bool)
        ensures
            r == (self.redo@.len() > 0),
    {
        self.redo.len() > 0
    }

    pub fn clear(&mut self)
        ensures
            final(self).undo@ == Seq::<S>::empty(),
            final(self).redo@ == Seq::<S>::empty(),
    {
        self.undo.clear();
        self.redo.clear();
    }
}

/// Undoing from state `a` and then redoing from the restored state brings
/// back `a` and both stacks as they were.
pub proof fn lemma_undo_redo_round_trip<S>(undo: Seq<S>, redo: Seq<S>, a: S)
    requires
        undo.len() > 0,
    ensures
        ({
            let (u1, r1, b) = undo_transition(undo, redo, a);
            redo_transition(u1, r1, b.unwrap()) == (undo, redo, Some(a))
        }),
{
    let (u1, r1, b) = undo_transition(undo, redo, a);
    assert(u1.push(b.unwrap()) == undo);
    assert(r1.drop_last() == redo);
}

/// Redoing from state `a` and then undoing from the restored state brings
/// back `a` and both stacks as they were.
pub proof fn lemma_redo_undo_round_trip<S>(undo: Seq<S>, redo: Seq<S>, a: S)
    requires
        redo.len() > 0,
    ensures
        ({
            let (u1, r1, b) = redo_transition(undo, redo, a);
            undo_transition(u1, r1, b.unwrap()) == (undo, redo, Some(a))
        }),
{
    let (u1, r1, b) = redo_transition(undo, redo, a);
    assert(r1.push(b.unwrap()) == redo);
    assert(u1.drop_last() == undo);
}

/// Recording a snapshot never lets the undo stack grow past its capacity.
pub proof fn lemma_push_bounded<S>(undo: Seq<S>, s: S)
    requires
        undo.len() <= MAX_UNDO_STEPS,
    ensures
        pushed_undo(undo, s).len() <= MAX_UNDO_STEPS,
{
}

/// A node of a branching history.
#[derive(Debug)]
pub struct HistoryNode<S> {
    pub id: u64,
    pub parent: Option<u64>,
    pub children: Vec<u64>,
    pub snapshot: S,
    pub label: String,
    pub timestamp: u64,
}

/// Undo history that keeps every branch: recording after an undo starts a
/// new child of the current node instead of discarding the old future.
#[derive(Debug)]
pub struct BranchingHistory<S> {
    nodes: HashMap<u64, HistoryNode<S>>,
    current_id: Option<u64>,
    next_id: u64,
}

/// The node `undo` moves to from `current`: its parent.
pub open spec fn undo_target<S>(entries: Map<u64, HistoryNode<S>>, current: Option<u64>) -> Option<u64> {
    match current {
        Some(c) => if entries.contains_key(c) {
            entries[c].parent
        } else {
            None
        },
        None => None,
    }
}

/// Whether `redo_to(child)` may move from `current` to `child`.
pub open spec fn is_child_of<S>(entries: Map<u64, HistoryNode<S>>, current: Option<u64>, child: u64) -> bool {
    match current {
        Some(c) => entries.contains_key(c) && entries[c].children@.contains(child),
        None => false,
    }
}

impl<S> BranchingHistory<S> {
    pub closed spec fn entries(&self) -> Map<u64, HistoryNode<S>> {
        self.nodes@
    }

    pub closed spec fn current(&self) -> Option<u64> {
        self.current_id
    }

    pub closed spec fn spec_next_id(&self) -> u64 {
        self.next_id
    }

    /// Ids are positive and below the counter, parents come before their
    /// children and know them, and the current node exists.
    pub closed spec fn wf(&self) -> bool {
        &&& self.next_id >= 1
        &&& forall|id: u64| 1 <= id < self.next_id ==> #[trigger] self.nodes@.contains_key(id)
        &&& forall|id: u64| #[trigger] self.nodes@.contains_key(id) ==> {
            &&& self.nodes@[id].id == id
            &&& 1 <= id < self.next_id
            &&& (self.nodes@[id].parent matches Some(p) ==> self.nodes@.contains_key(p) && p < id)
            &&& forall|k: int| 0 <= k < self.nodes@[id].children@.len() ==> {
                let c = #[trigger] self.nodes@[id].children@[k];
                self.nodes@.contains_key(c) && self.nodes@[c].parent == Some(id)
            }
        }
        &&& (self.current_id matches Some(c) ==> self.nodes@.contains_key(c))
    }

    pub fn new() -> (h: Self)
        ensures
            h.wf(),
            h.entries() == Map::<u64, HistoryNode<S>>::empty(),
            h.current() is None,
            h.spec_next_id() == 1,
    {
        BranchingHistory { nodes: HashMap::new(), current_id: None, next_id: 1 }
    }

    /// Id the next recorded snapshot receives.
    pub fn next_id(&self) -> (r: u64)
        ensures
            r == self.spec_next_id(),
    {
        self.next_id
    }

    /// Records a snapshot as a new child of the current node and makes it current.
    pub fn push(&mut self, snapshot: S, label: &str) -> (id: u64)
        requires
            old(self).wf(),
            old(self).spec_next_id() < u64::MAX,
        ensures
            final(self).wf(),
            id == old(self).spec_next_id(),
            final(self).spec_next_id() == id + 1,
            final(self).current() == Some(id),
            final(self).entries().dom() == old(self).entries().dom().insert(id),
            final(self).entries()[id].parent == old(self).current(),
            final(self).entries()[id].children@ == Seq::<u64>::empty(),
            final(self).entries()[id].snapshot == snapshot,
            final(self).entries()[id].label@ == label@,
            final(self).entries()[id].timestamp == id,
            forall|k: u64| #[trigger] old(self).entries().contains_key(k) && old(self).current() != Some(k)
                ==> final(self).entries()[k] == old(self).entries()[k],
            old(self).current() matches Some(p) ==> {
                &&& final(self).entries()[p].children@ == old(self).entries()[p].children@.push(id)
                &&& final(self).entries()[p].parent == old(self).entries()[p].parent
                &&& final(self).entries()[p].snapshot == old(self).entries()[p].snapshot
                &&& final(self).entries()[p].label == old(self).entries()[p].label
                &&& final(self).entries()[p].timestamp == old(self).entries()[p].timestamp
            },
    {
        broadcast use vstd::std_specs::hash::group_hash_axioms;

        let id = self.next_id;
        self.next_id = id + 1;
        if let Some(parent_id) = self.current_id {
            if let Some(mut parent) = self.nodes.remove(&parent_id) {
                parent.children.push(id);
                self.nodes.insert(parent_id, parent);
            }
        }
        let node = HistoryNode {
            id,
            parent: self.current_id,
            children: Vec::new(),
            snapshot,
            label: label.to_owned(),
            timestamp: id,
        };
        self.nodes.insert(id, node);
        self.current_id = Some(id);
        proof {
            let m0 = old(self).nodes@;
            let m = self.nodes@;
            assert(!m0.contains_key(id));
            assert forall|x: u64| #[trigger] m.contains_key(x) implies {
                &&& m[x].id == x
                &&& 1 <= x < self.next_id
                &&& (m[x].parent matches Some(p) ==> m.contains_key(p) && p < x)
                &&& forall|k: int| 0 <= k < m[x].children@.len() ==> {
                    let c = #[trigger] m[x].children@[k];
                    m.contains_key(c) && m[c].parent == Some(x)
                }
            } by {
                if x != id {
                    assert(m0.contains_key(x));
                    assert forall|k: int| 0 <= k < m[x].children@.len() implies {
                        let c = #[trigger] m[x].children@[k];
                        m.contains_key(c) && m[c].parent == Some(x)
                    } by {
                        if old(self).current_id == Some(x) && k == m0[x].children@.len() {
                        } else {
                            let c = m0[x].children@[k];
                            assert(m[x].children@[k] == c);
                            assert(m0.contains_key(c) && m0[c].parent == Some(x));
                            assert(c != id);
                        }
                    }
                }
            }
            assert(m.dom() == m0.dom().insert(id));
        }
        id
    }

    /// Moves to the parent of the current node and returns its snapshot.
    pub fn undo(&mut self) -> (r: Option<&S>)
        requires
            old(self).wf(),
        ensures
            final(self).wf(),
            final(self).entries() == old(self).entries(),
            final(self).spec_next_id() == old(self).spec_next_id(),
            undo_target(old(self).entries(), old(self).current()) matches Some(p) ==> {
                &&& final(self).current() == Some(p)
                &&& r == Some(&old(self).entries()[p].snapshot)
            },
            undo_target(old(self).entries(), old(self).current()) is None ==> {
                &&& final(self).current() == old(self).current()
                &&& r is None
            },
    {
        broadcast use vstd::std_specs::hash::group_hash_axioms;

        let cur = match self.current_id {
            Some(c) => c,
            None => return None,
        };
        let parent = match self.nodes.get(&cur) {
            Some(node) => match node.parent {
                Some(p) => p,
                None => return None,
            },
            None => return None,
        };
        self.current_id = Some(parent);
        match self.nodes.get(&parent) {
            Some(node) => Some(&node.snapshot),
            None => None,
        }
    }

    /// Moves to a child of the current node and returns its snapshot.
    pub fn redo_to(&mut self, child_id: u64) -> (r: Option<&S>)
        requires
            old(self).wf(),
        ensures
            final(self).wf(),
            final(self).entries() == old(self).entries(),
            final(self).spec_next_id() == old(self).spec_next_id(),
            is_child_of(old(self).entries(), old(self).current(), child_id) ==> {
                &&& final(self).current() == Some(child_id)
                &&& r == Some(&old(self).entries()[child_id].snapshot)
            },
            !is_child_of(old(self).entries(), old(self).current(), child_id) ==> {
                &&& final(self).current() == old(self).current()
                &&& r is None
            },
    {
        broadcast use vstd::std_specs::hash::group_hash_axioms;

        let cur = match self.current_id {
            Some(c) => c,
            None => return None,
        };
        let has_child = match self.nodes.get(&cur) {
            Some(node) => vec_contains_u64(&node.children, child_id),
            None => return None,
        };
        if !has_child {
            return None;
        }
        proof {
            let k = choose|k: int| 0 <= k < self.nodes@[cur].children@.len() && self.nodes@[cur].children@[k] == child_id;
            assert(self.nodes@.contains_key(self.nodes@[cur].children@[k]));
        }
        self.current_id = Some(child_id);
        match self.nodes.get(&child_id) {
            Some(node) => Some(&node.snapshot),
            None => None,
        }
    }
}

impl<S> BranchingHistory<S> {
    /// Ids and labels of the children of the current node.
    pub fn list_children(&self) -> (r: Vec<(u64, &str)>)
        requires
            self.wf(),
        ensures
            self.current() matches Some(c) ==> {
                &&& r@.len() == self.entries()[c].children@.len()
                &&& forall|k: int| 0 <= k < r@.len() ==> {
                    let id = self.entries()[c].children@[k];
                    &&& (#[trigger] r@[k]).0 == id
                    &&& r@[k].1@ == self.entries()[id].label@
                }
            },
            self.current() is None ==> r@.len() == 0,
    {
        broadcast use vstd::std_specs::hash::group_hash_axioms;

        let mut out: Vec<(u64, &str)> = Vec::new();
        let cur = match self.current_id {
            Some(c) => c,
            None => return out,
        };
        let node = match self.nodes.get(&cur) {
            Some(n) => n,
            None => return out,
        };
        let mut k: usize = 0;
        while k < node.children.len()
            invariant
                self.wf(),
                self.current_id == Some(cur),
                self.nodes@.contains_key(cur),
                *node == self.nodes@[cur],
                0 <= k <= node.children@.len(),
                out@.len() == k,
                forall|j: int| 0 <= j < k ==> {
                    let id = node.children@[j];
                    &&& (#[trigger] out@[j]).0 == id
                    &&& out@[j].1@ == self.nodes@[id].label@
                },
            decreases node.children@.len() - k,
        {
            let id = node.children[k];
            proof {
                assert(self.nodes@.contains_key(node.children@[k as int]));
            }
            match self.nodes.get(&id) {
                Some(child) => {
                    out.push((id, child.label.as_str()));
                },
                None => {},
            }
            k += 1;
        }
        out
    }

    /// Ids from the current node up to the root.
    pub fn path_to_root(&self) -> (r: Vec<u64>)
        requires
            self.wf(),
        ensures
            self.current() is None <==> r@.len() == 0,
            self.current() matches Some(c) ==> r@[0] == c,
            forall|k: int| 0 <= k < r@.len() ==> self.entries().contains_key(#[trigger] r@[k]),
            forall|k: int| 0 <= k < r@.len() - 1 ==> self.entries()[#[trigger] r@[k]].parent == Some(r@[k + 1]),
            r@.len() > 0 ==> self.entries()[r@.last()].parent is None,
    {
        broadcast use vstd::std_specs::hash::group_hash_axioms;

        let mut path: Vec<u64> = Vec::new();
        let mut cur = self.current_id;
        while cur.is_some()
            invariant
                self.wf(),
                cur matches Some(c) ==> self.nodes@.contains_key(c),
                path@.len() == 0 ==> cur == self.current_id,
                path@.len() > 0 ==> (self.current_id matches Some(c) && path@[0] == c),
                forall|k: int| 0 <= k < path@.len() ==> self.nodes@.contains_key(#[trigger] path@[k]),
                forall|k: int| 0 <= k < path@.len() - 1 ==> self.nodes@[#[trigger] path@[k]].parent == Some(path@[k + 1]),
                path@.len() > 0 ==> self.nodes@[path@.last()].parent == cur,
            decreases (match cur {
                Some(c) => c as int + 1,
                None => 0,
            }),
        {
            let id = cur.unwrap();
            path.push(id);
            cur = match self.nodes.get(&id) {
                Some(node) => node.parent,
                None => None,
            };
        }
        path
    }
}

/// Number of nodes with id in `[1, n)` that have more than one child.
pub open spec fn branching_below<S>(entries: Map<u64, HistoryNode<S>>, n: nat) -> nat
    decreases n,
{
    if n <= 1 {
        0
    } else {
        branching_below(entries, (n - 1) as nat) + if entries.contains_key((n - 1) as u64)
            && entries[(n - 1) as u64].children@.len() > 1 {
            1nat
        } else {
            0nat
        }
    }
}

/// The ids in `[1, n)` of nodes with two or more children.
pub open spec fn fork_ids<S>(entries: Map<u64, HistoryNode<S>>, n: nat) -> Set<u64> {
    Set::new(|k: u64| 1 <= k < n && entries.contains_key(k) && entries[k].children@.len() >= 2)
}

/// The branch count is the number of nodes that have at least two children.
pub proof fn lemma_branch_count_counts_forks<S>(entries: Map<u64, HistoryNode<S>>, n: nat)
    requires
        n <= u64::MAX,
    ensures
        fork_ids(entries, n).finite(),
        branching_below(entries, n) == fork_ids(entries, n).len(),
    decreases n,
{
    if n <= 1 {
        assert(fork_ids(entries, n) =~= Set::<u64>::empty());
    } else {
        let m = (n - 1) as nat;
        lemma_branch_count_counts_forks(entries, m);
        let k = m as u64;
        if entries.contains_key(k) && entries[k].children@.len() >= 2 {
            assert(fork_ids(entries, n) =~= fork_ids(entries, m).insert(k));
            assert(!fork_ids(entries, m).contains(k));
        } else {
            assert(fork_ids(entries, n) =~= fork_ids(entries, m));
        }
    }
}

/// A history in which no node has more than one child (as one built by
/// recording alone, without undoing) has no branch point.
pub proof fn lemma_no_forks_no_branches<S>(entries: Map<u64, HistoryNode<S>>, n: nat)
    requires
        forall|k: u64| #[trigger] entries.contains_key(k) ==> entries[k].children@.len() <= 1,
    ensures
        branching_below(entries, n) == 0,
    decreases n,
{
    if n > 1 {
        lemma_no_forks_no_branches(entries, (n - 1) as nat);
    }
}

/// Recording a snapshot adds a branch point exactly when the node recorded
/// under already had one child (its second child is added); recording under
/// a node with no children, or with none current, leaves the count as it was.
pub proof fn lemma_push_branch_count<S>(
    before: Map<u64, HistoryNode<S>>,
    after: Map<u64, HistoryNode<S>>,
    current: Option<u64>,
    id: u64,
)
    requires
        1 <= id < u64::MAX,
        forall|k: u64| #[trigger] before.contains_key(k) ==> 1 <= k < id,
        after.dom() == before.dom().insert(id),
        after[id].children@.len() == 0,
        forall|k: u64| #[trigger] before.contains_key(k) && current != Some(k) ==> after[k] == before[k],
        current matches Some(p) ==> before.contains_key(p) && after[p].children@ == before[p].children@.push(id),
    ensures
        branching_below(after, (id + 1) as nat) == branching_below(before, id as nat) + (if current matches Some(p)
            && before[p].children@.len() == 1 {
            1int
        } else {
            0int
        }),
{
    lemma_branching_below_extends(before, id as nat, (id + 1) as nat);
    match current {
        Some(p) => {
            assert forall|k: u64| 1 <= k < id + 1 && k != p && #[trigger] before.contains_key(k) implies after[k].children@.len()
                == before[k].children@.len() by {
                assert(after[k] == before[k]);
            }
            assert forall|k: u64| 1 <= k < id + 1 && k != p && k != id implies (#[trigger] after.contains_key(k)
                <==> before.contains_key(k)) by {
                assert(after.dom().contains(k) == before.dom().insert(id).contains(k));
            }
            assert(!before.contains_key(id));
            lemma_branching_one_changed_except_new(before, after, p, id, (id + 1) as nat);
        },
        None => {
            lemma_branching_same_except_new(before, after, id, (id + 1) as nat);
        },
    }
}

/// Counting further than the highest id changes nothing.
proof fn lemma_branching_below_extends<S>(entries: Map<u64, HistoryNode<S>>, n: nat, m: nat)
    requires
        n <= m <= u64::MAX,
        forall|k: u64| #[trigger] entries.contains_key(k) ==> 1 <= k < n,
    ensures
        branching_below(entries, m) == branching_below(entries, n),
    decreases m,
{
    if m > n {
        lemma_branching_below_extends(entries, n, (m - 1) as nat);
        assert(!entries.contains_key((m - 1) as u64));
    }
}

/// With `p` the only changed node apart from the new node `id` (which has no
/// children), the count changes only through `p`.
proof fn lemma_branching_one_changed_except_new<S>(
    before: Map<u64, HistoryNode<S>>,
    after: Map<u64, HistoryNode<S>>,
    p: u64,
    id: u64,
    n: nat,
)
    requires
        n <= u64::MAX,
        !before.contains_key(id),
        after.contains_key(id) && after[id].children@.len() == 0,
        forall|k: u64| 1 <= k < n && k != p && k != id ==> (#[trigger] after.contains_key(k) <==> before.contains_key(k)),
        forall|k: u64| 1 <= k < n && k != p && #[trigger] before.contains_key(k) ==> after[k].children@.len()
            == before[k].children@.len(),
        before.contains_key(p) && after.contains_key(p),
        after[p].children@.len() == before[p].children@.len() + 1,
    ensures
        branching_below(after, n) == branching_below(before, n) + (if 1 <= p < n && before[p].children@.len()
            == 1 {
            1int
        } else {
            0int
        }),
    decreases n,
{
    if n > 1 {
        let m = (n - 1) as nat;
        lemma_branching_one_changed_except_new(before, after, p, id, m);
        let k = m as u64;
        if k != p && k != id && before.contains_key(k) {
            assert(after.contains_key(k));
        }
    }
}

/// Adding a childless node `id` and changing nothing else keeps the count.
proof fn lemma_branching_same_except_new<S>(
    before: Map<u64, HistoryNode<S>>,
    after: Map<u64, HistoryNode<S>>,
    id: u64,
    n: nat,
)
    requires
        n <= u64::MAX,
        !before.contains_key(id),
        after.dom() == before.dom().insert(id),
        after[id].children@.len() == 0,
        forall|k: u64| #[trigger] before.contains_key(k) ==> after[k] == before[k],
    ensures
        branching_below(after, n) == branching_below(before, n),
    decreases n,
{
    if n > 1 {
        let m = (n - 1) as nat;
        lemma_branching_same_except_new(before, after, id, m);
        let k = m as u64;
        if before.contains_key(k) {
            assert(after.contains_key(k));
        } else if k != id {
            assert(!after.dom().contains(k));
        }
    }
}

impl<S> BranchingHistory<S> {
    /// Number of nodes at which the history branches (more than one child).
    pub fn branch_count(&self) -> (r: usize)
        requires
            self.wf(),
        ensures
            r == branching_below(self.entries(), self.spec_next_id() as nat),
    {
        broadcast use vstd::std_specs::hash::group_hash_axioms;

        let total = self.nodes.len();
        proof {
            lemma_id_range_len(self.next_id);
            assert(id_range(self.next_id).subset_of(self.nodes@.dom()));
            vstd::set_lib::lemma_len_subset(id_range(self.next_id), self.nodes@.dom());
        }
        let mut count: usize = 0;
        let mut id: u64 = 1;
        while id < self.next_id
            invariant
                self.wf(),
                1 <= id <= self.next_id,
                self.next_id - 1 <= total,
                count == branching_below(self.nodes@, id as nat),
                count <= id - 1,
            decreases self.next_id - id,
        {
            match self.nodes.get(&id) {
                Some(node) => {
                    if node.children.len() > 1 {
                        count = count + 1;
                    }
                },
                None => {},
            }
            id = id + 1;
        }
        count
    }
}

/// The ids `1..n`.
pub open spec fn id_range(n: u64) -> Set<u64> {
    Set::new(|x: u64| 1 <= x < n)
}

proof fn lemma_id_range_len(n: u64)
    ensures
        id_range(n).finite(),
        id_range(n).len() == if n >= 1 {
            (n - 1) as nat
        } else {
            0
        },
    decreases n,
{
    if n <= 1 {
        assert(id_range(n) =~= Set::<u64>::empty());
    } else {
        lemma_id_range_len((n - 1) as u64);
        assert(id_range(n) =~= id_range((n - 1) as u64).insert((n - 1) as u64));
    }
}

/// After recording a snapshot, undo returns to the node that was current before.
pub proof fn lemma_push_then_undo<S>(
    before_current: Option<u64>,
    after_entries: Map<u64, HistoryNode<S>>,
    id: u64,
)
    requires
        after_entries.contains_key(id),
        after_entries[id].parent == before_current,
    ensures
        undo_target(after_entries, Some(id)) == before_current,
{
}

/// Whether `x` occurs in `v`.
fn vec_contains_u64(v: &Vec<u64>, x: u64) -> (r: bool)
    ensures
        r == v@.contains(x),
{
    let mut k: usize = 0;
    while k < v.len()
        invariant
            0 <= k <= v@.len(),
            forall|j: int| 0 <= j < k ==> v@[j] != x,
        decreases v@.len() - k,
    {
        if v[k] == x {
            return true;
        }
        k += 1;
    }
    false
}

} // verus!
