//! Keyboard shortcuts and the registry that maps them to editor actions.

use vstd::prelude::*;

verus! {

/// A keyboard shortcut: a key and its modifiers.
#[derive(Debug, Clone, Copy, PartialEq, Eq, Hash, Structural)]
pub struct Shortcut {
    pub key: char,
    pub ctrl: bool,
    pub shift: bool,
    pub alt: bool,
}

impl Shortcut {
    /// The bare key.
    pub fn key(key: char) -> (r: Self)
        ensures
            r == (Shortcut { key, ctrl: false, shift: false, alt: false }),
    {
        Shortcut { key, ctrl: false, shift: false, alt: false }
    }

    /// Ctrl + key.
    pub fn ctrl(key: char) -> (r: Self)
        ensures
            r == (Shortcut { key, ctrl: true, shift: false, alt: false }),
    {
        Shortcut { key, ctrl: true, shift: false, alt: false }
    }

    /// Ctrl + Shift + key.
    pub fn ctrl_shift(key: char) -> (r: Self)
        ensures
            r == (Shortcut { key, ctrl: true, shift: true, alt: false }),
    {
        Shortcut { key, ctrl: true, shift: true, alt: false }
    }
}

/// Action a shortcut triggers.
#[derive(Debug, Hash)]
pub enum EditorAction {
    Undo,
    Redo,
    Save,
    SaveAs,
    Open,
    New,
    Delete,
    Duplicate,
    SelectAll,
    DeselectAll,
    TogglePlay,
    TogglePause,
    FocusSelected,
    ToggleHierarchy,
    ToggleInspector,
    ToggleConsole,
    GizmoTranslate,
    GizmoRotate,
    GizmoScale,
    GizmoUniversal,
    SnapToggle,
    AxisX,
    AxisY,
    AxisZ,
    Screenshot,
    Custom(String),
}

/// Two actions are the same: the same variant, and for custom actions the same text.
pub open spec fn same_action(a: EditorAction, b: EditorAction) -> bool {
    match (a, b) {
        (EditorAction::Custom(x), EditorAction::Custom(y)) => x@ == y@,
        (EditorAction::Custom(_), _) => false,
        (_, EditorAction::Custom(_)) => false,
        _ => a == b,
    }
}

impl Clone for EditorAction {
    fn clone(&self) -> (r: Self)
        ensures
            r == *self,
    {
        match self {
            EditorAction::Undo => EditorAction::Undo,
            EditorAction::Redo => EditorAction::Redo,
            EditorAction::Save => EditorAction::Save,
            EditorAction::SaveAs => EditorAction::SaveAs,
            EditorAction::Open => EditorAction::Open,
            EditorAction::New => EditorAction::New,
            EditorAction::Delete => EditorAction::Delete,
            EditorAction::Duplicate => EditorAction::Duplicate,
            EditorAction::SelectAll => EditorAction::SelectAll,
            EditorAction::DeselectAll => EditorAction::DeselectAll,
            EditorAction::TogglePlay => EditorAction::TogglePlay,
            EditorAction::TogglePause => EditorAction::TogglePause,
            EditorAction::FocusSelected => EditorAction::FocusSelected,
            EditorAction::ToggleHierarchy => EditorAction::ToggleHierarchy,
            EditorAction::ToggleInspector => EditorAction::ToggleInspector,
            EditorAction::ToggleConsole => EditorAction::ToggleConsole,
            EditorAction::GizmoTranslate => EditorAction::GizmoTranslate,
            EditorAction::GizmoRotate => EditorAction::GizmoRotate,
            EditorAction::GizmoScale => EditorAction::GizmoScale,
            EditorAction::GizmoUniversal => EditorAction::GizmoUniversal,
            EditorAction::SnapToggle => EditorAction::SnapToggle,
            EditorAction::AxisX => EditorAction::AxisX,
            EditorAction::AxisY => EditorAction::AxisY,
            EditorAction::AxisZ => EditorAction::AxisZ,
            EditorAction::Screenshot => EditorAction::Screenshot,
            EditorAction::Custom(name) => EditorAction::Custom(name.clone()),
        }
    }
}

impl PartialEq for EditorAction {
    fn eq(&self, other: &Self) -> (r: bool) {
        match (self, other) {
            (EditorAction::Custom(x), EditorAction::Custom(y)) => x.eq(y),
            (EditorAction::Undo, EditorAction::Undo) => true,
            (EditorAction::Redo, EditorAction::Redo) => true,
            (EditorAction::Save, EditorAction::Save) => true,
            (EditorAction::SaveAs, EditorAction::SaveAs) => true,
            (EditorAction::Open, EditorAction::Open) => true,
            (EditorAction::New, EditorAction::New) => true,
            (EditorAction::Delete, EditorAction::Delete) => true,
            (EditorAction::Duplicate, EditorAction::Duplicate) => true,
            (EditorAction::SelectAll, EditorAction::SelectAll) => true,
            (EditorAction::DeselectAll, EditorAction::DeselectAll) => true,
            (EditorAction::TogglePlay, EditorAction::TogglePlay) => true,
            (EditorAction::TogglePause, EditorAction::TogglePause) => true,
            (EditorAction::FocusSelected, EditorAction::FocusSelected) => true,
            (EditorAction::ToggleHierarchy, EditorAction::ToggleHierarchy) => true,
            (EditorAction::ToggleInspector, EditorAction::ToggleInspector) => true,
            (EditorAction::ToggleConsole, EditorAction::ToggleConsole) => true,
            (EditorAction::GizmoTranslate, EditorAction::GizmoTranslate) => true,
            (EditorAction::GizmoRotate, EditorAction::GizmoRotate) => true,
            (EditorAction::GizmoScale, EditorAction::GizmoScale) => true,
            (EditorAction::GizmoUniversal, EditorAction::GizmoUniversal) => true,
            (EditorAction::SnapToggle, EditorAction::SnapToggle) => true,
            (EditorAction::AxisX, EditorAction::AxisX) => true,
            (EditorAction::AxisY, EditorAction::AxisY) => true,
            (EditorAction::AxisZ, EditorAction::AxisZ) => true,
            (EditorAction::Screenshot, EditorAction::Screenshot) => true,
            _ => false,
        }
    }
}

impl vstd::std_specs::cmp::PartialEqSpecImpl for EditorAction {
    open spec fn obeys_eq_spec() -> bool {
        true
    }

    open spec fn eq_spec(&self, other: &Self) -> bool {
        same_action(*self, *other)
    }
}

impl Eq for EditorAction {}

/// The action bound to `sc` by default, if any.
pub open spec fn default_binding(sc: Shortcut) -> Option<EditorAction> {
    if sc == (Shortcut { key: 'z', ctrl: true, shift: false, alt: false }) {
        Some(EditorAction::Undo)
    } else if sc == (Shortcut { key: 'y', ctrl: true, shift: false, alt: false }) {
        Some(EditorAction::Redo)
    } else if sc == (Shortcut { key: 's', ctrl: true, shift: false, alt: false }) {
        Some(EditorAction::Save)
    } else if sc == (Shortcut { key: 's', ctrl: true, shift: true, alt: false }) {
        Some(EditorAction::SaveAs)
    } else if sc == (Shortcut { key: 'o', ctrl: true, shift: false, alt: false }) {
        Some(EditorAction::Open)
    } else if sc == (Shortcut { key: 'n', ctrl: true, shift: false, alt: false }) {
        Some(EditorAction::New)
    } else if sc == (Shortcut { key: '\x7f', ctrl: false, shift: false, alt: false }) {
        Some(EditorAction::Delete)
    } else if sc == (Shortcut { key: 'd', ctrl: true, shift: false, alt: false }) {
        Some(EditorAction::Duplicate)
    } else if sc == (Shortcut { key: 'a', ctrl: true, shift: false, alt: false }) {
        Some(EditorAction::SelectAll)
    } else if sc == (Shortcut { key: 'g', ctrl: false, shift: false, alt: false }) {
        Some(EditorAction::GizmoTranslate)
    } else if sc == (Shortcut { key: 'r', ctrl: false, shift: false, alt: false }) {
        Some(EditorAction::GizmoRotate)
    } else if sc == (Shortcut { key: 's', ctrl: false, shift: false, alt: false }) {
        Some(EditorAction::GizmoScale)
    } else if sc == (Shortcut { key: 'x', ctrl: false, shift: false, alt: false }) {
        Some(EditorAction::AxisX)
    } else if sc == (Shortcut { key: 'y', ctrl: false, shift: false, alt: false }) {
        Some(EditorAction::AxisY)
    } else if sc == (Shortcut { key: 'z', ctrl: false, shift: false, alt: false }) {
        Some(EditorAction::AxisZ)
    } else if sc == (Shortcut { key: 'f', ctrl: false, shift: false, alt: false }) {
        Some(EditorAction::FocusSelected)
    } else if sc == (Shortcut { key: ' ', ctrl: false, shift: false, alt: false }) {
        Some(EditorAction::TogglePlay)
    } else {
        None
    }
}

/// The shortcut of a bare key.
pub open spec fn bare_key(key: char) -> Shortcut {
    Shortcut { key, ctrl: false, shift: false, alt: false }
}

/// The shortcut Ctrl + key.
pub open spec fn ctrl_key(key: char) -> Shortcut {
    Shortcut { key, ctrl: true, shift: false, alt: false }
}

/// The shortcut Ctrl + Shift + key.
pub open spec fn ctrl_shift_key(key: char) -> Shortcut {
    Shortcut { key, ctrl: true, shift: true, alt: false }
}

/// The actions that have a default shortcut.
pub open spec fn has_default_shortcut(a: EditorAction) -> bool {
    !(a is DeselectAll || a is TogglePause || a is ToggleHierarchy || a is ToggleInspector
        || a is ToggleConsole || a is GizmoUniversal || a is SnapToggle || a is Screenshot
        || a is Custom)
}

/// The default table, read from each action back to its shortcut: every
/// action with a default shortcut is reached by exactly one shortcut, the
/// one listed here, and no other action has a default shortcut.
pub proof fn lemma_default_shortcut_of_each_action(k: Shortcut)
    ensures
        default_binding(k) == Some(EditorAction::Undo) <==> k == ctrl_key('z'),
        default_binding(k) == Some(EditorAction::Redo) <==> k == ctrl_key('y'),
        default_binding(k) == Some(EditorAction::Save) <==> k == ctrl_key('s'),
        default_binding(k) == Some(EditorAction::SaveAs) <==> k == ctrl_shift_key('s'),
        default_binding(k) == Some(EditorAction::Open) <==> k == ctrl_key('o'),
        default_binding(k) == Some(EditorAction::New) <==> k == ctrl_key('n'),
        default_binding(k) == Some(EditorAction::Delete) <==> k == bare_key('\x7f'),
        default_binding(k) == Some(EditorAction::Duplicate) <==> k == ctrl_key('d'),
        default_binding(k) == Some(EditorAction::SelectAll) <==> k == ctrl_key('a'),
        default_binding(k) == Some(EditorAction::GizmoTranslate) <==> k == bare_key('g'),
        default_binding(k) == Some(EditorAction::GizmoRotate) <==> k == bare_key('r'),
        default_binding(k) == Some(EditorAction::GizmoScale) <==> k == bare_key('s'),
        default_binding(k) == Some(EditorAction::AxisX) <==> k == bare_key('x'),
        default_binding(k) == Some(EditorAction::AxisY) <==> k == bare_key('y'),
        default_binding(k) == Some(EditorAction::AxisZ) <==> k == bare_key('z'),
        default_binding(k) == Some(EditorAction::FocusSelected) <==> k == bare_key('f'),
        default_binding(k) == Some(EditorAction::TogglePlay) <==> k == bare_key(' '),
        default_binding(k) is Some ==> has_default_shortcut(default_binding(k).unwrap()),
{
}

/// No two default shortcuts trigger the same action.
pub proof fn lemma_default_bindings_distinct(k1: Shortcut, k2: Shortcut)
    requires
        k1 != k2,
        default_binding(k1) is Some,
    ensures
        default_binding(k1) != default_binding(k2),
{
    lemma_default_shortcut_of_each_action(k1);
    lemma_default_shortcut_of_each_action(k2);
}

/// Some binding of `s` is for shortcut `k`.
pub open spec fn has_binding(s: Seq<(Shortcut, EditorAction)>, k: Shortcut) -> bool {
    exists|i: int| 0 <= i < s.len() && (#[trigger] s[i]).0 == k
}

/// The action bound to `k` in `s`, if any.
pub open spec fn lookup(s: Seq<(Shortcut, EditorAction)>, k: Shortcut) -> Option<EditorAction> {
    if has_binding(s, k) {
        Some(s[choose|i: int| 0 <= i < s.len() && (#[trigger] s[i]).0 == k].1)
    } else {
        None
    }
}

/// Each shortcut is bound at most once.
pub open spec fn keys_unique(s: Seq<(Shortcut, EditorAction)>) -> bool {
    forall|i: int, j: int| 0 <= i < s.len() && 0 <= j < s.len() && i != j ==> (#[trigger] s[i]).0 != (#[trigger] s[j]).0
}

proof fn lemma_lookup_at(s: Seq<(Shortcut, EditorAction)>, i: int)
    requires
        keys_unique(s),
        0 <= i < s.len(),
    ensures
        lookup(s, s[i].0) == Some(s[i].1),
{
    let k = s[i].0;
    assert(has_binding(s, k));
    let j = choose|j: int| 0 <= j < s.len() && (#[trigger] s[j]).0 == k;
    assert(j == i);
}

/// The position of the binding of `k` in `b`, if any.
fn find_binding(b: &Vec<(Shortcut, EditorAction)>, k: &Shortcut) -> (r: Option<usize>)
    requires
        keys_unique(b@),
    ensures
        match r {
            Some(i) => i < b@.len() && b@[i as int].0 == *k,
            None => !has_binding(b@, *k),
        },
{
    let mut i: usize = 0;
    while i < b.len()
        invariant
            0 <= i <= b@.len(),
            forall|j: int| 0 <= j < i ==> (#[trigger] b@[j]).0 != *k,
        decreases b@.len() - i,
    {
        if b[i].0 == *k {
            return Some(i);
        }
        i += 1;
    }
    None
}

/// Maps shortcuts to editor actions.
#[derive(Debug)]
pub struct ShortcutRegistry {
    bindings: Vec<(Shortcut, EditorAction)>,
}

impl Clone for ShortcutRegistry {
    /// A registry with the same bindings, in the same order.
    fn clone(&self) -> (r: Self)
        ensures
            r.entries() == self.entries(),
    {
        proof {
            use_type_invariant(self);
        }
        let mut b: Vec<(Shortcut, EditorAction)> = Vec::new();
        let mut i: usize = 0;
        while i < self.bindings.len()
            invariant
                0 <= i <= self.bindings@.len(),
                b@ == self.bindings@.take(i as int),
            decreases self.bindings@.len() - i,
        {
            let k = self.bindings[i].0;
            let a = self.bindings[i].1.clone();
            b.push((k, a));
            proof {
                assert(self.bindings@.take(i + 1) == self.bindings@.take(i as int).push(self.bindings@[i as int]));
            }
            i += 1;
        }
        proof {
            assert(self.bindings@.take(i as int) == self.bindings@);
        }
        ShortcutRegistry { bindings: b }
    }
}

impl ShortcutRegistry {
    pub closed spec fn entries(&self) -> Seq<(Shortcut, EditorAction)> {
        self.bindings@
    }

    /// The action bound to `k`, if any.
    pub open spec fn binding(&self, k: Shortcut) -> Option<EditorAction> {
        lookup(self.entries(), k)
    }

    /// Each shortcut is bound at most once.
    #[verifier::type_invariant]
    spec fn wf(&self) -> bool {
        keys_unique(self.bindings@)
    }

    /// A registry with no bindings.
    pub fn empty() -> (r: Self)
        ensures
            forall|k: Shortcut| #[trigger] r.binding(k) is None,
            r.entries().len() == 0,
            keys_unique(r.entries()),
    {
        ShortcutRegistry { bindings: Vec::new() }
    }

    /// Binds `shortcut` to `action`, replacing any earlier binding of it.
    pub fn bind(&mut self, shortcut: Shortcut, action: EditorAction)
        ensures
            final(self).binding(shortcut) == Some(action),
            forall|k: Shortcut| k != shortcut ==> #[trigger] final(self).binding(k) == old(self).binding(k),
            final(self).entries().len() == old(self).entries().len() + (if old(self).binding(shortcut) is None {
                1int
            } else {
                0int
            }),
            keys_unique(final(self).entries()),
    {
        proof {
            use_type_invariant(&*self);
        }
        let mut b: Vec<(Shortcut, EditorAction)> = Vec::new();
        std::mem::swap(&mut b, &mut self.bindings);
        match find_binding(&b, &shortcut) {
            Some(i) => {
                let ghost old_s = b@;
                b.set(i, (shortcut, action));
                proof {
                    let s = b@;
                    assert(keys_unique(s)) by {
                        assert forall|a: int, b: int| 0 <= a < s.len() && 0 <= b < s.len() && a != b implies (#[trigger] s[a]).0 != (#[trigger] s[b]).0 by {
                            assert(old_s[a].0 != old_s[b].0);
                        }
                    }
                    lemma_lookup_at(s, i as int);
                    assert forall|k: Shortcut| k != shortcut implies #[trigger] lookup(s, k) == lookup(old_s, k) by {
                        if has_binding(old_s, k) {
                            let j = choose|j: int| 0 <= j < old_s.len() && (#[trigger] old_s[j]).0 == k;
                            lemma_lookup_at(old_s, j);
                            lemma_lookup_at(s, j);
                        } else {
                            if has_binding(s, k) {
                                let j = choose|j: int| 0 <= j < s.len() && (#[trigger] s[j]).0 == k;
                                assert(old_s[j].0 == k);
                            }
                        }
                    }
                }
            },
            None => {
                let ghost old_s = b@;
                b.push((shortcut, action));
                proof {
                    let s = b@;
                    assert(keys_unique(s)) by {
                        assert forall|a: int, b: int| 0 <= a < s.len() && 0 <= b < s.len() && a != b implies (#[trigger] s[a]).0 != (#[trigger] s[b]).0 by {
                            if a < old_s.len() && b < old_s.len() {
                                assert(old_s[a].0 != old_s[b].0);
                            } else if a < old_s.len() {
                                assert(s[a] == old_s[a]);
                            } else {
                                assert(s[b] == old_s[b]);
                            }
                        }
                    }
                    lemma_lookup_at(s, old_s.len() as int);
                    assert forall|k: Shortcut| k != shortcut implies #[trigger] lookup(s, k) == lookup(old_s, k) by {
                        if has_binding(old_s, k) {
                            let j = choose|j: int| 0 <= j < old_s.len() && (#[trigger] old_s[j]).0 == k;
                            lemma_lookup_at(old_s, j);
                            lemma_lookup_at(s, j);
                        } else {
                            if has_binding(s, k) {
                                let j = choose|j: int| 0 <= j < s.len() && (#[trigger] s[j]).0 == k;
                                assert(j < old_s.len());
                                assert(old_s[j].0 == k);
                            }
                        }
                    }
                }
            },
        }
        self.bindings = b;
    }

    /// Removes the binding of `shortcut`, if any.
    pub fn unbind(&mut self, shortcut: &Shortcut)
        ensures
            final(self).binding(*shortcut) is None,
            forall|k: Shortcut| k != *shortcut ==> #[trigger] final(self).binding(k) == old(self).binding(k),
            final(self).entries().len() == old(self).entries().len() - (if old(self).binding(*shortcut) is Some {
                1int
            } else {
                0int
            }),
            keys_unique(final(self).entries()),
    {
        proof {
            use_type_invariant(&*self);
        }
        let mut b: Vec<(Shortcut, EditorAction)> = Vec::new();
        std::mem::swap(&mut b, &mut self.bindings);
        match find_binding(&b, shortcut) {
            Some(i) => {
                let ghost old_s = b@;
                b.remove(i);
                proof {
                    let s = b@;
                    let m = |j: int| if j < i { j } else { j + 1 };
                    assert forall|j: int| 0 <= j < s.len() implies #[trigger] s[j] == old_s[m(j)] by {}
                    assert(keys_unique(s)) by {
                        assert forall|a: int, b: int| 0 <= a < s.len() && 0 <= b < s.len() && a != b implies (#[trigger] s[a]).0 != (#[trigger] s[b]).0 by {
                            assert(s[a] == old_s[m(a)] && s[b] == old_s[m(b)]);
                            assert(old_s[m(a)].0 != old_s[m(b)].0);
                        }
                    }
                    if has_binding(s, *shortcut) {
                        let j = choose|j: int| 0 <= j < s.len() && (#[trigger] s[j]).0 == *shortcut;
                        assert(s[j] == old_s[m(j)]);
                        assert(old_s[i as int].0 != old_s[m(j)].0);
                    }
                    assert forall|k: Shortcut| k != *shortcut implies #[trigger] lookup(s, k) == lookup(old_s, k) by {
                        if has_binding(old_s, k) {
                            let j = choose|j: int| 0 <= j < old_s.len() && (#[trigger] old_s[j]).0 == k;
                            lemma_lookup_at(old_s, j);
                            assert(j != i);
                            let j2 = if j < i { j } else { j - 1 };
                            assert(s[j2] == old_s[m(j2)]);
                            lemma_lookup_at(s, j2);
                        } else {
                            if has_binding(s, k) {
                                let j = choose|j: int| 0 <= j < s.len() && (#[trigger] s[j]).0 == k;
                                assert(s[j] == old_s[m(j)]);
                            }
                        }
                    }
                }
            },
            None => {},
        }
        self.bindings = b;
    }

    /// The action bound to `shortcut`, if any.
    pub fn resolve(&self, shortcut: &Shortcut) -> (r: Option<&EditorAction>)
        ensures
            match r {
                Some(a) => self.binding(*shortcut) == Some(*a),
                None => self.binding(*shortcut) is None,
            },
    {
        proof {
            use_type_invariant(self);
        }
        match find_binding(&self.bindings, shortcut) {
            Some(i) => {
                proof {
                    lemma_lookup_at(self.bindings@, i as int);
                }
                Some(&self.bindings[i].1)
            },
            None => None,
        }
    }

    /// All bindings, in the order they were first made.
    pub fn all_bindings(&self) -> (r: &Vec<(Shortcut, EditorAction)>)
        ensures
            r@ == self.entries(),
            keys_unique(r@),
    {
        proof {
            use_type_invariant(self);
        }
        &self.bindings
    }

    /// A shortcut bound to an action equal to `action`: the earliest made
    /// such binding, or `None` when no shortcut triggers it.
    pub fn shortcut_for(&self, action: &EditorAction) -> (r: Option<&Shortcut>)
        ensures
            match r {
                Some(k) => self.binding(*k) matches Some(a) && same_action(a, *action),
                None => forall|k: Shortcut| #[trigger] self.binding(k) is Some ==> !same_action(self.binding(k).unwrap(), *action),
            },
    {
        proof {
            use_type_invariant(self);
        }
        let mut i: usize = 0;
        while i < self.bindings.len()
            invariant
                keys_unique(self.bindings@),
                0 <= i <= self.bindings@.len(),
                forall|j: int| 0 <= j < i ==> !same_action((#[trigger] self.bindings@[j]).1, *action),
            decreases self.bindings@.len() - i,
        {
            if self.bindings[i].1 == *action {
                proof {
                    lemma_lookup_at(self.bindings@, i as int);
                }
                return Some(&self.bindings[i].0);
            }
            i += 1;
        }
        proof {
            assert forall|k: Shortcut| #[trigger] self.binding(k) is Some implies !same_action(self.binding(k).unwrap(), *action) by {
                if has_binding(self.bindings@, k) {
                    let j = choose|j: int| 0 <= j < self.bindings@.len() && (#[trigger] self.bindings@[j]).0 == k;
                    lemma_lookup_at(self.bindings@, j);
                }
            }
        }
        None
    }
}

impl ShortcutRegistry {
    /// A registry holding the default bindings.
    pub fn new() -> (r: Self)
        ensures
            forall|k: Shortcut| #[trigger] r.binding(k) == default_binding(k),
            r.entries().len() == 17,
            keys_unique(r.entries()),
    {
        let mut reg = ShortcutRegistry::empty();
        reg.register_defaults();
        reg
    }

    /// Binds the default shortcuts (undo, redo, save, gizmo and axis keys, ...).
    #[verifier::spinoff_prover]
    #[verifier::rlimit(40)]
    fn register_defaults(&mut self)
        ensures
            forall|k: Shortcut| #[trigger] final(self).binding(k) == (if default_binding(k) is Some {
                default_binding(k)
            } else {
                old(self).binding(k)
            }),
            old(self).entries().len() == 0 ==> final(self).entries().len() == 17,
            keys_unique(final(self).entries()),
    {
        self.bind(Shortcut::ctrl('z'), EditorAction::Undo);
        self.bind(Shortcut::ctrl('y'), EditorAction::Redo);
        self.bind(Shortcut::ctrl('s'), EditorAction::Save);
        self.bind(Shortcut::ctrl_shift('s'), EditorAction::SaveAs);
        self.bind(Shortcut::ctrl('o'), EditorAction::Open);
        self.bind(Shortcut::ctrl('n'), EditorAction::New);
        self.bind(Shortcut::key('\x7f'), EditorAction::Delete);
        self.bind(Shortcut::ctrl('d'), EditorAction::Duplicate);
        self.bind(Shortcut::ctrl('a'), EditorAction::SelectAll);
        self.bind(Shortcut::key('g'), EditorAction::GizmoTranslate);
        self.bind(Shortcut::key('r'), EditorAction::GizmoRotate);
        self.bind(Shortcut::key('s'), EditorAction::GizmoScale);
        self.bind(Shortcut::key('x'), EditorAction::AxisX);
        self.bind(Shortcut::key('y'), EditorAction::AxisY);
        self.bind(Shortcut::key('z'), EditorAction::AxisZ);
        self.bind(Shortcut::key('f'), EditorAction::FocusSelected);
        self.bind(Shortcut::key(' '), EditorAction::TogglePlay);
    }
}

} // verus!
