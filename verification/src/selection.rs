//! Entity and glyph handles and the editor's selection set.

use vstd::prelude::*;

verus! {

/// Opaque handle to a scene entity.
#[derive(Debug, Clone, Copy, PartialEq, Eq, Hash, Default, Structural)]
pub struct EntityId(pub u32);

/// Opaque handle to a glyph.
#[derive(Debug, Clone, Copy, PartialEq, Eq, Hash, Default, Structural)]
pub struct GlyphId(pub u32);

/// Position of the first occurrence of `x` in `s` (`s.len()` when absent).
pub open spec fn first_index<T>(s: Seq<T>, x: T) -> int
    decreases s.len(),
{
    if s.len() == 0 {
        0
    } else if s[0] == x {
        0
    } else {
        1 + first_index(s.drop_first(), x)
    }
}

/// `s` with `x` toggled: its first occurrence removed, or `x` appended
/// when it does not occur.
pub open spec fn toggled<T>(s: Seq<T>, x: T) -> Seq<T> {
    if s.contains(x) {
        s.remove(first_index(s, x))
    } else {
        s.push(x)
    }
}

/// `s` extended by the elements of `ids` that it does not hold yet, in
/// order (an id repeated in `ids` is added once).
pub open spec fn appended_new<T>(s: Seq<T>, ids: Seq<T>) -> Seq<T>
    decreases ids.len(),
{
    if ids.len() == 0 {
        s
    } else {
        let s1 = appended_new(s, ids.drop_last());
        if s1.contains(ids.last()) {
            s1
        } else {
            s1.push(ids.last())
        }
    }
}

proof fn lemma_first_index<T>(s: Seq<T>, x: T)
    ensures
        0 <= first_index(s, x) <= s.len(),
        forall|j: int| 0 <= j < first_index(s, x) ==> s[j] != x,
        s.contains(x) ==> first_index(s, x) < s.len() && s[first_index(s, x)] == x,
        !s.contains(x) ==> first_index(s, x) == s.len(),
    decreases s.len(),
{
    if s.len() > 0 && s[0] != x {
        lemma_first_index(s.drop_first(), x);
        assert forall|j: int| 0 <= j < first_index(s, x) implies s[j] != x by {
            if j > 0 {
                assert(s[j] == s.drop_first()[j - 1]);
            }
        }
        if s.contains(x) {
            let w = choose|w: int| 0 <= w < s.len() && s[w] == x;
            assert(s.drop_first()[w - 1] == x);
        }
        if !s.contains(x) {
            assert forall|w: int| 0 <= w < s.drop_first().len() implies s.drop_first()[w] != x by {
                assert(s[w + 1] == s.drop_first()[w]);
            }
        }
    }
}

/// Finds the position of the first element equal to `x`.
fn find_entity(v: &Vec<EntityId>, x: EntityId) -> (r: Option<usize>)
    ensures
        match r {
            Some(i) => v@.contains(x) && i < v@.len() && i as int == first_index(v@, x),
            None => !v@.contains(x),
        },
{
    proof {
        lemma_first_index(v@, x);
    }
    let mut k: usize = 0;
    while k < v.len()
        invariant
            0 <= k <= v@.len(),
            forall|j: int| 0 <= j < k ==> v@[j] != x,
            0 <= first_index(v@, x) <= v@.len(),
            v@.contains(x) ==> first_index(v@, x) < v@.len() && v@[first_index(v@, x)] == x,
            !v@.contains(x) ==> first_index(v@, x) == v@.len(),
            forall|j: int| 0 <= j < first_index(v@, x) ==> v@[j] != x,
        decreases v@.len() - k,
    {
        if v[k] == x {
            return Some(k);
        }
        k += 1;
    }
    None
}

/// Finds the position of the first element equal to `x`.
fn find_glyph(v: &Vec<GlyphId>, x: GlyphId) -> (r: Option<usize>)
    ensures
        match r {
            Some(i) => v@.contains(x) && i < v@.len() && i as int == first_index(v@, x),
            None => !v@.contains(x),
        },
{
    proof {
        lemma_first_index(v@, x);
    }
    let mut k: usize = 0;
    while k < v.len()
        invariant
            0 <= k <= v@.len(),
            forall|j: int| 0 <= j < k ==> v@[j] != x,
            0 <= first_index(v@, x) <= v@.len(),
            v@.contains(x) ==> first_index(v@, x) < v@.len() && v@[first_index(v@, x)] == x,
            !v@.contains(x) ==> first_index(v@, x) == v@.len(),
            forall|j: int| 0 <= j < first_index(v@, x) ==> v@[j] != x,
        decreases v@.len() - k,
    {
        if v[k] == x {
            return Some(k);
        }
        k += 1;
    }
    None
}

/// Tracks which entities and glyphs are currently selected in the editor;
/// the first of each list is the primary selection.
#[derive(Debug, Clone, Default)]
pub struct SelectionSet {
    pub entities: Vec<EntityId>,
    pub glyphs: Vec<GlyphId>,
}

impl SelectionSet {
    pub fn new() -> (r: Self)
        ensures
            r.entities@ == Seq::<EntityId>::empty(),
            r.glyphs@ == Seq::<GlyphId>::empty(),
    {
        SelectionSet { entities: Vec::new(), glyphs: Vec::new() }
    }

    pub fn is_empty(&self) -> (r: bool)
        ensures
            r == (self.entities@.len() == 0 && self.glyphs@.len() == 0),
    {
        self.entities.len() == 0 && self.glyphs.len() == 0
    }

    pub fn clear(&mut self)
        ensures
            final(self).entities@ == Seq::<EntityId>::empty(),
            final(self).glyphs@ == Seq::<GlyphId>::empty(),
    {
        self.entities.clear();
        self.glyphs.clear();
    }

    /// Selects a single entity, replacing the current selection.
    pub fn select_entity(&mut self, id: EntityId)
        ensures
            final(self).entities@ == seq![id],
            final(self).glyphs@ == Seq::<GlyphId>::empty(),
    {
        self.clear();
        self.entities.push(id);
    }

    /// Toggles an entity in or out of the selection (Ctrl+click).
    pub fn toggle_entity(&mut self, id: EntityId)
        ensures
            final(self).entities@ == toggled(old(self).entities@, id),
            final(self).glyphs@ == old(self).glyphs@,
    {
        match find_entity(&self.entities, id) {
            Some(pos) => {
                self.entities.remove(pos);
            },
            None => {
                self.entities.push(id);
            },
        }
    }

    /// Adds a range of entities (Shift+click), skipping those already selected.
    pub fn add_entity_range(&mut self, ids: &[EntityId])
        ensures
            final(self).entities@ == appended_new(old(self).entities@, ids@),
            final(self).glyphs@ == old(self).glyphs@,
    {
        let mut k: usize = 0;
        while k < ids.len()
            invariant
                0 <= k <= ids@.len(),
                self.entities@ == appended_new(old(self).entities@, ids@.take(k as int)),
                self.glyphs@ == old(self).glyphs@,
            decreases ids@.len() - k,
        {
            let id = ids[k];
            proof {
                assert(ids@.take(k + 1).drop_last() == ids@.take(k as int));
                assert(ids@.take(k + 1).last() == id);
            }
            if find_entity(&self.entities, id).is_none() {
                self.entities.push(id);
            }
            k += 1;
        }
        assert(ids@.take(ids@.len() as int) == ids@);
    }

    /// Selects a single glyph, replacing the current selection.
    pub fn select_glyph(&mut self, id: GlyphId)
        ensures
            final(self).glyphs@ == seq![id],
            final(self).entities@ == Seq::<EntityId>::empty(),
    {
        self.clear();
        self.glyphs.push(id);
    }

    /// Toggles a glyph in or out of the selection.
    pub fn toggle_glyph(&mut self, id: GlyphId)
        ensures
            final(self).glyphs@ == toggled(old(self).glyphs@, id),
            final(self).entities@ == old(self).entities@,
    {
        match find_glyph(&self.glyphs, id) {
            Some(pos) => {
                self.glyphs.remove(pos);
            },
            None => {
                self.glyphs.push(id);
            },
        }
    }

    /// The primary selected entity (the first one), if any.
    pub fn primary_entity(&self) -> (r: Option<EntityId>)
        ensures
            r == (if self.entities@.len() > 0 {
                Some(self.entities@[0])
            } else {
                None
            }),
    {
        if self.entities.len() > 0 {
            Some(self.entities[0])
        } else {
            None
        }
    }

    /// The primary selected glyph (the first one), if any.
    pub fn primary_glyph(&self) -> (r: Option<GlyphId>)
        ensures
            r == (if self.glyphs@.len() > 0 {
                Some(self.glyphs@[0])
            } else {
                None
            }),
    {
        if self.glyphs.len() > 0 {
            Some(self.glyphs[0])
        } else {
            None
        }
    }

    /// Total number of selected items.
    pub fn count(&self) -> (r: usize)
        requires
            self.entities@.len() + self.glyphs@.len() <= usize::MAX,
        ensures
            r == self.entities@.len() + self.glyphs@.len(),
    {
        self.entities.len() + self.glyphs.len()
    }
}

/// Toggling an item that is not selected and then toggling it again
/// restores the selection exactly.
pub proof fn lemma_toggle_twice_restores<T>(s: Seq<T>, x: T)
    requires
        !s.contains(x),
    ensures
        toggled(toggled(s, x), x) == s,
{
    let t = s.push(x);
    assert(t.contains(x)) by {
        assert(t[s.len() as int] == x);
    }
    lemma_first_index(t, x);
    lemma_first_index(s, x);
    if first_index(t, x) < s.len() {
        assert(t[first_index(t, x)] == s[first_index(t, x)]);
    }
    assert(first_index(t, x) == s.len());
    assert(t.remove(s.len() as int) =~= s);
}

/// In a selection without duplicates, toggling flips membership and keeps
/// the selection free of duplicates.
pub proof fn lemma_toggle_flips_membership<T>(s: Seq<T>, x: T)
    requires
        s.no_duplicates(),
    ensures
        toggled(s, x).contains(x) == !s.contains(x),
        toggled(s, x).no_duplicates(),
{
    lemma_first_index(s, x);
    if s.contains(x) {
        let i = first_index(s, x);
        let r = s.remove(i);
        assert forall|j: int| 0 <= j < r.len() implies r[j] != x by {
            if j < i {
                assert(r[j] == s[j]);
            } else {
                assert(r[j] == s[j + 1]);
            }
        }
        assert forall|a: int, b: int| 0 <= a < r.len() && 0 <= b < r.len() && a != b implies r[a] != r[b] by {
            let sa = if a < i { a } else { a + 1 };
            let sb = if b < i { b } else { b + 1 };
            assert(r[a] == s[sa] && r[b] == s[sb]);
        }
    } else {
        let r = s.push(x);
        assert(r[s.len() as int] == x);
        assert forall|a: int, b: int| 0 <= a < r.len() && 0 <= b < r.len() && a != b implies r[a] != r[b] by {
            if a < s.len() && b < s.len() {
                assert(r[a] == s[a] && r[b] == s[b]);
            } else if a < s.len() {
                assert(r[a] == s[a]);
            } else if b < s.len() {
                assert(r[b] == s[b]);
            }
        }
    }
}

} // verus!
