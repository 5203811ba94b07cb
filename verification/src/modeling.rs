//! Modeling editor logic: brush and symmetry vocabulary, index selection
//! with named sets, mesh topology, curve indexing and character bitmaps.

use crate::mesh::is_near;
use std::collections::HashSet;
use vstd::prelude::*;
use vstd::std_specs::iter::IteratorSpec;

verus! {

broadcast use vstd::std_specs::hash::group_hash_axioms;

/// A copy of an index set (the set type offers no verified `clone`).
fn copy_index_set(s: &HashSet<usize>) -> (r: HashSet<usize>)
    ensures
        r@ == s@,
{
    let mut out: HashSet<usize> = HashSet::new();
    let ghost keys = vstd::std_specs::hash::spec_hash_keys_iter(s).remaining().unref();
    for x in it: s.iter()
        invariant
            keys.to_set() == s@,
            it.seq().unref() == keys,
            out@ == keys.take(it.index()).to_set(),
            it.index() == keys.len() ==> out@ == s@,
    {
        proof {
            assert(*x == keys[it.index()]);
            assert(keys.take(it.index() + 1) == keys.take(it.index()).push(*x));
        }
        out.insert(*x);
        proof {
            keys.take(it.index()).lemma_push_to_set_commute(*x);
            assert(it.index() + 1 == keys.len() ==> keys.take(it.index() + 1) == keys);
        }
    }
    out
}


/// The indices below `n`.
pub open spec fn indices_below(n: usize) -> Set<usize> {
    Set::new(|i: usize| i < n)
}

/// The indices `i` at which `flags[i]` holds.
pub open spec fn flagged_indices(flags: Seq<bool>) -> Set<usize> {
    Set::new(|i: usize| i < flags.len() && flags[i as int])
}

/// The particles of `0..n` near some particle of `sel` (`near[s * n + i]`).
pub open spec fn near_some(sel: Set<usize>, near: Seq<bool>, n: int) -> Set<usize> {
    Set::new(|i: usize| i < n && exists|s: usize| sel.contains(s) && #[trigger] is_near(near, n, s as int, i as int))
}

/// The particles of `sel` near some particle of `0..n` outside it: the
/// boundary of the selection.
pub open spec fn selection_boundary(sel: Set<usize>, near: Seq<bool>, n: int) -> Set<usize> {
    sel.filter(|s: usize| exists|i: usize| i < n && !sel.contains(i) && #[trigger] is_near(near, n, s as int, i as int))
}

/// The indices whose entry in `keys` equals `key`.
pub open spec fn indices_matching<T>(keys: Seq<T>, key: T) -> Set<usize> {
    Set::new(|i: usize| i < keys.len() && keys[i as int] == key)
}

/// Whether `i` is the first position of `sets` whose name is `name`.
pub open spec fn is_first_named(sets: Seq<(String, HashSet<usize>)>, name: Seq<char>, i: int) -> bool {
    &&& 0 <= i < sets.len()
    &&& sets[i].0@ == name
    &&& forall|j: int| 0 <= j < i ==> sets[j].0@ != name
}

/// Whether some entry of `sets` is named `name`.
pub open spec fn has_name(sets: Seq<(String, HashSet<usize>)>, name: Seq<char>) -> bool {
    exists|i: int| 0 <= i < sets.len() && #[trigger] sets[i].0@ == name
}

/// The first position of `sets` whose name is `name` (meaningful when `has_name`).
pub open spec fn first_named(sets: Seq<(String, HashSet<usize>)>, name: Seq<char>) -> int {
    choose|i: int| is_first_named(sets, name, i)
}

/// The named sets as a map from name to index set; a name stored twice
/// resolves to its first entry.
pub open spec fn named_map(sets: Seq<(String, HashSet<usize>)>) -> Map<Seq<char>, Set<usize>> {
    Map::new(|n: Seq<char>| has_name(sets, n), |n: Seq<char>| sets[first_named(sets, n)].1@)
}

proof fn lemma_first_named(sets: Seq<(String, HashSet<usize>)>, name: Seq<char>, k: int)
    requires
        0 <= k < sets.len(),
        sets[k].0@ == name,
    ensures
        is_first_named(sets, name, first_named(sets, name)),
    decreases k,
{
    if exists|j: int| 0 <= j < k && #[trigger] sets[j].0@ == name {
        let j = choose|j: int| 0 <= j < k && #[trigger] sets[j].0@ == name;
        lemma_first_named(sets, name, j);
    } else {
        assert(is_first_named(sets, name, k));
    }
}

proof fn lemma_first_named_unique(sets: Seq<(String, HashSet<usize>)>, name: Seq<char>, k: int)
    requires
        is_first_named(sets, name, k),
    ensures
        first_named(sets, name) == k,
{
    lemma_first_named(sets, name, k);
    let f = first_named(sets, name);
    if f < k {
        assert(sets[f].0@ == name);
    } else if k < f {
        assert(sets[k].0@ == name);
    }
}

proof fn lemma_named_map_store(
    old_sets: Seq<(String, HashSet<usize>)>,
    new_sets: Seq<(String, HashSet<usize>)>,
    k: int,
    name: Seq<char>,
    val: Set<usize>,
)
    requires
        0 <= k < new_sets.len(),
        new_sets[k].0@ == name,
        new_sets[k].1@ == val,
        (k == old_sets.len() && new_sets.len() == old_sets.len() + 1 && !has_name(old_sets, name))
            || (new_sets.len() == old_sets.len() && is_first_named(old_sets, name, k)),
        forall|j: int| 0 <= j < old_sets.len() && j != k ==> new_sets[j] == old_sets[j],
    ensures
        named_map(new_sets) == named_map(old_sets).insert(name, val),
{
    assert(is_first_named(new_sets, name, k));
    lemma_first_named_unique(new_sets, name, k);
    assert forall|n: Seq<char>| n != name && has_name(old_sets, n) implies has_name(new_sets, n)
        && first_named(new_sets, n) == first_named(old_sets, n)
        && new_sets[first_named(new_sets, n)].1@ == old_sets[first_named(old_sets, n)].1@ by {
        let w = choose|i: int| 0 <= i < old_sets.len() && #[trigger] old_sets[i].0@ == n;
        lemma_first_named(old_sets, n, w);
        let f = first_named(old_sets, n);
        assert(f != k);
        assert(new_sets[f] == old_sets[f]);
        assert(is_first_named(new_sets, n, f));
        lemma_first_named_unique(new_sets, n, f);
    }
    assert forall|n: Seq<char>| has_name(new_sets, n) implies n == name || has_name(old_sets, n) by {
        let w = choose|i: int| 0 <= i < new_sets.len() && #[trigger] new_sets[i].0@ == n;
        if w != k {
            assert(old_sets[w].0@ == n);
        }
    }
    assert(named_map(new_sets) =~= named_map(old_sets).insert(name, val));
}

/// Inverting a selection twice over the same range gives it back, when it
/// lies within that range.
pub proof fn lemma_invert_twice(selected: Set<usize>, total: usize)
    requires
        selected.subset_of(indices_below(total)),
    ensures
        indices_below(total).difference(indices_below(total).difference(selected)) == selected,
{
    assert(indices_below(total).difference(indices_below(total).difference(selected)) =~= selected);
}

/// Loading a name right after saving the selection under it gives that
/// selection back, whatever was stored under the name before.
pub proof fn lemma_save_then_load(named: Map<Seq<char>, Set<usize>>, name: Seq<char>, selected: Set<usize>)
    ensures
        named.insert(name, selected).contains_key(name),
        named.insert(name, selected)[name] == selected,
{
}

/// Index selection over a model's particles, with named selections that can
/// be stored, recalled and merged.
pub struct SelectionSystem {
    pub selected: HashSet<usize>,
    pub named_sets: Vec<(String, HashSet<usize>)>,
}

impl SelectionSystem {
    /// The stored selections by name.
    pub open spec fn named(&self) -> Map<Seq<char>, Set<usize>> {
        named_map(self.named_sets@)
    }

    pub fn new() -> (r: Self)
        ensures
            r.selected@ == Set::<usize>::empty(),
            r.named() == Map::<Seq<char>, Set<usize>>::empty(),
    {
        let r = SelectionSystem { selected: HashSet::new(), named_sets: Vec::new() };
        assert(r.named() =~= Map::<Seq<char>, Set<usize>>::empty());
        r
    }

    pub fn clear(&mut self)
        ensures
            final(self).selected@ == Set::<usize>::empty(),
            final(self).named() == old(self).named(),
    {
        self.selected.clear();
    }

    pub fn select_all(&mut self, count: usize)
        ensures
            final(self).selected@ == indices_below(count),
            final(self).named() == old(self).named(),
    {
        let mut all: HashSet<usize> = HashSet::new();
        for i in 0..count
            invariant
                all@ == indices_below(i),
        {
            all.insert(i);
            assert(all@ =~= indices_below((i + 1) as usize));
        }
        assert(all@ =~= indices_below(count));
        self.selected = all;
    }

    pub fn invert(&mut self, total: usize)
        ensures
            final(self).selected@ == indices_below(total).difference(old(self).selected@),
            final(self).named() == old(self).named(),
    {
        let mut inv: HashSet<usize> = HashSet::new();
        for i in 0..total
            invariant
                inv@ == indices_below(i).difference(self.selected@),
        {
            if !self.selected.contains(&i) {
                inv.insert(i);
            }
            assert(inv@ =~= indices_below((i + 1) as usize).difference(self.selected@));
        }
        assert(inv@ =~= indices_below(total).difference(self.selected@));
        self.selected = inv;
    }

    pub fn add(&mut self, idx: usize)
        ensures
            final(self).selected@ == old(self).selected@.insert(idx),
            final(self).named() == old(self).named(),
    {
        self.selected.insert(idx);
    }

    pub fn remove(&mut self, idx: usize)
        ensures
            final(self).selected@ == old(self).selected@.remove(idx),
            final(self).named() == old(self).named(),
    {
        self.selected.remove(&idx);
    }

    pub fn toggle(&mut self, idx: usize)
        ensures
            final(self).selected@ == (if old(self).selected@.contains(idx) {
                old(self).selected@.remove(idx)
            } else {
                old(self).selected@.insert(idx)
            }),
            final(self).named() == old(self).named(),
    {
        if self.selected.contains(&idx) {
            self.selected.remove(&idx);
        } else {
            self.selected.insert(idx);
        }
    }

    /// The position of the first stored selection named `name`.
    fn find_named(&self, name: &String) -> (r: Option<usize>)
        ensures
            match r {
                Some(i) => is_first_named(self.named_sets@, name@, i as int),
                None => !has_name(self.named_sets@, name@),
            },
    {
        let mut i: usize = 0;
        while i < self.named_sets.len()
            invariant
                i <= self.named_sets.len(),
                forall|j: int| 0 <= j < i ==> self.named_sets@[j].0@ != name@,
            decreases self.named_sets.len() - i,
        {
            if self.named_sets[i].0.eq(name) {
                return Some(i);
            }
            i += 1;
        }
        None
    }

    /// Stores a copy of the current selection under `name`, replacing any
    /// selection stored under that name.
    pub fn save_named_set(&mut self, name: &str)
        ensures
            final(self).selected@ == old(self).selected@,
            final(self).named() == old(self).named().insert(name@, old(self).selected@),
    {
        let key = name.to_owned();
        let copy = copy_index_set(&self.selected);
        let ghost old_sets = self.named_sets@;
        match self.find_named(&key) {
            Some(k) => {
                self.named_sets.set(k, (key, copy));
                proof {
                    lemma_named_map_store(old_sets, self.named_sets@, k as int, name@, self.selected@);
                }
            },
            None => {
                self.named_sets.push((key, copy));
                proof {
                    lemma_named_map_store(old_sets, self.named_sets@, old_sets.len() as int, name@, self.selected@);
                }
            },
        }
    }

    /// Replaces the current selection by the one stored under `name`, if any.
    pub fn load_named_set(&mut self, name: &str)
        ensures
            final(self).named() == old(self).named(),
            final(self).selected@ == (if old(self).named().contains_key(name@) {
                old(self).named()[name@]
            } else {
                old(self).selected@
            }),
    {
        let key = name.to_owned();
        match self.find_named(&key) {
            Some(k) => {
                proof {
                    lemma_first_named_unique(self.named_sets@, name@, k as int);
                }
                self.selected = copy_index_set(&self.named_sets[k].1);
            },
            None => {},
        }
    }

    /// Adds to the current selection every index stored under `name`, if any.
    pub fn union_named_set(&mut self, name: &str)
        ensures
            final(self).named() == old(self).named(),
            final(self).selected@ == (if old(self).named().contains_key(name@) {
                old(self).selected@.union(old(self).named()[name@])
            } else {
                old(self).selected@
            }),
    {
        let key = name.to_owned();
        match self.find_named(&key) {
            Some(k) => {
                proof {
                    lemma_first_named_unique(self.named_sets@, name@, k as int);
                }
                let ghost start = self.selected@;
                let ghost sets = self.named_sets@;
                let stored = &self.named_sets[k].1;
                let mut merged = copy_index_set(&self.selected);
                let ghost keys = vstd::std_specs::hash::spec_hash_keys_iter(stored).remaining().unref();
                for x in it: stored.iter()
                    invariant
                        keys.to_set() == stored@,
                        it.seq().unref() == keys,
                        merged@ == start.union(keys.take(it.index()).to_set()),
                        it.index() == keys.len() ==> merged@ == start.union(stored@),
                {
                    proof {
                        assert(keys.take(it.index() + 1) == keys.take(it.index()).push(*x));
                        keys.take(it.index()).lemma_push_to_set_commute(*x);
                    }
                    merged.insert(*x);
                    proof {
                        assert(merged@ =~= start.union(keys.take(it.index() + 1).to_set()));
                        assert(it.index() + 1 == keys.len() ==> keys.take(it.index() + 1) == keys);
                    }
                }
                self.selected = merged;
            },
            None => {},
        }
    }

    /// Adds every particle of `0..n` that is near a selected particle
    /// (`near` as for the proximity graph, read as `near[s * n + i]`).
    pub fn grow(&mut self, n: usize, near: &[bool])
        requires
            near@.len() == n * n,
            (exists|j: usize| j < n && !old(self).selected@.contains(j)) ==> forall|s: usize|
                #[trigger] old(self).selected@.contains(s) ==> s < n,
        ensures
            final(self).named() == old(self).named(),
            final(self).selected@ == old(self).selected@.union(near_some(old(self).selected@, near@, n as int)),
    {
        let total = near.len();
        let orig = copy_index_set(&self.selected);
        let ghost base = self.selected@;
        for i in 0..n
            invariant
                near@.len() == n * n,
                total == n * n,
                orig@ == base,
                (exists|j: usize| j < n && !base.contains(j)) ==> forall|s: usize|
                    #[trigger] base.contains(s) ==> s < n,
                self.named() == old(self).named(),
                self.selected@ == base.union(near_some(base, near@, n as int).filter(|k: usize| k < i)),
        {
            if !orig.contains(&i) {
                assert(i < n && !base.contains(i));
                let mut found = false;
                for s in 0..n
                    invariant
                        near@.len() == n * n,
                        total == n * n,
                        i < n,
                        orig@ == base,
                        found == exists|s2: usize| s2 < s && base.contains(s2) && #[trigger] is_near(near@, n as int, s2 as int, i as int),
                {
                    assert(s * n + i < n * n) by (nonlinear_arith)
                        requires
                            s < n,
                            i < n,
                    ;
                    let ghost was = found;
                    if !found && orig.contains(&s) && near[s * n + i] {
                        found = true;
                    }
                    proof {
                        let hit = base.contains(s) && is_near(near@, n as int, s as int, i as int);
                        if hit {
                            assert(s < s + 1 && base.contains(s) && is_near(near@, n as int, s as int, i as int));
                        }
                        if exists|s2: usize| s2 < s + 1 && base.contains(s2) && #[trigger] is_near(near@, n as int, s2 as int, i as int) {
                            let s2 = choose|s2: usize| s2 < s + 1 && base.contains(s2) && #[trigger] is_near(near@, n as int, s2 as int, i as int);
                            if s2 < s {
                                assert(was);
                            }
                        }
                        if was {
                            let s2 = choose|s2: usize| s2 < s && base.contains(s2) && #[trigger] is_near(near@, n as int, s2 as int, i as int);
                            assert(s2 < s + 1);
                        }
                    }
                }
                if found {
                    self.selected.insert(i);
                }
                proof {
                    assert(found == exists|s2: usize| base.contains(s2) && #[trigger] is_near(near@, n as int, s2 as int, i as int));
                }
            }
            assert(self.selected@ =~= base.union(near_some(base, near@, n as int).filter(|k: usize| k < i + 1)));
        }
        assert(near_some(base, near@, n as int).filter(|k: usize| k < n) =~= near_some(base, near@, n as int));
    }

    /// Removes every selected particle that is near an unselected particle
    /// of `0..n` (`near` read as `near[s * n + i]`).
    pub fn shrink(&mut self, n: usize, near: &[bool])
        requires
            near@.len() == n * n,
            (exists|j: usize| j < n && !old(self).selected@.contains(j)) ==> forall|s: usize|
                #[trigger] old(self).selected@.contains(s) ==> s < n,
        ensures
            final(self).named() == old(self).named(),
            final(self).selected@ == old(self).selected@.difference(selection_boundary(old(self).selected@, near@, n as int)),
    {
        let total = near.len();
        let orig = copy_index_set(&self.selected);
        let ghost base = self.selected@;
        for s in 0..n
            invariant
                near@.len() == n * n,
                total == n * n,
                orig@ == base,
                (exists|j: usize| j < n && !base.contains(j)) ==> forall|x: usize|
                    #[trigger] base.contains(x) ==> x < n,
                self.named() == old(self).named(),
                self.selected@ == base.difference(selection_boundary(base, near@, n as int).filter(|k: usize| k < s)),
        {
            if orig.contains(&s) {
                let mut edge = false;
                for i in 0..n
                    invariant
                        near@.len() == n * n,
                        total == n * n,
                        s < n,
                        orig@ == base,
                        edge == exists|i2: usize| i2 < i && !base.contains(i2) && #[trigger] is_near(near@, n as int, s as int, i2 as int),
                {
                    assert(s * n + i < n * n) by (nonlinear_arith)
                        requires
                            s < n,
                            i < n,
                    ;
                    let ghost was = edge;
                    if !edge && !orig.contains(&i) && near[s * n + i] {
                        edge = true;
                    }
                    proof {
                        let hit = !base.contains(i) && is_near(near@, n as int, s as int, i as int);
                        if hit {
                            assert(i < i + 1 && !base.contains(i) && is_near(near@, n as int, s as int, i as int));
                        }
                        if exists|i2: usize| i2 < i + 1 && !base.contains(i2) && #[trigger] is_near(near@, n as int, s as int, i2 as int) {
                            let i2 = choose|i2: usize| i2 < i + 1 && !base.contains(i2) && #[trigger] is_near(near@, n as int, s as int, i2 as int);
                            if i2 < i {
                                assert(was);
                            }
                        }
                        if was {
                            let i2 = choose|i2: usize| i2 < i && !base.contains(i2) && #[trigger] is_near(near@, n as int, s as int, i2 as int);
                            assert(i2 < i + 1);
                        }
                    }
                }
                if edge {
                    self.selected.remove(&s);
                }
            }
            assert(self.selected@ =~= base.difference(selection_boundary(base, near@, n as int).filter(|k: usize| k < s + 1)));
        }
        assert(selection_boundary(base, near@, n as int).filter(|k: usize| k < n) =~= selection_boundary(base, near@, n as int));
    }

    /// Makes the selection the flagged indices, or adds them to it when `add`.
    pub fn apply_hits(&mut self, hits: &[bool], add: bool)
        ensures
            final(self).named() == old(self).named(),
            final(self).selected@ == (if add { old(self).selected@ } else { Set::<usize>::empty() })
                .union(flagged_indices(hits@)),
    {
        if !add {
            self.selected.clear();
        }
        let ghost base = self.selected@;
        for i in 0..hits.len()
            invariant
                self.selected@ == base.union(flagged_indices(hits@.take(i as int))),
                self.named() == old(self).named(),
        {
            if hits[i] {
                self.selected.insert(i);
            }
            assert(self.selected@ =~= base.union(flagged_indices(hits@.take(i + 1))));
        }
        assert(hits@.take(hits@.len() as int) =~= hits@);
    }

    /// Selects the particles whose group is `group_id` (`groups[i]` is the
    /// group of particle `i`), replacing the selection unless `add`.
    pub fn select_by_group(&mut self, groups: &[u32], group_id: u32, add: bool)
        ensures
            final(self).named() == old(self).named(),
            final(self).selected@ == (if add { old(self).selected@ } else { Set::<usize>::empty() })
                .union(indices_matching(groups@, group_id)),
    {
        if !add {
            self.selected.clear();
        }
        let ghost base = self.selected@;
        for i in 0..groups.len()
            invariant
                self.selected@ == base.union(indices_matching(groups@.take(i as int), group_id)),
                self.named() == old(self).named(),
        {
            if groups[i] == group_id {
                self.selected.insert(i);
            }
            assert(self.selected@ =~= base.union(indices_matching(groups@.take(i + 1), group_id)));
        }
        assert(groups@.take(groups@.len() as int) =~= groups@);
    }

    /// Selects the particles drawn with `ch` (`chars[i]` is the glyph of
    /// particle `i`), replacing the selection unless `add`.
    pub fn select_by_char(&mut self, chars: &[char], ch: char, add: bool)
        ensures
            final(self).named() == old(self).named(),
            final(self).selected@ == (if add { old(self).selected@ } else { Set::<usize>::empty() })
                .union(indices_matching(chars@, ch)),
    {
        if !add {
            self.selected.clear();
        }
        let ghost base = self.selected@;
        for i in 0..chars.len()
            invariant
                self.selected@ == base.union(indices_matching(chars@.take(i as int), ch)),
                self.named() == old(self).named(),
        {
            if chars[i] == ch {
                self.selected.insert(i);
            }
            assert(self.selected@ =~= base.union(indices_matching(chars@.take(i + 1), ch)));
        }
        assert(chars@.take(chars@.len() as int) =~= chars@);
    }
}


// ---------------------------------------------------------------------------
// Vocabulary of the modeling tools
// ---------------------------------------------------------------------------

/// How a layer combines with the layers below it.
#[derive(Clone, Copy, Debug, PartialEq, Eq, Structural)]
pub enum LayerBlendMode {
    Replace,
    Add,
    Mask,
}

/// The sculpting brushes.
#[derive(Clone, Copy, Debug, PartialEq, Eq, Structural)]
pub enum BrushKind {
    Add,
    Remove,
    Smooth,
    Inflate,
    Pinch,
    Color,
    Char,
    Flatten,
    Crease,
    Clone,
}

impl Default for BrushKind {
    fn default() -> (r: Self)
        ensures
            r == BrushKind::Add,
    {
        BrushKind::Add
    }
}

/// Brush weight profiles over the normalized distance from the brush centre.
#[derive(Clone, Copy, Debug, PartialEq, Eq, Structural)]
pub enum FalloffCurve {
    Constant,
    Linear,
    Smooth,
    Sphere,
    Root,
    Sharp,
}

/// Shading models of particle materials.
#[derive(Clone, Copy, Debug, PartialEq, Eq, Structural)]
pub enum MaterialType {
    Flat,
    Emissive,
    Metallic,
    Subsurface,
    Toon,
    Hologram,
}

/// Interpolation curves of model keyframes.
#[derive(Clone, Copy, Debug, PartialEq, Eq, Structural)]
pub enum EasingType {
    Linear,
    EaseIn,
    EaseOut,
    EaseInOut,
    Bounce,
    Elastic,
}

/// Boolean operations between particle models.
#[derive(Clone, Copy, Debug, PartialEq, Eq, Structural)]
pub enum CsgOperation {
    Union,
    Subtract,
    Intersect,
    Difference,
}

/// How a decal's colour combines with the surface below.
#[derive(Clone, Copy, Debug, PartialEq, Eq, Structural)]
pub enum DecalBlend {
    Replace,
    Multiply,
    Add,
    Screen,
    Overlay,
}

// ---------------------------------------------------------------------------
// Symmetry
// ---------------------------------------------------------------------------

/// Mirror planes applied while sculpting; `Off` mirrors nothing.
#[derive(Clone, Copy, Debug, PartialEq, Eq, Structural)]
pub enum SymmetryMode {
    Off,
    X,
    Y,
    Z,
    XY,
    XZ,
    YZ,
    XYZ,
}

/// Which coordinates a mirror image negates.
#[derive(Clone, Copy, Debug, PartialEq, Eq, Structural)]
pub struct AxisFlip {
    pub x: bool,
    pub y: bool,
    pub z: bool,
}

impl SymmetryMode {
    /// The axes this mode mirrors across.
    pub open spec fn axes(self) -> AxisFlip {
        match self {
            SymmetryMode::Off => AxisFlip { x: false, y: false, z: false },
            SymmetryMode::X => AxisFlip { x: true, y: false, z: false },
            SymmetryMode::Y => AxisFlip { x: false, y: true, z: false },
            SymmetryMode::Z => AxisFlip { x: false, y: false, z: true },
            SymmetryMode::XY => AxisFlip { x: true, y: true, z: false },
            SymmetryMode::XZ => AxisFlip { x: true, y: false, z: true },
            SymmetryMode::YZ => AxisFlip { x: false, y: true, z: true },
            SymmetryMode::XYZ => AxisFlip { x: true, y: true, z: true },
        }
    }

    /// The flips of the mirror images of a point, in the order the images are
    /// produced: single axes first (x, y, z), then pairs (xy, xz, yz), then all three.
    pub open spec fn spec_mirror_flips(self) -> Seq<AxisFlip> {
        let fx = AxisFlip { x: true, y: false, z: false };
        let fy = AxisFlip { x: false, y: true, z: false };
        let fz = AxisFlip { x: false, y: false, z: true };
        let fxy = AxisFlip { x: true, y: true, z: false };
        let fxz = AxisFlip { x: true, y: false, z: true };
        let fyz = AxisFlip { x: false, y: true, z: true };
        let fxyz = AxisFlip { x: true, y: true, z: true };
        match self {
            SymmetryMode::Off => seq![],
            SymmetryMode::X => seq![fx],
            SymmetryMode::Y => seq![fy],
            SymmetryMode::Z => seq![fz],
            SymmetryMode::XY => seq![fx, fy, fxy],
            SymmetryMode::XZ => seq![fx, fz, fxz],
            SymmetryMode::YZ => seq![fy, fz, fyz],
            SymmetryMode::XYZ => seq![fx, fy, fz, fxy, fxz, fyz, fxyz],
        }
    }

    /// The sign flips that produce the mirror images of a point: every
    /// non-empty combination of this mode's axes, each once.
    pub fn mirror_flips(&self) -> (r: Vec<AxisFlip>)
        ensures
            r@ == self.spec_mirror_flips(),
            r@.no_duplicates(),
            forall|f: AxisFlip| #[trigger] r@.contains(f) <==> flip_within(f, self.axes()) && (f.x || f.y || f.z),
    {
        let fx = AxisFlip { x: true, y: false, z: false };
        let fy = AxisFlip { x: false, y: true, z: false };
        let fz = AxisFlip { x: false, y: false, z: true };
        let fxy = AxisFlip { x: true, y: true, z: false };
        let fxz = AxisFlip { x: true, y: false, z: true };
        let fyz = AxisFlip { x: false, y: true, z: true };
        let fxyz = AxisFlip { x: true, y: true, z: true };
        let r = match self {
            SymmetryMode::Off => vec![],
            SymmetryMode::X => vec![fx],
            SymmetryMode::Y => vec![fy],
            SymmetryMode::Z => vec![fz],
            SymmetryMode::XY => vec![fx, fy, fxy],
            SymmetryMode::XZ => vec![fx, fz, fxz],
            SymmetryMode::YZ => vec![fy, fz, fyz],
            SymmetryMode::XYZ => vec![fx, fy, fz, fxy, fxz, fyz, fxyz],
        };
        proof {
            assert(r@ =~= self.spec_mirror_flips());

        }
        r
    }
}

/// Whether flip `f` only negates axes that `axes` allows.
pub open spec fn flip_within(f: AxisFlip, axes: AxisFlip) -> bool {
    (f.x ==> axes.x) && (f.y ==> axes.y) && (f.z ==> axes.z)
}

// ---------------------------------------------------------------------------
// Glyph bitmaps
// ---------------------------------------------------------------------------

/// The 5x7 bitmap of a glyph, top row first; bit 4 of a row is its leftmost
/// column. Characters outside the font draw as a hollow box.
pub open spec fn glyph_rows(ch: char) -> Seq<u8> {
    match ch {
        'A' => seq![0b01110, 0b10001, 0b10001, 0b11111, 0b10001, 0b10001, 0b10001],
        'B' => seq![0b11110, 0b10001, 0b10001, 0b11110, 0b10001, 0b10001, 0b11110],
        'C' => seq![0b01110, 0b10001, 0b10000, 0b10000, 0b10000, 0b10001, 0b01110],
        'D' => seq![0b11100, 0b10010, 0b10001, 0b10001, 0b10001, 0b10010, 0b11100],
        'E' => seq![0b11111, 0b10000, 0b10000, 0b11110, 0b10000, 0b10000, 0b11111],
        'F' => seq![0b11111, 0b10000, 0b10000, 0b11110, 0b10000, 0b10000, 0b10000],
        'G' => seq![0b01110, 0b10001, 0b10000, 0b10111, 0b10001, 0b10001, 0b01111],
        'H' => seq![0b10001, 0b10001, 0b10001, 0b11111, 0b10001, 0b10001, 0b10001],
        'I' => seq![0b11111, 0b00100, 0b00100, 0b00100, 0b00100, 0b00100, 0b11111],
        'J' => seq![0b11111, 0b00001, 0b00001, 0b00001, 0b10001, 0b10001, 0b01110],
        'K' => seq![0b10001, 0b10010, 0b10100, 0b11000, 0b10100, 0b10010, 0b10001],
        'L' => seq![0b10000, 0b10000, 0b10000, 0b10000, 0b10000, 0b10000, 0b11111],
        'M' => seq![0b10001, 0b11011, 0b10101, 0b10001, 0b10001, 0b10001, 0b10001],
        'N' => seq![0b10001, 0b11001, 0b10101, 0b10011, 0b10001, 0b10001, 0b10001],
        'O' => seq![0b01110, 0b10001, 0b10001, 0b10001, 0b10001, 0b10001, 0b01110],
        'P' => seq![0b11110, 0b10001, 0b10001, 0b11110, 0b10000, 0b10000, 0b10000],
        'Q' => seq![0b01110, 0b10001, 0b10001, 0b10001, 0b10101, 0b10010, 0b01101],
        'R' => seq![0b11110, 0b10001, 0b10001, 0b11110, 0b10100, 0b10010, 0b10001],
        'S' => seq![0b01111, 0b10000, 0b10000, 0b01110, 0b00001, 0b00001, 0b11110],
        'T' => seq![0b11111, 0b00100, 0b00100, 0b00100, 0b00100, 0b00100, 0b00100],
        'U' => seq![0b10001, 0b10001, 0b10001, 0b10001, 0b10001, 0b10001, 0b01110],
        'V' => seq![0b10001, 0b10001, 0b10001, 0b10001, 0b01010, 0b01010, 0b00100],
        'W' => seq![0b10001, 0b10001, 0b10001, 0b10101, 0b10101, 0b11011, 0b10001],
        'X' => seq![0b10001, 0b01010, 0b00100, 0b00100, 0b00100, 0b01010, 0b10001],
        'Y' => seq![0b10001, 0b10001, 0b01010, 0b00100, 0b00100, 0b00100, 0b00100],
        'Z' => seq![0b11111, 0b00001, 0b00010, 0b00100, 0b01000, 0b10000, 0b11111],
        '0' => seq![0b01110, 0b10011, 0b10101, 0b10101, 0b11001, 0b10001, 0b01110],
        '1' => seq![0b00100, 0b01100, 0b00100, 0b00100, 0b00100, 0b00100, 0b01110],
        '2' => seq![0b01110, 0b10001, 0b00001, 0b00110, 0b01000, 0b10000, 0b11111],
        '3' => seq![0b11111, 0b00001, 0b00010, 0b00110, 0b00001, 0b10001, 0b01110],
        '4' => seq![0b00010, 0b00110, 0b01010, 0b10010, 0b11111, 0b00010, 0b00010],
        '5' => seq![0b11111, 0b10000, 0b11110, 0b00001, 0b00001, 0b10001, 0b01110],
        '6' => seq![0b01110, 0b10000, 0b10000, 0b11110, 0b10001, 0b10001, 0b01110],
        '7' => seq![0b11111, 0b00001, 0b00010, 0b00100, 0b01000, 0b01000, 0b01000],
        '8' => seq![0b01110, 0b10001, 0b10001, 0b01110, 0b10001, 0b10001, 0b01110],
        '9' => seq![0b01110, 0b10001, 0b10001, 0b01111, 0b00001, 0b00001, 0b01110],
        ' ' => seq![0b00000, 0b00000, 0b00000, 0b00000, 0b00000, 0b00000, 0b00000],
        '.' => seq![0b00000, 0b00000, 0b00000, 0b00000, 0b00000, 0b01100, 0b01100],
        '!' => seq![0b00100, 0b00100, 0b00100, 0b00100, 0b00100, 0b00000, 0b00100],
        '?' => seq![0b01110, 0b10001, 0b00001, 0b00110, 0b00100, 0b00000, 0b00100],
        _ => seq![0b11111, 0b10001, 0b10001, 0b10001, 0b10001, 0b10001, 0b11111],
    }
}

/// The built-in font drawn as pictures: for each character, its seven
/// rows from top to bottom, `#` for a lit cell and `.` for a dark one.
/// Characters without a glyph of their own are drawn as a hollow box.
pub open spec fn glyph_picture(ch: char) -> Seq<Seq<char>> {
    match ch {
        'A' => seq![
            seq!['.', '#', '#', '#', '.'],
            seq!['#', '.', '.', '.', '#'],
            seq!['#', '.', '.', '.', '#'],
            seq!['#', '#', '#', '#', '#'],
            seq!['#', '.', '.', '.', '#'],
            seq!['#', '.', '.', '.', '#'],
            seq!['#', '.', '.', '.', '#'],
        ],
        'B' => seq![
            seq!['#', '#', '#', '#', '.'],
            seq!['#', '.', '.', '.', '#'],
            seq!['#', '.', '.', '.', '#'],
            seq!['#', '#', '#', '#', '.'],
            seq!['#', '.', '.', '.', '#'],
            seq!['#', '.', '.', '.', '#'],
            seq!['#', '#', '#', '#', '.'],
        ],
        'C' => seq![
            seq!['.', '#', '#', '#', '.'],
            seq!['#', '.', '.', '.', '#'],
            seq!['#', '.', '.', '.', '.'],
            seq!['#', '.', '.', '.', '.'],
            seq!['#', '.', '.', '.', '.'],
            seq!['#', '.', '.', '.', '#'],
            seq!['.', '#', '#', '#', '.'],
        ],
        'D' => seq![
            seq!['#', '#', '#', '.', '.'],
            seq!['#', '.', '.', '#', '.'],
            seq!['#', '.', '.', '.', '#'],
            seq!['#', '.', '.', '.', '#'],
            seq!['#', '.', '.', '.', '#'],
            seq!['#', '.', '.', '#', '.'],
            seq!['#', '#', '#', '.', '.'],
        ],
        'E' => seq![
            seq!['#', '#', '#', '#', '#'],
            seq!['#', '.', '.', '.', '.'],
            seq!['#', '.', '.', '.', '.'],
            seq!['#', '#', '#', '#', '.'],
            seq!['#', '.', '.', '.', '.'],
            seq!['#', '.', '.', '.', '.'],
            seq!['#', '#', '#', '#', '#'],
        ],
        'F' => seq![
            seq!['#', '#', '#', '#', '#'],
            seq!['#', '.', '.', '.', '.'],
            seq!['#', '.', '.', '.', '.'],
            seq!['#', '#', '#', '#', '.'],
            seq!['#', '.', '.', '.', '.'],
            seq!['#', '.', '.', '.', '.'],
            seq!['#', '.', '.', '.', '.'],
        ],
        'G' => seq![
            seq!['.', '#', '#', '#', '.'],
            seq!['#', '.', '.', '.', '#'],
            seq!['#', '.', '.', '.', '.'],
            seq!['#', '.', '#', '#', '#'],
            seq!['#', '.', '.', '.', '#'],
            seq!['#', '.', '.', '.', '#'],
            seq!['.', '#', '#', '#', '#'],
        ],
        'H' => seq![
            seq!['#', '.', '.', '.', '#'],
            seq!['#', '.', '.', '.', '#'],
            seq!['#', '.', '.', '.', '#'],
            seq!['#', '#', '#', '#', '#'],
            seq!['#', '.', '.', '.', '#'],
            seq!['#', '.', '.', '.', '#'],
            seq!['#', '.', '.', '.', '#'],
        ],
        'I' => seq![
            seq!['#', '#', '#', '#', '#'],
            seq!['.', '.', '#', '.', '.'],
            seq!['.', '.', '#', '.', '.'],
            seq!['.', '.', '#', '.', '.'],
            seq!['.', '.', '#', '.', '.'],
            seq!['.', '.', '#', '.', '.'],
            seq!['#', '#', '#', '#', '#'],
        ],
        'J' => seq![
            seq!['#', '#', '#', '#', '#'],
            seq!['.', '.', '.', '.', '#'],
            seq!['.', '.', '.', '.', '#'],
            seq!['.', '.', '.', '.', '#'],
            seq!['#', '.', '.', '.', '#'],
            seq!['#', '.', '.', '.', '#'],
            seq!['.', '#', '#', '#', '.'],
        ],
        'K' => seq![
            seq!['#', '.', '.', '.', '#'],
            seq!['#', '.', '.', '#', '.'],
            seq!['#', '.', '#', '.', '.'],
            seq!['#', '#', '.', '.', '.'],
            seq!['#', '.', '#', '.', '.'],
            seq!['#', '.', '.', '#', '.'],
            seq!['#', '.', '.', '.', '#'],
        ],
        'L' => seq![
            seq!['#', '.', '.', '.', '.'],
            seq!['#', '.', '.', '.', '.'],
            seq!['#', '.', '.', '.', '.'],
            seq!['#', '.', '.', '.', '.'],
            seq!['#', '.', '.', '.', '.'],
            seq!['#', '.', '.', '.', '.'],
            seq!['#', '#', '#', '#', '#'],
        ],
        'M' => seq![
            seq!['#', '.', '.', '.', '#'],
            seq!['#', '#', '.', '#', '#'],
            seq!['#', '.', '#', '.', '#'],
            seq!['#', '.', '.', '.', '#'],
            seq!['#', '.', '.', '.', '#'],
            seq!['#', '.', '.', '.', '#'],
            seq!['#', '.', '.', '.', '#'],
        ],
        'N' => seq![
            seq!['#', '.', '.', '.', '#'],
            seq!['#', '#', '.', '.', '#'],
            seq!['#', '.', '#', '.', '#'],
            seq!['#', '.', '.', '#', '#'],
            seq!['#', '.', '.', '.', '#'],
            seq!['#', '.', '.', '.', '#'],
            seq!['#', '.', '.', '.', '#'],
        ],
        'O' => seq![
            seq!['.', '#', '#', '#', '.'],
            seq!['#', '.', '.', '.', '#'],
            seq!['#', '.', '.', '.', '#'],
            seq!['#', '.', '.', '.', '#'],
            seq!['#', '.', '.', '.', '#'],
            seq!['#', '.', '.', '.', '#'],
            seq!['.', '#', '#', '#', '.'],
        ],
        'P' => seq![
            seq!['#', '#', '#', '#', '.'],
            seq!['#', '.', '.', '.', '#'],
            seq!['#', '.', '.', '.', '#'],
            seq!['#', '#', '#', '#', '.'],
            seq!['#', '.', '.', '.', '.'],
            seq!['#', '.', '.', '.', '.'],
            seq!['#', '.', '.', '.', '.'],
        ],
        'Q' => seq![
            seq!['.', '#', '#', '#', '.'],
            seq!['#', '.', '.', '.', '#'],
            seq!['#', '.', '.', '.', '#'],
            seq!['#', '.', '.', '.', '#'],
            seq!['#', '.', '#', '.', '#'],
            seq!['#', '.', '.', '#', '.'],
            seq!['.', '#', '#', '.', '#'],
        ],
        'R' => seq![
            seq!['#', '#', '#', '#', '.'],
            seq!['#', '.', '.', '.', '#'],
            seq!['#', '.', '.', '.', '#'],
            seq!['#', '#', '#', '#', '.'],
            seq!['#', '.', '#', '.', '.'],
            seq!['#', '.', '.', '#', '.'],
            seq!['#', '.', '.', '.', '#'],
        ],
        'S' => seq![
            seq!['.', '#', '#', '#', '#'],
            seq!['#', '.', '.', '.', '.'],
            seq!['#', '.', '.', '.', '.'],
            seq!['.', '#', '#', '#', '.'],
            seq!['.', '.', '.', '.', '#'],
            seq!['.', '.', '.', '.', '#'],
            seq!['#', '#', '#', '#', '.'],
        ],
        'T' => seq![
            seq!['#', '#', '#', '#', '#'],
            seq!['.', '.', '#', '.', '.'],
            seq!['.', '.', '#', '.', '.'],
            seq!['.', '.', '#', '.', '.'],
            seq!['.', '.', '#', '.', '.'],
            seq!['.', '.', '#', '.', '.'],
            seq!['.', '.', '#', '.', '.'],
        ],
        'U' => seq![
            seq!['#', '.', '.', '.', '#'],
            seq!['#', '.', '.', '.', '#'],
            seq!['#', '.', '.', '.', '#'],
            seq!['#', '.', '.', '.', '#'],
            seq!['#', '.', '.', '.', '#'],
            seq!['#', '.', '.', '.', '#'],
            seq!['.', '#', '#', '#', '.'],
        ],
        'V' => seq![
            seq!['#', '.', '.', '.', '#'],
            seq!['#', '.', '.', '.', '#'],
            seq!['#', '.', '.', '.', '#'],
            seq!['#', '.', '.', '.', '#'],
            seq!['.', '#', '.', '#', '.'],
            seq!['.', '#', '.', '#', '.'],
            seq!['.', '.', '#', '.', '.'],
        ],
        'W' => seq![
            seq!['#', '.', '.', '.', '#'],
            seq!['#', '.', '.', '.', '#'],
            seq!['#', '.', '.', '.', '#'],
            seq!['#', '.', '#', '.', '#'],
            seq!['#', '.', '#', '.', '#'],
            seq!['#', '#', '.', '#', '#'],
            seq!['#', '.', '.', '.', '#'],
        ],
        'X' => seq![
            seq!['#', '.', '.', '.', '#'],
            seq!['.', '#', '.', '#', '.'],
            seq!['.', '.', '#', '.', '.'],
            seq!['.', '.', '#', '.', '.'],
            seq!['.', '.', '#', '.', '.'],
            seq!['.', '#', '.', '#', '.'],
            seq!['#', '.', '.', '.', '#'],
        ],
        'Y' => seq![
            seq!['#', '.', '.', '.', '#'],
            seq!['#', '.', '.', '.', '#'],
            seq!['.', '#', '.', '#', '.'],
            seq!['.', '.', '#', '.', '.'],
            seq!['.', '.', '#', '.', '.'],
            seq!['.', '.', '#', '.', '.'],
            seq!['.', '.', '#', '.', '.'],
        ],
        'Z' => seq![
            seq!['#', '#', '#', '#', '#'],
            seq!['.', '.', '.', '.', '#'],
            seq!['.', '.', '.', '#', '.'],
            seq!['.', '.', '#', '.', '.'],
            seq!['.', '#', '.', '.', '.'],
            seq!['#', '.', '.', '.', '.'],
            seq!['#', '#', '#', '#', '#'],
        ],
        '0' => seq![
            seq!['.', '#', '#', '#', '.'],
            seq!['#', '.', '.', '#', '#'],
            seq!['#', '.', '#', '.', '#'],
            seq!['#', '.', '#', '.', '#'],
            seq!['#', '#', '.', '.', '#'],
            seq!['#', '.', '.', '.', '#'],
            seq!['.', '#', '#', '#', '.'],
        ],
        '1' => seq![
            seq!['.', '.', '#', '.', '.'],
            seq!['.', '#', '#', '.', '.'],
            seq!['.', '.', '#', '.', '.'],
            seq!['.', '.', '#', '.', '.'],
            seq!['.', '.', '#', '.', '.'],
            seq!['.', '.', '#', '.', '.'],
            seq!['.', '#', '#', '#', '.'],
        ],
        '2' => seq![
            seq!['.', '#', '#', '#', '.'],
            seq!['#', '.', '.', '.', '#'],
            seq!['.', '.', '.', '.', '#'],
            seq!['.', '.', '#', '#', '.'],
            seq!['.', '#', '.', '.', '.'],
            seq!['#', '.', '.', '.', '.'],
            seq!['#', '#', '#', '#', '#'],
        ],
        '3' => seq![
            seq!['#', '#', '#', '#', '#'],
            seq!['.', '.', '.', '.', '#'],
            seq!['.', '.', '.', '#', '.'],
            seq!['.', '.', '#', '#', '.'],
            seq!['.', '.', '.', '.', '#'],
            seq!['#', '.', '.', '.', '#'],
            seq!['.', '#', '#', '#', '.'],
        ],
        '4' => seq![
            seq!['.', '.', '.', '#', '.'],
            seq!['.', '.', '#', '#', '.'],
            seq!['.', '#', '.', '#', '.'],
            seq!['#', '.', '.', '#', '.'],
            seq!['#', '#', '#', '#', '#'],
            seq!['.', '.', '.', '#', '.'],
            seq!['.', '.', '.', '#', '.'],
        ],
        '5' => seq![
            seq!['#', '#', '#', '#', '#'],
            seq!['#', '.', '.', '.', '.'],
            seq!['#', '#', '#', '#', '.'],
            seq!['.', '.', '.', '.', '#'],
            seq!['.', '.', '.', '.', '#'],
            seq!['#', '.', '.', '.', '#'],
            seq!['.', '#', '#', '#', '.'],
        ],
        '6' => seq![
            seq!['.', '#', '#', '#', '.'],
            seq!['#', '.', '.', '.', '.'],
            seq!['#', '.', '.', '.', '.'],
            seq!['#', '#', '#', '#', '.'],
            seq!['#', '.', '.', '.', '#'],
            seq!['#', '.', '.', '.', '#'],
            seq!['.', '#', '#', '#', '.'],
        ],
        '7' => seq![
            seq!['#', '#', '#', '#', '#'],
            seq!['.', '.', '.', '.', '#'],
            seq!['.', '.', '.', '#', '.'],
            seq!['.', '.', '#', '.', '.'],
            seq!['.', '#', '.', '.', '.'],
            seq!['.', '#', '.', '.', '.'],
            seq!['.', '#', '.', '.', '.'],
        ],
        '8' => seq![
            seq!['.', '#', '#', '#', '.'],
            seq!['#', '.', '.', '.', '#'],
            seq!['#', '.', '.', '.', '#'],
            seq!['.', '#', '#', '#', '.'],
            seq!['#', '.', '.', '.', '#'],
            seq!['#', '.', '.', '.', '#'],
            seq!['.', '#', '#', '#', '.'],
        ],
        '9' => seq![
            seq!['.', '#', '#', '#', '.'],
            seq!['#', '.', '.', '.', '#'],
            seq!['#', '.', '.', '.', '#'],
            seq!['.', '#', '#', '#', '#'],
            seq!['.', '.', '.', '.', '#'],
            seq!['.', '.', '.', '.', '#'],
            seq!['.', '#', '#', '#', '.'],
        ],
        ' ' => seq![
            seq!['.', '.', '.', '.', '.'],
            seq!['.', '.', '.', '.', '.'],
            seq!['.', '.', '.', '.', '.'],
            seq!['.', '.', '.', '.', '.'],
            seq!['.', '.', '.', '.', '.'],
            seq!['.', '.', '.', '.', '.'],
            seq!['.', '.', '.', '.', '.'],
        ],
        '.' => seq![
            seq!['.', '.', '.', '.', '.'],
            seq!['.', '.', '.', '.', '.'],
            seq!['.', '.', '.', '.', '.'],
            seq!['.', '.', '.', '.', '.'],
            seq!['.', '.', '.', '.', '.'],
            seq!['.', '#', '#', '.', '.'],
            seq!['.', '#', '#', '.', '.'],
        ],
        '!' => seq![
            seq!['.', '.', '#', '.', '.'],
            seq!['.', '.', '#', '.', '.'],
            seq!['.', '.', '#', '.', '.'],
            seq!['.', '.', '#', '.', '.'],
            seq!['.', '.', '#', '.', '.'],
            seq!['.', '.', '.', '.', '.'],
            seq!['.', '.', '#', '.', '.'],
        ],
        '?' => seq![
            seq!['.', '#', '#', '#', '.'],
            seq!['#', '.', '.', '.', '#'],
            seq!['.', '.', '.', '.', '#'],
            seq!['.', '.', '#', '#', '.'],
            seq!['.', '.', '#', '.', '.'],
            seq!['.', '.', '.', '.', '.'],
            seq!['.', '.', '#', '.', '.'],
        ],
        _ => seq![
            seq!['#', '#', '#', '#', '#'],
            seq!['#', '.', '.', '.', '#'],
            seq!['#', '.', '.', '.', '#'],
            seq!['#', '.', '.', '.', '#'],
            seq!['#', '.', '.', '.', '#'],
            seq!['#', '.', '.', '.', '#'],
            seq!['#', '#', '#', '#', '#'],
        ],
    }
}

/// The number a picture row stands for: its five cells read as bits, the
/// leftmost the highest.
pub open spec fn picture_row_value(row: Seq<char>) -> int {
    (if row[0] == '#' { 16int } else { 0int }) + (if row[1] == '#' { 8int } else { 0int }) + (if row[2] == '#' {
        4int
    } else {
        0int
    }) + (if row[3] == '#' { 2int } else { 0int }) + (if row[4] == '#' { 1int } else { 0int })
}

/// Whether the seven rows of a bitmap are the seven rows of a picture.
pub open spec fn rows_agree(rows: Seq<u8>, pic: Seq<Seq<char>>) -> bool {
    &&& rows.len() == 7
    &&& pic.len() == 7
    &&& rows[0] as int == picture_row_value(pic[0])
    &&& rows[1] as int == picture_row_value(pic[1])
    &&& rows[2] as int == picture_row_value(pic[2])
    &&& rows[3] as int == picture_row_value(pic[3])
    &&& rows[4] as int == picture_row_value(pic[4])
    &&& rows[5] as int == picture_row_value(pic[5])
    &&& rows[6] as int == picture_row_value(pic[6])
}

/// Every character's bitmap is the font's picture of it: seven rows, each
/// row's bits lit exactly where the picture shows `#`.
pub proof fn lemma_font_is_the_picture(ch: char, r: int)
    requires
        0 <= r < 7,
    ensures
        glyph_rows(ch).len() == 7,
        glyph_rows(ch)[r] as int == picture_row_value(glyph_picture(ch)[r]),
{
    match ch {
        'A' => {
            assert(rows_agree(glyph_rows('A'), glyph_picture('A')));
        },
        'B' => {
            assert(rows_agree(glyph_rows('B'), glyph_picture('B')));
        },
        'C' => {
            assert(rows_agree(glyph_rows('C'), glyph_picture('C')));
        },
        'D' => {
            assert(rows_agree(glyph_rows('D'), glyph_picture('D')));
        },
        'E' => {
            assert(rows_agree(glyph_rows('E'), glyph_picture('E')));
        },
        'F' => {
            assert(rows_agree(glyph_rows('F'), glyph_picture('F')));
        },
        'G' => {
            assert(rows_agree(glyph_rows('G'), glyph_picture('G')));
        },
        'H' => {
            assert(rows_agree(glyph_rows('H'), glyph_picture('H')));
        },
        'I' => {
            assert(rows_agree(glyph_rows('I'), glyph_picture('I')));
        },
        'J' => {
            assert(rows_agree(glyph_rows('J'), glyph_picture('J')));
        },
        'K' => {
            assert(rows_agree(glyph_rows('K'), glyph_picture('K')));
        },
        'L' => {
            assert(rows_agree(glyph_rows('L'), glyph_picture('L')));
        },
        'M' => {
            assert(rows_agree(glyph_rows('M'), glyph_picture('M')));
        },
        'N' => {
            assert(rows_agree(glyph_rows('N'), glyph_picture('N')));
        },
        'O' => {
            assert(rows_agree(glyph_rows('O'), glyph_picture('O')));
        },
        'P' => {
            assert(rows_agree(glyph_rows('P'), glyph_picture('P')));
        },
        'Q' => {
            assert(rows_agree(glyph_rows('Q'), glyph_picture('Q')));
        },
        'R' => {
            assert(rows_agree(glyph_rows('R'), glyph_picture('R')));
        },
        'S' => {
            assert(rows_agree(glyph_rows('S'), glyph_picture('S')));
        },
        'T' => {
            assert(rows_agree(glyph_rows('T'), glyph_picture('T')));
        },
        'U' => {
            assert(rows_agree(glyph_rows('U'), glyph_picture('U')));
        },
        'V' => {
            assert(rows_agree(glyph_rows('V'), glyph_picture('V')));
        },
        'W' => {
            assert(rows_agree(glyph_rows('W'), glyph_picture('W')));
        },
        'X' => {
            assert(rows_agree(glyph_rows('X'), glyph_picture('X')));
        },
        'Y' => {
            assert(rows_agree(glyph_rows('Y'), glyph_picture('Y')));
        },
        'Z' => {
            assert(rows_agree(glyph_rows('Z'), glyph_picture('Z')));
        },
        '0' => {
            assert(rows_agree(glyph_rows('0'), glyph_picture('0')));
        },
        '1' => {
            assert(rows_agree(glyph_rows('1'), glyph_picture('1')));
        },
        '2' => {
            assert(rows_agree(glyph_rows('2'), glyph_picture('2')));
        },
        '3' => {
            assert(rows_agree(glyph_rows('3'), glyph_picture('3')));
        },
        '4' => {
            assert(rows_agree(glyph_rows('4'), glyph_picture('4')));
        },
        '5' => {
            assert(rows_agree(glyph_rows('5'), glyph_picture('5')));
        },
        '6' => {
            assert(rows_agree(glyph_rows('6'), glyph_picture('6')));
        },
        '7' => {
            assert(rows_agree(glyph_rows('7'), glyph_picture('7')));
        },
        '8' => {
            assert(rows_agree(glyph_rows('8'), glyph_picture('8')));
        },
        '9' => {
            assert(rows_agree(glyph_rows('9'), glyph_picture('9')));
        },
        ' ' => {
            assert(rows_agree(glyph_rows(' '), glyph_picture(' ')));
        },
        '.' => {
            assert(rows_agree(glyph_rows('.'), glyph_picture('.')));
        },
        '!' => {
            assert(rows_agree(glyph_rows('!'), glyph_picture('!')));
        },
        '?' => {
            assert(rows_agree(glyph_rows('?'), glyph_picture('?')));
        },
        _ => {
            let rows = glyph_rows(ch);
            let pic = glyph_picture(ch);
            assert(rows == seq![0b11111u8, 0b10001u8, 0b10001u8, 0b10001u8, 0b10001u8, 0b10001u8, 0b11111u8]);
            assert(pic == seq![
                    seq!['#', '#', '#', '#', '#'],
                    seq!['#', '.', '.', '.', '#'],
                    seq!['#', '.', '.', '.', '#'],
                    seq!['#', '.', '.', '.', '#'],
                    seq!['#', '.', '.', '.', '#'],
                    seq!['#', '.', '.', '.', '#'],
                    seq!['#', '#', '#', '#', '#'],
                ]);
            assert(rows_agree(
                seq![0b11111u8, 0b10001u8, 0b10001u8, 0b10001u8, 0b10001u8, 0b10001u8, 0b11111u8],
                seq![
                    seq!['#', '#', '#', '#', '#'],
                    seq!['#', '.', '.', '.', '#'],
                    seq!['#', '.', '.', '.', '#'],
                    seq!['#', '.', '.', '.', '#'],
                    seq!['#', '.', '.', '.', '#'],
                    seq!['#', '.', '.', '.', '#'],
                    seq!['#', '#', '#', '#', '#'],
                ],
            ));
        },
    }
    assert(rows_agree(glyph_rows(ch), glyph_picture(ch)));
    assert(r == 0 || r == 1 || r == 2 || r == 3 || r == 4 || r == 5 || r == 6);
}

/// The bitmap of `ch` in the built-in 5x7 font used for extruded text.
pub fn char_bitmap(ch: char) -> (r: Vec<u8>)
    ensures
        r@ == glyph_rows(ch),
        r@.len() == 7,
        forall|i: int| 0 <= i < 7 ==> r@[i] < 32,
{
    let r = match ch {
        'A' => vec![0b01110, 0b10001, 0b10001, 0b11111, 0b10001, 0b10001, 0b10001],
        'B' => vec![0b11110, 0b10001, 0b10001, 0b11110, 0b10001, 0b10001, 0b11110],
        'C' => vec![0b01110, 0b10001, 0b10000, 0b10000, 0b10000, 0b10001, 0b01110],
        'D' => vec![0b11100, 0b10010, 0b10001, 0b10001, 0b10001, 0b10010, 0b11100],
        'E' => vec![0b11111, 0b10000, 0b10000, 0b11110, 0b10000, 0b10000, 0b11111],
        'F' => vec![0b11111, 0b10000, 0b10000, 0b11110, 0b10000, 0b10000, 0b10000],
        'G' => vec![0b01110, 0b10001, 0b10000, 0b10111, 0b10001, 0b10001, 0b01111],
        'H' => vec![0b10001, 0b10001, 0b10001, 0b11111, 0b10001, 0b10001, 0b10001],
        'I' => vec![0b11111, 0b00100, 0b00100, 0b00100, 0b00100, 0b00100, 0b11111],
        'J' => vec![0b11111, 0b00001, 0b00001, 0b00001, 0b10001, 0b10001, 0b01110],
        'K' => vec![0b10001, 0b10010, 0b10100, 0b11000, 0b10100, 0b10010, 0b10001],
        'L' => vec![0b10000, 0b10000, 0b10000, 0b10000, 0b10000, 0b10000, 0b11111],
        'M' => vec![0b10001, 0b11011, 0b10101, 0b10001, 0b10001, 0b10001, 0b10001],
        'N' => vec![0b10001, 0b11001, 0b10101, 0b10011, 0b10001, 0b10001, 0b10001],
        'O' => vec![0b01110, 0b10001, 0b10001, 0b10001, 0b10001, 0b10001, 0b01110],
        'P' => vec![0b11110, 0b10001, 0b10001, 0b11110, 0b10000, 0b10000, 0b10000],
        'Q' => vec![0b01110, 0b10001, 0b10001, 0b10001, 0b10101, 0b10010, 0b01101],
        'R' => vec![0b11110, 0b10001, 0b10001, 0b11110, 0b10100, 0b10010, 0b10001],
        'S' => vec![0b01111, 0b10000, 0b10000, 0b01110, 0b00001, 0b00001, 0b11110],
        'T' => vec![0b11111, 0b00100, 0b00100, 0b00100, 0b00100, 0b00100, 0b00100],
        'U' => vec![0b10001, 0b10001, 0b10001, 0b10001, 0b10001, 0b10001, 0b01110],
        'V' => vec![0b10001, 0b10001, 0b10001, 0b10001, 0b01010, 0b01010, 0b00100],
        'W' => vec![0b10001, 0b10001, 0b10001, 0b10101, 0b10101, 0b11011, 0b10001],
        'X' => vec![0b10001, 0b01010, 0b00100, 0b00100, 0b00100, 0b01010, 0b10001],
        'Y' => vec![0b10001, 0b10001, 0b01010, 0b00100, 0b00100, 0b00100, 0b00100],
        'Z' => vec![0b11111, 0b00001, 0b00010, 0b00100, 0b01000, 0b10000, 0b11111],
        '0' => vec![0b01110, 0b10011, 0b10101, 0b10101, 0b11001, 0b10001, 0b01110],
        '1' => vec![0b00100, 0b01100, 0b00100, 0b00100, 0b00100, 0b00100, 0b01110],
        '2' => vec![0b01110, 0b10001, 0b00001, 0b00110, 0b01000, 0b10000, 0b11111],
        '3' => vec![0b11111, 0b00001, 0b00010, 0b00110, 0b00001, 0b10001, 0b01110],
        '4' => vec![0b00010, 0b00110, 0b01010, 0b10010, 0b11111, 0b00010, 0b00010],
        '5' => vec![0b11111, 0b10000, 0b11110, 0b00001, 0b00001, 0b10001, 0b01110],
        '6' => vec![0b01110, 0b10000, 0b10000, 0b11110, 0b10001, 0b10001, 0b01110],
        '7' => vec![0b11111, 0b00001, 0b00010, 0b00100, 0b01000, 0b01000, 0b01000],
        '8' => vec![0b01110, 0b10001, 0b10001, 0b01110, 0b10001, 0b10001, 0b01110],
        '9' => vec![0b01110, 0b10001, 0b10001, 0b01111, 0b00001, 0b00001, 0b01110],
        ' ' => vec![0b00000, 0b00000, 0b00000, 0b00000, 0b00000, 0b00000, 0b00000],
        '.' => vec![0b00000, 0b00000, 0b00000, 0b00000, 0b00000, 0b01100, 0b01100],
        '!' => vec![0b00100, 0b00100, 0b00100, 0b00100, 0b00100, 0b00000, 0b00100],
        '?' => vec![0b01110, 0b10001, 0b00001, 0b00110, 0b00100, 0b00000, 0b00100],
        _ => vec![0b11111, 0b10001, 0b10001, 0b10001, 0b10001, 0b10001, 0b11111],
    };
    assert(r@ =~= glyph_rows(ch));
    r
}

// ---------------------------------------------------------------------------
// Hilbert curve
// ---------------------------------------------------------------------------

/// The walk of the Hilbert index-to-point conversion: at scale `s` (a power
/// of two) the two low base-4 digits of `t` pick a quadrant, rotating and
/// reflecting the partial point `(x, y)` first when needed.
pub open spec fn hilbert_walk(n: int, s: int, t: int, x: int, y: int) -> (int, int)
    decreases if s < n { n - s } else { 0 },
{
    if 0 < s < n {
        let rx = (t / 2) % 2;
        let ry = (t % 2 + rx) % 2;
        let (x1, y1) = if ry == 0 {
            if rx == 1 { (s - 1 - y, s - 1 - x) } else { (y, x) }
        } else {
            (x, y)
        };
        hilbert_walk(n, 2 * s, t / 4, x1 + s * rx, y1 + s * ry)
    } else {
        (x, y)
    }
}

/// The side of the grid the curve of order `n` fills: the least power of two
/// that is at least `n` (1 when `n <= 1`).
pub open spec fn hilbert_side_from(n: int, s: int) -> int
    decreases if s < n { n - s } else { 0 },
{
    if 0 < s < n { hilbert_side_from(n, 2 * s) } else { s }
}

proof fn lemma_hilbert_bounds(n: int, s: int, t: int, x: int, y: int)
    requires
        1 <= s,
        0 <= x < s,
        0 <= y < s,
    ensures
        0 <= hilbert_walk(n, s, t, x, y).0 < hilbert_side_from(n, s),
        0 <= hilbert_walk(n, s, t, x, y).1 < hilbert_side_from(n, s),
    decreases if s < n { n - s } else { 0 },
{
    if 0 < s < n {
        let rx = (t / 2) % 2;
        let ry = (t % 2 + rx) % 2;
        let (x1, y1) = if ry == 0 {
            if rx == 1 { (s - 1 - y, s - 1 - x) } else { (y, x) }
        } else {
            (x, y)
        };
        assert(0 <= s * rx <= s) by (nonlinear_arith) requires 0 <= rx <= 1, 1 <= s;
        assert(0 <= s * ry <= s) by (nonlinear_arith) requires 0 <= ry <= 1, 1 <= s;
        lemma_hilbert_bounds(n, 2 * s, t / 4, x1 + s * rx, y1 + s * ry);
    }
}

/// Maps position `d` along a Hilbert curve of order `n` to its grid point.
/// The point lies in the square of side `hilbert_side_from(n, 1)`.
pub fn hilbert_d2xy(n: u32, d: u32) -> (r: (u32, u32))
    requires
        n <= 0x8000_0000,
    ensures
        r.0 == hilbert_walk(n as int, 1, d as int, 0, 0).0,
        r.1 == hilbert_walk(n as int, 1, d as int, 0, 0).1,
        r.0 < hilbert_side_from(n as int, 1),
        r.1 < hilbert_side_from(n as int, 1),
{
    let mut s: u32 = 1;
    let mut x: u32 = 0;
    let mut y: u32 = 0;
    let mut t: u32 = d;
    proof {
        lemma_hilbert_bounds(n as int, 1, d as int, 0, 0);
    }
    while s < n
        invariant
            1 <= s,
            n <= 0x8000_0000,
            x < s,
            y < s,
            hilbert_walk(n as int, s as int, t as int, x as int, y as int)
                == hilbert_walk(n as int, 1, d as int, 0, 0),
            hilbert_side_from(n as int, s as int) == hilbert_side_from(n as int, 1),
        decreases if s < n { n - s } else { 0 },
    {
        let rx: u32 = 1 & (t / 2);
        let ry: u32 = 1 & (t ^ rx);
        assert(rx == (t / 2) % 2) by (bit_vector) requires rx == 1u32 & (t / 2);
        assert(ry == (t % 2 + rx) % 2) by (bit_vector) requires ry == 1u32 & (t ^ rx), rx <= 1;
        if ry == 0 {
            if rx == 1 {
                x = s - 1 - x;
                y = s - 1 - y;
            }
            let tmp = x;
            x = y;
            y = tmp;
        }
        assert(s * rx <= s && s * ry <= s) by (nonlinear_arith) requires rx <= 1, ry <= 1;
        x = x + s * rx;
        y = y + s * ry;
        t = t / 4;
        s = s * 2;
    }
    (x, y)
}


/// Two grid cells that share a side.
pub open spec fn cells_adjacent(p: (int, int), q: (int, int)) -> bool {
    ||| p.0 == q.0 && (p.1 == q.1 + 1 || q.1 == p.1 + 1)
    ||| p.1 == q.1 && (p.0 == q.0 + 1 || q.0 == p.0 + 1)
}

/// The base-4 digit that one walk step reads, in terms of `t % 4`.
proof fn lemma_hilbert_digit(t: int)
    requires
        0 <= t,
    ensures
        (t / 2) % 2 == (t % 4) / 2,
        t % 2 == (t % 4) % 2,
        t == 4 * (t / 4) + t % 4,
        0 <= t % 4 < 4,
{
    let a = t / 4;
    let q = t % 4;
    assert(t == 4 * a + q);
    assert(t / 2 == 2 * a + q / 2);
    assert(t % 2 == q % 2);
}

/// Where one step of the walk sends the point `(x, y)` of a block of side
/// `s` when it reads the base-4 digit `q`: into the lower-left, upper-left,
/// upper-right or lower-right quadrant of the block of side `2 * s`.
pub open spec fn hilbert_quadrant(s: int, q: int, x: int, y: int) -> (int, int) {
    if q == 0 {
        (y, x)
    } else if q == 1 {
        (x, y + s)
    } else if q == 2 {
        (x + s, y + s)
    } else {
        (2 * s - 1 - y, s - 1 - x)
    }
}

/// One step of the walk, read through its digit.
proof fn lemma_hilbert_walk_step(n: int, s: int, t: int, x: int, y: int)
    requires
        0 < s < n,
        0 <= t,
    ensures
        hilbert_walk(n, s, t, x, y) == hilbert_walk(
            n,
            2 * s,
            t / 4,
            hilbert_quadrant(s, t % 4, x, y).0,
            hilbert_quadrant(s, t % 4, x, y).1,
        ),
{
    lemma_hilbert_digit(t);
    let rx = (t / 2) % 2;
    let ry = (t % 2 + rx) % 2;
    assert(s * 0 == 0 && s * 1 == s);
    if t % 4 == 0 {
        assert(rx == 0 && ry == 0);
    } else if t % 4 == 1 {
        assert(rx == 0 && ry == 1);
    } else if t % 4 == 2 {
        assert(rx == 1 && ry == 1);
    } else {
        assert(rx == 1 && ry == 0);
    }
}

/// Walking two points on with the same remaining digits keeps distinct
/// points distinct and neighbouring points neighbours: each step swaps,
/// reflects or shifts both points alike.
proof fn lemma_hilbert_walk_isometry(n: int, s: int, t: int, x1: int, y1: int, x2: int, y2: int)
    requires
        1 <= s,
        0 <= t,
    ensures
        (x1, y1) != (x2, y2) ==> hilbert_walk(n, s, t, x1, y1) != hilbert_walk(n, s, t, x2, y2),
        cells_adjacent((x1, y1), (x2, y2)) ==> cells_adjacent(
            hilbert_walk(n, s, t, x1, y1),
            hilbert_walk(n, s, t, x2, y2),
        ),
    decreases if s < n { n - s } else { 0 },
{
    if 0 < s < n {
        lemma_hilbert_digit(t);
        lemma_hilbert_walk_step(n, s, t, x1, y1);
        lemma_hilbert_walk_step(n, s, t, x2, y2);
        let p1 = hilbert_quadrant(s, t % 4, x1, y1);
        let p2 = hilbert_quadrant(s, t % 4, x2, y2);
        lemma_hilbert_walk_isometry(n, 2 * s, t / 4, p1.0, p1.1, p2.0, p2.1);
    }
}

/// Distinct positions whose remaining digits fit the grid end at distinct
/// cells.
proof fn lemma_hilbert_walk_injective(
    n: int,
    s: int,
    ta: int,
    xa: int,
    ya: int,
    tb: int,
    xb: int,
    yb: int,
)
    requires
        1 <= n,
        1 <= s,
        0 <= ta,
        0 <= tb,
        s * s * ta < n * n,
        s * s * tb < n * n,
        0 <= xa < s,
        0 <= ya < s,
        0 <= xb < s,
        0 <= yb < s,
        (ta, xa, ya) != (tb, xb, yb),
    ensures
        hilbert_walk(n, s, ta, xa, ya) != hilbert_walk(n, s, tb, xb, yb),
    decreases if s < n { n - s } else { 0 },
{
    if 0 < s < n {
        lemma_hilbert_digit(ta);
        lemma_hilbert_digit(tb);
        lemma_hilbert_walk_step(n, s, ta, xa, ya);
        lemma_hilbert_walk_step(n, s, tb, xb, yb);
        let pa = hilbert_quadrant(s, ta % 4, xa, ya);
        let pb = hilbert_quadrant(s, tb % 4, xb, yb);
        assert(s * s * ta >= (2 * s) * (2 * s) * (ta / 4)) by (nonlinear_arith)
            requires ta == 4 * (ta / 4) + ta % 4, 0 <= ta % 4, 1 <= s;
        assert(s * s * tb >= (2 * s) * (2 * s) * (tb / 4)) by (nonlinear_arith)
            requires tb == 4 * (tb / 4) + tb % 4, 0 <= tb % 4, 1 <= s;
        if ta % 4 != tb % 4 {
            assert(pa != pb);
        } else if (xa, ya) != (xb, yb) {
            assert(pa != pb);
        } else {
            assert(ta / 4 != tb / 4);
        }
        lemma_hilbert_walk_injective(n, 2 * s, ta / 4, pa.0, pa.1, tb / 4, pb.0, pb.1);
    } else {
        assert(ta == 0 && tb == 0) by (nonlinear_arith)
            requires
                s * s * ta < n * n,
                s * s * tb < n * n,
                n <= s,
                1 <= n,
                0 <= ta,
                0 <= tb,
        ;
    }
}

/// Carrying into the next digit: the last cell of one block and the first
/// cell of the next end up side by side.
proof fn lemma_hilbert_walk_carry(n: int, s: int, t: int)
    requires
        1 <= n,
        1 <= s,
        0 <= t,
        s * s * (t + 1) < n * n,
    ensures
        cells_adjacent(hilbert_walk(n, s, t, s - 1, 0), hilbert_walk(n, s, t + 1, 0, 0)),
    decreases if s < n { n - s } else { 0 },
{
    if 0 < s < n {
        lemma_hilbert_digit(t);
        lemma_hilbert_digit(t + 1);
        lemma_hilbert_walk_step(n, s, t, s - 1, 0);
        lemma_hilbert_walk_step(n, s, t + 1, 0, 0);
        let pa = hilbert_quadrant(s, t % 4, s - 1, 0);
        let pb = hilbert_quadrant(s, (t + 1) % 4, 0, 0);
        if t % 4 < 3 {
            assert((t + 1) % 4 == t % 4 + 1 && (t + 1) / 4 == t / 4);
            assert(cells_adjacent(pa, pb));
            lemma_hilbert_walk_isometry(n, 2 * s, t / 4, pa.0, pa.1, pb.0, pb.1);
        } else {
            assert((t + 1) % 4 == 0 && (t + 1) / 4 == t / 4 + 1);
            assert(pa == (2 * s - 1, 0int) && pb == (0int, 0int));
            assert((2 * s) * (2 * s) * (t / 4 + 1) == s * s * (t + 1)) by (nonlinear_arith)
                requires t + 1 == 4 * (t / 4 + 1);
            lemma_hilbert_walk_carry(n, 2 * s, t / 4);
        }
    } else {
        assert(false) by (nonlinear_arith)
            requires s * s * (t + 1) < n * n, n <= s, 1 <= n, 0 <= t;
    }
}

/// For a power of two `n`, the curve's square is exactly `n` wide.
proof fn lemma_hilbert_side_pow2(k: nat, j: nat)
    requires
        j <= k,
    ensures
        hilbert_side_from(
            vstd::arithmetic::power2::pow2(k) as int,
            vstd::arithmetic::power2::pow2(j) as int,
        ) == vstd::arithmetic::power2::pow2(k),
    decreases k - j,
{
    vstd::arithmetic::power2::lemma_pow2_pos(j);
    if j < k {
        vstd::arithmetic::power2::lemma_pow2_strictly_increases(j, k);
        vstd::arithmetic::power2::lemma_pow2_unfold(j + 1);
        lemma_hilbert_side_pow2(k, j + 1);
    }
}

/// On a grid whose side `n` is a power of two, every position of the curve
/// lands on a cell of the `n` by `n` grid.
pub proof fn lemma_hilbert_in_grid(k: nat, d: int)
    requires
        0 <= d,
    ensures
        0 <= hilbert_walk(vstd::arithmetic::power2::pow2(k) as int, 1, d, 0, 0).0
            < vstd::arithmetic::power2::pow2(k),
        0 <= hilbert_walk(vstd::arithmetic::power2::pow2(k) as int, 1, d, 0, 0).1
            < vstd::arithmetic::power2::pow2(k),
{
    vstd::arithmetic::power2::lemma_pow2_pos(0);
    assert(vstd::arithmetic::power2::pow2(0) == 1) by {
        vstd::arithmetic::power2::lemma2_to64();
    }
    lemma_hilbert_side_pow2(k, 0);
    lemma_hilbert_bounds(vstd::arithmetic::power2::pow2(k) as int, 1, d, 0, 0);
}

/// The curve of order `n` never visits a cell twice: distinct positions
/// below `n * n` give distinct cells.
pub proof fn lemma_hilbert_injective(n: int, d1: int, d2: int)
    requires
        1 <= n,
        0 <= d1 < n * n,
        0 <= d2 < n * n,
        d1 != d2,
    ensures
        hilbert_walk(n, 1, d1, 0, 0) != hilbert_walk(n, 1, d2, 0, 0),
{
    lemma_hilbert_walk_injective(n, 1, d1, 0, 0, d2, 0, 0);
}

/// Consecutive positions of the curve of order `n` are cells that share a
/// side.
pub proof fn lemma_hilbert_steps_adjacent(n: int, d: int)
    requires
        1 <= n,
        0 <= d,
        d + 1 < n * n,
    ensures
        cells_adjacent(hilbert_walk(n, 1, d, 0, 0), hilbert_walk(n, 1, d + 1, 0, 0)),
{
    lemma_hilbert_walk_carry(n, 1, d);
}

/// The cells of the `n` by `n` grid.
pub open spec fn grid_cells(n: int) -> Set<(int, int)> {
    Set::new(|p: (int, int)| 0 <= p.0 < n && 0 <= p.1 < n)
}

/// The `n` by `n` grid has `n * n` cells.
proof fn lemma_grid_cells_len(n: int)
    requires
        1 <= n,
    ensures
        grid_cells(n).finite(),
        grid_cells(n).len() == n * n,
{
    let r = vstd::set_lib::set_int_range(0, n * n);
    assert(0 <= n * n) by (nonlinear_arith) requires 1 <= n;
    vstd::set_lib::lemma_int_range(0, n * n);
    let f = |d: int| (d / n, d % n);
    assert forall|a: int, b: int| r.contains(a) && r.contains(b) && #[trigger] f(a) == #[trigger] f(b) implies a == b by {
        vstd::arithmetic::div_mod::lemma_fundamental_div_mod(a, n);
        vstd::arithmetic::div_mod::lemma_fundamental_div_mod(b, n);
    }
    assert(vstd::relations::injective_on(f, r));
    assert forall|p: (int, int)| grid_cells(n).contains(p) implies r.map(f).contains(p) by {
        let d = p.0 * n + p.1;
        assert(0 <= d < n * n) by (nonlinear_arith)
            requires d == p.0 * n + p.1, 0 <= p.0 < n, 0 <= p.1 < n;
        vstd::arithmetic::div_mod::lemma_fundamental_div_mod_converse(d, n, p.0, p.1);
        assert(r.contains(d) && f(d) == p);
    }
    assert forall|p: (int, int)| r.map(f).contains(p) implies grid_cells(n).contains(p) by {
        let d = choose|d: int| r.contains(d) && f(d) == p;
        assert(0 <= d / n < n) by (nonlinear_arith) requires 0 <= d < n * n, 1 <= n;
        assert(0 <= d % n < n) by (nonlinear_arith) requires 0 <= d, 1 <= n;
    }
    assert(r.map(f) =~= grid_cells(n));
    vstd::set_lib::lemma_map_size(r, grid_cells(n), f);
}

/// On a grid whose side `n` is a power of two, the curve visits every cell:
/// each cell of the `n` by `n` grid is the point of some position below
/// `n * n`. With `lemma_hilbert_injective` the curve is a one-to-one walk
/// over the grid.
pub proof fn lemma_hilbert_covers_grid(k: nat, x: int, y: int)
    requires
        0 <= x < vstd::arithmetic::power2::pow2(k),
        0 <= y < vstd::arithmetic::power2::pow2(k),
    ensures
        exists|d: int|
            0 <= d < vstd::arithmetic::power2::pow2(k) * vstd::arithmetic::power2::pow2(k)
                && #[trigger] hilbert_walk(vstd::arithmetic::power2::pow2(k) as int, 1, d, 0, 0) == (x, y),
{
    let n = vstd::arithmetic::power2::pow2(k) as int;
    vstd::arithmetic::power2::lemma_pow2_pos(k);
    assert(0 <= n * n) by (nonlinear_arith) requires 1 <= n;
    let r = vstd::set_lib::set_int_range(0, n * n);
    vstd::set_lib::lemma_int_range(0, n * n);
    let h = |d: int| hilbert_walk(n, 1, d, 0, 0);
    assert forall|a: int, b: int| r.contains(a) && r.contains(b) && #[trigger] h(a) == #[trigger] h(b) implies a == b by {
        if a != b {
            lemma_hilbert_injective(n, a, b);
        }
    }
    assert(vstd::relations::injective_on(h, r));
    let img = r.map(h);
    vstd::set_lib::lemma_map_size(r, img, h);
    assert forall|p: (int, int)| img.contains(p) implies grid_cells(n).contains(p) by {
        let d = choose|d: int| r.contains(d) && h(d) == p;
        lemma_hilbert_in_grid(k, d);
    }
    lemma_grid_cells_len(n);
    vstd::set_lib::lemma_subset_equality(img, grid_cells(n));
    assert(grid_cells(n).contains((x, y)));
    assert(img.contains((x, y)));
    let d = choose|d: int| r.contains(d) && h(d) == (x, y);
    assert(0 <= d < n * n && hilbert_walk(n, 1, d, 0, 0) == (x, y));
}

// ---------------------------------------------------------------------------
// Removing particles by index
// ---------------------------------------------------------------------------

/// The number of indices below `i` that are not removed.
pub open spec fn kept_before(removed: Set<usize>, i: int) -> nat
    decreases i,
{
    if i <= 0 {
        0
    } else {
        kept_before(removed, i - 1) + if removed.contains((i - 1) as usize) {
            0nat
        } else {
            1nat
        }
    }
}

/// The items whose index is not removed, in order.
pub open spec fn kept_items<T>(items: Seq<T>, removed: Set<usize>) -> Seq<T>
    decreases items.len(),
{
    if items.len() == 0 {
        Seq::empty()
    } else {
        let prev = kept_items(items.drop_last(), removed);
        if removed.contains((items.len() - 1) as usize) {
            prev
        } else {
            prev.push(items.last())
        }
    }
}

/// Where each old index lands after the removal: `None` for removed
/// indices, the count of kept indices before it otherwise.
pub open spec fn removal_remap_of(len: nat, removed: Set<usize>) -> Seq<Option<usize>> {
    Seq::new(
        len,
        |i: int|
            if removed.contains(i as usize) {
                None
            } else {
                Some(kept_before(removed, i) as usize)
            },
    )
}

/// The indices carried through `remap`, dropping those it removes or does not cover.
pub open spec fn remapped_indices(indices: Seq<usize>, remap: Seq<Option<usize>>) -> Seq<usize>
    decreases indices.len(),
{
    if indices.len() == 0 {
        Seq::empty()
    } else {
        let prev = remapped_indices(indices.drop_last(), remap);
        let i = indices.last();
        if i < remap.len() && remap[i as int] is Some {
            prev.push(remap[i as int]->0)
        } else {
            prev
        }
    }
}

proof fn lemma_kept_items_len<T>(items: Seq<T>, removed: Set<usize>)
    ensures
        kept_items(items, removed).len() == kept_before(removed, items.len() as int),
    decreases items.len(),
{
    if items.len() > 0 {
        lemma_kept_items_len(items.drop_last(), removed);
    }
}

proof fn lemma_kept_item_position<T>(items: Seq<T>, removed: Set<usize>, i: int)
    requires
        0 <= i < items.len(),
        !removed.contains(i as usize),
    ensures
        kept_before(removed, i) < kept_items(items, removed).len(),
        kept_items(items, removed)[kept_before(removed, i) as int] == items[i],
    decreases items.len(),
{
    lemma_kept_items_len(items, removed);
    lemma_kept_items_len(items.drop_last(), removed);
    lemma_kept_before_monotone(removed, i + 1, items.len() as int);
    if i < items.len() - 1 {
        lemma_kept_item_position(items.drop_last(), removed, i);
    }
}

proof fn lemma_kept_before_monotone(removed: Set<usize>, i: int, j: int)
    requires
        i <= j,
    ensures
        kept_before(removed, i) <= kept_before(removed, j),
    decreases j - i,
{
    if i < j {
        lemma_kept_before_monotone(removed, i, j - 1);
    }
}

proof fn lemma_kept_before_bound(removed: Set<usize>, i: int)
    requires
        0 <= i,
    ensures
        kept_before(removed, i) <= i,
    decreases i,
{
    if i > 0 {
        lemma_kept_before_bound(removed, i - 1);
    }
}

/// An item that survives a removal sits, afterwards, at the position that
/// the removal map gives for its old index.
pub proof fn lemma_remap_finds_kept_item<T>(items: Seq<T>, removed: Set<usize>, i: int)
    requires
        items.len() <= usize::MAX,
        0 <= i < items.len(),
        removal_remap_of(items.len(), removed)[i] is Some,
    ensures
        ({
            let j = removal_remap_of(items.len(), removed)[i]->0;
            j < kept_items(items, removed).len() && kept_items(items, removed)[j as int] == items[i]
        }),
{
    lemma_kept_before_bound(removed, i);
    lemma_kept_item_position(items, removed, i);
}

/// The removal map for `len` items of which the indices in `removed` go.
pub fn removal_remap(len: usize, removed: &HashSet<usize>) -> (r: Vec<Option<usize>>)
    ensures
        r@ == removal_remap_of(len as nat, removed@),
{
    let mut r: Vec<Option<usize>> = Vec::new();
    let mut kept: usize = 0;
    for i in 0..len
        invariant
            r@ == removal_remap_of(i as nat, removed@),
            kept == kept_before(removed@, i as int),
            kept <= i,
    {
        if removed.contains(&i) {
            r.push(None);
        } else {
            r.push(Some(kept));
            kept += 1;
        }
        assert(r@ =~= removal_remap_of((i + 1) as nat, removed@));
    }
    r
}

/// Removes the items whose index is in `removed`, keeping the others in order.
pub fn remove_indexed<T>(items: &mut Vec<T>, removed: &HashSet<usize>)
    ensures
        final(items)@ == kept_items(old(items)@, removed@),
{
    let ghost start = items@;
    let n = items.len();
    let mut r: usize = 0;
    let mut w: usize = 0;
    while r < n
        invariant
            r <= n,
            n == start.len(),
            items@ == kept_items(start.take(r as int), removed@) + start.skip(r as int),
            w == kept_items(start.take(r as int), removed@).len(),
            w <= r,
        decreases n - r,
    {
        let ghost before = items@;
        assert(start.take(r + 1).drop_last() =~= start.take(r as int));
        if removed.contains(&r) {
            items.remove(w);
            assert(items@ =~= kept_items(start.take(r + 1), removed@) + start.skip(r + 1));
        } else {
            w += 1;
            assert(before =~= kept_items(start.take(r + 1), removed@) + start.skip(r + 1));
        }
        r += 1;
    }
    assert(start.take(n as int) =~= start);
    assert(items@ =~= kept_items(start, removed@));
}

/// Carries a list of particle indices through a removal map, dropping the
/// removed ones.
pub fn remap_indices(indices: &[usize], remap: &[Option<usize>]) -> (r: Vec<usize>)
    ensures
        r@ == remapped_indices(indices@, remap@),
{
    let mut r: Vec<usize> = Vec::new();
    for k in 0..indices.len()
        invariant
            r@ == remapped_indices(indices@.take(k as int), remap@),
    {
        let i = indices[k];
        assert(indices@.take(k + 1).drop_last() =~= indices@.take(k as int));
        if i < remap.len() {
            match remap[i] {
                Some(j) => {
                    r.push(j);
                },
                None => {},
            }
        }
    }
    assert(indices@.take(indices@.len() as int) =~= indices@);
    r
}


/// The place value of column `col` (0 = leftmost) in a glyph row.
pub open spec fn column_weight(col: int) -> int {
    if col == 0 {
        16
    } else if col == 1 {
        8
    } else if col == 2 {
        4
    } else if col == 3 {
        2
    } else {
        1
    }
}

/// Whether column `col` of a glyph row is lit.
pub open spec fn cell_lit(row_bits: u8, col: int) -> bool {
    (row_bits as int / column_weight(col)) % 2 == 1
}

/// The lit cells `(char_index, row, col)` of the first `cols` columns of one glyph row.
pub open spec fn row_cells(ci: usize, row: usize, bits: u8, cols: nat) -> Seq<(usize, usize, usize)>
    decreases cols,
{
    if cols == 0 {
        Seq::empty()
    } else {
        let prev = row_cells(ci, row, bits, (cols - 1) as nat);
        if cell_lit(bits, cols - 1) {
            prev.push((ci, row, (cols - 1) as usize))
        } else {
            prev
        }
    }
}

/// The lit cells of the first `n` rows of a glyph, row by row.
pub open spec fn glyph_cells(ci: usize, rows: Seq<u8>, n: nat) -> Seq<(usize, usize, usize)>
    decreases n,
{
    if n == 0 {
        Seq::empty()
    } else {
        glyph_cells(ci, rows, (n - 1) as nat) + row_cells(ci, (n - 1) as usize, rows[n - 1], 5)
    }
}

/// The lit cells of a line of text in the built-in font, character by
/// character, top row first, left to right.
pub open spec fn text_cells_of(chars: Seq<char>) -> Seq<(usize, usize, usize)>
    decreases chars.len(),
{
    if chars.len() == 0 {
        Seq::empty()
    } else {
        text_cells_of(chars.drop_last()) + glyph_cells((chars.len() - 1) as usize, glyph_rows(chars.last()), 7)
    }
}

fn column_lit(bits: u8, col: usize) -> (r: bool)
    requires
        col < 5,
    ensures
        r == cell_lit(bits, col as int),
{
    let shift = (4 - col) as u8;
    let r = (bits >> shift) & 1 == 1;
    proof {
        if col == 0 {
            assert(((bits >> 4u8) & 1 == 1) == ((bits / 16) % 2 == 1)) by (bit_vector);
        } else if col == 1 {
            assert(((bits >> 3u8) & 1 == 1) == ((bits / 8) % 2 == 1)) by (bit_vector);
        } else if col == 2 {
            assert(((bits >> 2u8) & 1 == 1) == ((bits / 4) % 2 == 1)) by (bit_vector);
        } else if col == 3 {
            assert(((bits >> 1u8) & 1 == 1) == ((bits / 2) % 2 == 1)) by (bit_vector);
        } else {
            assert(((bits >> 0u8) & 1 == 1) == ((bits / 1) % 2 == 1)) by (bit_vector);
        }
    }
    r
}

/// The lit cells `(char_index, row, col)` of `chars` drawn in the built-in
/// 5x7 font: the cells an extruded text is built from.
pub fn text_cells(chars: &[char]) -> (r: Vec<(usize, usize, usize)>)
    ensures
        r@ == text_cells_of(chars@),
{
    let mut out: Vec<(usize, usize, usize)> = Vec::new();
    let mut ci: usize = 0;
    while ci < chars.len()
        invariant
            ci <= chars@.len(),
            out@ == text_cells_of(chars@.take(ci as int)),
        decreases chars@.len() - ci,
    {
        let rows = char_bitmap(chars[ci]);
        let ghost before = out@;
        let mut row: usize = 0;
        while row < 7
            invariant
                ci < chars@.len(),
                row <= 7,
                rows@ == glyph_rows(chars@[ci as int]),
                rows@.len() == 7,
                out@ == before + glyph_cells(ci, rows@, row as nat),
            decreases 7 - row,
        {
            let bits = rows[row];
            let ghost row_start = out@;
            let mut col: usize = 0;
            while col < 5
                invariant
                    row < 7,
                    col <= 5,
                    bits == rows@[row as int],
                    out@ == row_start + row_cells(ci, row, bits, col as nat),
                decreases 5 - col,
            {
                if column_lit(bits, col) {
                    out.push((ci, row, col));
                }
                col += 1;
            }
            assert(out@ =~= before + glyph_cells(ci, rows@, (row + 1) as nat));
            row += 1;
        }
        assert(chars@.take(ci + 1).drop_last() =~= chars@.take(ci as int));
        assert(out@ =~= text_cells_of(chars@.take(ci + 1)));
        ci += 1;
    }
    assert(chars@.take(chars@.len() as int) =~= chars@);
    out
}

} // verus!
