//! Named particle groups: numbering, visibility and locking, and which
//! particles the tools may touch.

use std::collections::BTreeMap;
use vstd::prelude::*;
use vstd::std_specs::iter::IteratorSpec;

verus! {

broadcast use vstd::laws_cmp::group_laws_cmp;

/// A named group of particles.
#[derive(Debug)]
pub struct GroupInfo {
    pub id: u32,
    pub name: String,
    pub visible: bool,
    pub locked: bool,
    /// The `f32` red, green, blue and alpha, as bit patterns.
    pub color: (u32, u32, u32, u32),
}

impl GroupInfo {
    /// A visible, unlocked group.
    pub fn new(id: u32, name: &str, color: (u32, u32, u32, u32)) -> (r: Self)
        ensures
            r.id == id,
            r.name@ == name@,
            r.visible,
            !r.locked,
            r.color == color,
    {
        GroupInfo { id, name: name.to_owned(), visible: true, locked: false, color }
    }
}

/// The groups of a model, by id, and the id the next group gets.
#[derive(Debug)]
pub struct GroupManager {
    pub groups: BTreeMap<u32, GroupInfo>,
    pub next_id: u32,
}

/// Strictly increasing.
pub open spec fn ascending(s: Seq<u32>) -> bool {
    forall|i: int, j: int| 0 <= i < j < s.len() ==> s[i] < s[j]
}

/// The ids under which a visible group is kept.
pub open spec fn visible_keys(m: Map<u32, GroupInfo>) -> Set<u32> {
    m.dom().filter(|k: u32| m[k].visible)
}

/// The keys of a map's pairs, listed in increasing key order, strictly increase.
proof fn lemma_keys_ascending(pairs: Seq<(&u32, &GroupInfo)>)
    requires
        vstd::std_specs::btree::increasing_seq(pairs.map_values(|kv: (&u32, &GroupInfo)| *kv.0)),
    ensures
        forall|i: int, j: int| 0 <= i < j < pairs.len() ==> *pairs[i].0 < *pairs[j].0,
{
    let keys = pairs.map_values(|kv: (&u32, &GroupInfo)| *kv.0);
    assert forall|i: int, j: int| 0 <= i < j < pairs.len() implies *pairs[i].0 < *pairs[j].0 by {
        assert(vstd::std_specs::cmp::OrdSpec::cmp_spec(&keys[i], &keys[j]) is Less);
    }
}

impl GroupManager {
    /// Each group is kept under its own id, below the next id to give.
    pub open spec fn wf(&self) -> bool {
        forall|k: u32| #[trigger] self.groups@.contains_key(k) ==> self.groups@[k].id == k && k < self.next_id
    }

    pub fn new() -> (r: Self)
        ensures
            r.groups@ == Map::<u32, GroupInfo>::empty(),
            r.next_id == 0,
            r.wf(),
    {
        GroupManager { groups: BTreeMap::new(), next_id: 0 }
    }

    /// Adds a visible, unlocked group under the next id, and returns that id.
    pub fn create_group(&mut self, name: &str, color: (u32, u32, u32, u32)) -> (id: u32)
        requires
            old(self).next_id < u32::MAX,
        ensures
            id == old(self).next_id,
            final(self).next_id == id + 1,
            final(self).groups@.dom() == old(self).groups@.dom().insert(id),
            forall|k: u32| k != id && #[trigger] old(self).groups@.contains_key(k) ==> final(self).groups@[k] == old(self).groups@[k],
            final(self).groups@[id].id == id,
            final(self).groups@[id].name@ == name@,
            final(self).groups@[id].visible,
            !final(self).groups@[id].locked,
            final(self).groups@[id].color == color,
            old(self).wf() ==> final(self).wf(),
    {
        let id = self.next_id;
        self.next_id = id + 1;
        self.groups.insert(id, GroupInfo::new(id, name, color));
        id
    }

    pub fn get_group(&self, id: u32) -> (r: Option<&GroupInfo>)
        ensures
            match r {
                Some(g) => self.groups@.contains_key(id) && *g == self.groups@[id],
                None => !self.groups@.contains_key(id),
            },
    {
        self.groups.get(&id)
    }

    /// Shows or hides group `id`, where there is one.
    pub fn set_visibility(&mut self, id: u32, v: bool)
        ensures
            final(self).next_id == old(self).next_id,
            old(self).groups@.contains_key(id) ==> final(self).groups@ == old(self).groups@.insert(
                id,
                GroupInfo { visible: v, ..old(self).groups@[id] },
            ),
            !old(self).groups@.contains_key(id) ==> final(self).groups@ == old(self).groups@,
            old(self).wf() ==> final(self).wf(),
    {
        match self.groups.remove(&id) {
            Some(g) => {
                let mut g = g;
                g.visible = v;
                self.groups.insert(id, g);
            },
            None => {},
        }
    }

    /// Locks or unlocks group `id`, where there is one.
    pub fn set_lock(&mut self, id: u32, l: bool)
        ensures
            final(self).next_id == old(self).next_id,
            old(self).groups@.contains_key(id) ==> final(self).groups@ == old(self).groups@.insert(
                id,
                GroupInfo { locked: l, ..old(self).groups@[id] },
            ),
            !old(self).groups@.contains_key(id) ==> final(self).groups@ == old(self).groups@,
            old(self).wf() ==> final(self).wf(),
    {
        match self.groups.remove(&id) {
            Some(g) => {
                let mut g = g;
                g.locked = l;
                self.groups.insert(id, g);
            },
            None => {},
        }
    }

    /// The ids of the visible groups, in the order of the ids they are kept under.
    pub fn visible_groups(&self) -> (r: Vec<u32>)
        ensures
            exists|ks: Seq<u32>|
                ascending(ks) && ks.to_set() == visible_keys(self.groups@) && r@ == ks.map_values(
                    |k: u32| self.groups@[k].id,
                ),
            self.wf() ==> ascending(r@) && r@.to_set() == visible_keys(self.groups@),
    {
        let mut r: Vec<u32> = Vec::new();
        let ghost mut ks: Seq<u32> = Seq::empty();
        let ghost m = self.groups@;
        let pairs_iter = self.groups.iter();
        let ghost pairs = pairs_iter.remaining();
        proof {
            lemma_keys_ascending(pairs);
        }
        for kv in it: pairs_iter
            invariant
                m == self.groups@,
                it.seq() == pairs,
                forall|i: int| 0 <= i < it.seq().len() ==> m.contains_key(*it.seq()[i].0) && m[*it.seq()[i].0] == *it.seq()[i].1,
                forall|i: int, j: int| 0 <= i < j < it.seq().len() ==> *it.seq()[i].0 < *it.seq()[j].0,
                ascending(ks),
                r@ == ks.map_values(|k: u32| m[k].id),
                forall|i: int|
                    0 <= i < ks.len() && it.index() < it.seq().len() ==> ks[i] < *(#[trigger] it.seq()[it.index() as int]).0,
                forall|k: u32| ks.contains(k) <==> exists|j: int| 0 <= j < it.index() && *(#[trigger] it.seq()[j]).0 == k && m[k].visible,
        {
            let (k, g) = kv;
            let ghost idx = it.index();
            let ghost old_ks = ks;
            proof {
                assert(*it.seq()[idx].0 == *k && *it.seq()[idx].1 == *g);
                assert(m.contains_key(*k) && m[*k] == *g);
            }
            if g.visible {
                r.push(g.id);
                proof {
                    ks = ks.push(*k);
                    assert(r@ =~= ks.map_values(|k: u32| m[k].id));
                }
            }
            proof {
                assert forall|x: u32| ks.contains(x) implies exists|j: int|
                    0 <= j < idx + 1 && *(#[trigger] it.seq()[j]).0 == x && m[x].visible by {
                    if old_ks.contains(x) {
                        let j = choose|j: int| 0 <= j < idx && *(#[trigger] it.seq()[j]).0 == x && m[x].visible;
                        assert(0 <= j < idx + 1);
                    } else {
                        assert(x == *k);
                        assert(*it.seq()[idx].0 == x);
                    }
                }
                assert forall|x: u32| (exists|j: int| 0 <= j < idx + 1 && *(#[trigger] it.seq()[j]).0 == x && m[x].visible)
                    implies ks.contains(x) by {
                    let j = choose|j: int| 0 <= j < idx + 1 && *(#[trigger] it.seq()[j]).0 == x && m[x].visible;
                    if j < idx {
                        assert(old_ks.contains(x));
                        let i = choose|i: int| 0 <= i < old_ks.len() && old_ks[i] == x;
                        assert(ks[i] == x);
                    } else {
                        assert(x == *k);
                        assert(ks[ks.len() - 1] == x);
                    }
                }
            }
        }
        proof {
            assert forall|x: u32| ks.to_set().contains(x) <==> visible_keys(m).contains(x) by {
                if m.contains_key(x) && m[x].visible {
                    assert(pairs.contains((&x, &m[x])));
                    let j = choose|j: int| 0 <= j < pairs.len() && pairs[j] == (&x, &m[x]);
                    assert(*pairs[j].0 == x);
                }
            }
            assert(ks.to_set() =~= visible_keys(m));
            if self.wf() {
                assert forall|i: int| 0 <= i < ks.len() implies #[trigger] m[ks[i]].id == ks[i] by {
                    assert(ks.contains(ks[i]));
                    assert(visible_keys(m).contains(ks[i]));
                }
                assert(r@ =~= ks);
            }
        }
        r
    }

    /// Whether the tools may touch a particle of group `group_id`: its group
    /// is visible and unlocked, or there is no such group.
    pub fn is_particle_active(&self, group_id: u32) -> (r: bool)
        ensures
            r == (!self.groups@.contains_key(group_id) || (self.groups@[group_id].visible
                && !self.groups@[group_id].locked)),
    {
        match self.groups.get(&group_id) {
            Some(g) => g.visible && !g.locked,
            None => true,
        }
    }
}

} // verus!
