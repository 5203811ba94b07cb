//! The layers of a particle model: which particles each layer lists, their
//! visibility, merging one layer into another, and which particles are drawn.

use crate::modeling::{remap_indices, remapped_indices, LayerBlendMode};
use vstd::prelude::*;

verus! {

/// The bit pattern of `1.0f32`: a fully opaque layer.
pub const OPAQUE: u32 = 0x3F80_0000u32;

/// A layer of a particle model.
#[derive(Clone, Debug)]
pub struct ModelLayer {
    pub id: u8,
    pub name: String,
    pub visible: bool,
    pub locked: bool,
    /// The `f32` opacity, as its bit pattern.
    pub opacity: u32,
    pub blend_mode: LayerBlendMode,
    pub particle_indices: Vec<usize>,
}

/// `b` is `a` with at most its particle list changed.
pub open spec fn same_but_indices(a: ModelLayer, b: ModelLayer) -> bool {
    &&& a.id == b.id
    &&& a.name == b.name
    &&& a.visible == b.visible
    &&& a.locked == b.locked
    &&& a.opacity == b.opacity
    &&& a.blend_mode == b.blend_mode
}

impl ModelLayer {
    /// A visible, unlocked, opaque layer that replaces what lies below it and
    /// lists no particles.
    pub fn new(id: u8, name: &str) -> (r: Self)
        ensures
            r.id == id,
            r.name@ == name@,
            r.visible,
            !r.locked,
            r.opacity == OPAQUE,
            r.blend_mode == LayerBlendMode::Replace,
            r.particle_indices@.len() == 0,
    {
        ModelLayer {
            id,
            name: name.to_owned(),
            visible: true,
            locked: false,
            opacity: OPAQUE,
            blend_mode: LayerBlendMode::Replace,
            particle_indices: Vec::new(),
        }
    }

    pub fn toggle_visibility(&mut self)
        ensures
            *final(self) == (ModelLayer { visible: !old(self).visible, ..*old(self) }),
    {
        self.visible = !self.visible;
    }

    pub fn toggle_lock(&mut self)
        ensures
            *final(self) == (ModelLayer { locked: !old(self).locked, ..*old(self) }),
    {
        self.locked = !self.locked;
    }
}

/// `k` is the position of the first layer with id `id`.
pub open spec fn first_layer(layers: Seq<ModelLayer>, id: u8, k: int) -> bool {
    &&& 0 <= k < layers.len()
    &&& layers[k].id == id
    &&& forall|j: int| 0 <= j < k ==> (#[trigger] layers[j]).id != id
}

/// The position of the first layer at or after `start` with id `id`, or -1
/// where none has it.
pub open spec fn layer_index_from(layers: Seq<ModelLayer>, id: u8, start: nat) -> int
    decreases layers.len() - start,
{
    if start >= layers.len() {
        -1
    } else if layers[start as int].id == id {
        start as int
    } else {
        layer_index_from(layers, id, start + 1)
    }
}

/// The position of the first layer with id `id`, or -1 where none has it.
pub open spec fn layer_index(layers: Seq<ModelLayer>, id: u8) -> int {
    layer_index_from(layers, id, 0)
}

proof fn lemma_layer_index_from(layers: Seq<ModelLayer>, id: u8, start: nat)
    ensures
        layer_index_from(layers, id, start) == -1 ==> forall|j: int|
            start <= j < layers.len() ==> (#[trigger] layers[j]).id != id,
        layer_index_from(layers, id, start) != -1 ==> {
            let r = layer_index_from(layers, id, start);
            &&& start <= r < layers.len()
            &&& layers[r].id == id
            &&& forall|j: int| start <= j < r ==> (#[trigger] layers[j]).id != id
        },
    decreases layers.len() - start,
{
    if start < layers.len() && layers[start as int].id != id {
        lemma_layer_index_from(layers, id, start + 1);
    }
}

/// What `layer_index` gives: the first layer with the id, or -1 where no
/// layer has it.
pub proof fn lemma_layer_index(layers: Seq<ModelLayer>, id: u8)
    ensures
        layer_index(layers, id) == -1 <==> forall|k: int| 0 <= k < layers.len() ==> (#[trigger] layers[k]).id != id,
        layer_index(layers, id) != -1 ==> first_layer(layers, id, layer_index(layers, id)),
{
    lemma_layer_index_from(layers, id, 0);
    if layer_index(layers, id) != -1 {
        assert(layers[layer_index(layers, id)].id == id);
    }
}

/// Layers with the same ids in the same order have the same first layer
/// for every id.
proof fn lemma_layer_index_ids(a: Seq<ModelLayer>, b: Seq<ModelLayer>, id: u8, start: nat)
    requires
        a.len() == b.len(),
        forall|j: int| 0 <= j < a.len() ==> (#[trigger] a[j]).id == b[j].id,
    ensures
        layer_index_from(a, id, start) == layer_index_from(b, id, start),
    decreases a.len() - start,
{
    if start < a.len() {
        assert(a[start as int].id == b[start as int].id);
        lemma_layer_index_ids(a, b, id, start + 1);
    }
}

/// `new` is `old` with the first layer of id `id` shown if hidden and hidden
/// if shown; `old` itself where no layer has that id.
pub open spec fn visibility_toggled(old: Seq<ModelLayer>, new: Seq<ModelLayer>, id: u8) -> bool {
    let i = layer_index(old, id);
    if i < 0 {
        new == old
    } else {
        new == old.update(i, ModelLayer { visible: !old[i].visible, ..old[i] })
    }
}

/// The particles drawn, in order, when no level of detail is chosen: each
/// particle whose layer (the first with its layer id) is visible, with the
/// position of that layer, and each particle of no layer, with none.
pub open spec fn drawn_all(layers: Seq<ModelLayer>, particle_layers: Seq<u8>) -> Seq<(usize, Option<usize>)>
    decreases particle_layers.len(),
{
    if particle_layers.len() == 0 {
        Seq::empty()
    } else {
        let prev = drawn_all(layers, particle_layers.drop_last());
        let i = particle_layers.len() - 1;
        let li = layer_index(layers, particle_layers.last());
        if li < 0 {
            prev.push((i as usize, None))
        } else if layers[li].visible {
            prev.push((i as usize, Some(li as usize)))
        } else {
            prev
        }
    }
}

/// The particles drawn, in order, for a level of detail listing `lod`: those
/// of its indices that name one of the `n` particles, with no layer.
pub open spec fn drawn_lod(lod: Seq<usize>, n: int) -> Seq<(usize, Option<usize>)>
    decreases lod.len(),
{
    if lod.len() == 0 {
        Seq::empty()
    } else {
        let prev = drawn_lod(lod.drop_last(), n);
        if lod.last() < n {
            prev.push((lod.last(), None))
        } else {
            prev
        }
    }
}

/// The layers of a particle model.
#[derive(Clone, Debug)]
pub struct ModelLayers {
    pub layers: Vec<ModelLayer>,
}

impl ModelLayers {
    /// The layers of a new model: one visible layer, "Layer 0", with id 0.
    pub fn new() -> (r: Self)
        ensures
            r.layers@.len() == 1,
            r.layers@[0].id == 0,
            r.layers@[0].name@ == "Layer 0"@,
            r.layers@[0].visible,
            !r.layers@[0].locked,
            r.layers@[0].opacity == OPAQUE,
            r.layers@[0].blend_mode == LayerBlendMode::Replace,
            r.layers@[0].particle_indices@.len() == 0,
    {
        let mut layers: Vec<ModelLayer> = Vec::new();
        layers.push(ModelLayer::new(0, "Layer 0"));
        ModelLayers { layers }
    }

    /// The position of the first layer with id `id`.
    pub fn position_of(&self, id: u8) -> (r: Option<usize>)
        ensures
            match r {
                Some(k) => k == layer_index(self.layers@, id) && first_layer(self.layers@, id, k as int),
                None => layer_index(self.layers@, id) == -1,
            },
    {
        let mut k: usize = 0;
        while k < self.layers.len()
            invariant
                k <= self.layers@.len(),
                forall|j: int| 0 <= j < k ==> (#[trigger] self.layers@[j]).id != id,
                layer_index(self.layers@, id) == layer_index_from(self.layers@, id, k as nat),
            decreases self.layers@.len() - k,
        {
            if self.layers[k].id == id {
                return Some(k);
            }
            k += 1;
        }
        None
    }

    /// Appends a new layer whose id is the number of layers before it, cut
    /// to eight bits; returns that id.
    pub fn add_layer(&mut self, name: &str) -> (id: u8)
        ensures
            id as int == old(self).layers@.len() % 256,
            final(self).layers@.len() == old(self).layers@.len() + 1,
            forall|k: int| 0 <= k < old(self).layers@.len() ==> final(self).layers@[k] == old(self).layers@[k],
            final(self).layers@.last().id == id,
            final(self).layers@.last().name@ == name@,
            final(self).layers@.last().visible,
            !final(self).layers@.last().locked,
            final(self).layers@.last().opacity == OPAQUE,
            final(self).layers@.last().blend_mode == LayerBlendMode::Replace,
            final(self).layers@.last().particle_indices@.len() == 0,
    {
        let id = (self.layers.len() % 256) as u8;
        self.layers.push(ModelLayer::new(id, name));
        id
    }

    /// Lists particle `idx` on the last layer, where there is one.
    pub fn record_particle(&mut self, idx: usize)
        ensures
            old(self).layers@.len() == 0 ==> final(self).layers@ == old(self).layers@,
            old(self).layers@.len() > 0 ==> {
                let last = old(self).layers@.len() - 1;
                &&& final(self).layers@.len() == old(self).layers@.len()
                &&& forall|k: int| 0 <= k < last ==> final(self).layers@[k] == old(self).layers@[k]
                &&& same_but_indices(old(self).layers@[last], final(self).layers@[last])
                &&& final(self).layers@[last].particle_indices@ == old(self).layers@[last].particle_indices@.push(idx)
            },
    {
        let n = self.layers.len();
        if n > 0 {
            let mut layer = self.layers.remove(n - 1);
            layer.particle_indices.push(idx);
            self.layers.push(layer);
        }
    }

    /// Carries every layer's particle list through a removal map, dropping
    /// the particles it removes.
    pub fn remap_particles(&mut self, remap: &[Option<usize>])
        ensures
            final(self).layers@.len() == old(self).layers@.len(),
            forall|k: int|
                0 <= k < old(self).layers@.len() ==> same_but_indices(
                    old(self).layers@[k],
                    #[trigger] final(self).layers@[k],
                ) && final(self).layers@[k].particle_indices@ == remapped_indices(
                    old(self).layers@[k].particle_indices@,
                    remap@,
                ),
    {
        let ghost start = self.layers@;
        let mut out: Vec<ModelLayer> = Vec::new();
        let n = self.layers.len();
        while self.layers.len() > 0
            invariant
                self.layers@.len() + out@.len() == n,
                n == start.len(),
                forall|k: int| 0 <= k < self.layers@.len() ==> #[trigger] self.layers@[k] == start[out@.len() + k],
                forall|k: int|
                    0 <= k < out@.len() ==> same_but_indices(start[k], #[trigger] out@[k])
                        && out@[k].particle_indices@ == remapped_indices(start[k].particle_indices@, remap@),
            decreases self.layers@.len(),
        {
            let mut layer = self.layers.remove(0);
            layer.particle_indices = remap_indices(&layer.particle_indices, remap);
            out.push(layer);
        }
        self.layers = out;
    }

    /// Shows the first layer with id `id` if hidden, hides it if shown.
    pub fn toggle_layer_visibility(&mut self, id: u8)
        ensures
            visibility_toggled(old(self).layers@, final(self).layers@, id),
    {
        match self.position_of(id) {
            Some(i) => {
                let ghost before = self.layers@;
                let mut layer = self.layers.remove(i);
                layer.toggle_visibility();
                self.layers.insert(i, layer);
                proof {
                    assert(self.layers@ =~= before.update(
                        i as int,
                        ModelLayer { visible: !before[i as int].visible, ..before[i as int] },
                    ));
                }
            },
            None => {},
        }
    }

    /// Merges the first layer with id `src_id` into the first with id
    /// `dst_id`: the destination lists its own particles and then those of
    /// the source, every particle it now lists (that exists) takes layer id
    /// `dst_id`, and the source layer is removed. Nothing changes where
    /// either id names no layer. A layer merged into itself lists its
    /// particles twice and is then removed.
    pub fn merge_layer_into(&mut self, particle_layers: &mut Vec<u8>, src_id: u8, dst_id: u8)
        ensures
            ({
                let old_layers = old(self).layers@;
                let si = layer_index(old_layers, src_id);
                let di = layer_index(old_layers, dst_id);
                if si < 0 || di < 0 {
                    final(self).layers@ == old_layers && final(particle_layers)@ == old(particle_layers)@
                } else {
                    let merged = old_layers[di].particle_indices@ + old_layers[si].particle_indices@;
                    &&& final(self).layers@.len() == old_layers.len() - 1
                    &&& forall|k: int|
                        0 <= k < final(self).layers@.len() ==> {
                            let o = if k < si { k } else { k + 1 };
                            if o == di {
                                same_but_indices(old_layers[o], #[trigger] final(self).layers@[k])
                                    && final(self).layers@[k].particle_indices@ == merged
                            } else {
                                final(self).layers@[k] == old_layers[o]
                            }
                        }
                    &&& final(particle_layers)@.len() == old(particle_layers)@.len()
                    &&& forall|p: int|
                        0 <= p < old(particle_layers)@.len() ==> #[trigger] final(particle_layers)@[p] == if merged.contains(
                            p as usize,
                        ) {
                            dst_id
                        } else {
                            old(particle_layers)@[p]
                        }
                }
            }),
    {
        let ghost old_layers = self.layers@;
        let ghost old_tags = particle_layers@;
        let si = match self.position_of(src_id) {
            Some(k) => k,
            None => {
                return;
            },
        };
        let di = match self.position_of(dst_id) {
            Some(k) => k,
            None => {
                return;
            },
        };
        let ghost merged = old_layers[di as int].particle_indices@ + old_layers[si as int].particle_indices@;
        let mut moved: Vec<usize> = Vec::new();
        let n_src = self.layers[si].particle_indices.len();
        for k in 0..n_src
            invariant
                self.layers@ == old_layers,
                si < old_layers.len(),
                n_src == old_layers[si as int].particle_indices@.len(),
                moved@ == old_layers[si as int].particle_indices@.take(k as int),
        {
            moved.push(self.layers[si].particle_indices[k]);
            proof {
                assert(old_layers[si as int].particle_indices@.take(k + 1) =~= old_layers[si as int].particle_indices@.take(
                    k as int,
                ).push(old_layers[si as int].particle_indices@[k as int]));
            }
        }
        proof {
            assert(moved@ =~= old_layers[si as int].particle_indices@);
        }
        let mut dst = self.layers.remove(di);
        let ghost dst_list = dst.particle_indices@;
        for k in 0..moved.len()
            invariant
                same_but_indices(old_layers[di as int], dst),
                dst_list == old_layers[di as int].particle_indices@,
                dst.particle_indices@ == dst_list + moved@.take(k as int),
        {
            dst.particle_indices.push(moved[k]);
            proof {
                assert(moved@.take(k + 1) =~= moved@.take(k as int).push(moved@[k as int]));
                assert(dst_list + moved@.take(k + 1) =~= (dst_list + moved@.take(k as int)).push(moved@[k as int]));
            }
        }
        proof {
            assert(moved@.take(moved@.len() as int) =~= moved@);
            assert(dst.particle_indices@ =~= merged);
        }
        let n_dst = dst.particle_indices.len();
        for k in 0..n_dst
            invariant
                n_dst == dst.particle_indices@.len(),
                dst.particle_indices@ == merged,
                particle_layers@.len() == old_tags.len(),
                forall|p: int|
                    0 <= p < old_tags.len() ==> #[trigger] particle_layers@[p] == if merged.take(k as int).contains(
                        p as usize,
                    ) {
                        dst_id
                    } else {
                        old_tags[p]
                    },
        {
            let pi = dst.particle_indices[k];
            let ghost before = particle_layers@;
            if pi < particle_layers.len() {
                particle_layers.set(pi, dst_id);
            }
            proof {
                let t = merged.take(k as int);
                let t1 = merged.take(k + 1);
                assert(t1 =~= t.push(pi));
                assert forall|p: int| 0 <= p < old_tags.len() implies #[trigger] particle_layers@[p] == if t1.contains(
                    p as usize,
                ) {
                    dst_id
                } else {
                    old_tags[p]
                } by {
                    assert(before[p] == if t.contains(p as usize) {
                        dst_id
                    } else {
                        old_tags[p]
                    });
                    assert(t1[k as int] == pi);
                    if p == pi as int {
                        assert(t1.contains(p as usize));
                        assert(particle_layers@[p] == dst_id);
                    } else {
                        assert(particle_layers@[p] == before[p]);
                        if t1.contains(p as usize) {
                            let j = choose|j: int| 0 <= j < t1.len() && t1[j] == p as usize;
                            assert(j != k);
                            assert(t[j] == p as usize);
                            assert(t.contains(p as usize));
                        }
                        if t.contains(p as usize) {
                            let j = choose|j: int| 0 <= j < t.len() && t[j] == p as usize;
                            assert(t1[j] == p as usize);
                        }
                    }
                }
            }
        }
        proof {
            assert(merged.take(n_dst as int) =~= merged);
        }
        self.layers.insert(di, dst);
        let ghost updated = self.layers@;
        self.layers.remove(si);
        proof {
            assert(updated =~= old_layers.update(di as int, dst));
            assert forall|k: int| 0 <= k < self.layers@.len() implies {
                let o = if k < si { k } else { k + 1 };
                if o == di {
                    same_but_indices(old_layers[o], #[trigger] self.layers@[k])
                        && self.layers@[k].particle_indices@ == merged
                } else {
                    self.layers@[k] == old_layers[o]
                }
            } by {
                let o = if k < si { k } else { k + 1 };
                assert(self.layers@[k] == updated[o]);
            }
        }
    }

    /// The particles to draw, in order, each with the position of the layer
    /// whose opacity applies to it: with no level of detail (`lod` empty),
    /// each particle of a visible layer or of no layer; otherwise the
    /// particles that `lod` lists and that exist, with no layer.
    pub fn drawn_particles(&self, particle_layers: &[u8], lod: &[usize]) -> (r: Vec<(usize, Option<usize>)>)
        ensures
            lod@.len() == 0 ==> r@ == drawn_all(self.layers@, particle_layers@),
            lod@.len() > 0 ==> r@ == drawn_lod(lod@, particle_layers@.len() as int),
    {
        let mut r: Vec<(usize, Option<usize>)> = Vec::new();
        if lod.len() == 0 {
            for i in 0..particle_layers.len()
                invariant
                    r@ == drawn_all(self.layers@, particle_layers@.take(i as int)),
            {
                proof {
                    assert(particle_layers@.take(i + 1).drop_last() =~= particle_layers@.take(i as int));
                }
                match self.position_of(particle_layers[i]) {
                    Some(li) => {
                        if self.layers[li].visible {
                            r.push((i, Some(li)));
                        }
                    },
                    None => {
                        r.push((i, None));
                    },
                }
            }
            proof {
                assert(particle_layers@.take(particle_layers@.len() as int) =~= particle_layers@);
            }
        } else {
            let n = particle_layers.len();
            for k in 0..lod.len()
                invariant
                    n == particle_layers@.len(),
                    r@ == drawn_lod(lod@.take(k as int), n as int),
            {
                proof {
                    assert(lod@.take(k + 1).drop_last() =~= lod@.take(k as int));
                }
                let pi = lod[k];
                if pi < n {
                    r.push((pi, None));
                }
            }
            proof {
                assert(lod@.take(lod@.len() as int) =~= lod@);
            }
        }
        r
    }
}

/// Toggling the visibility of the same layer twice restores the layers.
pub proof fn lemma_toggle_visibility_twice(a: Seq<ModelLayer>, b: Seq<ModelLayer>, c: Seq<ModelLayer>, id: u8)
    requires
        visibility_toggled(a, b, id),
        visibility_toggled(b, c, id),
    ensures
        c == a,
{
    let i = layer_index(a, id);
    if i >= 0 {
        lemma_layer_index(a, id);
        lemma_layer_index_ids(a, b, id, 0);
        assert(c =~= a);
    } else {
        assert(b == a);
    }
}

} // verus!
