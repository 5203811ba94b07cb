//! Surface topology of a particle cloud: the proximity graph of the
//! particles, its triangles, the incidence lists of both, its connected
//! components, and the groups a merge by distance collapses.
//!
//! Which particles are near each other is a geometric question; the
//! topology takes the answer as a row-major matrix of flags.

use crate::spatial::{greedy_thinning, VisualizationHelper};
use std::collections::HashMap;
use vstd::prelude::*;

verus! {

broadcast use vstd::std_specs::hash::group_hash_axioms;

/// Whether particles `i` and `j` are near in the row-major matrix `near` of side `n`.
pub open spec fn is_near(near: Seq<bool>, n: int, i: int, j: int) -> bool {
    near[i * n + j]
}

pub open spec fn pair_lt(p: (usize, usize), q: (usize, usize)) -> bool {
    p.0 < q.0 || (p.0 == q.0 && p.1 < q.1)
}

/// `edges` lists the near pairs `(i, j)` with `i < j < n`, each once, in
/// lexicographic order.
pub open spec fn proximity_edges(n: int, near: Seq<bool>, edges: Seq<(usize, usize)>) -> bool {
    &&& forall|k: int|
        0 <= k < edges.len() ==> edges[k].0 < edges[k].1 < n && is_near(
            near,
            n,
            edges[k].0 as int,
            edges[k].1 as int,
        )
    &&& forall|k1: int, k2: int| 0 <= k1 < k2 < edges.len() ==> pair_lt(edges[k1], edges[k2])
    &&& forall|a: usize, b: usize|
        a < b < n && is_near(near, n, a as int, b as int) ==> edges.contains((a, b))
}

/// The ids (positions) of the edges that touch `v`, ascending.
pub open spec fn incident_edge_ids(edges: Seq<(usize, usize)>, v: usize) -> Seq<usize>
    decreases edges.len(),
{
    if edges.len() == 0 {
        Seq::empty()
    } else {
        let k = edges.len() - 1;
        let prev = incident_edge_ids(edges.drop_last(), v);
        if edges[k].0 == v || edges[k].1 == v {
            prev.push(k as usize)
        } else {
            prev
        }
    }
}

/// The list a map holds for `v`; empty when `v` has no entry.
pub open spec fn incidence(m: Map<usize, Vec<usize>>, v: usize) -> Seq<usize> {
    if m.dom().contains(v) {
        m[v]@
    } else {
        Seq::empty()
    }
}

/// `m` maps each vertex touched by some edge to the ids of those edges,
/// ascending, and has no entry for any other vertex.
pub open spec fn edge_index(m: Map<usize, Vec<usize>>, edges: Seq<(usize, usize)>) -> bool {
    forall|v: usize|
        #[trigger] incidence(m, v) == incident_edge_ids(edges, v) && (m.dom().contains(v)
            ==> incident_edge_ids(edges, v).len() > 0)
}

/// Whether `a < b < c < n` are pairwise near.
pub open spec fn is_triangle(near: Seq<bool>, n: int, a: int, b: int, c: int) -> bool {
    &&& 0 <= a < b
    &&& b < c < n
    &&& is_near(near, n, a, b)
    &&& is_near(near, n, a, c)
    &&& is_near(near, n, b, c)
}

pub open spec fn face_lt(f: [usize; 3], g: [usize; 3]) -> bool {
    ||| f[0] < g[0]
    ||| (f[0] == g[0] && f[1] < g[1])
    ||| (f[0] == g[0] && f[1] == g[1] && f[2] < g[2])
}

/// Whether `faces` holds the face `[a, b, c]`.
pub open spec fn has_face(faces: Seq<[usize; 3]>, a: usize, b: usize, c: usize) -> bool {
    exists|k: int| 0 <= k < faces.len() && #[trigger] faces[k][0] == a && faces[k][1] == b && faces[k][2] == c
}

/// `faces` lists the triangles of the proximity graph, each as its sorted
/// corners, each once, in lexicographic order.
pub open spec fn proximity_faces(n: int, near: Seq<bool>, faces: Seq<[usize; 3]>) -> bool {
    &&& forall|k: int|
        0 <= k < faces.len() ==> is_triangle(
            near,
            n,
            faces[k][0] as int,
            faces[k][1] as int,
            faces[k][2] as int,
        )
    &&& forall|k1: int, k2: int| 0 <= k1 < k2 < faces.len() ==> face_lt(faces[k1], faces[k2])
    &&& forall|a: usize, b: usize, c: usize|
        is_triangle(near, n, a as int, b as int, c as int) ==> has_face(faces, a, b, c)
}

pub open spec fn face_has(f: [usize; 3], v: usize) -> bool {
    f[0] == v || f[1] == v || f[2] == v
}

/// The ids of the faces that have `v` as a corner, ascending.
pub open spec fn incident_face_ids(faces: Seq<[usize; 3]>, v: usize) -> Seq<usize>
    decreases faces.len(),
{
    if faces.len() == 0 {
        Seq::empty()
    } else {
        let k = faces.len() - 1;
        let prev = incident_face_ids(faces.drop_last(), v);
        if face_has(faces[k], v) {
            prev.push(k as usize)
        } else {
            prev
        }
    }
}

/// `m` maps each vertex that is a corner of some face to the ids of those
/// faces, ascending, and has no entry for any other vertex.
pub open spec fn face_index(m: Map<usize, Vec<usize>>, faces: Seq<[usize; 3]>) -> bool {
    forall|v: usize|
        #[trigger] incidence(m, v) == incident_face_ids(faces, v) && (m.dom().contains(v)
            ==> incident_face_ids(faces, v).len() > 0)
}

/// The number of faces that have both `a` and `b` as corners.
pub open spec fn faces_on(faces: Seq<[usize; 3]>, a: usize, b: usize) -> nat
    decreases faces.len(),
{
    if faces.len() == 0 {
        0
    } else {
        faces_on(faces.drop_last(), a, b) + if face_has(faces.last(), a) && face_has(faces.last(), b) {
            1nat
        } else {
            0nat
        }
    }
}

/// Every edge id in the edge incidence lists names an edge.
pub open spec fn edge_ids_valid(m: Map<usize, Vec<usize>>, edge_count: int) -> bool {
    forall|v: usize, k: int|
        m.dom().contains(v) && 0 <= k < m[v]@.len() ==> #[trigger] m[v]@[k] < edge_count
}

proof fn lemma_incident_ids_bounded(edges: Seq<(usize, usize)>, v: usize)
    ensures
        forall|k: int|
            0 <= k < incident_edge_ids(edges, v).len() ==> #[trigger] incident_edge_ids(edges, v)[k]
                < edges.len(),
    decreases edges.len(),
{
    if edges.len() > 0 {
        let prev = incident_edge_ids(edges.drop_last(), v);
        lemma_incident_ids_bounded(edges.drop_last(), v);
        assert forall|k: int| 0 <= k < incident_edge_ids(edges, v).len() implies #[trigger] incident_edge_ids(
            edges,
            v,
        )[k] < edges.len() by {
            if k < prev.len() {
                assert(prev[k] < edges.len() - 1);
            }
        }
    }
}

proof fn lemma_edge_index_valid(m: Map<usize, Vec<usize>>, edges: Seq<(usize, usize)>)
    requires
        edge_index(m, edges),
    ensures
        edge_ids_valid(m, edges.len() as int),
{
    assert forall|v: usize, k: int| m.dom().contains(v) && 0 <= k < m[v]@.len() implies #[trigger] m[v]@[k]
        < edges.len() by {
        assert(incidence(m, v) == incident_edge_ids(edges, v));
        lemma_incident_ids_bounded(edges, v);
    }
}

/// Every face of a triangulated proximity graph lies on three of its edges.
pub proof fn lemma_face_edges_present(
    n: int,
    near: Seq<bool>,
    edges: Seq<(usize, usize)>,
    faces: Seq<[usize; 3]>,
    k: int,
)
    requires
        proximity_edges(n, near, edges),
        proximity_faces(n, near, faces),
        0 <= k < faces.len(),
    ensures
        edges.contains((faces[k][0], faces[k][1])),
        edges.contains((faces[k][0], faces[k][2])),
        edges.contains((faces[k][1], faces[k][2])),
{
}

/// Appends `id` to the list of `v`, creating the entry when needed.
fn push_incidence(m: &mut HashMap<usize, Vec<usize>>, v: usize, id: usize)
    ensures
        forall|w: usize|
            w != v ==> #[trigger] incidence(final(m)@, w) == incidence(old(m)@, w)
                && (final(m)@.dom().contains(w) == old(m)@.dom().contains(w)),
        incidence(final(m)@, v) == incidence(old(m)@, v).push(id),
        final(m)@.dom().contains(v),
{
    let mut list = match m.remove(&v) {
        Some(l) => l,
        None => Vec::new(),
    };
    list.push(id);
    m.insert(v, list);
}

/// Appends face `[a, b, c]` (distinct corners) and lists it under each corner.
#[verifier::spinoff_prover]
fn record_face(faces: &mut Vec<[usize; 3]>, index: &mut HashMap<usize, Vec<usize>>, a: usize, b: usize, c: usize)
    requires
        a != b && a != c && b != c,
        face_index(old(index)@, old(faces)@),
    ensures
        final(faces)@.len() == old(faces)@.len() + 1,
        forall|k: int| 0 <= k < old(faces)@.len() ==> final(faces)@[k] == old(faces)@[k],
        final(faces)@[old(faces)@.len() as int][0] == a,
        final(faces)@[old(faces)@.len() as int][1] == b,
        final(faces)@[old(faces)@.len() as int][2] == c,
        face_index(final(index)@, final(faces)@),
{
    let fid = faces.len();
    let ghost old_faces = faces@;
    let ghost old_index = index@;
    faces.push([a, b, c]);
    push_incidence(index, a, fid);
    let ghost after_a = index@;
    push_incidence(index, b, fid);
    let ghost after_b = index@;
    push_incidence(index, c, fid);
    proof {
        assert(faces@.drop_last() =~= old_faces);
        assert forall|v: usize| #[trigger]
            incidence(index@, v) == incident_face_ids(faces@, v) && (index@.dom().contains(v)
                ==> incident_face_ids(faces@, v).len() > 0) by {
            assert(incidence(old_index, v) == incident_face_ids(old_faces, v));
            assert(face_has(faces@[fid as int], v) == (v == a || v == b || v == c));
            let ids = incident_face_ids(faces@, v);
            assert(ids == if face_has(faces@[fid as int], v) {
                incident_face_ids(old_faces, v).push(fid)
            } else {
                incident_face_ids(old_faces, v)
            });
            if v == a {
                assert(incidence(after_a, v) == incidence(old_index, v).push(fid));
                assert(incidence(after_b, v) == incidence(after_a, v));
                assert(incidence(index@, v) == incidence(after_b, v));
            } else if v == b {
                assert(incidence(after_a, v) == incidence(old_index, v));
                assert(incidence(after_b, v) == incidence(after_a, v).push(fid));
                assert(incidence(index@, v) == incidence(after_b, v));
            } else if v == c {
                assert(incidence(after_a, v) == incidence(old_index, v));
                assert(incidence(after_b, v) == incidence(after_a, v));
                assert(incidence(index@, v) == incidence(after_b, v).push(fid));
            } else {
                assert(incidence(after_a, v) == incidence(old_index, v));
                assert(incidence(after_b, v) == incidence(after_a, v));
                assert(incidence(index@, v) == incidence(after_b, v));
                assert(index@.dom().contains(v) == old_index.dom().contains(v));
            }
        }
        assert(face_index(index@, faces@));
    }
}

impl VisualizationHelper {
    /// The pairs `(i, j)`, `i < j < n`, of near particles, in lexicographic
    /// order (`near` as for [`ParticleMesh::build_from_proximity`]).
    pub fn find_edges(n: usize, near: &[bool]) -> (r: Vec<(usize, usize)>)
        requires
            near@.len() == n * n,
        ensures
            proximity_edges(n as int, near@, r@),
    {
        let total = near.len();
        let mut edges: Vec<(usize, usize)> = Vec::new();
        let mut i: usize = 0;
        while i < n
            invariant
                i <= n,
                near@.len() == n * n,
                total == n * n,
                forall|k: int|
                    0 <= k < edges@.len() ==> edges@[k].0 < edges@[k].1 < n && is_near(
                        near@,
                        n as int,
                        edges@[k].0 as int,
                        edges@[k].1 as int,
                    ) && edges@[k].0 < i,
                forall|k1: int, k2: int| 0 <= k1 < k2 < edges@.len() ==> pair_lt(edges@[k1], edges@[k2]),
                forall|a: usize, b: usize|
                    a < b < n && a < i && is_near(near@, n as int, a as int, b as int) ==> edges@.contains(
                        (a, b),
                    ),
            decreases n - i,
        {
            let mut j: usize = i + 1;
            while j < n
                invariant
                    i < n,
                    i + 1 <= j <= n,
                    near@.len() == n * n,
                    total == n * n,
                    forall|k: int|
                        0 <= k < edges@.len() ==> edges@[k].0 < edges@[k].1 < n && is_near(
                            near@,
                            n as int,
                            edges@[k].0 as int,
                            edges@[k].1 as int,
                        ) && pair_lt(edges@[k], (i, j)),
                    forall|k1: int, k2: int| 0 <= k1 < k2 < edges@.len() ==> pair_lt(edges@[k1], edges@[k2]),
                    forall|a: usize, b: usize|
                        a < b < n && pair_lt((a, b), (i, j)) && is_near(near@, n as int, a as int, b as int)
                            ==> edges@.contains((a, b)),
                decreases n - j,
            {
                assert(i * n + j < n * n) by (nonlinear_arith)
                    requires
                        i < n,
                        j < n,
                ;
                if near[i * n + j] {
                    let eid = edges.len();
                    let ghost old_edges = edges@;
                    edges.push((i, j));
                    assert(edges@[eid as int] == (i, j));
                    assert(forall|k: int| 0 <= k < old_edges.len() ==> edges@[k] == old_edges[k]);
                    assert forall|x: usize, y: usize|
                        x < y < n && (x < i || (x == i && y <= j)) && is_near(near@, n as int, x as int, y as int)
                            implies edges@.contains((x, y)) by {
                        if x == i && y == j {
                            assert(edges@[eid as int] == (x, y));
                        } else {
                            assert(old_edges.contains((x, y)));
                            let k = choose|k: int| 0 <= k < old_edges.len() && old_edges[k] == (x, y);
                            assert(edges@[k] == (x, y));
                        }
                    }
                }
                j += 1;
            }
            i += 1;
        }
        edges
    }
}


/// Surface topology over particles `0..vertices.len()`.
pub struct ParticleMesh {
    pub vertices: Vec<usize>,
    pub edges: Vec<(usize, usize)>,
    pub faces: Vec<[usize; 3]>,
    pub vert_to_faces: HashMap<usize, Vec<usize>>,
    pub vert_to_edges: HashMap<usize, Vec<usize>>,
}

impl ParticleMesh {
    pub fn new() -> (r: Self)
        ensures
            r.vertices@.len() == 0,
            r.edges@.len() == 0,
            r.faces@.len() == 0,
            r.vert_to_faces@ == Map::<usize, Vec<usize>>::empty(),
            r.vert_to_edges@ == Map::<usize, Vec<usize>>::empty(),
    {
        ParticleMesh {
            vertices: Vec::new(),
            edges: Vec::new(),
            faces: Vec::new(),
            vert_to_faces: HashMap::new(),
            vert_to_edges: HashMap::new(),
        }
    }

    /// Whether `v` touches an edge that lies on exactly one face.
    pub open spec fn is_boundary_vertex(&self, v: usize) -> bool {
        let eids = self.vert_to_edges@[v]@;
        &&& self.vert_to_edges@.dom().contains(v)
        &&& exists|k: int|
            0 <= k < eids.len() && faces_on(
                self.faces@,
                #[trigger] self.edges@[eids[k] as int].0,
                self.edges@[eids[k] as int].1,
            ) == 1
    }

    /// The topology of `n` particles of which `near[i * n + j]` tells whether
    /// particles `i` and `j` lie within edge length of each other (only the
    /// entries with `i < j` are read): the vertices `0..n`, the edges of the
    /// proximity graph, its triangles, and the incidence lists of both.
    pub fn build_from_proximity(n: usize, near: &[bool]) -> (mesh: Self)
        requires
            near@.len() == n * n,
        ensures
            mesh.vertices@ == Seq::new(n as nat, |i: int| i as usize),
            proximity_edges(n as int, near@, mesh.edges@),
            edge_index(mesh.vert_to_edges@, mesh.edges@),
            edge_ids_valid(mesh.vert_to_edges@, mesh.edges@.len() as int),
            proximity_faces(n as int, near@, mesh.faces@),
            face_index(mesh.vert_to_faces@, mesh.faces@),
    {
        let mut vertices: Vec<usize> = Vec::new();
        for i in 0..n
            invariant
                vertices@ == Seq::new(i as nat, |k: int| k as usize),
        {
            vertices.push(i);
            assert(vertices@ =~= Seq::new((i + 1) as nat, |k: int| k as usize));
        }
        let edges = VisualizationHelper::find_edges(n, near);
        let vert_to_edges = Self::index_edges(&edges);
        let (faces, vert_to_faces) = Self::proximity_triangles(n, near, &edges);
        proof {
            lemma_edge_index_valid(vert_to_edges@, edges@);
        }
        ParticleMesh { vertices, edges, faces, vert_to_faces, vert_to_edges }
    }

    fn count_faces_on(&self, a: usize, b: usize) -> (r: usize)
        ensures
            r == faces_on(self.faces@, a, b),
    {
        let mut count: usize = 0;
        let mut k: usize = 0;
        while k < self.faces.len()
            invariant
                k <= self.faces@.len(),
                count == faces_on(self.faces@.take(k as int), a, b),
                count <= k,
            decreases self.faces@.len() - k,
        {
            let f = self.faces[k];
            assert(self.faces@.take(k + 1).drop_last() =~= self.faces@.take(k as int));
            if (f[0] == a || f[1] == a || f[2] == a) && (f[0] == b || f[1] == b || f[2] == b) {
                count += 1;
            }
            k += 1;
        }
        assert(self.faces@.take(self.faces@.len() as int) =~= self.faces@);
        count
    }

    fn touches_boundary(&self, v: usize) -> (r: bool)
        requires
            edge_ids_valid(self.vert_to_edges@, self.edges@.len() as int),
        ensures
            r == self.is_boundary_vertex(v),
    {
        match self.vert_to_edges.get(&v) {
            None => false,
            Some(eids) => {
                let mut k: usize = 0;
                while k < eids.len()
                    invariant
                        k <= eids@.len(),
                        self.vert_to_edges@.dom().contains(v),
                        self.vert_to_edges@[v] == *eids,
                        edge_ids_valid(self.vert_to_edges@, self.edges@.len() as int),
                        forall|j: int|
                            0 <= j < k ==> faces_on(
                                self.faces@,
                                #[trigger] self.edges@[eids@[j] as int].0,
                                self.edges@[eids@[j] as int].1,
                            ) != 1,
                    decreases eids@.len() - k,
                {
                    assert(eids@[k as int] < self.edges@.len());
                    let (a, b) = self.edges[eids[k]];
                    if self.count_faces_on(a, b) == 1 {
                        return true;
                    }
                    k += 1;
                }
                false
            },
        }
    }

    /// The vertices, in order, that touch an edge lying on exactly one face.
    pub fn boundary_vertices(&self) -> (r: Vec<usize>)
        requires
            edge_ids_valid(self.vert_to_edges@, self.edges@.len() as int),
        ensures
            r@ == self.vertices@.filter(|v: usize| self.is_boundary_vertex(v)),
    {
        let ghost pred = |v: usize| self.is_boundary_vertex(v);
        let mut r: Vec<usize> = Vec::new();
        let mut i: usize = 0;
        while i < self.vertices.len()
            invariant
                i <= self.vertices@.len(),
                edge_ids_valid(self.vert_to_edges@, self.edges@.len() as int),
                pred == (|v: usize| self.is_boundary_vertex(v)),
                r@ == self.vertices@.take(i as int).filter(pred),
            decreases self.vertices@.len() - i,
        {
            let v = self.vertices[i];
            let ghost next = self.vertices@.take(i + 1);
            assert(next =~= self.vertices@.take(i as int).push(v));
            proof {
                self.vertices@.take(i as int).lemma_filter_push(v, pred);
            }
            let hit = self.touches_boundary(v);
            assert(pred(v) == hit);
            if hit {
                r.push(v);
            }
            i += 1;
        }
        assert(self.vertices@.take(self.vertices@.len() as int) =~= self.vertices@);
        r
    }

    /// Incidence lists of an edge list: for each vertex, the ids of the
    /// edges touching it, ascending.
    fn index_edges(edges: &Vec<(usize, usize)>) -> (r: HashMap<usize, Vec<usize>>)
        requires
            forall|k: int| 0 <= k < edges@.len() ==> edges@[k].0 != edges@[k].1,
        ensures
            edge_index(r@, edges@),
    {
        let mut index: HashMap<usize, Vec<usize>> = HashMap::new();
        let mut k: usize = 0;
        proof {
            assert forall|v: usize| #[trigger] incidence(index@, v) == incident_edge_ids(edges@.take(0), v)
                && (index@.dom().contains(v) ==> incident_edge_ids(edges@.take(0), v).len() > 0) by {}
        }
        while k < edges.len()
            invariant
                k <= edges@.len(),
                forall|j: int| 0 <= j < edges@.len() ==> edges@[j].0 != edges@[j].1,
                edge_index(index@, edges@.take(k as int)),
            decreases edges@.len() - k,
        {
            let e = edges[k];
            let ghost prefix = edges@.take(k as int);
            let ghost old_index = index@;
            push_incidence(&mut index, e.0, k);
            push_incidence(&mut index, e.1, k);
            proof {
                let next = edges@.take(k + 1);
                assert(next.drop_last() =~= prefix);
                assert(next[k as int] == e);
                assert forall|v: usize| #[trigger]
                    incidence(index@, v) == incident_edge_ids(next, v) && (index@.dom().contains(v)
                        ==> incident_edge_ids(next, v).len() > 0) by {
                    assert(incidence(old_index, v) == incident_edge_ids(prefix, v));
                    assert(incident_edge_ids(next, v) == if e.0 == v || e.1 == v {
                        incident_edge_ids(prefix, v).push(k)
                    } else {
                        incident_edge_ids(prefix, v)
                    });
                }
                assert(edge_index(index@, next));
            }
            k += 1;
        }
        assert(edges@.take(edges@.len() as int) =~= edges@);
        index
    }

    /// The triangles of a proximity graph and their incidence lists.
    fn proximity_triangles(n: usize, near: &[bool], edges: &Vec<(usize, usize)>) -> (r: (
        Vec<[usize; 3]>,
        HashMap<usize, Vec<usize>>,
    ))
        requires
            near@.len() == n * n,
            proximity_edges(n as int, near@, edges@),
        ensures
            proximity_faces(n as int, near@, r.0@),
            face_index(r.1@, r.0@),
    {
        let total = near.len();
        let mut faces: Vec<[usize; 3]> = Vec::new();
        let mut index: HashMap<usize, Vec<usize>> = HashMap::new();
        let mut e: usize = 0;
        while e < edges.len()
            invariant
                e <= edges@.len(),
                near@.len() == n * n,
                total == n * n,
                proximity_edges(n as int, near@, edges@),
                forall|k: int|
                    0 <= k < faces@.len() ==> is_triangle(
                        near@,
                        n as int,
                        faces@[k][0] as int,
                        faces@[k][1] as int,
                        faces@[k][2] as int,
                    ),
                forall|k1: int, k2: int| 0 <= k1 < k2 < faces@.len() ==> face_lt(faces@[k1], faces@[k2]),
                forall|k: int| #![trigger faces@[k]]
                    0 <= k < faces@.len() ==> exists|m: int|
                        0 <= m < e && #[trigger] edges@[m] == (faces@[k][0], faces@[k][1]),
                forall|a: usize, b: usize, c: usize|
                    is_triangle(near@, n as int, a as int, b as int, c as int) && (exists|m: int|
                        0 <= m < e && #[trigger] edges@[m] == (a, b)) ==> has_face(faces@, a, b, c),
                face_index(index@, faces@),
            decreases edges@.len() - e,
        {
            let (a, b) = edges[e];
            let mut c: usize = b + 1;
            while c < n
                invariant
                    e < edges@.len(),
                    edges@[e as int] == (a, b),
                    a < b < n,
                    b + 1 <= c <= n,
                    near@.len() == n * n,
                    total == n * n,
                    proximity_edges(n as int, near@, edges@),
                    forall|k: int|
                        0 <= k < faces@.len() ==> is_triangle(
                            near@,
                            n as int,
                            faces@[k][0] as int,
                            faces@[k][1] as int,
                            faces@[k][2] as int,
                        ),
                    forall|k1: int, k2: int| 0 <= k1 < k2 < faces@.len() ==> face_lt(faces@[k1], faces@[k2]),
                    forall|k: int| #![trigger faces@[k]]
                        0 <= k < faces@.len() ==> (exists|m: int|
                            0 <= m < e && #[trigger] edges@[m] == (faces@[k][0], faces@[k][1])) || (
                        faces@[k][0] == a && faces@[k][1] == b && faces@[k][2] < c),
                    forall|x: usize, y: usize, z: usize|
                        is_triangle(near@, n as int, x as int, y as int, z as int) && ((exists|m: int|
                            0 <= m < e && #[trigger] edges@[m] == (x, y)) || (x == a && y == b && z < c))
                            ==> has_face(faces@, x, y, z),
                    face_index(index@, faces@),
                decreases n - c,
            {
                assert(a * n + c < n * n && b * n + c < n * n) by (nonlinear_arith)
                    requires
                        a < n,
                        b < n,
                        c < n,
                ;
                if near[a * n + c] && near[b * n + c] {
                    let fid = faces.len();
                    let ghost old_faces = faces@;
                    record_face(&mut faces, &mut index, a, b, c);
                    proof {
                        assert(faces@[fid as int][0] == a && faces@[fid as int][1] == b && faces@[fid as int][2] == c);
                        assert forall|k1: int, k2: int| 0 <= k1 < k2 < faces@.len() implies face_lt(
                            faces@[k1],
                            faces@[k2],
                        ) by {
                            if k2 == fid {
                                if exists|m: int| 0 <= m < e && #[trigger] edges@[m] == (faces@[k1][0], faces@[k1][1]) {
                                    let m = choose|m: int| 0 <= m < e && #[trigger] edges@[m] == (faces@[k1][0], faces@[k1][1]);
                                    assert(pair_lt(edges@[m], edges@[e as int]));
                                }
                            }
                        }
                        assert forall|x: usize, y: usize, z: usize|
                            is_triangle(near@, n as int, x as int, y as int, z as int) && ((exists|m: int|
                                0 <= m < e && #[trigger] edges@[m] == (x, y)) || (x == a && y == b && z < c + 1))
                                implies has_face(faces@, x, y, z) by {
                            if x == a && y == b && z == c {
                                assert(faces@[fid as int][0] == x);
                            } else {
                                assert(has_face(old_faces, x, y, z));
                                let k = choose|k: int| 0 <= k < old_faces.len() && #[trigger] old_faces[k][0] == x
                                    && old_faces[k][1] == y && old_faces[k][2] == z;
                                assert(faces@[k] == old_faces[k]);
                            }
                        }
                    }
                } else {
                    proof {
                        assert forall|x: usize, y: usize, z: usize|
                            is_triangle(near@, n as int, x as int, y as int, z as int) && ((exists|m: int|
                                0 <= m < e && #[trigger] edges@[m] == (x, y)) || (x == a && y == b && z < c + 1))
                                implies has_face(faces@, x, y, z) by {
                            if x == a && y == b && z == c {
                                assert(is_near(near@, n as int, a as int, c as int));
                            }
                        }
                    }
                }
                c += 1;
            }
            proof {
                assert forall|k: int| #![trigger faces@[k]]
                    0 <= k < faces@.len() implies exists|m: int|
                        0 <= m < e + 1 && #[trigger] edges@[m] == (faces@[k][0], faces@[k][1]) by {
                    if faces@[k][0] == a && faces@[k][1] == b {
                        assert(edges@[e as int] == (faces@[k][0], faces@[k][1]));
                    }
                }
                assert forall|x: usize, y: usize, z: usize|
                    is_triangle(near@, n as int, x as int, y as int, z as int) && (exists|m: int|
                        0 <= m < e + 1 && #[trigger] edges@[m] == (x, y)) implies has_face(faces@, x, y, z) by {
                    let m = choose|m: int| 0 <= m < e + 1 && #[trigger] edges@[m] == (x, y);
                    if m < e {
                    } else {
                        assert(x == a && y == b && z < n);
                    }
                }
            }
            e += 1;
        }
        proof {
            assert forall|a: usize, b: usize, c: usize|
                is_triangle(near@, n as int, a as int, b as int, c as int) implies has_face(faces@, a, b, c) by {
                assert(edges@.contains((a, b)));
                let m = choose|m: int| 0 <= m < edges@.len() && edges@[m] == (a, b);
                assert(edges@[m] == (a, b));
            }
        }
        (faces, index)
    }
}


// ---------------------------------------------------------------------------
// Connected components of the proximity graph
// ---------------------------------------------------------------------------

/// The near matrix is symmetric, as nearness by distance is.
pub open spec fn near_symmetric(near: Seq<bool>, n: int) -> bool {
    forall|a: int, b: int| 0 <= a < n && 0 <= b < n ==> is_near(near, n, a, b) == is_near(near, n, b, a)
}

/// Every particle near a member of `c` is a member.
pub open spec fn comp_closed(near: Seq<bool>, n: int, c: Seq<usize>) -> bool {
    forall|k: int, w: usize|
        0 <= k < c.len() && w < n && #[trigger] is_near(near, n, c[k] as int, w as int) ==> c.contains(w)
}

/// Member `k` of `c` is near an earlier member.
pub open spec fn linked_at(near: Seq<bool>, n: int, c: Seq<usize>, k: int) -> bool {
    exists|p: int| 0 <= p < k && #[trigger] is_near(near, n, c[p] as int, c[k] as int)
}

/// Every member after the first is near an earlier member.
pub open spec fn comp_linked(near: Seq<bool>, n: int, c: Seq<usize>) -> bool {
    forall|k: int| 0 < k < c.len() ==> #[trigger] linked_at(near, n, c, k)
}

/// `c[p]` is the first member of `c` that member `k` is near: the member
/// from which a breadth-first search reaches it.
pub open spec fn bfs_parent(near: Seq<bool>, n: int, c: Seq<usize>, k: int, p: int) -> bool {
    &&& 0 <= p < k
    &&& is_near(near, n, c[p] as int, c[k] as int)
    &&& forall|q: int| 0 <= q < p ==> !#[trigger] is_near(near, n, c[q] as int, c[k] as int)
}

/// `c` lists its members in breadth-first order: members reached from an
/// earlier member come first, and those reached from the same member come
/// in increasing order.
pub open spec fn bfs_ordered(near: Seq<bool>, n: int, c: Seq<usize>) -> bool {
    forall|k1: int, k2: int, p1: int, p2: int|
        0 < k1 < k2 < c.len() && #[trigger] bfs_parent(near, n, c, k1, p1) && #[trigger] bfs_parent(near, n, c, k2, p2)
            ==> p1 < p2 || (p1 == p2 && c[k1] < c[k2])
}

/// Whether some component holds `v`.
pub open spec fn in_components(comps: Seq<Vec<usize>>, v: usize) -> bool {
    exists|i: int| 0 <= i < comps.len() && #[trigger] comps[i]@.contains(v)
}

/// The components are the connected components of the proximity graph of
/// particles `0..n`, each listed from its smallest particle, the components
/// ordered by their smallest particle.
pub open spec fn proximity_components(near: Seq<bool>, n: int, comps: Seq<Vec<usize>>) -> bool {
    &&& forall|v: usize| v < n ==> in_components(comps, v)
    &&& forall|i: int, k: int| 0 <= i < comps.len() && 0 <= k < comps[i]@.len() ==> #[trigger] comps[i]@[k] < n
    &&& forall|i: int| 0 <= i < comps.len() ==> (#[trigger] comps[i])@.no_duplicates()
    &&& forall|i: int, j: int, v: usize|
        0 <= i < j < comps.len() && #[trigger] comps[i]@.contains(v) ==> !(#[trigger] comps[j]@.contains(v))
    &&& forall|i: int| 0 <= i < comps.len() ==> comp_closed(near, n, #[trigger] comps[i]@)
    &&& forall|i: int| 0 <= i < comps.len() ==> comp_linked(near, n, #[trigger] comps[i]@)
    &&& forall|i: int| 0 <= i < comps.len() ==> bfs_ordered(near, n, #[trigger] comps[i]@)
    &&& forall|i: int| 0 <= i < comps.len() ==> (#[trigger] comps[i])@.len() > 0
    &&& forall|i: int, k: int| 0 <= i < comps.len() && 0 <= k < comps[i]@.len() ==> comps[i]@[0] <= #[trigger] comps[i]@[k]
    &&& forall|i: int, j: int| 0 <= i < j < comps.len() ==> (#[trigger] comps[i])@[0] < (#[trigger] comps[j])@[0]
}


/// Breadth-first search from `start` over the particles not yet visited;
/// marks and returns them in the order they are reached.
fn explore(
    n: usize,
    near: &[bool],
    visited: &mut Vec<bool>,
    start: usize,
    Ghost(prev): Ghost<Seq<Vec<usize>>>,
) -> (r: Vec<usize>)
    requires
        near@.len() == n * n,
        near_symmetric(near@, n as int),
        old(visited)@.len() == n,
        start < n,
        !old(visited)@[start as int],
        forall|v: usize| v < n ==> (old(visited)@[v as int] <==> in_components(prev, v)),
        forall|v: usize| v < start ==> old(visited)@[v as int],
        forall|i: int| 0 <= i < prev.len() ==> comp_closed(near@, n as int, #[trigger] prev[i]@),
    ensures
        final(visited)@.len() == n,
        r@.len() > 0,
        r@[0] == start,
        r@.no_duplicates(),
        forall|k: int| 0 <= k < r@.len() ==> start <= #[trigger] r@[k] < n,
        forall|k: int| 0 <= k < r@.len() ==> !old(visited)@[#[trigger] r@[k] as int],
        forall|v: usize| v < n ==> (final(visited)@[v as int] <==> old(visited)@[v as int] || r@.contains(v)),
        comp_closed(near@, n as int, r@),
        comp_linked(near@, n as int, r@),
        bfs_ordered(near@, n as int, r@),
{
    let ghost before = visited@;
    let ghost mut parents: Seq<int> = seq![0int];
    let total = near.len();
    let mut order: Vec<usize> = Vec::new();
    order.push(start);
    visited.set(start, true);
    proof {
        assert forall|v: usize| v < n implies (visited@[v as int] <==> before[v as int] || order@.contains(v)) by {
            if order@.contains(v) {
                let k = choose|k: int| 0 <= k < order@.len() && order@[k] == v;
                assert(k == 0);
            }
            if v == start {
                assert(order@[0] == v);
            }
        }
    }
    let mut head: usize = 0;
    while head < order.len()
        invariant
            near@.len() == n * n,
            total == n * n,
            near_symmetric(near@, n as int),
            visited@.len() == n,
            before.len() == n,
            start < n,
            forall|v: usize| v < start ==> before[v as int],
            forall|v: usize| v < n ==> (before[v as int] <==> in_components(prev, v)),
            forall|i: int| 0 <= i < prev.len() ==> comp_closed(near@, n as int, #[trigger] prev[i]@),
            head <= order@.len(),
            order@.len() > 0,
            order@[0] == start,
            order@.no_duplicates(),
            forall|k: int| 0 <= k < order@.len() ==> start <= #[trigger] order@[k] < n,
            forall|k: int| 0 <= k < order@.len() ==> !before[#[trigger] order@[k] as int],
            forall|v: usize| v < n ==> (visited@[v as int] <==> before[v as int] || order@.contains(v)),
            comp_linked(near@, n as int, order@),
            forall|p: int, w: usize|
                0 <= p < head && w < n && #[trigger] is_near(near@, n as int, order@[p] as int, w as int)
                    ==> visited@[w as int],
            parents.len() == order@.len(),
            forall|k: int| 0 < k < order@.len() ==> bfs_parent(near@, n as int, order@, k, #[trigger] parents[k]),
            forall|k: int| 0 < k < order@.len() ==> #[trigger] parents[k] < head,
            forall|k1: int, k2: int|
                0 < k1 < k2 < order@.len() ==> #[trigger] parents[k1] < #[trigger] parents[k2]
                    || (parents[k1] == parents[k2] && order@[k1] < order@[k2]),
        decreases n - head,
    {
        proof {
            assert(order@.len() <= n) by {
                lemma_distinct_below_len(order@, n as int);
            }
        }
        let current = order[head];
        let mut j: usize = 0;
        while j < n
            invariant
                near@.len() == n * n,
                total == n * n,
                visited@.len() == n,
                before.len() == n,
                start < n,
                forall|v: usize| v < start ==> before[v as int],
                head < order@.len(),
                current == order@[head as int],
                order@.len() > 0,
                order@[0] == start,
                order@.no_duplicates(),
                forall|k: int| 0 <= k < order@.len() ==> start <= #[trigger] order@[k] < n,
                forall|k: int| 0 <= k < order@.len() ==> !before[#[trigger] order@[k] as int],
                forall|v: usize| v < n ==> (visited@[v as int] <==> before[v as int] || order@.contains(v)),
                comp_linked(near@, n as int, order@),
                forall|p: int, w: usize|
                    0 <= p < head && w < n && #[trigger] is_near(near@, n as int, order@[p] as int, w as int)
                        ==> visited@[w as int],
                forall|w: usize| w < j && #[trigger] is_near(near@, n as int, current as int, w as int) ==> visited@[w as int],
                parents.len() == order@.len(),
                forall|k: int| 0 < k < order@.len() ==> bfs_parent(near@, n as int, order@, k, #[trigger] parents[k]),
                forall|k: int| 0 < k < order@.len() ==> #[trigger] parents[k] <= head,
                forall|k: int| 0 < k < order@.len() && #[trigger] parents[k] == head ==> order@[k] < j,
                forall|k1: int, k2: int|
                    0 < k1 < k2 < order@.len() ==> #[trigger] parents[k1] < #[trigger] parents[k2]
                        || (parents[k1] == parents[k2] && order@[k1] < order@[k2]),
            decreases n - j,
        {
            assert(current * n + j < n * n) by (nonlinear_arith)
                requires
                    current < n,
                    j < n,
            ;
            if !visited[j] && near[current * n + j] {
                let ghost old_order = order@;
                let ghost old_visited = visited@;
                visited.set(j, true);
                order.push(j);
                proof {
                    assert(!old_order.contains(j));
                    assert forall|v: usize| v < n implies (visited@[v as int] <==> before[v as int] || order@.contains(v)) by {
                        if v == j {
                            assert(order@[old_order.len() as int] == j);
                        } else {
                            if old_order.contains(v) {
                                let k = choose|k: int| 0 <= k < old_order.len() && old_order[k] == v;
                                assert(order@[k] == v);
                            }
                            if order@.contains(v) {
                                let k = choose|k: int| 0 <= k < order@.len() && order@[k] == v;
                                assert(k < old_order.len());
                                assert(old_order[k] == v);
                            }
                        }
                    }
                    assert(near@[current * n + j]);
                    assert(order@ == old_order.push(j));
                    lemma_linked_push(near@, n as int, old_order, j, head as int);
                    assert(!before[j as int]) by {
                        assert(!old_visited[j as int]);
                    }
                    assert(comp_linked(near@, n as int, order@));
                    let old_parents = parents;
                    parents = parents.push(head as int);
                    assert forall|k: int| 0 < k < order@.len() implies bfs_parent(near@, n as int, order@, k, #[trigger] parents[k]) by {
                        if k < old_order.len() {
                            assert(parents[k] == old_parents[k]);
                            lemma_parent_push(near@, n as int, old_order, j, k, old_parents[k]);
                        } else {
                            assert(order@[k] == j);
                            assert(order@[head as int] == current);
                            assert forall|q: int| 0 <= q < head implies !#[trigger] is_near(near@, n as int, order@[q] as int, order@[k] as int) by {
                                assert(order@[q] == old_order[q]);
                                if is_near(near@, n as int, old_order[q] as int, j as int) {
                                    assert(old_visited[j as int]);
                                }
                            }
                        }
                    }
                }
            }
            j += 1;
        }
        head += 1;
    }
    proof {
        assert forall|k1: int, k2: int, p1: int, p2: int|
            0 < k1 < k2 < order@.len() && #[trigger] bfs_parent(near@, n as int, order@, k1, p1)
                && #[trigger] bfs_parent(near@, n as int, order@, k2, p2)
            implies p1 < p2 || (p1 == p2 && order@[k1] < order@[k2]) by {
            lemma_parent_unique(near@, n as int, order@, k1, p1, parents[k1]);
            lemma_parent_unique(near@, n as int, order@, k2, p2, parents[k2]);
        }
        assert forall|k: int, w: usize|
            0 <= k < order@.len() && w < n && #[trigger] is_near(near@, n as int, order@[k] as int, w as int)
                implies order@.contains(w) by {
            assert(visited@[w as int]);
            if before[w as int] && !order@.contains(w) {
                let i = choose|i: int| 0 <= i < prev.len() && #[trigger] prev[i]@.contains(w);
                let m = choose|m: int| 0 <= m < prev[i]@.len() && prev[i]@[m] == w;
                assert(comp_closed(near@, n as int, prev[i]@));
                assert(is_near(near@, n as int, w as int, order@[k] as int));
                assert(prev[i]@.contains(order@[k]));
                assert(in_components(prev, order@[k]));
            }
        }
    }
    order
}

proof fn lemma_linked_push(near: Seq<bool>, n: int, c: Seq<usize>, x: usize, p: int)
    requires
        comp_linked(near, n, c),
        0 <= p < c.len(),
        is_near(near, n, c[p] as int, x as int),
    ensures
        comp_linked(near, n, c.push(x)),
{
    let d = c.push(x);
    assert forall|k: int| 0 < k < d.len() implies #[trigger] linked_at(near, n, d, k) by {
        if k == c.len() {
            assert(d[p] == c[p]);
            assert(is_near(near, n, d[p] as int, d[k] as int));
        } else {
            assert(linked_at(near, n, c, k));
            let q = choose|q: int| 0 <= q < k && #[trigger] is_near(near, n, c[q] as int, c[k] as int);
            assert(d[q] == c[q] && d[k] == c[k]);
            assert(is_near(near, n, d[q] as int, d[k] as int));
        }
    }
}

proof fn lemma_parent_push(near: Seq<bool>, n: int, c: Seq<usize>, x: usize, k: int, p: int)
    requires
        bfs_parent(near, n, c, k, p),
        k < c.len(),
    ensures
        bfs_parent(near, n, c.push(x), k, p),
{
    let d = c.push(x);
    assert(d[k] == c[k] && d[p] == c[p]);
    assert forall|q: int| 0 <= q < p implies !#[trigger] is_near(near, n, d[q] as int, d[k] as int) by {
        assert(d[q] == c[q]);
        assert(!is_near(near, n, c[q] as int, c[k] as int));
    }
}

proof fn lemma_parent_unique(near: Seq<bool>, n: int, c: Seq<usize>, k: int, p1: int, p2: int)
    requires
        bfs_parent(near, n, c, k, p1),
        bfs_parent(near, n, c, k, p2),
    ensures
        p1 == p2,
{
    if p1 < p2 {
        assert(is_near(near, n, c[p1] as int, c[k] as int));
    } else if p2 < p1 {
        assert(is_near(near, n, c[p2] as int, c[k] as int));
    }
}

proof fn lemma_distinct_below_len(s: Seq<usize>, n: int)
    requires
        s.no_duplicates(),
        forall|k: int| 0 <= k < s.len() ==> #[trigger] s[k] < n,
        n >= 0,
    ensures
        s.len() <= n,
{
    let set = s.to_set();
    s.unique_seq_to_set();
    assert(set.subset_of(Set::new(|v: usize| v < n)));
    lemma_below_set_len(n);
    vstd::set_lib::lemma_len_subset(set, Set::new(|v: usize| v < n));
}

proof fn lemma_below_set_len(n: int)
    requires
        n >= 0,
    ensures
        Set::new(|v: usize| v < n).finite(),
        Set::new(|v: usize| v < n).len() <= n,
    decreases n,
{
    if n == 0 {
        assert(Set::new(|v: usize| v < n) =~= Set::<usize>::empty());
    } else {
        lemma_below_set_len(n - 1);
        let smaller = Set::new(|v: usize| v < n - 1);
        if n - 1 <= usize::MAX {
            assert(Set::new(|v: usize| v < n) =~= smaller.insert((n - 1) as usize));
        } else {
            assert(Set::new(|v: usize| v < n) =~= smaller);
        }
    }
}


/// Particle `j` joins the merge group of particle `i`: `i` leads a group
/// (it is kept by the greedy thinning `keep`), `j` comes later and is near
/// it, and no earlier leader is near `j`.
pub open spec fn joins(near: Seq<bool>, n: int, keep: Seq<bool>, i: int, j: int) -> bool {
    &&& 0 <= i < j < n
    &&& keep[i]
    &&& is_near(near, n, i, j)
    &&& forall|k: int| 0 <= k < i && keep[k] ==> !is_near(near, n, k, j)
}

/// The particles below `hi` that join the group of leader `i`, ascending.
pub open spec fn joiners(near: Seq<bool>, n: int, keep: Seq<bool>, i: int, hi: int) -> Seq<usize>
    decreases hi,
{
    if hi <= 0 {
        Seq::empty()
    } else {
        joiners(near, n, keep, i, hi - 1) + if joins(near, n, keep, i, hi - 1) {
            seq![(hi - 1) as usize]
        } else {
            Seq::empty()
        }
    }
}

/// The merge groups of the leaders below `hi`, each its leader followed by
/// the particles that join it.
pub open spec fn merge_groups(near: Seq<bool>, n: int, keep: Seq<bool>, hi: int) -> Seq<Seq<usize>>
    decreases hi,
{
    if hi <= 0 {
        Seq::empty()
    } else {
        merge_groups(near, n, keep, hi - 1) + if keep[hi - 1] {
            seq![seq![(hi - 1) as usize] + joiners(near, n, keep, hi - 1, n)]
        } else {
            Seq::empty()
        }
    }
}

/// The lists of `r` hold the sequences of `g`, in order.
pub open spec fn groups_match(r: Seq<Vec<usize>>, g: Seq<Seq<usize>>) -> bool {
    &&& r.len() == g.len()
    &&& forall|t: int| 0 <= t < r.len() ==> #[trigger] r[t]@ == g[t]
}

/// Sculpting operations on a particle cloud as a whole.
pub struct AdvancedSculpt;

impl AdvancedSculpt {
    /// The connected components of the proximity graph of particles `0..n`
    /// (`near` as for [`ParticleMesh::build_from_proximity`], read in full and
    /// symmetric): each found breadth first from the smallest particle not yet
    /// reached, so the components come in the order of their smallest particle.
    pub fn find_connected_components(n: usize, near: &[bool]) -> (r: Vec<Vec<usize>>)
        requires
            near@.len() == n * n,
            near_symmetric(near@, n as int),
        ensures
            proximity_components(near@, n as int, r@),
    {
        let mut visited: Vec<bool> = Vec::new();
        for i in 0..n
            invariant
                visited@.len() == i,
                forall|k: int| 0 <= k < i ==> !visited@[k],
        {
            visited.push(false);
        }
        let mut comps: Vec<Vec<usize>> = Vec::new();
        for start in 0..n
            invariant
                near@.len() == n * n,
                near_symmetric(near@, n as int),
                visited@.len() == n,
                forall|v: usize| v < n ==> (visited@[v as int] <==> in_components(comps@, v)),
                forall|v: usize| v < start ==> visited@[v as int],
                forall|i: int, k: int| 0 <= i < comps@.len() && 0 <= k < comps@[i]@.len() ==> #[trigger] comps@[i]@[k] < n,
                forall|i: int| 0 <= i < comps@.len() ==> (#[trigger] comps@[i])@.no_duplicates(),
                forall|i: int, j: int, v: usize|
                    0 <= i < j < comps@.len() && #[trigger] comps@[i]@.contains(v) ==> !(#[trigger] comps@[j]@.contains(v)),
                forall|i: int| 0 <= i < comps@.len() ==> comp_closed(near@, n as int, #[trigger] comps@[i]@),
                forall|i: int| 0 <= i < comps@.len() ==> comp_linked(near@, n as int, #[trigger] comps@[i]@),
                forall|i: int| 0 <= i < comps@.len() ==> bfs_ordered(near@, n as int, #[trigger] comps@[i]@),
                forall|i: int| 0 <= i < comps@.len() ==> (#[trigger] comps@[i])@.len() > 0,
                forall|i: int, k: int|
                    0 <= i < comps@.len() && 0 <= k < comps@[i]@.len() ==> comps@[i]@[0] <= #[trigger] comps@[i]@[k],
                forall|i: int, j: int| 0 <= i < j < comps@.len() ==> (#[trigger] comps@[i])@[0] < (#[trigger] comps@[j])@[0],
                forall|i: int| 0 <= i < comps@.len() ==> (#[trigger] comps@[i])@[0] < start,
        {
            if !visited[start] {
                let ghost prev = comps@;
                let ghost old_visited = visited@;
                let component = explore(n, near, &mut visited, start, Ghost(prev));
                comps.push(component);
                proof {
                    let last = prev.len() as int;
                    assert(comps@[last]@ == component@);
                    assert forall|i: int| 0 <= i < last implies comps@[i] == prev[i] by {}
                    assert forall|v: usize| v < n implies (visited@[v as int] <==> in_components(comps@, v)) by {
                        if old_visited[v as int] {
                            let i = choose|i: int| 0 <= i < prev.len() && #[trigger] prev[i]@.contains(v);
                            assert(comps@[i]@.contains(v));
                        }
                        if component@.contains(v) {
                            assert(comps@[last]@.contains(v));
                        }
                        if in_components(comps@, v) {
                            let i = choose|i: int| 0 <= i < comps@.len() && #[trigger] comps@[i]@.contains(v);
                            if i < last {
                                assert(prev[i]@.contains(v));
                            }
                        }
                    }
                    assert forall|i: int, j: int, v: usize|
                        0 <= i < j < comps@.len() && #[trigger] comps@[i]@.contains(v) implies !(#[trigger] comps@[j]@.contains(v)) by {
                        if j == last && comps@[j]@.contains(v) {
                            let k = choose|k: int| 0 <= k < component@.len() && component@[k] == v;
                            assert(!old_visited[component@[k] as int]);
                            assert(prev[i]@.contains(v));
                            assert(in_components(prev, v));
                        }
                    }
                    assert(component@[0] == start);
                    assert(component@.contains(start));
                    assert(visited@[start as int]);
                    assert forall|v: usize| v < start + 1 implies visited@[v as int] by {
                        if v < start {
                            assert(old_visited[v as int]);
                        }
                    }
                }
            }
        }
        comps
    }
}

proof fn lemma_joiners_agree(near: Seq<bool>, n: int, k1: Seq<bool>, k2: Seq<bool>, i: int, hi: int)
    requires
        0 <= i,
        forall|m: int| 0 <= m <= i ==> k1[m] == k2[m],
    ensures
        joiners(near, n, k1, i, hi) == joiners(near, n, k2, i, hi),
    decreases hi,
{
    if hi > 0 {
        lemma_joiners_agree(near, n, k1, k2, i, hi - 1);
        assert(joins(near, n, k1, i, hi - 1) == joins(near, n, k2, i, hi - 1));
    }
}

proof fn lemma_groups_agree(near: Seq<bool>, n: int, k1: Seq<bool>, k2: Seq<bool>, hi: int)
    requires
        forall|m: int| 0 <= m < hi ==> k1[m] == k2[m],
    ensures
        merge_groups(near, n, k1, hi) == merge_groups(near, n, k2, hi),
    decreases hi,
{
    if hi > 0 {
        lemma_groups_agree(near, n, k1, k2, hi - 1);
        lemma_joiners_agree(near, n, k1, k2, hi - 1, n);
    }
}

proof fn lemma_joiners_none_below(near: Seq<bool>, n: int, keep: Seq<bool>, i: int, hi: int)
    requires
        hi <= i + 1,
    ensures
        joiners(near, n, keep, i, hi) == Seq::<usize>::empty(),
    decreases hi,
{
    if hi > 0 {
        lemma_joiners_none_below(near, n, keep, i, hi - 1);
    }
}

impl AdvancedSculpt {
    /// The groups a merge by distance collapses, in order: taking the
    /// particles in turn, each one not yet taken leads a group and takes
    /// every later particle near it (`near[i * n + j]`, `i < j`) that is not
    /// yet taken. The leaders are the greedy thinning of the cloud.
    pub fn merge_by_distance(n: usize, near: &[bool]) -> (r: Vec<Vec<usize>>)
        requires
            near@.len() == n * n,
        ensures
            forall|keep: Seq<bool>|
                #[trigger] greedy_thinning(near@, n as int, keep) ==> groups_match(
                    r@,
                    merge_groups(near@, n as int, keep, n as int),
                ),
    {
        let total = near.len();
        let mut taken: Vec<bool> = Vec::new();
        for k in 0..n
            invariant
                taken@.len() == k,
                forall|m: int| 0 <= m < k ==> !taken@[m],
        {
            taken.push(false);
        }
        let mut groups: Vec<Vec<usize>> = Vec::new();
        for i in 0..n
            invariant
                near@.len() == n * n,
                total == n * n,
                taken@.len() == n,
                forall|j: int|
                    0 <= j < i ==> (!#[trigger] taken@[j] <==> forall|k: int|
                        0 <= k < j && !taken@[k] ==> !is_near(near@, n as int, k, j)),
                forall|j: int|
                    i <= j < n ==> (!#[trigger] taken@[j] <==> forall|k: int|
                        0 <= k < i && !taken@[k] ==> !is_near(near@, n as int, k, j)),
                groups@.len() == merge_groups(near@, n as int, taken@.map_values(|b: bool| !b), i as int).len(),
                forall|t: int|
                    0 <= t < groups@.len() ==> #[trigger] groups@[t]@ == merge_groups(
                        near@,
                        n as int,
                        taken@.map_values(|b: bool| !b),
                        i as int,
                    )[t],
        {
            let ghost before = taken@;
            let ghost kb = before.map_values(|b: bool| !b);
            if !taken[i] {
                let mut group: Vec<usize> = Vec::new();
                group.push(i);
                proof {
                    lemma_joiners_none_below(near@, n as int, kb, i as int, i + 1);
                    assert(group@ =~= seq![i] + joiners(near@, n as int, kb, i as int, i + 1));
                }
                for j in i + 1..n
                    invariant
                        near@.len() == n * n,
                        total == n * n,
                        i < n,
                        !before[i as int],
                        kb == before.map_values(|b: bool| !b),
                        before.len() == n,
                        forall|j2: int|
                            i <= j2 < n ==> (!#[trigger] before[j2] <==> forall|k: int|
                                0 <= k < i && !before[k] ==> !is_near(near@, n as int, k, j2)),
                        taken@.len() == n,
                        forall|m: int|
                            0 <= m < n && !(i < m < j) ==> #[trigger] taken@[m] == before[m],
                        forall|m: int|
                            i < m < j ==> (#[trigger] taken@[m] == (before[m] || is_near(near@, n as int, i as int, m))),
                        group@ == seq![i] + joiners(near@, n as int, kb, i as int, j as int),
                {
                    assert(i * n + j < n * n) by (nonlinear_arith)
                        requires
                            i < n,
                            j < n,
                    ;
                    let ghost g0 = group@;
                    proof {
                        assert forall|k: int| 0 <= k < n implies #[trigger] kb[k] == !before[k] by {}
                        let ii = i as int;
                        let jj = j as int;
                        assert(!before[jj] <==> forall|k: int|
                            0 <= k < ii && !before[k] ==> !is_near(near@, n as int, k, jj));
                        assert((forall|k: int| 0 <= k < ii && kb[k] ==> !is_near(near@, n as int, k, jj)) <==> (forall|k: int|
                            0 <= k < ii && !before[k] ==> !is_near(near@, n as int, k, jj))) by {
                            if forall|k: int| 0 <= k < ii && kb[k] ==> !is_near(near@, n as int, k, jj) {
                                assert forall|k: int| 0 <= k < ii && !before[k] implies !is_near(near@, n as int, k, jj) by {
                                    assert(kb[k]);
                                }
                            }
                            if forall|k: int| 0 <= k < ii && !before[k] ==> !is_near(near@, n as int, k, jj) {
                                assert forall|k: int| 0 <= k < ii && kb[k] implies !is_near(near@, n as int, k, jj) by {
                                    assert(!before[k]);
                                }
                            }
                        }
                        assert(kb[ii]);
                        assert(joins(near@, n as int, kb, i as int, j as int) == (!before[j as int] && is_near(
                            near@,
                            n as int,
                            i as int,
                            j as int,
                        )));
                    }
                    if !taken[j] && near[i * n + j] {
                        taken.set(j, true);
                        group.push(j);
                        proof {
                            assert(group@ =~= g0 + seq![j]);
                        }
                    } else {
                        proof {
                            assert(group@ =~= g0 + Seq::<usize>::empty());
                        }
                    }
                }
                groups.push(group);
                proof {
                    let ka = taken@.map_values(|b: bool| !b);
                    assert forall|m: int| 0 <= m < i + 1 implies ka[m] == kb[m] by {}
                    assert forall|m: int| 0 <= m < i implies ka[m] == kb[m] by {}
                    lemma_groups_agree(near@, n as int, ka, kb, i as int);
                    lemma_joiners_agree(near@, n as int, ka, kb, i as int, n as int);
                    assert(ka[i as int]);
                    assert(merge_groups(near@, n as int, ka, i + 1) =~= merge_groups(near@, n as int, kb, i as int).push(
                        seq![i] + joiners(near@, n as int, kb, i as int, n as int),
                    ));
                    assert forall|j2: int|
                        0 <= j2 < i + 1 implies (!#[trigger] taken@[j2] <==> forall|k: int|
                            0 <= k < j2 && !taken@[k] ==> !is_near(near@, n as int, k, j2)) by {
                        assert forall|k: int| 0 <= k < j2 implies taken@[k] == before[k] by {}
                    }
                    assert forall|j2: int|
                        i + 1 <= j2 < n implies (!#[trigger] taken@[j2] <==> forall|k: int|
                            0 <= k < i + 1 && !taken@[k] ==> !is_near(near@, n as int, k, j2)) by {
                        assert forall|k: int| 0 <= k < i + 1 implies taken@[k] == before[k] by {}
                    }
                }
            } else {
                proof {
                    assert(taken@ == before);
                    assert(!kb[i as int]);
                    assert(merge_groups(near@, n as int, kb, i + 1) =~= merge_groups(near@, n as int, kb, i as int));
                    assert forall|j2: int|
                        i + 1 <= j2 < n implies (!#[trigger] taken@[j2] <==> forall|k: int|
                            0 <= k < i + 1 && !taken@[k] ==> !is_near(near@, n as int, k, j2)) by {
                        assert(!taken@[j2] <==> forall|k: int|
                            0 <= k < i && !taken@[k] ==> !is_near(near@, n as int, k, j2));
                    }
                }
            }
        }
        proof {
            let kf = taken@.map_values(|b: bool| !b);
            assert forall|k: int| 0 <= k < n implies #[trigger] kf[k] == !taken@[k] by {}
            assert(greedy_thinning(near@, n as int, kf)) by {
                assert forall|j: int| 0 <= j < n implies (#[trigger] kf[j] <==> forall|i: int|
                    0 <= i < j && kf[i] ==> !is_near(near@, n as int, i, j)) by {
                    assert(!taken@[j] <==> forall|k: int| 0 <= k < j && !taken@[k] ==> !is_near(near@, n as int, k, j));
                    if forall|k: int| 0 <= k < j && kf[k] ==> !is_near(near@, n as int, k, j) {
                        assert forall|k: int| 0 <= k < j && !taken@[k] implies !is_near(near@, n as int, k, j) by {
                            assert(kf[k]);
                        }
                    }
                    if forall|k: int| 0 <= k < j && !taken@[k] ==> !is_near(near@, n as int, k, j) {
                        assert forall|k: int| 0 <= k < j && kf[k] implies !is_near(near@, n as int, k, j) by {
                            assert(!taken@[k]);
                        }
                    }
                }
            }
            assert forall|keep: Seq<bool>| #[trigger] greedy_thinning(near@, n as int, keep) implies groups_match(
                groups@,
                merge_groups(near@, n as int, keep, n as int),
            ) by {
                crate::spatial::lemma_thinning_unique(near@, n as int, keep, kf);
            }
        }
        groups
    }
}

} // verus!
