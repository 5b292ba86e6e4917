//! Face-vertex meshes: a list of vertices, each stored once, and a list of
//! faces that name their corners by index.

use vstd::prelude::*;
use std::collections::HashMap;
use crate::geometry::Triangle;
use crate::scale::{canonical, canonical_bits};
use crate::stl::{Facet, Pt3};

verus! {

/// A vertex in the space of its model.
#[derive(Copy, Clone, Debug, PartialEq, Eq)]
pub struct VertexModel(pub Pt3);

/// A vertex and the faces that it is a corner of: one entry for every
/// corner, in the order of the faces.
#[derive(Clone)]
pub struct VertexInfo {
    pub vtx: VertexModel,
    pub faces: Vec<usize>,
}

/// A face: the indices of its three corners in the mesh's list of vertices.
#[derive(Copy, Clone)]
pub struct FaceInfo {
    pub vertices: [usize; 3],
}

/// A face-vertex mesh.
#[derive(Clone)]
pub struct Mesh {
    pub faces: Vec<FaceInfo>,
    pub vertices: Vec<VertexInfo>,
}

/// The number by which a point is found again: equal for two points exactly
/// where their coordinates count as equal one by one.
pub open spec fn vertex_key(p: Pt3) -> u128 {
    (canonical(p.0[0]) + 0x1_0000_0000 * canonical(p.0[1]) + 0x1_0000_0000_0000_0000 * canonical(
        p.0[2],
    )) as u128
}

/// Corner number `c` of a soup of facets, counted through the facets in
/// order, three to each.
pub open spec fn corner(facets: Seq<Facet>, c: int) -> Pt3 {
    facets[c / 3].tri[c % 3]
}

/// Whether one of the points counts as equal to `p`.
pub open spec fn has_vertex(points: Seq<Pt3>, p: Pt3) -> bool {
    exists|i: int| 0 <= i < points.len() && vertex_key(#[trigger] points[i]) == vertex_key(p)
}

/// The different points among the first `n` corners of a soup, each as it
/// first occurs, in the order in which they first occur.
pub open spec fn distinct_vertices(facets: Seq<Facet>, n: nat) -> Seq<Pt3>
    decreases n,
{
    if n == 0 {
        Seq::empty()
    } else {
        let before = distinct_vertices(facets, (n - 1) as nat);
        let p = corner(facets, n - 1);
        if has_vertex(before, p) {
            before
        } else {
            before.push(p)
        }
    }
}

/// The facets that own the point with the given key: for each of the first
/// `n` corners that counts as equal to it, the number of the corner's facet.
pub open spec fn owners(facets: Seq<Facet>, key: u128, n: nat) -> Seq<usize>
    decreases n,
{
    if n == 0 {
        Seq::empty()
    } else {
        let before = owners(facets, key, (n - 1) as nat);
        if vertex_key(corner(facets, n - 1)) == key {
            before.push(((n - 1) / 3) as usize)
        } else {
            before
        }
    }
}

/// No two of the distinct points of a soup count as equal, and each of its
/// corners counts as equal to one of them.
pub proof fn lemma_distinct_vertices(facets: Seq<Facet>, n: nat)
    ensures
        forall|i: int, j: int|
            0 <= i < j < distinct_vertices(facets, n).len() ==> vertex_key(
                #[trigger] distinct_vertices(facets, n)[i],
            ) != vertex_key(#[trigger] distinct_vertices(facets, n)[j]),
        forall|c: int|
            0 <= c < n ==> has_vertex(distinct_vertices(facets, n), #[trigger] corner(facets, c)),
    decreases n,
{
    if n > 0 {
        lemma_distinct_vertices(facets, (n - 1) as nat);
        let before = distinct_vertices(facets, (n - 1) as nat);
        let now = distinct_vertices(facets, n);
        let p = corner(facets, n - 1);
        assert forall|c: int| 0 <= c < n implies has_vertex(now, #[trigger] corner(facets, c)) by {
            if c < n - 1 {
                let i = choose|i: int|
                    0 <= i < before.len() && vertex_key(#[trigger] before[i]) == vertex_key(
                        corner(facets, c),
                    );
                assert(now[i] == before[i]);
            } else if has_vertex(before, p) {
            } else {
                assert(now[before.len() as int] == p);
            }
        }
    }
}

/// Every owner of a point among the first `n` corners is a facet that has
/// one of these corners.
pub proof fn lemma_owners_bound(facets: Seq<Facet>, key: u128, n: nat)
    requires
        n <= 3 * usize::MAX,
    ensures
        forall|k: int|
            0 <= k < owners(facets, key, n).len() ==> 3 * (#[trigger] owners(facets, key, n)[k])
                < n,
    decreases n,
{
    if n > 0 {
        lemma_owners_bound(facets, key, (n - 1) as nat);
        let before = owners(facets, key, (n - 1) as nat);
        assert forall|k: int| 0 <= k < owners(facets, key, n).len() implies 3 * (#[trigger] owners(
            facets,
            key,
            n,
        )[k]) < n by {
            if k < before.len() {
                assert(owners(facets, key, n)[k] == before[k]);
            }
        }
    }
}

/// What holds of the vertices and of the table that finds them when the
/// first `n` corners of a soup have been taken in.
spec fn interned(
    vertices: Seq<VertexInfo>,
    lookup: Map<u128, usize>,
    facets: Seq<Facet>,
    n: nat,
) -> bool {
    &&& vertices.len() == distinct_vertices(facets, n).len()
    &&& forall|v: int|
        0 <= v < vertices.len() ==> (#[trigger] vertices[v]).vtx.0 == distinct_vertices(
            facets,
            n,
        )[v]
    &&& forall|v: int|
        0 <= v < vertices.len() ==> (#[trigger] vertices[v]).faces@ == owners(
            facets,
            vertex_key(vertices[v].vtx.0),
            n,
        )
    &&& forall|v: int|
        0 <= v < vertices.len() ==> lookup.contains_key(
            vertex_key((#[trigger] vertices[v]).vtx.0),
        )
    &&& forall|k: u128| #[trigger]
        lookup.contains_key(k) ==> lookup[k] < vertices.len() && vertex_key(
            vertices[lookup[k] as int].vtx.0,
        ) == k
}

/// The number by which a point is found again.
fn to_hashable(p: Pt3) -> (key: u128)
    ensures
        key == vertex_key(p),
{
    let x = canonical_bits(p.0[0]) as u128;
    let y = canonical_bits(p.0[1]) as u128;
    let z = canonical_bits(p.0[2]) as u128;
    x + 0x1_0000_0000 * y + 0x1_0000_0000_0000_0000 * z
}

/// Takes in the next corner of a soup, which belongs to facet `face_i`: finds
/// its vertex or adds it, notes the facet with the vertex, and returns the
/// index of the vertex.
fn intern(
    vertices: &mut Vec<VertexInfo>,
    vert_lookup: &mut HashMap<u128, usize>,
    p: Pt3,
    face_i: usize,
    Ghost(facets): Ghost<Seq<Facet>>,
    Ghost(n): Ghost<nat>,
) -> (vert_i: usize)
    requires
        interned(old(vertices)@, old(vert_lookup)@, facets, n),
        corner(facets, n as int) == p,
        face_i == n / 3,
    ensures
        interned(final(vertices)@, final(vert_lookup)@, facets, n + 1),
        vert_i < final(vertices)@.len(),
        vertex_key(final(vertices)@[vert_i as int].vtx.0) == vertex_key(p),
        final(vertices)@.len() >= old(vertices)@.len(),
        forall|v: int|
            0 <= v < old(vertices)@.len() ==> (#[trigger] final(vertices)@[v]).vtx == old(
                vertices,
            )@[v].vtx,
{
    broadcast use vstd::std_specs::hash::group_hash_axioms;

    let key = to_hashable(p);
    let ghost before = distinct_vertices(facets, n);
    proof {
        lemma_distinct_vertices(facets, n);
        if has_vertex(before, p) {
            let i = choose|i: int|
                0 <= i < before.len() && vertex_key(#[trigger] before[i]) == vertex_key(p);
            assert(vertices@[i].vtx.0 == before[i]);
        }
        if vert_lookup@.contains_key(key) {
            assert(before[vert_lookup@[key] as int] == vertices@[vert_lookup@[key] as int].vtx.0);
        }
        assert(has_vertex(before, p) <==> vert_lookup@.contains_key(key));
    }
    if !vert_lookup.contains_key(&key) {
        vert_lookup.insert(key, vertices.len());
        vertices.push(VertexInfo { vtx: VertexModel(p), faces: Vec::new() });
        proof {
            assert(owners(facets, key, n) =~= Seq::<usize>::empty()) by {
                lemma_owners_unseen(facets, key, n);
            }
        }
    }
    let vert_i = *vert_lookup.get(&key).unwrap();
    let ghost middle = vertices@;
    vertices[vert_i].faces.push(face_i);
    proof {
        let now = distinct_vertices(facets, n + 1);
        assert forall|v: int| 0 <= v < vertices@.len() implies (#[trigger] vertices@[v]).faces@
            == owners(facets, vertex_key(vertices@[v].vtx.0), n + 1) by {
            if v == vert_i {
            } else {
                assert(vertices@[v] == middle[v]);
                assert(now[v] == vertices@[v].vtx.0);
                assert(now[vert_i as int] == vertices@[vert_i as int].vtx.0);
                lemma_distinct_vertices(facets, n + 1);
            }
        }
    }
    vert_i
}

/// A point that none of the first `n` corners counts as equal to has no
/// owner among them.
proof fn lemma_owners_unseen(facets: Seq<Facet>, key: u128, n: nat)
    requires
        !exists|i: int|
            0 <= i < distinct_vertices(facets, n).len() && vertex_key(
                #[trigger] distinct_vertices(facets, n)[i],
            ) == key,
    ensures
        owners(facets, key, n).len() == 0,
    decreases n,
{
    if n > 0 {
        lemma_distinct_vertices(facets, n);
        let p = corner(facets, n - 1);
        assert(has_vertex(distinct_vertices(facets, n), p));
        let before = distinct_vertices(facets, (n - 1) as nat);
        let now = distinct_vertices(facets, n);
        assert forall|i: int| 0 <= i < before.len() implies vertex_key(#[trigger] before[i])
            != key by {
            assert(now[i] == before[i]);
        }
        lemma_owners_unseen(facets, key, (n - 1) as nat);
    }
}

impl Mesh {
    /// The vertices of the mesh.
    pub open spec fn positions(self) -> Seq<Pt3> {
        Seq::new(self.vertices@.len(), |v: int| self.vertices@[v].vtx.0)
    }

    /// Every face names three vertices of the mesh, and every vertex names
    /// faces of the mesh.
    pub open spec fn wf(self) -> bool {
        &&& forall|f: int, i: int|
            0 <= f < self.faces@.len() && 0 <= i < 3 ==> (#[trigger] self.faces@[f].vertices[i])
                < self.vertices@.len()
        &&& forall|v: int, k: int|
            0 <= v < self.vertices@.len() && 0 <= k < self.vertices@[v].faces@.len() ==> (
            #[trigger] self.vertices@[v].faces@[k]) < self.faces@.len()
    }

    /// Vertex number `i`.
    pub fn get_vertex(&self, i: usize) -> (r: &VertexModel)
        requires
            i < self.vertices@.len(),
        ensures
            *r == self.vertices@[i as int].vtx,
    {
        &self.vertices[i].vtx
    }

    /// The faces of the mesh as triangles of vertices, in the order of the
    /// faces.
    pub fn triangles(&self) -> (r: Vec<Triangle<VertexModel>>)
        requires
            self.wf(),
        ensures
            r@.len() == self.faces@.len(),
            forall|f: int, i: int|
                0 <= f < r@.len() && 0 <= i < 3 ==> (#[trigger] r@[f].0[i])
                    == self.vertices@[self.faces@[f].vertices[i] as int].vtx,
    {
        let mut out: Vec<Triangle<VertexModel>> = Vec::new();
        let mut f: usize = 0;
        while f < self.faces.len()
            invariant
                self.wf(),
                f <= self.faces@.len(),
                out@.len() == f,
                forall|g: int, i: int|
                    0 <= g < f && 0 <= i < 3 ==> (#[trigger] out@[g].0[i])
                        == self.vertices@[self.faces@[g].vertices[i] as int].vtx,
            decreases self.faces@.len() - f,
        {
            let face = self.faces[f];
            assert(face.vertices[0] == self.faces@[f as int].vertices[0]);
            assert(face.vertices[1] == self.faces@[f as int].vertices[1]);
            assert(face.vertices[2] == self.faces@[f as int].vertices[2]);
            let v0 = self.vertices[face.vertices[0]].vtx;
            let v1 = self.vertices[face.vertices[1]].vtx;
            let v2 = self.vertices[face.vertices[2]].vtx;
            out.push(Triangle([v0, v1, v2]));
            f = f + 1;
        }
        out
    }
}

impl Mesh {
    /// Builds a mesh from a soup of facets: corners that count as equal
    /// become one vertex.
    ///
    /// The vertices are the different corners of the soup in the order in
    /// which they first occur, each face names the vertices that its facet's
    /// corners count as equal to, and each vertex names, corner by corner,
    /// the faces that it belongs to.
    pub fn from_facets(facets: Vec<Facet>) -> (mesh: Self)
        ensures
            mesh.wf(),
            mesh.faces@.len() == facets@.len(),
            mesh.positions() == distinct_vertices(facets@, (3 * facets@.len()) as nat),
            forall|v: int|
                0 <= v < mesh.vertices@.len() ==> (#[trigger] mesh.vertices@[v]).faces@ == owners(
                    facets@,
                    vertex_key(mesh.vertices@[v].vtx.0),
                    (3 * facets@.len()) as nat,
                ),
            forall|f: int, i: int|
                0 <= f < facets@.len() && 0 <= i < 3 ==> vertex_key(
                    mesh.vertices@[(#[trigger] mesh.faces@[f].vertices[i]) as int].vtx.0,
                ) == vertex_key(facets@[f].tri[i]),
    {
        let mut vertices: Vec<VertexInfo> = Vec::new();
        let mut vert_lookup: HashMap<u128, usize> = HashMap::new();
        let mut faces: Vec<FaceInfo> = Vec::new();
        let mut f: usize = 0;
        while f < facets.len()
            invariant
                f <= facets@.len(),
                faces@.len() == f,
                interned(vertices@, vert_lookup@, facets@, (3 * f) as nat),
                forall|g: int, i: int|
                    0 <= g < f && 0 <= i < 3 ==> (#[trigger] faces@[g].vertices[i])
                        < vertices@.len() && vertex_key(
                        vertices@[faces@[g].vertices[i] as int].vtx.0,
                    ) == vertex_key(facets@[g].tri[i]),
            decreases facets@.len() - f,
        {
            let facet = facets[f];
            let face_i = faces.len();
            let ghost n = (3 * f) as nat;
            assert(corner(facets@, n as int) == facet.tri[0]);
            assert(corner(facets@, n as int + 1) == facet.tri[1]);
            assert(corner(facets@, n as int + 2) == facet.tri[2]);
            let v0 = intern(
                &mut vertices,
                &mut vert_lookup,
                facet.tri[0],
                face_i,
                Ghost(facets@),
                Ghost(n),
            );
            let v1 = intern(
                &mut vertices,
                &mut vert_lookup,
                facet.tri[1],
                face_i,
                Ghost(facets@),
                Ghost(n + 1),
            );
            let v2 = intern(
                &mut vertices,
                &mut vert_lookup,
                facet.tri[2],
                face_i,
                Ghost(facets@),
                Ghost(n + 2),
            );
            faces.push(FaceInfo { vertices: [v0, v1, v2] });
            f = f + 1;
        }
        let mesh = Self { faces, vertices };
        proof {
            let n = (3 * facets@.len()) as nat;
            assert(mesh.positions() =~= distinct_vertices(facets@, n));
            assert forall|v: int, k: int|
                0 <= v < mesh.vertices@.len() && 0 <= k < mesh.vertices@[v].faces@.len() implies (
            #[trigger] mesh.vertices@[v].faces@[k]) < mesh.faces@.len() by {
                lemma_owners_bound(facets@, vertex_key(mesh.vertices@[v].vtx.0), n);
            }
        }
        mesh
    }
}

} // verus!
