//! Indexed meshes and triangle-list topology: index-buffer concatenation,
//! unique undirected edges, and the hand-authored test solids.

use vstd::prelude::*;
use crate::order::{
    pack_pair, pack_pair_u128, unpack_pair_u128, lemma_pack_pair_order, lane, pair_lt,
    strictly_sorted_pairs, ascending_u128, sort_u128s,
};

verus! {

broadcast use vstd::seq_lib::group_to_multiset_ensures;

/// An undirected edge as the ordered pair (smaller index, larger index).
pub open spec fn edge_key(u: u32, v: u32) -> (u32, u32) {
    if u <= v { (u, v) } else { (v, u) }
}

/// Corner `m` of a triangle list paired with the next corner of its triangle:
/// each triangle contributes the edges (0,1), (1,2) and (2,0).
pub open spec fn next_corner(m: int) -> int {
    if m % 3 == 2 { m - 2 } else { m + 1 }
}

pub open spec fn corner_edge(idx: Seq<u32>, m: int) -> (u32, u32) {
    edge_key(idx[m], idx[next_corner(m)])
}

/// Number of corners that belong to whole triangles (`chunks_exact(3)` drops
/// a trailing partial triangle).
pub open spec fn whole_corners(idx: Seq<u32>) -> int {
    3 * (idx.len() as int / 3)
}

/// `e` is an edge of one of the whole triangles of `idx`.
pub open spec fn is_triangle_edge(idx: Seq<u32>, e: (u32, u32)) -> bool {
    exists|m: int| 0 <= m < whole_corners(idx) && #[trigger] corner_edge(idx, m) == e
}

/// Turns ascending packed keys into the strictly increasing list of the
/// distinct pairs they encode.
fn dedup_packed(keys: &Vec<u128>) -> (out: Vec<(u32, u32)>)
    requires
        ascending_u128(keys@),
        forall|j: int| 0 <= j < keys@.len() ==> (#[trigger] keys@[j]) < lane() * lane(),
    ensures
        strictly_sorted_pairs(out@),
        forall|o: int| 0 <= o < out@.len() ==> keys@.contains(pack_pair(#[trigger] out@[o]) as u128),
        forall|j: int| 0 <= j < keys@.len() ==> exists|o: int| 0 <= o < out@.len() && #[trigger] keys@[j] == pack_pair(#[trigger] out@[o]),
{
    let mut out: Vec<(u32, u32)> = Vec::new();
    let mut i: usize = 0;
    while i < keys.len()
        invariant
            i <= keys@.len(),
            ascending_u128(keys@),
            forall|j: int| 0 <= j < keys@.len() ==> (#[trigger] keys@[j]) < lane() * lane(),
            strictly_sorted_pairs(out@),
            i > 0 ==> out@.len() > 0 && pack_pair(out@.last()) == keys@[i - 1],
            i == 0 ==> out@.len() == 0,
            forall|o: int| 0 <= o < out@.len() ==> keys@.contains(pack_pair(#[trigger] out@[o]) as u128),
            forall|j: int| 0 <= j < i ==> exists|o: int| 0 <= o < out@.len() && #[trigger] keys@[j] == pack_pair(#[trigger] out@[o]),
        decreases keys@.len() - i,
    {
        let k = keys[i];
        if i == 0 || keys[i - 1] != k {
            let p = unpack_pair_u128(k);
            let ghost old_out = out@;
            proof {
                if i > 0 {
                    assert(keys@[i - 1] <= keys@[i as int]);
                    lemma_pack_pair_order(old_out.last(), p);
                }
            }
            out.push(p);
            proof {
                assert(out@ == old_out.push(p));
                assert forall|x: int, y: int| 0 <= x < y < out@.len() implies
                    pair_lt(#[trigger] out@[x], #[trigger] out@[y]) by {
                    if y == old_out.len() {
                        assert(pair_lt(old_out.last(), p));
                        if x < old_out.len() - 1 {
                            assert(pair_lt(old_out[x], old_out[old_out.len() - 1]));
                        }
                    } else {
                        assert(pair_lt(old_out[x], old_out[y]));
                    }
                }
                assert forall|o: int| 0 <= o < out@.len() implies keys@.contains(pack_pair(#[trigger] out@[o]) as u128) by {
                    if o == old_out.len() {
                        assert(keys@[i as int] == k);
                    } else {
                        assert(out@[o] == old_out[o]);
                    }
                }
                assert forall|j: int| 0 <= j < i + 1 implies exists|o: int| 0 <= o < out@.len() && #[trigger] keys@[j] == pack_pair(#[trigger] out@[o]) by {
                    if j == i {
                        assert(keys@[j] == pack_pair(out@[old_out.len() as int]));
                    } else {
                        let o = choose|o: int| 0 <= o < old_out.len() && #[trigger] keys@[j] == pack_pair(#[trigger] old_out[o]);
                        assert(out@[o] == old_out[o]);
                    }
                }
            }
        } else {
            proof {
                assert forall|j: int| 0 <= j < i + 1 implies exists|o: int| 0 <= o < out@.len() && #[trigger] keys@[j] == pack_pair(#[trigger] out@[o]) by {
                    if j == i {
                        assert(keys@[j] == pack_pair(out@[out@.len() - 1]));
                    }
                }
            }
        }
        i += 1;
    }
    out
}

/// Unique undirected edges of a triangle list, sorted for determinism.
///
/// On a triangulated quad face this includes the diagonal; only use it directly
/// on shapes whose faces are all true triangles.
pub fn edges_from_triangles(indices: &[u32]) -> (edges: Vec<(u32, u32)>)
    ensures
        strictly_sorted_pairs(edges@),
        forall|i: int| 0 <= i < edges@.len() ==> is_triangle_edge(indices@, #[trigger] edges@[i]),
        forall|e: (u32, u32)| is_triangle_edge(indices@, e) ==> edges@.contains(e),
{
    let n = indices.len() / 3;
    let limit = n * 3;
    assert(limit == whole_corners(indices@) && limit <= indices@.len()) by (nonlinear_arith)
        requires n == indices@.len() as int / 3, limit == n * 3;
    let mut keys: Vec<u128> = Vec::new();
    let mut m: usize = 0;
    while m < limit
        invariant
            limit == whole_corners(indices@),
            limit <= indices@.len(),
            m <= limit,
            keys@.len() == m,
            forall|j: int| 0 <= j < m ==> (#[trigger] keys@[j]) as int == pack_pair(corner_edge(indices@, j)),
        decreases limit - m,
    {
        let next = if m % 3 == 2 { m - 2 } else { m + 1 };
        assert(next == next_corner(m as int) && next < limit) by (nonlinear_arith)
            requires next == (if m % 3 == 2 { m - 2 } else { m + 1 }), m < limit, limit % 3 == 0;
        let (u, v) = (indices[m], indices[next]);
        let key = if u <= v { pack_pair_u128(u, v) } else { pack_pair_u128(v, u) };
        keys.push(key);
        m += 1;
    }
    let ghost unsorted = keys@;
    sort_u128s(&mut keys);
    proof {
        assert forall|j: int| 0 <= j < keys@.len() implies (#[trigger] keys@[j]) < lane() * lane() by {
            assert(keys@.contains(keys@[j]));
            assert(keys@.to_multiset().count(keys@[j]) == unsorted.to_multiset().count(keys@[j]));
            let w = choose|w: int| 0 <= w < unsorted.len() && unsorted[w] == keys@[j];
            lemma_pack_pair_order(corner_edge(indices@, w), corner_edge(indices@, w));
        }
    }
    let edges = dedup_packed(&keys);
    proof {
        assert forall|o: int| 0 <= o < edges@.len() implies is_triangle_edge(indices@, #[trigger] edges@[o]) by {
            let x = pack_pair(edges@[o]) as u128;
            assert(keys@.to_multiset().count(x) == unsorted.to_multiset().count(x));
            let w = choose|w: int| 0 <= w < unsorted.len() && unsorted[w] == x;
            lemma_pack_pair_order(corner_edge(indices@, w), edges@[o]);
            assert(corner_edge(indices@, w) == edges@[o]);
        }
        assert forall|e: (u32, u32)| is_triangle_edge(indices@, e) implies edges@.contains(e) by {
            let w = choose|w: int| 0 <= w < whole_corners(indices@) && #[trigger] corner_edge(indices@, w) == e;
            let x = unsorted[w];
            assert(unsorted.contains(x));
            assert(keys@.to_multiset().count(x) == unsorted.to_multiset().count(x));
            let j = choose|j: int| 0 <= j < keys@.len() && keys@[j] == x;
            let o = choose|o: int| 0 <= o < edges@.len() && #[trigger] keys@[j] == pack_pair(#[trigger] edges@[o]);
            lemma_pack_pair_order(e, edges@[o]);
            assert(edges@[o] == e);
        }
    }
    edges
}

/// `idx` with every index moved up by `base`.
pub open spec fn offset_indices(idx: Seq<u32>, base: int) -> Seq<u32> {
    idx.map_values(|i: u32| (i + base) as u32)
}

/// An indexed triangle mesh. Surfaces are never shaded: meshes exist to
/// occlude lines (they are rendered into the depth buffer only).
pub struct Mesh<V> {
    pub vertices: Vec<V>,
    pub indices: Vec<u32>,
}

impl<V: Copy> Mesh<V> {
    /// Append this mesh into a combined vertex/index soup, offsetting its
    /// indices by the number of vertices already there.
    pub fn append_into(&self, vertices: &mut Vec<V>, indices: &mut Vec<u32>)
        requires
            old(vertices)@.len() <= u32::MAX,
            forall|k: int| 0 <= k < self.indices@.len() ==> #[trigger] self.indices@[k] + old(vertices)@.len() <= u32::MAX,
        ensures
            final(vertices)@ == old(vertices)@ + self.vertices@,
            final(indices)@ == old(indices)@ + offset_indices(self.indices@, old(vertices)@.len() as int),
    {
        let base = vertices.len() as u32;
        let nv = self.vertices.len();
        let mut i: usize = 0;
        while i < nv
            invariant
                nv == self.vertices@.len(),
                i <= nv,
                vertices@ == old(vertices)@ + self.vertices@.subrange(0, i as int),
            decreases nv - i,
        {
            let v: V = self.vertices[i];
            vertices.push(v);
            assert(self.vertices@.subrange(0, i + 1) == self.vertices@.subrange(0, i as int).push(v));
            i += 1;
        }
        assert(self.vertices@.subrange(0, nv as int) == self.vertices@);
        let ni = self.indices.len();
        let mut j: usize = 0;
        while j < ni
            invariant
                ni == self.indices@.len(),
                j <= ni,
                base == old(vertices)@.len(),
                forall|k: int| 0 <= k < self.indices@.len() ==> #[trigger] self.indices@[k] + base <= u32::MAX,
                indices@ == old(indices)@ + offset_indices(self.indices@.subrange(0, j as int), base as int),
            decreases ni - j,
        {
            let x = self.indices[j] + base;
            indices.push(x);
            assert(offset_indices(self.indices@.subrange(0, j + 1), base as int) == offset_indices(
                self.indices@.subrange(0, j as int),
                base as int,
            ).push(x));
            j += 1;
        }
        assert(self.indices@.subrange(0, ni as int) == self.indices@);
    }
}

/// A drawable solid: the occluder mesh plus the edges worth stroking.
/// Edges index into `mesh.vertices`.
pub struct Shape<V> {
    pub mesh: Mesh<V>,
    pub edges: Vec<(u32, u32)>,
}

/// The cube's twelve triangles over its corners 0..8 (bottom ring 0-3, top
/// ring 4-7), two per face, wound outward.
pub open spec fn cube_indices() -> Seq<u32> {
    seq![
        0u32, 1, 2, 0, 2, 3, 4, 6, 5, 4, 7, 6, 0, 4, 5, 0, 5, 1, 3, 2, 6, 3, 6, 7, 0, 3, 7, 0, 7, 4, 1, 5, 6, 1,
        6, 2,
    ]
}

/// The cube's twelve edges: bottom ring, top ring, pillars.
pub open spec fn cube_edges() -> Seq<(u32, u32)> {
    seq![
        (0u32, 1u32), (1, 2), (2, 3), (3, 0), (4, 5), (5, 6), (6, 7), (7, 4), (0, 4), (1, 5), (2, 6), (3, 7),
    ]
}

/// The icosahedron's twenty triangles over its twelve vertices.
pub open spec fn icosahedron_indices() -> Seq<u32> {
    seq![
        0u32, 11, 5, 0, 5, 1, 0, 1, 7, 0, 7, 10, 0, 10, 11, 1, 5, 9, 5, 11, 4, 11, 10, 2, 10, 7, 6, 7, 1, 8, 3, 9,
        4, 3, 4, 2, 3, 2, 6, 3, 6, 8, 3, 8, 9, 4, 9, 5, 2, 4, 11, 6, 2, 10, 8, 6, 7, 9, 8, 1,
    ]
}

/// Every hand-listed cube edge lies on the cube's triangulation, and every
/// triangle corner is one of the eight cube corners.
pub proof fn lemma_cube_edges_on_faces()
    ensures
        forall|k: int| 0 <= k < cube_edges().len() ==> is_triangle_edge(
            cube_indices(),
            edge_key((#[trigger] cube_edges()[k]).0, cube_edges()[k].1),
        ),
        forall|m: int| 0 <= m < cube_indices().len() ==> #[trigger] cube_indices()[m] < 8,
{
    let idx = cube_indices();
    assert forall|k: int| 0 <= k < cube_edges().len() implies is_triangle_edge(
        idx,
        edge_key((#[trigger] cube_edges()[k]).0, cube_edges()[k].1),
    ) by {
        if k == 0 {
            assert(corner_edge(idx, 0) == edge_key(cube_edges()[0].0, cube_edges()[0].1));
        } else if k == 1 {
            assert(corner_edge(idx, 1) == edge_key(cube_edges()[1].0, cube_edges()[1].1));
        } else if k == 2 {
            assert(corner_edge(idx, 4) == edge_key(cube_edges()[2].0, cube_edges()[2].1));
        } else if k == 3 {
            assert(corner_edge(idx, 5) == edge_key(cube_edges()[3].0, cube_edges()[3].1));
        } else if k == 4 {
            assert(corner_edge(idx, 8) == edge_key(cube_edges()[4].0, cube_edges()[4].1));
        } else if k == 5 {
            assert(corner_edge(idx, 7) == edge_key(cube_edges()[5].0, cube_edges()[5].1));
        } else if k == 6 {
            assert(corner_edge(idx, 10) == edge_key(cube_edges()[6].0, cube_edges()[6].1));
        } else if k == 7 {
            assert(corner_edge(idx, 9) == edge_key(cube_edges()[7].0, cube_edges()[7].1));
        } else if k == 8 {
            assert(corner_edge(idx, 12) == edge_key(cube_edges()[8].0, cube_edges()[8].1));
        } else if k == 9 {
            assert(corner_edge(idx, 16) == edge_key(cube_edges()[9].0, cube_edges()[9].1));
        } else if k == 10 {
            assert(corner_edge(idx, 19) == edge_key(cube_edges()[10].0, cube_edges()[10].1));
        } else if k == 11 {
            assert(corner_edge(idx, 23) == edge_key(cube_edges()[11].0, cube_edges()[11].1));
        }
    }
}

/// Axis-aligned cube over the given eight corners (see [`cube_indices`] for
/// their order). Edges are hand-listed: deriving them from the
/// triangulation would include the face diagonals.
pub fn cube<V>(corners: Vec<V>) -> (shape: Shape<V>)
    requires
        corners@.len() == 8,
    ensures
        shape.mesh.vertices@ == corners@,
        shape.mesh.indices@ == cube_indices(),
        shape.edges@ == cube_edges(),
{
    let indices: Vec<u32> = vec![
        0, 1, 2, 0, 2, 3, // bottom
        4, 6, 5, 4, 7, 6, // top
        0, 4, 5, 0, 5, 1, // back  (-z)
        3, 2, 6, 3, 6, 7, // front (+z)
        0, 3, 7, 0, 7, 4, // left  (-x)
        1, 5, 6, 1, 6, 2, // right (+x)
    ];
    let edges: Vec<(u32, u32)> = vec![
        (0, 1), (1, 2), (2, 3), (3, 0), // bottom ring
        (4, 5), (5, 6), (6, 7), (7, 4), // top ring
        (0, 4), (1, 5), (2, 6), (3, 7), // pillars
    ];
    assert(indices@ == cube_indices());
    assert(edges@ == cube_edges());
    Shape { mesh: Mesh { vertices: corners, indices }, edges }
}

/// Regular icosahedron over the given twelve vertices. All its edges are
/// creases (dihedral about 138 degrees), so deriving them from the faces is
/// correct.
pub fn icosahedron<V>(vertices: Vec<V>) -> (shape: Shape<V>)
    requires
        vertices@.len() == 12,
    ensures
        shape.mesh.vertices@ == vertices@,
        shape.mesh.indices@ == icosahedron_indices(),
        strictly_sorted_pairs(shape.edges@),
        forall|e: (u32, u32)| shape.edges@.contains(e) <==> is_triangle_edge(icosahedron_indices(), e),
{
    let indices: Vec<u32> = vec![
        0, 11, 5, 0, 5, 1, 0, 1, 7, 0, 7, 10, 0, 10, 11,
        1, 5, 9, 5, 11, 4, 11, 10, 2, 10, 7, 6, 7, 1, 8,
        3, 9, 4, 3, 4, 2, 3, 2, 6, 3, 6, 8, 3, 8, 9,
        4, 9, 5, 2, 4, 11, 6, 2, 10, 8, 6, 7, 9, 8, 1,
    ];
    assert(indices@ == icosahedron_indices());
    let edges = edges_from_triangles(indices.as_slice());
    proof {
        assert forall|e: (u32, u32)| edges@.contains(e) implies is_triangle_edge(icosahedron_indices(), e) by {
            let w = choose|w: int| 0 <= w < edges@.len() && edges@[w] == e;
        }
    }
    Shape { mesh: Mesh { vertices, indices }, edges }
}

} // verus!
