//! The heart of the converter: collect the non-degenerate faces of the
//! welded triangle list, build edge→face adjacency, and classify every edge.
//!
//! ```text
//! 1 adjacent face                      → BOUNDARY  (always drawn)
//! adjacent faces differ in palette     → MATERIAL  (always drawn)
//! dihedral angle > crease threshold    → CREASE    (always drawn)
//! dihedral angle ≈ 0 (coplanar)        → dropped   (can never silhouette)
//! otherwise                            → SMOOTH    (silhouette candidate)
//! 3 or more adjacent faces             → NON-MANIFOLD (always drawn)
//! authored line primitives             → DECOR     (always drawn)
//! ```
//!
//! The angle between two face normals is measured by the caller (it is
//! floating-point geometry) and handed in as a [`Bend`] per edge.

use vstd::prelude::*;
use crate::mesh::{corner_edge, edge_key, next_corner, is_triangle_edge, whole_corners};
use crate::order::{
    lane, pack_pair, pack_pair_u128, pack_pair_u64, unpack_pair_u128, lemma_pack_pair_order, lemma_lane_split,
    lemma_lane_unpack, lemma_sorted_distinct, pair_lt, ascending_u128, sort_u128s,
};

verus! {

broadcast use vstd::seq_lib::group_to_multiset_ensures;

/// Conversion counters, reported by the converter CLI.
#[derive(Debug, Clone, Copy, PartialEq, Eq)]
pub struct ConvertStats {
    pub source_vertices: usize,
    pub welded_vertices: usize,
    pub triangles: usize,
    pub degenerate_triangles: usize,
    pub boundary: usize,
    pub crease: usize,
    pub material: usize,
    pub non_manifold: usize,
    pub smooth: usize,
    pub dropped_coplanar: usize,
    pub decor: usize,
}

impl ConvertStats {
    /// All counters zero.
    pub fn new() -> (s: Self)
        ensures
            s.source_vertices == 0 && s.welded_vertices == 0 && s.triangles == 0,
            s.degenerate_triangles == 0 && s.boundary == 0 && s.crease == 0,
            s.material == 0 && s.non_manifold == 0 && s.smooth == 0,
            s.dropped_coplanar == 0 && s.decor == 0,
    {
        ConvertStats {
            source_vertices: 0,
            welded_vertices: 0,
            triangles: 0,
            degenerate_triangles: 0,
            boundary: 0,
            crease: 0,
            material: 0,
            non_manifold: 0,
            smooth: 0,
            dropped_coplanar: 0,
            decor: 0,
        }
    }

    /// Number of edges drawn unconditionally (everything but the smooth
    /// silhouette candidates).
    pub fn always_edges(&self) -> (n: usize)
        requires
            self.boundary + self.crease + self.material + self.non_manifold + self.decor <= usize::MAX,
        ensures
            n == self.boundary + self.crease + self.material + self.non_manifold + self.decor,
    {
        self.boundary + self.crease + self.material + self.non_manifold + self.decor
    }
}

impl Default for ConvertStats {
    fn default() -> (s: Self)
        ensures
            s.source_vertices == 0 && s.welded_vertices == 0 && s.triangles == 0,
            s.degenerate_triangles == 0 && s.boundary == 0 && s.crease == 0,
            s.material == 0 && s.non_manifold == 0 && s.smooth == 0,
            s.dropped_coplanar == 0 && s.decor == 0,
    {
        ConvertStats::new()
    }
}

// ---------------------------------------------------------------- faces

/// Triangle `t` of a triangle list collapses: two corners weld to the same
/// vertex, or the caller measured a (near-)zero area (`flat`).
pub open spec fn is_degenerate(idx: Seq<u32>, flat: Seq<bool>, t: int) -> bool {
    idx[3 * t] == idx[3 * t + 1] || idx[3 * t + 1] == idx[3 * t + 2] || idx[3 * t] == idx[3 * t + 2]
        || flat[t]
}

/// Indices of the non-degenerate triangles among the first `n`, in order.
pub open spec fn kept_triangles(idx: Seq<u32>, flat: Seq<bool>, n: int) -> Seq<int>
    decreases n,
{
    if n <= 0 {
        Seq::empty()
    } else if is_degenerate(idx, flat, n - 1) {
        kept_triangles(idx, flat, n - 1)
    } else {
        kept_triangles(idx, flat, n - 1).push(n - 1)
    }
}

/// A missing style entry means solid (0).
pub open spec fn style_at(styles: Seq<u8>, i: int) -> u8 {
    if 0 <= i < styles.len() { styles[i] } else { 0 }
}

/// A triangle's style is its own entry when it has one, and solid (0)
/// when the style list is shorter.
pub proof fn lemma_style_lookup(styles: Seq<u8>, i: int)
    ensures
        0 <= i < styles.len() ==> style_at(styles, i) == styles[i],
        !(0 <= i < styles.len()) ==> style_at(styles, i) == 0,
{
}

/// The kept triangles are exactly those with three distinct corners that
/// the caller did not measure flat, in ascending order.
pub proof fn lemma_kept_triangles(idx: Seq<u32>, flat: Seq<bool>, n: int)
    requires
        0 <= n,
    ensures
        forall|a: int, b: int| 0 <= a < b < kept_triangles(idx, flat, n).len() ==> #[trigger] kept_triangles(idx, flat, n)[a]
            < #[trigger] kept_triangles(idx, flat, n)[b],
        forall|t: int| #[trigger] kept_triangles(idx, flat, n).contains(t) <==> (0 <= t < n && idx[3 * t] != idx[3 * t + 1]
            && idx[3 * t + 1] != idx[3 * t + 2] && idx[3 * t] != idx[3 * t + 2] && !flat[t]),
    decreases n,
{
    if n > 0 {
        lemma_kept_triangles(idx, flat, n - 1);
        let prev = kept_triangles(idx, flat, n - 1);
        let cur = kept_triangles(idx, flat, n);
        assert forall|t: int| cur.contains(t) <==> (0 <= t < n && idx[3 * t] != idx[3 * t + 1] && idx[3 * t + 1]
            != idx[3 * t + 2] && idx[3 * t] != idx[3 * t + 2] && !flat[t]) by {
            assert(prev.contains(t) <==> (0 <= t < n - 1 && idx[3 * t] != idx[3 * t + 1] && idx[3 * t + 1]
                != idx[3 * t + 2] && idx[3 * t] != idx[3 * t + 2] && !flat[t]));
            if !is_degenerate(idx, flat, n - 1) {
                assert(cur == prev.push(n - 1));
                if cur.contains(t) && t != n - 1 {
                    let w = choose|w: int| 0 <= w < cur.len() && cur[w] == t;
                    assert(prev[w] == t);
                }
                if prev.contains(t) {
                    let w = choose|w: int| 0 <= w < prev.len() && prev[w] == t;
                    assert(cur[w] == t);
                }
                if t == n - 1 {
                    assert(cur[prev.len() as int] == t);
                }
            } else {
                assert(cur == prev);
            }
        }
        if !is_degenerate(idx, flat, n - 1) {
            assert(cur == prev.push(n - 1));
            assert forall|a: int, b: int| 0 <= a < b < cur.len() implies #[trigger] cur[a] < #[trigger] cur[b] by {
                if b == prev.len() {
                    assert(prev.contains(prev[a]));
                    assert(cur[a] == prev[a]);
                } else {
                    assert(cur[a] == prev[a] && cur[b] == prev[b]);
                }
            }
        }
    }
}

/// Every face of an occluder index list has three distinct corners.
pub open spec fn faces_well_formed(occ: Seq<u32>) -> bool {
    &&& occ.len() % 3 == 0
    &&& forall|f: int| 0 <= f < occ.len() / 3 ==> {
        &&& #[trigger] occ[3 * f] != occ[3 * f + 1]
        &&& occ[3 * f + 1] != occ[3 * f + 2]
        &&& occ[3 * f] != occ[3 * f + 2]
    }
}

/// The non-degenerate faces of a welded triangle list: the occluder mesh,
/// plus the palette and style of each face.
pub struct Faces {
    /// Three welded vertex indices per face.
    pub occluder_indices: Vec<u32>,
    pub palette: Vec<u8>,
    pub style: Vec<u8>,
}

/// Keep the triangles that do not collapse; count kept and skipped ones.
///
/// `flat[t]` says the caller measured triangle `t`'s area as (near) zero.
pub fn collect_faces(
    tri_indices: &Vec<u32>,
    flat: &Vec<bool>,
    tri_palette: &Vec<u8>,
    tri_style: &Vec<u8>,
    stats: &mut ConvertStats,
) -> (faces: Faces)
    requires
        flat@.len() >= tri_indices@.len() / 3,
        forall|t: int| 0 <= t < tri_indices@.len() / 3 && !is_degenerate(tri_indices@, flat@, t)
            ==> t < tri_palette@.len(),
    ensures
        ({
            let kept = kept_triangles(tri_indices@, flat@, tri_indices@.len() as int / 3);
            &&& faces.palette@.len() == kept.len()
            &&& faces.style@.len() == kept.len()
            &&& faces.occluder_indices@.len() == 3 * kept.len()
            &&& forall|f: int| 0 <= f < kept.len() ==> {
                &&& #[trigger] faces.palette@[f] == tri_palette@[kept[f]]
                &&& faces.style@[f] == style_at(tri_style@, kept[f])
                &&& (kept[f] < tri_style@.len() ==> faces.style@[f] == tri_style@[kept[f]])
                &&& (kept[f] >= tri_style@.len() ==> faces.style@[f] == 0)
                &&& faces.occluder_indices@[3 * f] == tri_indices@[3 * kept[f]]
                &&& faces.occluder_indices@[3 * f + 1] == tri_indices@[3 * kept[f] + 1]
                &&& faces.occluder_indices@[3 * f + 2] == tri_indices@[3 * kept[f] + 2]
            }
            &&& final(stats).triangles == kept.len()
            &&& final(stats).degenerate_triangles == tri_indices@.len() / 3 - kept.len()
        }),
        faces_well_formed(faces.occluder_indices@),
        final(stats).source_vertices == old(stats).source_vertices,
        final(stats).welded_vertices == old(stats).welded_vertices,
        final(stats).boundary == old(stats).boundary,
        final(stats).crease == old(stats).crease,
        final(stats).material == old(stats).material,
        final(stats).non_manifold == old(stats).non_manifold,
        final(stats).smooth == old(stats).smooth,
        final(stats).dropped_coplanar == old(stats).dropped_coplanar,
        final(stats).decor == old(stats).decor,
{
    let len = tri_indices.len();
    let n = len / 3;
    let mut occluder_indices: Vec<u32> = Vec::new();
    let mut palette: Vec<u8> = Vec::new();
    let mut style: Vec<u8> = Vec::new();
    let mut kept_count: usize = 0;
    let mut t: usize = 0;
    let mut base: usize = 0;
    while t < n
        invariant
            n == tri_indices@.len() / 3,
            len == tri_indices@.len(),
            t <= n,
            base == 3 * t,
            flat@.len() >= n,
            forall|u: int| 0 <= u < n && !is_degenerate(tri_indices@, flat@, u) ==> u < tri_palette@.len(),
            ({
                let kept = kept_triangles(tri_indices@, flat@, t as int);
                &&& kept_count == kept.len()
                &&& kept.len() <= t
                &&& palette@.len() == kept.len()
                &&& style@.len() == kept.len()
                &&& occluder_indices@.len() == 3 * kept.len()
                &&& forall|f: int| 0 <= f < kept.len() ==> {
                    &&& 0 <= #[trigger] kept[f] < t
                    &&& !is_degenerate(tri_indices@, flat@, kept[f])
                    &&& palette@[f] == tri_palette@[kept[f]]
                    &&& style@[f] == style_at(tri_style@, kept[f])
                    &&& occluder_indices@[3 * f] == tri_indices@[3 * kept[f]]
                    &&& occluder_indices@[3 * f + 1] == tri_indices@[3 * kept[f] + 1]
                    &&& occluder_indices@[3 * f + 2] == tri_indices@[3 * kept[f] + 2]
                }
            }),
        decreases n - t,
    {
        assert(base + 2 < tri_indices@.len()) by (nonlinear_arith)
            requires t < n, n == tri_indices@.len() / 3, base == 3 * t;
        assert(base + 1 < tri_indices@.len());
        let a = tri_indices[base];
        let b = tri_indices[base + 1];
        let c = tri_indices[base + 2];
        assert(is_degenerate(tri_indices@, flat@, t as int) <==> (a == b || b == c || a == c || flat@[t as int]));
        let ghost prev = kept_triangles(tri_indices@, flat@, t as int);
        let ghost occ_before = occluder_indices@;
        if a == b || b == c || a == c || flat[t] {
            assert(kept_triangles(tri_indices@, flat@, t + 1) == prev);
        } else {
            let s = if t < tri_style.len() { tri_style[t] } else { 0 };
            palette.push(tri_palette[t]);
            style.push(s);
            occluder_indices.push(a);
            occluder_indices.push(b);
            occluder_indices.push(c);
            kept_count += 1;
            proof {
                let kept = kept_triangles(tri_indices@, flat@, t + 1);
                assert(kept == prev.push(t as int));
                assert forall|f: int| 0 <= f < kept.len() implies {
                    &&& 0 <= #[trigger] kept[f] < t + 1
                    &&& !is_degenerate(tri_indices@, flat@, kept[f])
                    &&& palette@[f] == tri_palette@[kept[f]]
                    &&& style@[f] == style_at(tri_style@, kept[f])
                    &&& occluder_indices@[3 * f] == tri_indices@[3 * kept[f]]
                    &&& occluder_indices@[3 * f + 1] == tri_indices@[3 * kept[f] + 1]
                    &&& occluder_indices@[3 * f + 2] == tri_indices@[3 * kept[f] + 2]
                } by {
                    if f < prev.len() {
                        assert(kept[f] == prev[f]);
                        assert(occluder_indices@[3 * f] == occ_before[3 * f]);
                        assert(occluder_indices@[3 * f + 1] == occ_before[3 * f + 1]);
                        assert(occluder_indices@[3 * f + 2] == occ_before[3 * f + 2]);
                    }
                }
            }
        }
        t += 1;
        base += 3;
    }
    stats.triangles = kept_count;
    stats.degenerate_triangles = n - kept_count;
    proof {
        let kept = kept_triangles(tri_indices@, flat@, n as int);
        let occ = occluder_indices@;
        assert(occ.len() % 3 == 0 && occ.len() / 3 == kept.len()) by (nonlinear_arith)
            requires occ.len() == 3 * kept.len();
        assert forall|f: int| 0 <= f < occ.len() / 3 implies {
            &&& #[trigger] occ[3 * f] != occ[3 * f + 1]
            &&& occ[3 * f + 1] != occ[3 * f + 2]
            &&& occ[3 * f] != occ[3 * f + 2]
        } by {
            assert(0 <= kept[f] < n);
            assert(!is_degenerate(tri_indices@, flat@, kept[f]));
        }
    }
    Faces { occluder_indices, palette, style }
}

// ---------------------------------------------------------------- adjacency

/// Face `f` of an occluder index list has `e` among its three edges.
pub open spec fn face_has_edge(occ: Seq<u32>, f: int, e: (u32, u32)) -> bool {
    &&& 0 <= f < occ.len() / 3
    &&& (corner_edge(occ, 3 * f) == e || corner_edge(occ, 3 * f + 1) == e || corner_edge(occ, 3 * f + 2) == e)
}

/// The sort key of corner `m`: its edge, then its face.
pub open spec fn corner_key(occ: Seq<u32>, m: int) -> int {
    pack_pair(corner_edge(occ, m)) * lane() + m / 3
}

/// One undirected edge of the occluder mesh and the faces that share it.
pub struct EdgeFaces {
    pub a: u32,
    pub b: u32,
    /// Adjacent face ids, ascending.
    pub faces: Vec<u32>,
}

pub open spec fn adj_key(e: EdgeFaces) -> (u32, u32) {
    (e.a, e.b)
}

pub proof fn lemma_corner_of_face(f: int, k: int)
    requires
        0 <= f,
        0 <= k < 3,
    ensures
        (3 * f + k) / 3 == f,
        (3 * f + k) % 3 == k,
        next_corner(3 * f + k) == 3 * f + (if k == 2 { 0 } else { k + 1 }),
{
    assert((3 * f + k) / 3 == f) by (nonlinear_arith) requires 0 <= f, 0 <= k < 3;
    assert((3 * f + k) % 3 == k) by (nonlinear_arith) requires 0 <= f, 0 <= k < 3;
}

/// Distinct corners of a well-formed occluder list have distinct keys.
proof fn lemma_corner_keys_distinct(occ: Seq<u32>, m1: int, m2: int)
    requires
        faces_well_formed(occ),
        occ.len() / 3 <= lane(),
        0 <= m1 < occ.len(),
        0 <= m2 < occ.len(),
        m1 != m2,
    ensures
        corner_key(occ, m1) != corner_key(occ, m2),
{
    let (f1, k1) = (m1 / 3, m1 % 3);
    let (f2, k2) = (m2 / 3, m2 % 3);
    assert(m1 == 3 * f1 + k1 && 0 <= k1 < 3 && 0 <= f1) by (nonlinear_arith) requires f1 == m1 / 3, k1 == m1 % 3, 0 <= m1;
    assert(m2 == 3 * f2 + k2 && 0 <= k2 < 3 && 0 <= f2) by (nonlinear_arith) requires f2 == m2 / 3, k2 == m2 % 3, 0 <= m2;
    assert(f1 < occ.len() / 3) by (nonlinear_arith) requires m1 == 3 * f1 + k1, 0 <= k1 < 3, m1 < occ.len(), occ.len() % 3 == 0;
    assert(f2 < occ.len() / 3) by (nonlinear_arith) requires m2 == 3 * f2 + k2, 0 <= k2 < 3, m2 < occ.len(), occ.len() % 3 == 0;
    lemma_corner_of_face(f1, k1);
    lemma_corner_of_face(f2, k2);
    let e1 = corner_edge(occ, m1);
    let e2 = corner_edge(occ, m2);
    lemma_pack_pair_order(e1, e2);
    lemma_pack_pair_order(e1, e1);
    lemma_pack_pair_order(e2, e2);
    lemma_lane_unpack(pack_pair(e1), f1);
    lemma_lane_unpack(pack_pair(e2), f2);
    if f1 == f2 {
        assert(occ[3 * f1] != occ[3 * f1 + 1]);
        assert(e1 != e2);
    }
}

/// Edge → adjacent-faces table of an occluder mesh, sorted by edge for
/// deterministic output.
pub fn edge_adjacency(occ: &Vec<u32>) -> (adj: Vec<EdgeFaces>)
    requires
        faces_well_formed(occ@),
        occ@.len() / 3 <= lane(),
    ensures
        forall|i: int, j: int| 0 <= i < j < adj@.len() ==> pair_lt(adj_key(#[trigger] adj@[i]), adj_key(#[trigger] adj@[j])),
        forall|i: int| 0 <= i < adj@.len() ==> {
            &&& (#[trigger] adj@[i]).faces@.len() > 0
            &&& forall|x: int, y: int| 0 <= x < y < adj@[i].faces@.len() ==> adj@[i].faces@[x] < adj@[i].faces@[y]
            &&& forall|f: u32| adj@[i].faces@.contains(f) <==> face_has_edge(occ@, f as int, adj_key(adj@[i]))
        },
        forall|e: (u32, u32)| is_triangle_edge(occ@, e) ==> exists|i: int| 0 <= i < adj@.len() && adj_key(#[trigger] adj@[i]) == e,
{
    let len = occ.len();
    let nf = len / 3;
    let mut keys: Vec<u128> = Vec::new();
    let mut f: usize = 0;
    while f < nf
        invariant
            len == occ@.len(),
            nf == len / 3,
            len % 3 == 0,
            nf <= lane(),
            f <= nf,
            keys@.len() == 3 * f,
            forall|j: int| 0 <= j < keys@.len() ==> (#[trigger] keys@[j]) as int == corner_key(occ@, j),
        decreases nf - f,
    {
        assert(3 * f + 2 < len) by (nonlinear_arith) requires f < nf, nf == len / 3, len % 3 == 0;
        let base = 3 * f;
        let (x, y, z) = (occ[base], occ[base + 1], occ[base + 2]);
        let ghost before = keys@;
        let fk = f as u128;
        let k0 = if x <= y { pack_pair_u128(x, y) } else { pack_pair_u128(y, x) };
        let k1 = if y <= z { pack_pair_u128(y, z) } else { pack_pair_u128(z, y) };
        let k2 = if z <= x { pack_pair_u128(z, x) } else { pack_pair_u128(x, z) };
        proof {
            lemma_corner_of_face(f as int, 0);
            lemma_corner_of_face(f as int, 1);
            lemma_corner_of_face(f as int, 2);
            lemma_pack_pair_order(edge_key(x, y), edge_key(x, y));
            lemma_pack_pair_order(edge_key(y, z), edge_key(y, z));
            lemma_pack_pair_order(edge_key(z, x), edge_key(z, x));
        }
        keys.push(k0 * 0x1_0000_0000u128 + fk);
        keys.push(k1 * 0x1_0000_0000u128 + fk);
        keys.push(k2 * 0x1_0000_0000u128 + fk);
        proof {
            assert forall|j: int| 0 <= j < keys@.len() implies (#[trigger] keys@[j]) as int == corner_key(occ@, j) by {
                if j < 3 * f {
                    assert(keys@[j] == before[j]);
                }
            }
        }
        f += 1;
    }
    let ghost unsorted = keys@;
    proof {
        assert forall|i: int, j: int| 0 <= i < unsorted.len() && 0 <= j < unsorted.len() && i != j implies unsorted[i] != unsorted[j] by {
            lemma_corner_keys_distinct(occ@, i, j);
        }
    }
    sort_u128s(&mut keys);
    proof {
        lemma_sorted_distinct(unsorted, keys@);
        assert forall|j: int| 0 <= j < keys@.len() implies (#[trigger] keys@[j]) < lane() * lane() * lane() && unsorted.contains(keys@[j]) by {
            assert(keys@.to_multiset().count(keys@[j]) == unsorted.to_multiset().count(keys@[j]));
            let w = choose|w: int| 0 <= w < unsorted.len() && unsorted[w] == keys@[j];
            lemma_pack_pair_order(corner_edge(occ@, w), corner_edge(occ@, w));
            assert(w / 3 < lane()) by (nonlinear_arith) requires 0 <= w < occ@.len(), occ@.len() / 3 <= lane(), occ@.len() % 3 == 0;
            assert(pack_pair(corner_edge(occ@, w)) * lane() + w / 3 < lane() * lane() * lane()) by (nonlinear_arith)
                requires pack_pair(corner_edge(occ@, w)) < lane() * lane(), 0 <= w / 3 < lane();
        }
    }

    let n = keys.len();
    let mut adj: Vec<EdgeFaces> = Vec::new();
    let mut i: usize = 0;
    while i < n
        invariant
            n == keys@.len(),
            i <= n,
            forall|x: int, y: int| 0 <= x < y < keys@.len() ==> #[trigger] keys@[x] < #[trigger] keys@[y],
            forall|j: int| 0 <= j < keys@.len() ==> (#[trigger] keys@[j]) < lane() * lane() * lane(),
            forall|x: int, y: int| 0 <= x < y < adj@.len() ==> pair_lt(adj_key(#[trigger] adj@[x]), adj_key(#[trigger] adj@[y])),
            i > 0 ==> adj@.len() > 0 && pack_pair(adj_key(adj@.last())) == keys@[i - 1] as int / lane(),
            i == 0 ==> adj@.len() == 0,
            i < n && i > 0 ==> keys@[i as int] as int / lane() != keys@[i - 1] as int / lane(),
            forall|j: int| 0 <= j < i ==> exists|o: int| 0 <= o < adj@.len()
                && pack_pair(adj_key(#[trigger] adj@[o])) == keys@[j] as int / lane()
                && adj@[o].faces@.contains(((#[trigger] keys@[j]) as int % lane()) as u32),
            forall|o: int, x: u32| 0 <= o < adj@.len() && #[trigger] adj@[o].faces@.contains(x)
                ==> keys@.contains((pack_pair(adj_key(adj@[o])) * lane() + x) as u128),
            forall|o: int| 0 <= o < adj@.len() ==> {
                &&& (#[trigger] adj@[o]).faces@.len() > 0
                &&& forall|x: int, y: int| 0 <= x < y < adj@[o].faces@.len() ==> adj@[o].faces@[x] < adj@[o].faces@[y]
            },
        decreases n - i,
    {
        let start = i;
        let e = keys[i] / 0x1_0000_0000u128;
        let mut faces: Vec<u32> = Vec::new();
        proof {
            lemma_lane_split(keys@[i as int] as int, keys@[i as int] as int + 1);
        }
        while i < n && keys[i] / 0x1_0000_0000u128 == e
            invariant
                n == keys@.len(),
                start < n,
                start <= i <= n,
                e as int == keys@[start as int] as int / lane(),
                forall|x: int, y: int| 0 <= x < y < keys@.len() ==> #[trigger] keys@[x] < #[trigger] keys@[y],
                forall|j: int| start <= j < i ==> (#[trigger] keys@[j]) as int / lane() == e as int,
                faces@.len() == i - start,
                forall|q: int| 0 <= q < faces@.len() ==> (#[trigger] faces@[q]) == keys@[start + q] as int % lane(),
                forall|x: int, y: int| 0 <= x < y < faces@.len() ==> faces@[x] < faces@[y],
            decreases n - i,
        {
            let low = keys[i] % 0x1_0000_0000u128;
            proof {
                lemma_lane_split(keys@[i as int] as int, keys@[i as int] as int + 1);
                if i > start {
                    lemma_lane_split(keys@[i - 1] as int, keys@[i as int] as int);
                }
            }
            let ghost fb = faces@;
            faces.push(low as u32);
            proof {
                assert forall|x: int, y: int| 0 <= x < y < faces@.len() implies faces@[x] < faces@[y] by {
                    if y == fb.len() && x < y - 1 {
                        assert(fb[x] < fb[y - 1]);
                    }
                }
            }
            i += 1;
        }
        proof {
            lemma_lane_split(e as int * lane(), e as int * lane() + 1);
            assert(e < lane() * lane()) by (nonlinear_arith)
                requires e as int == keys@[start as int] as int / lane(), keys@[start as int] < lane() * lane() * lane();
        }
        let p = unpack_pair_u128(e);
        let ghost old_adj = adj@;
        proof {
            if start > 0 {
                lemma_lane_split(keys@[start - 1] as int, keys@[start as int] as int);
                lemma_pack_pair_order(adj_key(old_adj.last()), p);
            }
        }
        adj.push(EdgeFaces { a: p.0, b: p.1, faces });
        proof {
            assert(adj@ == old_adj.push(adj@.last()));
            assert forall|x: int, y: int| 0 <= x < y < adj@.len() implies pair_lt(adj_key(#[trigger] adj@[x]), adj_key(#[trigger] adj@[y])) by {
                if y == old_adj.len() {
                    if x < old_adj.len() - 1 {
                        assert(pair_lt(adj_key(old_adj[x]), adj_key(old_adj[old_adj.len() - 1])));
                    }
                } else {
                    assert(pair_lt(adj_key(old_adj[x]), adj_key(old_adj[y])));
                }
            }
            let last = adj@.len() - 1;
            assert forall|j: int| 0 <= j < i implies exists|o: int| 0 <= o < adj@.len()
                && pack_pair(adj_key(#[trigger] adj@[o])) == keys@[j] as int / lane()
                && adj@[o].faces@.contains(((#[trigger] keys@[j]) as int % lane()) as u32) by {
                if j >= start {
                    assert(adj@[last].faces@[j - start] == keys@[j] as int % lane());
                    assert(adj@[last].faces@.contains((keys@[j] as int % lane()) as u32));
                } else {
                    let o = choose|o: int| 0 <= o < old_adj.len()
                        && pack_pair(adj_key(#[trigger] old_adj[o])) == keys@[j] as int / lane()
                        && old_adj[o].faces@.contains(((#[trigger] keys@[j]) as int % lane()) as u32);
                    assert(adj@[o] == old_adj[o]);
                }
            }
            assert forall|o: int, x: u32| 0 <= o < adj@.len() && #[trigger] adj@[o].faces@.contains(x)
                implies keys@.contains((pack_pair(adj_key(adj@[o])) * lane() + x) as u128) by {
                if o == last {
                    let q = choose|q: int| 0 <= q < adj@[o].faces@.len() && adj@[o].faces@[q] == x;
                    let j = start + q;
                    lemma_lane_split(keys@[j] as int, keys@[j] as int + 1);
                    assert(keys@[j] as int / lane() == e as int);
                    assert(keys@[j] as int == e * lane() + x);
                } else {
                    assert(adj@[o] == old_adj[o]);
                }
            }
            assert forall|o: int| 0 <= o < adj@.len() implies {
                &&& (#[trigger] adj@[o]).faces@.len() > 0
                &&& forall|x: int, y: int| 0 <= x < y < adj@[o].faces@.len() ==> adj@[o].faces@[x] < adj@[o].faces@[y]
            } by {
                if o < last {
                    assert(adj@[o] == old_adj[o]);
                }
            }
        }
    }
    proof {
        assert forall|q: int| 0 <= q < adj@.len() implies forall|f: u32| (#[trigger] adj@[q]).faces@.contains(f) <==> face_has_edge(occ@, f as int, adj_key(adj@[q])) by {
            let ek = adj_key(adj@[q]);
            assert forall|f: u32| adj@[q].faces@.contains(f) implies face_has_edge(occ@, f as int, ek) by {
                let v = (pack_pair(ek) * lane() + f) as u128;
                assert(keys@.contains(v));
                assert(keys@.to_multiset().count(v) == unsorted.to_multiset().count(v));
                let w = choose|w: int| 0 <= w < unsorted.len() && unsorted[w] == v;
                lemma_pack_pair_order(ek, ek);
                lemma_pack_pair_order(corner_edge(occ@, w), ek);
                lemma_lane_unpack(pack_pair(ek), f as int);
                lemma_lane_unpack(pack_pair(corner_edge(occ@, w)), w / 3);
                let (ff, kk) = (w / 3, w % 3);
                assert(w == 3 * ff + kk && 0 <= kk < 3 && 0 <= ff) by (nonlinear_arith) requires ff == w / 3, kk == w % 3, 0 <= w;
                assert(ff < occ@.len() / 3) by (nonlinear_arith) requires w == 3 * ff + kk, 0 <= kk < 3, w < occ@.len(), occ@.len() % 3 == 0;
                assert(corner_edge(occ@, w) == ek);
            }
            assert forall|f: u32| face_has_edge(occ@, f as int, ek) implies adj@[q].faces@.contains(f) by {
                let k = if corner_edge(occ@, 3 * f) == ek { 0int } else if corner_edge(occ@, 3 * f + 1) == ek { 1int } else { 2int };
                let w = 3 * f + k;
                assert(w < occ@.len()) by (nonlinear_arith) requires w == 3 * f + k, 0 <= k < 3, f < occ@.len() / 3, occ@.len() % 3 == 0;
                lemma_corner_of_face(f as int, k);
                let v = unsorted[w];
                assert(v as int == pack_pair(ek) * lane() + f);
                assert(unsorted.contains(v));
                assert(keys@.to_multiset().count(v) == unsorted.to_multiset().count(v));
                let j = choose|j: int| 0 <= j < keys@.len() && keys@[j] == v;
                lemma_pack_pair_order(ek, ek);
                lemma_lane_unpack(pack_pair(ek), f as int);
                let o = choose|o: int| 0 <= o < adj@.len()
                    && pack_pair(adj_key(#[trigger] adj@[o])) == keys@[j] as int / lane()
                    && adj@[o].faces@.contains(((#[trigger] keys@[j]) as int % lane()) as u32);
                lemma_pack_pair_order(adj_key(adj@[o]), ek);
                if o != q {
                    if o < q {
                        assert(pair_lt(adj_key(adj@[o]), adj_key(adj@[q])));
                    } else {
                        assert(pair_lt(adj_key(adj@[q]), adj_key(adj@[o])));
                    }
                }
            }
        }
        assert forall|e: (u32, u32)| is_triangle_edge(occ@, e) implies exists|i: int| 0 <= i < adj@.len() && adj_key(#[trigger] adj@[i]) == e by {
            let w = choose|w: int| 0 <= w < whole_corners(occ@) && #[trigger] corner_edge(occ@, w) == e;
            assert(whole_corners(occ@) == occ@.len()) by (nonlinear_arith) requires occ@.len() % 3 == 0, whole_corners(occ@) == 3 * (occ@.len() as int / 3);
            let v = unsorted[w];
            assert(unsorted.contains(v));
            assert(keys@.to_multiset().count(v) == unsorted.to_multiset().count(v));
            let j = choose|j: int| 0 <= j < keys@.len() && keys@[j] == v;
            lemma_pack_pair_order(e, e);
            assert(w / 3 < lane()) by (nonlinear_arith) requires 0 <= w < occ@.len(), occ@.len() / 3 <= lane(), occ@.len() % 3 == 0;
            lemma_lane_unpack(pack_pair(e), w / 3);
            let o = choose|o: int| 0 <= o < adj@.len()
                && pack_pair(adj_key(#[trigger] adj@[o])) == keys@[j] as int / lane()
                && adj@[o].faces@.contains(((#[trigger] keys@[j]) as int % lane()) as u32);
            lemma_pack_pair_order(adj_key(adj@[o]), e);
        }
    }
    adj
}

// ---------------------------------------------------------------- classification

/// How sharply the two faces of a two-face edge meet, as measured by the
/// caller from their normals: a crease beyond the crease angle, (nearly)
/// coplanar, or a smooth bend in between.
#[derive(Debug, Clone, Copy, PartialEq, Eq)]
pub enum Bend {
    Crease,
    Coplanar,
    Smooth,
}

/// Whether an edge is always stroked or only when it silhouettes.
#[derive(Debug, Clone, Copy, PartialEq, Eq)]
pub enum EdgeKind {
    Always,
    Smooth,
}

/// The class the converter gives an edge of the occluder mesh.
#[derive(Debug, Clone, Copy, PartialEq, Eq)]
pub enum EdgeClass {
    Boundary,
    Material,
    Crease,
    Coplanar,
    Smooth,
    NonManifold,
}

/// A classified edge. `normal_faces` names the faces whose normals the edge
/// carries for the runtime silhouette test (the same face twice on a boundary);
/// decor lines carry none.
#[derive(Debug, Clone, Copy, PartialEq, Eq)]
pub struct ClassifiedEdge {
    pub a: u32,
    pub b: u32,
    pub palette: u8,
    pub style: u8,
    pub kind: EdgeKind,
    pub normal_faces: Option<(u32, u32)>,
}

pub open spec fn edge_of(e: ClassifiedEdge) -> (u32, u32) {
    (e.a, e.b)
}

pub open spec fn edge_class(e: EdgeFaces, palette: Seq<u8>, bend: Bend) -> EdgeClass {
    if e.faces@.len() == 1 {
        EdgeClass::Boundary
    } else if e.faces@.len() == 2 {
        if palette[e.faces@[0] as int] != palette[e.faces@[1] as int] {
            EdgeClass::Material
        } else {
            match bend {
                Bend::Crease => EdgeClass::Crease,
                Bend::Coplanar => EdgeClass::Coplanar,
                Bend::Smooth => EdgeClass::Smooth,
            }
        }
    } else {
        EdgeClass::NonManifold
    }
}

/// The stroked edge for an adjacency entry: palette and style of its first
/// face, normals of its first two faces.
pub open spec fn classified_edge(e: EdgeFaces, palette: Seq<u8>, style: Seq<u8>, bend: Bend) -> ClassifiedEdge {
    let f1 = e.faces@[0];
    let f2 = if e.faces@.len() == 1 { f1 } else { e.faces@[1] };
    ClassifiedEdge {
        a: e.a,
        b: e.b,
        palette: palette[f1 as int],
        style: style[f1 as int],
        kind: if edge_class(e, palette, bend) == EdgeClass::Smooth { EdgeKind::Smooth } else { EdgeKind::Always },
        normal_faces: Some((f1, f2)),
    }
}

/// Classified edges of the first `n` adjacency entries; coplanar ones are dropped.
pub open spec fn classify_prefix(adj: Seq<EdgeFaces>, palette: Seq<u8>, style: Seq<u8>, bends: Seq<Bend>, n: int) -> Seq<ClassifiedEdge>
    decreases n,
{
    if n <= 0 {
        Seq::empty()
    } else if edge_class(adj[n - 1], palette, bends[n - 1]) == EdgeClass::Coplanar {
        classify_prefix(adj, palette, style, bends, n - 1)
    } else {
        classify_prefix(adj, palette, style, bends, n - 1).push(classified_edge(adj[n - 1], palette, style, bends[n - 1]))
    }
}

/// How many of the first `n` adjacency entries fall in class `c`.
pub open spec fn count_class(adj: Seq<EdgeFaces>, palette: Seq<u8>, bends: Seq<Bend>, n: int, c: EdgeClass) -> nat
    decreases n,
{
    if n <= 0 {
        0
    } else {
        count_class(adj, palette, bends, n - 1, c) + if edge_class(adj[n - 1], palette, bends[n - 1]) == c { 1nat } else { 0nat }
    }
}

/// Every adjacency entry falls in exactly one class: the six class counts
/// of the first `n` entries add up to `n`.
pub proof fn lemma_counts_partition(adj: Seq<EdgeFaces>, palette: Seq<u8>, bends: Seq<Bend>, n: int)
    requires
        0 <= n,
    ensures
        count_class(adj, palette, bends, n, EdgeClass::Boundary) + count_class(adj, palette, bends, n, EdgeClass::Material)
            + count_class(adj, palette, bends, n, EdgeClass::Crease) + count_class(adj, palette, bends, n, EdgeClass::Coplanar)
            + count_class(adj, palette, bends, n, EdgeClass::Smooth) + count_class(adj, palette, bends, n, EdgeClass::NonManifold) == n,
    decreases n,
{
    if n > 0 {
        lemma_counts_partition(adj, palette, bends, n - 1);
    }
}

/// Every classified edge is the edge of one adjacency entry and carries the
/// palette and style of that entry's first face.
pub proof fn lemma_classified_edges_carry_first_face(
    adj: Seq<EdgeFaces>,
    palette: Seq<u8>,
    style: Seq<u8>,
    bends: Seq<Bend>,
    n: int,
)
    requires
        0 <= n <= adj.len(),
    ensures
        forall|j: int| #![trigger classify_prefix(adj, palette, style, bends, n)[j]] 0 <= j < classify_prefix(adj, palette, style, bends, n).len() ==> exists|i: int| #![trigger adj[i]]
            0 <= i < n && classify_prefix(adj, palette, style, bends, n)[j].a == adj[i].a && classify_prefix(adj, palette, style, bends, n)[j].b == adj[i].b
                && classify_prefix(adj, palette, style, bends, n)[j].palette == palette[adj[i].faces@[0] as int] && classify_prefix(adj, palette, style, bends, n)[j].style == style[adj[i].faces@[0] as int],
    decreases n,
{
    if n > 0 {
        lemma_classified_edges_carry_first_face(adj, palette, style, bends, n - 1);
        let prev = classify_prefix(adj, palette, style, bends, n - 1);
        let cur = classify_prefix(adj, palette, style, bends, n);
        assert forall|j: int| #![trigger cur[j]] 0 <= j < cur.len() implies exists|i: int| #![trigger adj[i]]
            0 <= i < n && cur[j].a == adj[i].a && cur[j].b == adj[i].b
                && cur[j].palette == palette[adj[i].faces@[0] as int] && cur[j].style == style[adj[i].faces@[0] as int] by {
            if j < prev.len() {
                assert(cur[j] == prev[j]);
                let i = choose|i: int| #![trigger adj[i]] 0 <= i < n - 1 && prev[j].a == adj[i].a && prev[j].b == adj[i].b
                    && prev[j].palette == palette[adj[i].faces@[0] as int] && prev[j].style == style[adj[i].faces@[0] as int];
                assert(0 <= i < n && cur[j].a == adj[i].a);
            } else {
                assert(cur[j] == classified_edge(adj[n - 1], palette, style, bends[n - 1]));
                assert(cur[j].a == adj[n - 1].a);
            }
        }
    }
}

/// Which entries are stroked and how: an entry's edge is dropped only when
/// it has exactly two faces of one palette meeting coplanar; otherwise it is
/// kept, and it is a silhouette candidate exactly when those two faces meet
/// in a smooth bend (one face, a palette change, a crease or more than two
/// faces draw it always).
pub proof fn lemma_classified_entries(adj: Seq<EdgeFaces>, palette: Seq<u8>, style: Seq<u8>, bends: Seq<Bend>, n: int)
    requires
        0 <= n <= adj.len(),
        forall|x: int, y: int| 0 <= x < y < adj.len() ==> (#[trigger] adj[x]).a != (#[trigger] adj[y]).a || adj[x].b != adj[y].b,
    ensures
        forall|i: int| #![trigger adj[i]] 0 <= i < n ==> {
            &&& (exists|j: int| 0 <= j < classify_prefix(adj, palette, style, bends, n).len()
                && #[trigger] classify_prefix(adj, palette, style, bends, n)[j].a == adj[i].a
                && classify_prefix(adj, palette, style, bends, n)[j].b == adj[i].b) <==> !(adj[i].faces@.len() == 2 && palette[adj[i].faces@[0] as int] == palette[adj[i].faces@[1] as int] && bends[i] == Bend::Coplanar)
            &&& forall|j: int| 0 <= j < classify_prefix(adj, palette, style, bends, n).len()
                && #[trigger] classify_prefix(adj, palette, style, bends, n)[j].a == adj[i].a
                && classify_prefix(adj, palette, style, bends, n)[j].b == adj[i].b
                ==> (classify_prefix(adj, palette, style, bends, n)[j].kind == EdgeKind::Smooth <==> (adj[i].faces@.len() == 2 && palette[adj[i].faces@[0] as int] == palette[adj[i].faces@[1] as int] && bends[i] == Bend::Smooth))
        },
    decreases n,
{
    lemma_classified_edges_carry_first_face(adj, palette, style, bends, n);
    if n > 0 {
        lemma_classified_entries(adj, palette, style, bends, n - 1);
        let prev = classify_prefix(adj, palette, style, bends, n - 1);
        let cur = classify_prefix(adj, palette, style, bends, n);
        lemma_classified_edges_carry_first_face(adj, palette, style, bends, n - 1);
        let dropped = edge_class(adj[n - 1], palette, bends[n - 1]) == EdgeClass::Coplanar;
        if dropped {
            assert(cur == prev);
        } else {
            assert(cur == prev.push(classified_edge(adj[n - 1], palette, style, bends[n - 1])));
        }
        assert forall|i: int| #![trigger adj[i]] 0 <= i < n implies {
            &&& (exists|j: int| 0 <= j < cur.len() && #[trigger] cur[j].a == adj[i].a && cur[j].b == adj[i].b) <==> !(adj[i].faces@.len() == 2 && palette[adj[i].faces@[0] as int] == palette[adj[i].faces@[1] as int] && bends[i] == Bend::Coplanar)
            &&& forall|j: int| 0 <= j < cur.len() && #[trigger] cur[j].a == adj[i].a && cur[j].b == adj[i].b
                ==> (cur[j].kind == EdgeKind::Smooth <==> (adj[i].faces@.len() == 2 && palette[adj[i].faces@[0] as int] == palette[adj[i].faces@[1] as int] && bends[i] == Bend::Smooth))
        } by {
            if i < n - 1 {
                // Edges of earlier entries never carry the key of entry n - 1.
                assert forall|j: int| 0 <= j < prev.len() implies !(prev[j].a == adj[n - 1].a && prev[j].b == adj[n - 1].b) by {
                    let k = choose|k: int| #![trigger adj[k]] 0 <= k < n - 1 && prev[j].a == adj[k].a && prev[j].b == adj[k].b
                        && prev[j].palette == palette[adj[k].faces@[0] as int] && prev[j].style == style[adj[k].faces@[0] as int];
                    assert(adj[k].a != adj[n - 1].a || adj[k].b != adj[n - 1].b);
                }
                if !dropped {
                    assert(cur[prev.len() as int].a == adj[n - 1].a);
                    if adj[i].a == adj[n - 1].a && adj[i].b == adj[n - 1].b {
                        assert(false);
                    }
                    if exists|j: int| 0 <= j < cur.len() && #[trigger] cur[j].a == adj[i].a && cur[j].b == adj[i].b {
                        let j = choose|j: int| 0 <= j < cur.len() && #[trigger] cur[j].a == adj[i].a && cur[j].b == adj[i].b;
                        assert(j < prev.len());
                        assert(prev[j] == cur[j]);
                    }
                    if exists|j: int| 0 <= j < prev.len() && #[trigger] prev[j].a == adj[i].a && prev[j].b == adj[i].b {
                        let j = choose|j: int| 0 <= j < prev.len() && #[trigger] prev[j].a == adj[i].a && prev[j].b == adj[i].b;
                        assert(cur[j] == prev[j]);
                    }
                    assert forall|j: int| 0 <= j < cur.len() && #[trigger] cur[j].a == adj[i].a && cur[j].b == adj[i].b
                        implies (cur[j].kind == EdgeKind::Smooth <==> (adj[i].faces@.len() == 2 && palette[adj[i].faces@[0] as int] == palette[adj[i].faces@[1] as int] && bends[i] == Bend::Smooth)) by {
                        assert(j < prev.len());
                        assert(prev[j] == cur[j]);
                    }
                }
            } else {
                if !dropped {
                    let j = prev.len() as int;
                    assert(cur[j].a == adj[i].a && cur[j].b == adj[i].b);
                    assert forall|j2: int| 0 <= j2 < cur.len() && #[trigger] cur[j2].a == adj[i].a && cur[j2].b == adj[i].b
                        implies (cur[j2].kind == EdgeKind::Smooth <==> (adj[i].faces@.len() == 2 && palette[adj[i].faces@[0] as int] == palette[adj[i].faces@[1] as int] && bends[i] == Bend::Smooth)) by {
                        if j2 < prev.len() {
                            let k = choose|k: int| #![trigger adj[k]] 0 <= k < n - 1 && prev[j2].a == adj[k].a && prev[j2].b == adj[k].b
                                && prev[j2].palette == palette[adj[k].faces@[0] as int] && prev[j2].style == style[adj[k].faces@[0] as int];
                            assert(cur[j2] == prev[j2]);
                            assert(adj[k].a != adj[n - 1].a || adj[k].b != adj[n - 1].b);
                        }
                    }
                } else {
                    assert forall|j: int| 0 <= j < cur.len() implies !(#[trigger] cur[j].a == adj[i].a && cur[j].b == adj[i].b) by {
                        let k = choose|k: int| #![trigger adj[k]] 0 <= k < n - 1 && prev[j].a == adj[k].a && prev[j].b == adj[k].b
                            && prev[j].palette == palette[adj[k].faces@[0] as int] && prev[j].style == style[adj[k].faces@[0] as int];
                        assert(adj[k].a != adj[n - 1].a || adj[k].b != adj[n - 1].b);
                    }
                }
            }
        }
    }
}

/// `bends2` is what `bends1` becomes when the crease threshold is raised:
/// an entry that was no crease keeps its bend; a crease may stay one or
/// relax to smooth or coplanar.
pub open spec fn crease_relaxed(bends1: Seq<Bend>, bends2: Seq<Bend>) -> bool {
    &&& bends1.len() == bends2.len()
    &&& forall|i: int| 0 <= i < bends1.len() && bends1[i] != Bend::Crease ==> #[trigger] bends2[i] == bends1[i]
}

/// Raising the crease threshold never adds creases: creases only turn into
/// smooth or dropped coplanar edges, and the boundary, material and
/// non-manifold counts do not move.
pub proof fn lemma_raising_crease_threshold(adj: Seq<EdgeFaces>, palette: Seq<u8>, bends1: Seq<Bend>, bends2: Seq<Bend>, n: int)
    requires
        crease_relaxed(bends1, bends2),
        0 <= n <= bends1.len(),
    ensures
        count_class(adj, palette, bends2, n, EdgeClass::Crease) <= count_class(adj, palette, bends1, n, EdgeClass::Crease),
        count_class(adj, palette, bends1, n, EdgeClass::Crease) + count_class(adj, palette, bends1, n, EdgeClass::Smooth)
            + count_class(adj, palette, bends1, n, EdgeClass::Coplanar) == count_class(adj, palette, bends2, n, EdgeClass::Crease)
            + count_class(adj, palette, bends2, n, EdgeClass::Smooth) + count_class(adj, palette, bends2, n, EdgeClass::Coplanar),
        count_class(adj, palette, bends2, n, EdgeClass::Boundary) == count_class(adj, palette, bends1, n, EdgeClass::Boundary),
        count_class(adj, palette, bends2, n, EdgeClass::Material) == count_class(adj, palette, bends1, n, EdgeClass::Material),
        count_class(adj, palette, bends2, n, EdgeClass::NonManifold) == count_class(
            adj,
            palette,
            bends1,
            n,
            EdgeClass::NonManifold,
        ),
    decreases n,
{
    if n > 0 {
        lemma_raising_crease_threshold(adj, palette, bends1, bends2, n - 1);
        if bends1[n - 1] != Bend::Crease {
            assert(bends2[n - 1] == bends1[n - 1]);
        }
    }
}

/// Number of edges of kind `k` in `edges`.
pub open spec fn count_kind(edges: Seq<ClassifiedEdge>, k: EdgeKind) -> int {
    edges.fold_left(0int, |n: int, e: ClassifiedEdge| n + if e.kind == k { 1int } else { 0int })
}

proof fn lemma_count_kind_push(s: Seq<ClassifiedEdge>, e: ClassifiedEdge, k: EdgeKind)
    ensures
        count_kind(s.push(e), k) == count_kind(s, k) + if e.kind == k { 1int } else { 0int },
{
    assert(s.push(e).drop_last() == s);
}

proof fn lemma_count_kind_concat(a: Seq<ClassifiedEdge>, b: Seq<ClassifiedEdge>, k: EdgeKind)
    ensures
        count_kind(a + b, k) == count_kind(a, k) + count_kind(b, k),
    decreases b.len(),
{
    if b.len() == 0 {
        assert(a + b == a);
    } else {
        let b0 = b.drop_last();
        lemma_count_kind_concat(a, b0, k);
        assert(a + b == (a + b0).push(b.last()));
        assert(b == b0.push(b.last()));
        lemma_count_kind_push(a + b0, b.last(), k);
        lemma_count_kind_push(b0, b.last(), k);
    }
}

/// Reordering edges does not change how many there are of each kind.
proof fn lemma_count_kind_permutation(a: Seq<ClassifiedEdge>, b: Seq<ClassifiedEdge>, k: EdgeKind)
    requires
        a.to_multiset() == b.to_multiset(),
    ensures
        count_kind(a, k) == count_kind(b, k),
{
    let f = |n: int, e: ClassifiedEdge| n + if e.kind == k { 1int } else { 0int };
    assert(vstd::seq_lib::commutative_foldl(f));
    vstd::seq_lib::lemma_fold_left_permutation(a, b, f, 0int);
}

/// Among the classified edges of the first `n` entries, the always-drawn
/// ones are exactly the boundary, material, crease and non-manifold
/// entries, and the smooth ones exactly the smooth entries.
pub proof fn lemma_classified_kinds(adj: Seq<EdgeFaces>, palette: Seq<u8>, style: Seq<u8>, bends: Seq<Bend>, n: int)
    requires
        0 <= n,
    ensures
        count_kind(classify_prefix(adj, palette, style, bends, n), EdgeKind::Always) == count_class(
            adj,
            palette,
            bends,
            n,
            EdgeClass::Boundary,
        ) + count_class(adj, palette, bends, n, EdgeClass::Material) + count_class(adj, palette, bends, n, EdgeClass::Crease)
            + count_class(adj, palette, bends, n, EdgeClass::NonManifold),
        count_kind(classify_prefix(adj, palette, style, bends, n), EdgeKind::Smooth) == count_class(
            adj,
            palette,
            bends,
            n,
            EdgeClass::Smooth,
        ),
    decreases n,
{
    if n > 0 {
        lemma_classified_kinds(adj, palette, style, bends, n - 1);
        let prev = classify_prefix(adj, palette, style, bends, n - 1);
        if edge_class(adj[n - 1], palette, bends[n - 1]) != EdgeClass::Coplanar {
            let e = classified_edge(adj[n - 1], palette, style, bends[n - 1]);
            lemma_count_kind_push(prev, e, EdgeKind::Always);
            lemma_count_kind_push(prev, e, EdgeKind::Smooth);
        }
    }
}

/// Classify every adjacency entry (see the module table). `bends[i]` is only
/// read when entry `i` has exactly two faces of one palette.
pub fn classify_edges(
    adj: &Vec<EdgeFaces>,
    palette: &Vec<u8>,
    style: &Vec<u8>,
    bends: &Vec<Bend>,
    stats: &mut ConvertStats,
) -> (edges: Vec<ClassifiedEdge>)
    requires
        bends@.len() == adj@.len(),
        forall|i: int| 0 <= i < adj@.len() ==> (#[trigger] adj@[i]).faces@.len() > 0,
        forall|i: int, q: int| 0 <= i < adj@.len() && 0 <= q < adj@[i].faces@.len() ==>
            (#[trigger] adj@[i].faces@[q]) < palette@.len() && adj@[i].faces@[q] < style@.len(),
    ensures
        edges@ == classify_prefix(adj@, palette@, style@, bends@, adj@.len() as int),
        final(stats).boundary == count_class(adj@, palette@, bends@, adj@.len() as int, EdgeClass::Boundary),
        final(stats).material == count_class(adj@, palette@, bends@, adj@.len() as int, EdgeClass::Material),
        final(stats).crease == count_class(adj@, palette@, bends@, adj@.len() as int, EdgeClass::Crease),
        final(stats).dropped_coplanar == count_class(adj@, palette@, bends@, adj@.len() as int, EdgeClass::Coplanar),
        final(stats).smooth == count_class(adj@, palette@, bends@, adj@.len() as int, EdgeClass::Smooth),
        final(stats).non_manifold == count_class(adj@, palette@, bends@, adj@.len() as int, EdgeClass::NonManifold),
        final(stats).boundary + final(stats).material + final(stats).crease + final(stats).dropped_coplanar
            + final(stats).smooth + final(stats).non_manifold == adj@.len(),
        count_kind(edges@, EdgeKind::Always) == final(stats).boundary + final(stats).material + final(stats).crease
            + final(stats).non_manifold,
        count_kind(edges@, EdgeKind::Smooth) == final(stats).smooth,
        forall|j: int| #![trigger edges@[j]] 0 <= j < edges@.len() ==> exists|i: int| #![trigger adj@[i]]
            0 <= i < adj@.len() && edges@[j].a == adj@[i].a && edges@[j].b == adj@[i].b
                && edges@[j].palette == palette@[adj@[i].faces@[0] as int] && edges@[j].style == style@[adj@[i].faces@[0] as int],
        final(stats).source_vertices == old(stats).source_vertices,
        final(stats).welded_vertices == old(stats).welded_vertices,
        final(stats).triangles == old(stats).triangles,
        final(stats).degenerate_triangles == old(stats).degenerate_triangles,
        final(stats).decor == old(stats).decor,
{
    let n = adj.len();
    let mut edges: Vec<ClassifiedEdge> = Vec::new();
    let (mut boundary, mut material, mut crease, mut coplanar, mut smooth, mut non_manifold) =
        (0usize, 0usize, 0usize, 0usize, 0usize, 0usize);
    let mut i: usize = 0;
    while i < n
        invariant
            n == adj@.len(),
            i <= n,
            bends@.len() == adj@.len(),
            forall|j: int| 0 <= j < adj@.len() ==> (#[trigger] adj@[j]).faces@.len() > 0,
            forall|j: int, q: int| 0 <= j < adj@.len() && 0 <= q < adj@[j].faces@.len() ==>
                (#[trigger] adj@[j].faces@[q]) < palette@.len() && adj@[j].faces@[q] < style@.len(),
            edges@ == classify_prefix(adj@, palette@, style@, bends@, i as int),
            boundary == count_class(adj@, palette@, bends@, i as int, EdgeClass::Boundary),
            material == count_class(adj@, palette@, bends@, i as int, EdgeClass::Material),
            crease == count_class(adj@, palette@, bends@, i as int, EdgeClass::Crease),
            coplanar == count_class(adj@, palette@, bends@, i as int, EdgeClass::Coplanar),
            smooth == count_class(adj@, palette@, bends@, i as int, EdgeClass::Smooth),
            non_manifold == count_class(adj@, palette@, bends@, i as int, EdgeClass::NonManifold),
        decreases n - i,
    {
        proof {
            lemma_counts_partition(adj@, palette@, bends@, i as int);
        }
        let entry = &adj[i];
        let f1 = entry.faces[0];
        let p1 = palette[f1 as usize];
        let s1 = style[f1 as usize];
        let count = entry.faces.len();
        let ghost class = edge_class(adj@[i as int], palette@, bends@[i as int]);
        if count == 1 {
            boundary += 1;
            edges.push(ClassifiedEdge { a: entry.a, b: entry.b, palette: p1, style: s1, kind: EdgeKind::Always, normal_faces: Some((f1, f1)) });
        } else if count == 2 {
            let f2 = entry.faces[1];
            if p1 != palette[f2 as usize] {
                material += 1;
                edges.push(ClassifiedEdge { a: entry.a, b: entry.b, palette: p1, style: s1, kind: EdgeKind::Always, normal_faces: Some((f1, f2)) });
            } else {
                match bends[i] {
                    Bend::Crease => {
                        crease += 1;
                        edges.push(ClassifiedEdge { a: entry.a, b: entry.b, palette: p1, style: s1, kind: EdgeKind::Always, normal_faces: Some((f1, f2)) });
                    }
                    Bend::Coplanar => {
                        coplanar += 1;
                    }
                    Bend::Smooth => {
                        smooth += 1;
                        edges.push(ClassifiedEdge { a: entry.a, b: entry.b, palette: p1, style: s1, kind: EdgeKind::Smooth, normal_faces: Some((f1, f2)) });
                    }
                }
            }
        } else {
            let f2 = entry.faces[1];
            non_manifold += 1;
            edges.push(ClassifiedEdge { a: entry.a, b: entry.b, palette: p1, style: s1, kind: EdgeKind::Always, normal_faces: Some((f1, f2)) });
        }
        i += 1;
    }
    stats.boundary = boundary;
    stats.material = material;
    stats.crease = crease;
    stats.dropped_coplanar = coplanar;
    stats.smooth = smooth;
    stats.non_manifold = non_manifold;
    proof {
        lemma_counts_partition(adj@, palette@, bends@, n as int);
        lemma_classified_kinds(adj@, palette@, style@, bends@, n as int);
        lemma_classified_edges_carry_first_face(adj@, palette@, style@, bends@, n as int);
    }
    edges
}

// ---------------------------------------------------------------- decor lines

/// The edges already present, as a set of index pairs.
pub open spec fn key_set(edges: Seq<ClassifiedEdge>) -> Set<(u32, u32)> {
    Set::new(|k: (u32, u32)| exists|i: int| 0 <= i < edges.len() && edge_of(#[trigger] edges[i]) == k)
}

/// Edges seen after the first `n` decor lines: the mesh edges plus every
/// non-degenerate line so far.
pub open spec fn decor_seen(base: Set<(u32, u32)>, lines: Seq<(u32, u32)>, n: int) -> Set<(u32, u32)>
    decreases n,
{
    if n <= 0 {
        base
    } else if lines[n - 1].0 != lines[n - 1].1 {
        decor_seen(base, lines, n - 1).insert(edge_key(lines[n - 1].0, lines[n - 1].1))
    } else {
        decor_seen(base, lines, n - 1)
    }
}

/// Line `i` becomes a decor edge: it has two distinct ends and duplicates
/// neither a mesh edge nor an earlier line (additive blending would
/// double-brighten a duplicate).
pub open spec fn decor_accepted(base: Set<(u32, u32)>, lines: Seq<(u32, u32)>, i: int) -> bool {
    lines[i].0 != lines[i].1 && !decor_seen(base, lines, i).contains(edge_key(lines[i].0, lines[i].1))
}

pub open spec fn decor_edge(line: (u32, u32), palette: u8, style: u8) -> ClassifiedEdge {
    let k = edge_key(line.0, line.1);
    ClassifiedEdge { a: k.0, b: k.1, palette, style, kind: EdgeKind::Always, normal_faces: None }
}

/// Decor edges accepted among the first `n` lines, in line order.
pub open spec fn decor_edges(base: Set<(u32, u32)>, lines: Seq<(u32, u32)>, palette: Seq<u8>, style: Seq<u8>, n: int) -> Seq<ClassifiedEdge>
    decreases n,
{
    if n <= 0 {
        Seq::empty()
    } else if decor_accepted(base, lines, n - 1) {
        decor_edges(base, lines, palette, style, n - 1).push(decor_edge(lines[n - 1], palette[n - 1], style_at(style, n - 1)))
    } else {
        decor_edges(base, lines, palette, style, n - 1)
    }
}

proof fn lemma_decor_props(base: Set<(u32, u32)>, lines: Seq<(u32, u32)>, palette: Seq<u8>, style: Seq<u8>, n: int)
    requires
        0 <= n <= lines.len(),
    ensures
        base.subset_of(decor_seen(base, lines, n)),
        decor_edges(base, lines, palette, style, n).len() <= n,
        forall|j: int| 0 <= j < decor_edges(base, lines, palette, style, n).len() ==> {
            &&& !base.contains(edge_of(#[trigger] decor_edges(base, lines, palette, style, n)[j]))
            &&& decor_seen(base, lines, n).contains(edge_of(decor_edges(base, lines, palette, style, n)[j]))
        },
        forall|j1: int, j2: int| 0 <= j1 < j2 < decor_edges(base, lines, palette, style, n).len() ==>
            edge_of(#[trigger] decor_edges(base, lines, palette, style, n)[j1]) != edge_of(#[trigger] decor_edges(base, lines, palette, style, n)[j2]),
    decreases n,
{
    if n > 0 {
        lemma_decor_props(base, lines, palette, style, n - 1);
        let prev = decor_edges(base, lines, palette, style, n - 1);
        let cur = decor_edges(base, lines, palette, style, n);
        if decor_accepted(base, lines, n - 1) {
            assert forall|j: int| 0 <= j < cur.len() implies {
                &&& !base.contains(edge_of(#[trigger] cur[j]))
                &&& decor_seen(base, lines, n).contains(edge_of(cur[j]))
            } by {
                if j < prev.len() {
                    assert(cur[j] == prev[j]);
                }
            }
            assert forall|j1: int, j2: int| 0 <= j1 < j2 < cur.len() implies edge_of(#[trigger] cur[j1]) != edge_of(#[trigger] cur[j2]) by {
                assert(cur[j1] == prev[j1]);
                if j2 < prev.len() {
                    assert(cur[j2] == prev[j2]);
                }
            }
        }
    }
}

/// Each accepted decor line becomes the edge between its two ends (smaller
/// index first) in its own palette entry and style, and every decor edge is
/// such a line.
pub proof fn lemma_decor_lines_keep_their_colors(
    base: Set<(u32, u32)>,
    lines: Seq<(u32, u32)>,
    palette: Seq<u8>,
    style: Seq<u8>,
    n: int,
)
    requires
        0 <= n <= lines.len(),
    ensures
        forall|i: int| 0 <= i < n && #[trigger] decor_accepted(base, lines, i) ==> decor_edges(base, lines, palette, style, n).contains(
            (ClassifiedEdge { a: if lines[i].0 <= lines[i].1 { lines[i].0 } else { lines[i].1 }, b: if lines[i].0 <= lines[i].1 { lines[i].1 } else { lines[i].0 }, palette: palette[i], style: if i < style.len() { style[i] } else { 0u8 }, kind: EdgeKind::Always, normal_faces: None }),
        ),
        forall|j: int| #![trigger decor_edges(base, lines, palette, style, n)[j]] 0 <= j < decor_edges(base, lines, palette, style, n).len()
            ==> exists|i: int| #![trigger decor_accepted(base, lines, i)] 0 <= i < n && decor_accepted(base, lines, i)
                && decor_edges(base, lines, palette, style, n)[j] == (ClassifiedEdge { a: if lines[i].0 <= lines[i].1 { lines[i].0 } else { lines[i].1 }, b: if lines[i].0 <= lines[i].1 { lines[i].1 } else { lines[i].0 }, palette: palette[i], style: if i < style.len() { style[i] } else { 0u8 }, kind: EdgeKind::Always, normal_faces: None }),
    decreases n,
{
    if n > 0 {
        lemma_decor_lines_keep_their_colors(base, lines, palette, style, n - 1);
        let prev = decor_edges(base, lines, palette, style, n - 1);
        let cur = decor_edges(base, lines, palette, style, n);
        if decor_accepted(base, lines, n - 1) {
            assert(cur == prev.push(decor_edge(lines[n - 1], palette[n - 1], style_at(style, n - 1))));
            assert forall|i: int| 0 <= i < n && #[trigger] decor_accepted(base, lines, i) implies cur.contains(
                (ClassifiedEdge { a: if lines[i].0 <= lines[i].1 { lines[i].0 } else { lines[i].1 }, b: if lines[i].0 <= lines[i].1 { lines[i].1 } else { lines[i].0 }, palette: palette[i], style: if i < style.len() { style[i] } else { 0u8 }, kind: EdgeKind::Always, normal_faces: None }),
            ) by {
                if i < n - 1 {
                    let w = choose|w: int| 0 <= w < prev.len() && prev[w] == (ClassifiedEdge { a: if lines[i].0 <= lines[i].1 { lines[i].0 } else { lines[i].1 }, b: if lines[i].0 <= lines[i].1 { lines[i].1 } else { lines[i].0 }, palette: palette[i], style: if i < style.len() { style[i] } else { 0u8 }, kind: EdgeKind::Always, normal_faces: None });
                    assert(cur[w] == prev[w]);
                } else {
                    assert(cur[prev.len() as int] == (ClassifiedEdge { a: if lines[i].0 <= lines[i].1 { lines[i].0 } else { lines[i].1 }, b: if lines[i].0 <= lines[i].1 { lines[i].1 } else { lines[i].0 }, palette: palette[i], style: if i < style.len() { style[i] } else { 0u8 }, kind: EdgeKind::Always, normal_faces: None }));
                }
            }
            assert forall|j: int| #![trigger cur[j]] 0 <= j < cur.len() implies exists|i: int| #![trigger decor_accepted(base, lines, i)]
                0 <= i < n && decor_accepted(base, lines, i) && cur[j] == (ClassifiedEdge { a: if lines[i].0 <= lines[i].1 { lines[i].0 } else { lines[i].1 }, b: if lines[i].0 <= lines[i].1 { lines[i].1 } else { lines[i].0 }, palette: palette[i], style: if i < style.len() { style[i] } else { 0u8 }, kind: EdgeKind::Always, normal_faces: None }) by {
                if j < prev.len() {
                    assert(cur[j] == prev[j]);
                } else {
                    let i = n - 1;
                    assert(decor_accepted(base, lines, i));
                }
            }
        } else {
            assert(cur == prev);
        }
    }
}

/// Decor edges are always drawn.
proof fn lemma_decor_kinds(base: Set<(u32, u32)>, lines: Seq<(u32, u32)>, palette: Seq<u8>, style: Seq<u8>, n: int)
    requires
        0 <= n,
    ensures
        count_kind(decor_edges(base, lines, palette, style, n), EdgeKind::Always) == decor_edges(
            base,
            lines,
            palette,
            style,
            n,
        ).len(),
        count_kind(decor_edges(base, lines, palette, style, n), EdgeKind::Smooth) == 0,
    decreases n,
{
    if n > 0 {
        lemma_decor_kinds(base, lines, palette, style, n - 1);
        if decor_accepted(base, lines, n - 1) {
            let prev = decor_edges(base, lines, palette, style, n - 1);
            let e = decor_edge(lines[n - 1], palette[n - 1], style_at(style, n - 1));
            lemma_count_kind_push(prev, e, EdgeKind::Always);
            lemma_count_kind_push(prev, e, EdgeKind::Smooth);
        }
    }
}

/// The edges a model ends up with, in whatever order, count as the report
/// does: the always-drawn ones are the boundary, material, crease and
/// non-manifold entries plus the accepted decor lines; the rest are the
/// smooth silhouette candidates.
pub proof fn lemma_drawn_edges_counted(
    adj: Seq<EdgeFaces>,
    palette: Seq<u8>,
    style: Seq<u8>,
    bends: Seq<Bend>,
    lines: Seq<(u32, u32)>,
    line_palette: Seq<u8>,
    line_style: Seq<u8>,
    model_edges: Seq<ClassifiedEdge>,
)
    requires
        model_edges.to_multiset() == ({
            let mesh = classify_prefix(adj, palette, style, bends, adj.len() as int);
            mesh + decor_edges(key_set(mesh), lines, line_palette, line_style, lines.len() as int)
        }).to_multiset(),
    ensures
        ({
            let n = adj.len() as int;
            let mesh = classify_prefix(adj, palette, style, bends, n);
            let decor = decor_edges(key_set(mesh), lines, line_palette, line_style, lines.len() as int);
            &&& count_kind(model_edges, EdgeKind::Always) == count_class(adj, palette, bends, n, EdgeClass::Boundary)
                + count_class(adj, palette, bends, n, EdgeClass::Material) + count_class(adj, palette, bends, n, EdgeClass::Crease)
                + count_class(adj, palette, bends, n, EdgeClass::NonManifold) + decor.len()
            &&& count_kind(model_edges, EdgeKind::Smooth) == count_class(adj, palette, bends, n, EdgeClass::Smooth)
        }),
{
    let n = adj.len() as int;
    let mesh = classify_prefix(adj, palette, style, bends, n);
    let decor = decor_edges(key_set(mesh), lines, line_palette, line_style, lines.len() as int);
    lemma_classified_kinds(adj, palette, style, bends, n);
    lemma_decor_kinds(key_set(mesh), lines, line_palette, line_style, lines.len() as int);
    lemma_count_kind_permutation(model_edges, mesh + decor, EdgeKind::Always);
    lemma_count_kind_permutation(model_edges, mesh + decor, EdgeKind::Smooth);
    lemma_count_kind_concat(mesh, decor, EdgeKind::Always);
    lemma_count_kind_concat(mesh, decor, EdgeKind::Smooth);
}

/// Which decor lines `add_decor` would accept on top of `edges`: those with
/// two distinct ends that duplicate neither a mesh edge nor an earlier line.
/// (A caller checks with it that every accepted line has a palette entry.)
pub fn decor_acceptance(edges: &Vec<ClassifiedEdge>, lines: &Vec<(u32, u32)>) -> (accepted: Vec<bool>)
    ensures
        accepted@.len() == lines@.len(),
        forall|i: int| 0 <= i < lines@.len() ==> #[trigger] accepted@[i] == decor_accepted(key_set(edges@), lines@, i),
{
    let ghost base = key_set(edges@);
    let mut seen: std::collections::HashSet<u64> = std::collections::HashSet::new();
    let ne = edges.len();
    let mut j: usize = 0;
    while j < ne
        invariant
            ne == edges@.len(),
            j <= ne,
            forall|x: u64| seen@.contains(x) <==> exists|q: int| 0 <= q < j && x as int == pack_pair(edge_of(#[trigger] edges@[q])),
        decreases ne - j,
    {
        let k = pack_pair_u64(edges[j].a, edges[j].b);
        let ghost before = seen@;
        seen.insert(k);
        proof {
            assert forall|x: u64| seen@.contains(x) <==> exists|q: int| 0 <= q < j + 1 && x as int == pack_pair(edge_of(#[trigger] edges@[q])) by {
                if x == k {
                    assert(x as int == pack_pair(edge_of(edges@[j as int])));
                }
                if before.contains(x) {
                    let q = choose|q: int| 0 <= q < j && x as int == pack_pair(edge_of(#[trigger] edges@[q]));
                }
            }
        }
        j += 1;
    }
    proof {
        assert forall|x: u64| seen@.contains(x) <==> exists|p: (u32, u32)| base.contains(p) && x as int == pack_pair(p) by {
            if seen@.contains(x) {
                let q = choose|q: int| 0 <= q < ne && x as int == pack_pair(edge_of(#[trigger] edges@[q]));
                assert(base.contains(edge_of(edges@[q])));
            }
            if exists|p: (u32, u32)| base.contains(p) && x as int == pack_pair(p) {
                let p = choose|p: (u32, u32)| base.contains(p) && x as int == pack_pair(p);
                let q = choose|q: int| 0 <= q < edges@.len() && edge_of(#[trigger] edges@[q]) == p;
            }
        }
    }
    let nl = lines.len();
    let mut accepted: Vec<bool> = Vec::new();
    let mut i: usize = 0;
    while i < nl
        invariant
            nl == lines@.len(),
            i <= nl,
            base == key_set(edges@),
            forall|x: u64| seen@.contains(x) <==> exists|p: (u32, u32)| decor_seen(base, lines@, i as int).contains(p) && x as int == pack_pair(p),
            accepted@.len() == i,
            forall|q: int| 0 <= q < i ==> #[trigger] accepted@[q] == decor_accepted(base, lines@, q),
        decreases nl - i,
    {
        let (a, b) = lines[i];
        if a != b {
            let (lo, hi) = if a <= b { (a, b) } else { (b, a) };
            let k = pack_pair_u64(lo, hi);
            proof {
                assert(edge_key(a, b) == (lo, hi));
                assert forall|p: (u32, u32)| k as int == pack_pair(p) implies p == (lo, hi) by {
                    lemma_pack_pair_order(p, (lo, hi));
                }
            }
            let fresh = seen.insert(k);
            proof {
                assert forall|x: u64| seen@.contains(x) <==> exists|p: (u32, u32)| decor_seen(base, lines@, i + 1).contains(p) && x as int == pack_pair(p) by {
                    if x == k {
                        assert(decor_seen(base, lines@, i + 1).contains((lo, hi)));
                    }
                    if exists|p: (u32, u32)| decor_seen(base, lines@, i + 1).contains(p) && x as int == pack_pair(p) {
                        let p = choose|p: (u32, u32)| decor_seen(base, lines@, i + 1).contains(p) && x as int == pack_pair(p);
                        if p != (lo, hi) {
                            assert(decor_seen(base, lines@, i as int).contains(p));
                        }
                    }
                }
                assert(fresh == decor_accepted(base, lines@, i as int));
            }
            accepted.push(fresh);
        } else {
            proof {
                assert(decor_seen(base, lines@, i + 1) == decor_seen(base, lines@, i as int));
            }
            accepted.push(false);
        }
        i += 1;
    }
    accepted
}

/// Append the authored decor lines (welded endpoint pairs) to the classified
/// mesh edges and return everything sorted by edge.
pub fn add_decor(
    edges: Vec<ClassifiedEdge>,
    lines: &Vec<(u32, u32)>,
    line_palette: &Vec<u8>,
    line_style: &Vec<u8>,
    stats: &mut ConvertStats,
) -> (out: Vec<ClassifiedEdge>)
    requires
        forall|i: int, j: int| 0 <= i < j < edges@.len() ==> pair_lt(edge_of(#[trigger] edges@[i]), edge_of(#[trigger] edges@[j])),
        forall|i: int| 0 <= i < lines@.len() && decor_accepted(key_set(edges@), lines@, i) ==> i < line_palette@.len(),
        edges@.len() + lines@.len() <= lane(),
    ensures
        ({
            let decor = decor_edges(key_set(edges@), lines@, line_palette@, line_style@, lines@.len() as int);
            &&& out@.len() == edges@.len() + decor.len()
            &&& forall|e: ClassifiedEdge| out@.contains(e) <==> (edges@ + decor).contains(e)
            &&& out@.to_multiset() == (edges@ + decor).to_multiset()
            &&& count_kind(out@, EdgeKind::Always) == count_kind(edges@, EdgeKind::Always) + decor.len()
            &&& count_kind(out@, EdgeKind::Smooth) == count_kind(edges@, EdgeKind::Smooth)
            &&& final(stats).decor == decor.len()
        }),
        forall|i: int| 0 <= i < lines@.len() && #[trigger] decor_accepted(key_set(edges@), lines@, i) ==> out@.contains(
            (ClassifiedEdge { a: if lines@[i].0 <= lines@[i].1 { lines@[i].0 } else { lines@[i].1 }, b: if lines@[i].0 <= lines@[i].1 { lines@[i].1 } else { lines@[i].0 }, palette: line_palette@[i], style: if i < line_style@.len() { line_style@[i] } else { 0u8 }, kind: EdgeKind::Always, normal_faces: None }),
        ),
        forall|i: int, j: int| 0 <= i < j < out@.len() ==> pair_lt(edge_of(#[trigger] out@[i]), edge_of(#[trigger] out@[j])),
        final(stats).source_vertices == old(stats).source_vertices,
        final(stats).welded_vertices == old(stats).welded_vertices,
        final(stats).triangles == old(stats).triangles,
        final(stats).degenerate_triangles == old(stats).degenerate_triangles,
        final(stats).boundary == old(stats).boundary,
        final(stats).crease == old(stats).crease,
        final(stats).material == old(stats).material,
        final(stats).non_manifold == old(stats).non_manifold,
        final(stats).smooth == old(stats).smooth,
        final(stats).dropped_coplanar == old(stats).dropped_coplanar,
{
    let ghost base = key_set(edges@);
    let accepted = decor_acceptance(&edges, lines);
    let nl = lines.len();
    let mut decor: Vec<ClassifiedEdge> = Vec::new();
    let mut i: usize = 0;
    while i < nl
        invariant
            nl == lines@.len(),
            i <= nl,
            base == key_set(edges@),
            accepted@.len() == nl,
            forall|q: int| 0 <= q < nl ==> #[trigger] accepted@[q] == decor_accepted(base, lines@, q),
            forall|q: int| 0 <= q < lines@.len() && decor_accepted(base, lines@, q) ==> q < line_palette@.len(),
            decor@ == decor_edges(base, lines@, line_palette@, line_style@, i as int),
        decreases nl - i,
    {
        if accepted[i] {
            let (a, b) = lines[i];
            let (lo, hi) = if a <= b { (a, b) } else { (b, a) };
            assert(edge_key(a, b) == (lo, hi));
            let s = if i < line_style.len() { line_style[i] } else { 0 };
            decor.push(ClassifiedEdge { a: lo, b: hi, palette: line_palette[i], style: s, kind: EdgeKind::Always, normal_faces: None });
        }
        i += 1;
    }
    stats.decor = decor.len();
    proof {
        lemma_decor_props(base, lines@, line_palette@, line_style@, nl as int);
    }
    let ghost dec = decor@;
    let mut all = edges;
    let ghost mesh = all@;
    all.append(&mut decor);
    let ghost whole = all@;
    assert(whole == mesh + dec);
    proof {
        assert forall|j1: int, j2: int| 0 <= j1 < whole.len() && 0 <= j2 < whole.len() && j1 != j2
            implies edge_of(#[trigger] whole[j1]) != edge_of(#[trigger] whole[j2]) by {
            if j1 < mesh.len() && j2 < mesh.len() {
                if j1 < j2 { assert(pair_lt(edge_of(mesh[j1]), edge_of(mesh[j2]))); }
                else { assert(pair_lt(edge_of(mesh[j2]), edge_of(mesh[j1]))); }
            } else if j1 >= mesh.len() && j2 >= mesh.len() {
                if j1 < j2 { assert(edge_of(dec[j1 - mesh.len()]) != edge_of(dec[j2 - mesh.len()])); }
                else { assert(edge_of(dec[j2 - mesh.len()]) != edge_of(dec[j1 - mesh.len()])); }
            } else if j1 < mesh.len() {
                assert(base.contains(edge_of(mesh[j1])));
                assert(!base.contains(edge_of(dec[j2 - mesh.len()])));
            } else {
                assert(base.contains(edge_of(mesh[j2])));
                assert(!base.contains(edge_of(dec[j1 - mesh.len()])));
            }
        }
    }

    let total = all.len();
    let mut keys: Vec<u128> = Vec::new();
    let mut q: usize = 0;
    while q < total
        invariant
            total == all@.len(),
            all@ == whole,
            total <= lane(),
            q <= total,
            keys@.len() == q,
            forall|w: int| 0 <= w < q ==> (#[trigger] keys@[w]) as int == pack_pair(edge_of(whole[w])) * lane() + w,
        decreases total - q,
    {
        let pk = pack_pair_u128(all[q].a, all[q].b);
        proof {
            lemma_pack_pair_order(edge_of(whole[q as int]), edge_of(whole[q as int]));
            assert(pk * lane() + q < lane() * lane() * lane()) by (nonlinear_arith)
                requires pk < lane() * lane(), q < lane();
        }
        keys.push(pk * 0x1_0000_0000u128 + q as u128);
        q += 1;
    }
    let ghost unsorted = keys@;
    proof {
        assert forall|w1: int, w2: int| 0 <= w1 < unsorted.len() && 0 <= w2 < unsorted.len() && w1 != w2 implies unsorted[w1] != unsorted[w2] by {
            lemma_lane_unpack(pack_pair(edge_of(whole[w1])), w1);
            lemma_lane_unpack(pack_pair(edge_of(whole[w2])), w2);
            lemma_pack_pair_order(edge_of(whole[w1]), edge_of(whole[w1]));
            lemma_pack_pair_order(edge_of(whole[w2]), edge_of(whole[w2]));
        }
    }
    sort_u128s(&mut keys);
    proof {
        lemma_sorted_distinct(unsorted, keys@);
        assert(keys@.to_multiset().len() == unsorted.to_multiset().len());
        assert(keys@.len() == total);
    }
    let mut out: Vec<ClassifiedEdge> = Vec::new();
    let mut r: usize = 0;
    while r < total
        invariant
            total == keys@.len(),
            total == whole.len(),
            total == unsorted.len(),
            all@ == whole,
            total <= lane(),
            r <= total,
            keys@.to_multiset() == unsorted.to_multiset(),
            forall|w: int| 0 <= w < unsorted.len() ==> (#[trigger] unsorted[w]) as int == pack_pair(edge_of(whole[w])) * lane() + w,
            out@.len() == r,
            forall|x: int| 0 <= x < r ==> exists|w: int| 0 <= w < total && #[trigger] keys@[x] == unsorted[w] && out@[x] == whole[w],
        decreases total - r,
    {
        let k = keys[r];
        proof {
            assert(keys@.contains(k));
            assert(keys@.to_multiset().count(k) == unsorted.to_multiset().count(k));
            let w = choose|w: int| 0 <= w < unsorted.len() && unsorted[w] == k;
            lemma_pack_pair_order(edge_of(whole[w]), edge_of(whole[w]));
            lemma_lane_unpack(pack_pair(edge_of(whole[w])), w);
        }
        let pos = (k % 0x1_0000_0000u128) as usize;
        out.push(all[pos]);
        proof {
            let w = choose|w: int| 0 <= w < unsorted.len() && unsorted[w] == k;
            lemma_lane_unpack(pack_pair(edge_of(whole[w])), w);
            assert(pos == w);
            assert forall|x: int| 0 <= x < r + 1 implies exists|w: int| 0 <= w < total && #[trigger] keys@[x] == unsorted[w] && out@[x] == whole[w] by {
                if x < r {
                    let w2 = choose|w2: int| 0 <= w2 < total && #[trigger] keys@[x] == unsorted[w2] && out@.drop_last()[x] == whole[w2];
                    assert(out@[x] == out@.drop_last()[x]);
                } else {
                    assert(keys@[x] == unsorted[w]);
                }
            }
        }
        r += 1;
    }
    proof {
        assert forall|x: int, y: int| 0 <= x < y < out@.len() implies pair_lt(edge_of(#[trigger] out@[x]), edge_of(#[trigger] out@[y])) by {
            let wx = choose|w: int| 0 <= w < total && #[trigger] keys@[x] == unsorted[w] && out@[x] == whole[w];
            let wy = choose|w: int| 0 <= w < total && #[trigger] keys@[y] == unsorted[w] && out@[y] == whole[w];
            assert(keys@[x] < keys@[y]);
            lemma_lane_split(keys@[x] as int, keys@[y] as int);
            lemma_lane_unpack(pack_pair(edge_of(whole[wx])), wx);
            lemma_lane_unpack(pack_pair(edge_of(whole[wy])), wy);
            lemma_pack_pair_order(edge_of(whole[wx]), edge_of(whole[wy]));
            assert(wx != wy);
        }
        assert forall|e: ClassifiedEdge| out@.contains(e) <==> whole.contains(e) by {
            if out@.contains(e) {
                let x = choose|x: int| 0 <= x < out@.len() && out@[x] == e;
                let w = choose|w: int| 0 <= w < total && #[trigger] keys@[x] == unsorted[w] && out@[x] == whole[w];
            }
            if whole.contains(e) {
                let w = choose|w: int| 0 <= w < whole.len() && whole[w] == e;
                assert(unsorted.contains(unsorted[w]));
                assert(keys@.to_multiset().count(unsorted[w]) == unsorted.to_multiset().count(unsorted[w]));
                let x = choose|x: int| 0 <= x < keys@.len() && keys@[x] == unsorted[w];
                let w2 = choose|w2: int| 0 <= w2 < total && #[trigger] keys@[x] == unsorted[w2] && out@[x] == whole[w2];
                assert(w2 == w);
            }
        }
        // Both lists hold distinct edges, so equal contents make equal multisets.
        assert forall|x: int, y: int| 0 <= x < out@.len() && 0 <= y < out@.len() && x != y implies out@[x] != out@[y] by {
            if x < y {
                assert(pair_lt(edge_of(out@[x]), edge_of(out@[y])));
            } else {
                assert(pair_lt(edge_of(out@[y]), edge_of(out@[x])));
            }
        }
        assert(out@.no_duplicates());
        assert(whole.no_duplicates());
        out@.lemma_multiset_has_no_duplicates();
        whole.lemma_multiset_has_no_duplicates();
        assert(out@.to_multiset() =~= whole.to_multiset());
        lemma_count_kind_permutation(out@, whole, EdgeKind::Always);
        lemma_count_kind_permutation(out@, whole, EdgeKind::Smooth);
        lemma_count_kind_concat(mesh, dec, EdgeKind::Always);
        lemma_count_kind_concat(mesh, dec, EdgeKind::Smooth);
        lemma_decor_kinds(base, lines@, line_palette@, line_style@, nl as int);
        lemma_decor_lines_keep_their_colors(base, lines@, line_palette@, line_style@, nl as int);
        assert forall|e: ClassifiedEdge| dec.contains(e) implies out@.contains(e) by {
            let w = choose|w: int| 0 <= w < dec.len() && dec[w] == e;
            assert(whole[mesh.len() + w] == e);
            assert(whole.contains(e));
        }
    }
    out
}

} // verus!
