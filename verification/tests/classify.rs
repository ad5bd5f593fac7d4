use vex::classify::{
    add_decor, classify_edges, collect_faces, decor_acceptance, edge_adjacency, Bend, ClassifiedEdge, ConvertStats, EdgeFaces,
    EdgeKind,
};
use vex::mesh::cube;
use vex::weld::{weld_keys, GridKey};

type P = (i64, i64, i64);

fn sub(a: P, b: P) -> P {
    (a.0 - b.0, a.1 - b.1, a.2 - b.2)
}

fn cross(a: P, b: P) -> P {
    (a.1 * b.2 - a.2 * b.1, a.2 * b.0 - a.0 * b.2, a.0 * b.1 - a.1 * b.0)
}

fn dot(a: P, b: P) -> i64 {
    a.0 * b.0 + a.1 * b.1 + a.2 * b.2
}

struct Outcome {
    stats: ConvertStats,
    edges: Vec<ClassifiedEdge>,
    occluder_indices: Vec<u32>,
}

/// The converter's pipeline on integer positions: weld, drop degenerate
/// triangles, build adjacency, classify (parallel normals are coplanar,
/// perpendicular ones a crease, anything else smooth), add decor lines.
fn convert(tri_positions: &[P], tri_palette: &[u8], lines: &[(P, P)], line_palette: &[u8]) -> Outcome {
    let mut stats = ConvertStats::new();
    stats.source_vertices = tri_positions.len() + lines.len() * 2;
    let mut keys: Vec<GridKey> = tri_positions.to_vec();
    for &(a, b) in lines {
        keys.push(a);
        keys.push(b);
    }
    let welded = weld_keys(&keys);
    stats.welded_vertices = welded.representatives.len();
    let position = |id: u32| keys[welded.representatives[id as usize] as usize];
    let tri_indices: Vec<u32> = welded.ids[..tri_positions.len()].to_vec();
    let line_indices: Vec<(u32, u32)> =
        welded.ids[tri_positions.len()..].chunks_exact(2).map(|p| (p[0], p[1])).collect();
    let flat: Vec<bool> = tri_indices
        .chunks_exact(3)
        .map(|t| {
            let n = cross(sub(position(t[1]), position(t[0])), sub(position(t[2]), position(t[0])));
            n == (0, 0, 0)
        })
        .collect();
    let faces = collect_faces(&tri_indices, &flat, &tri_palette.to_vec(), &Vec::new(), &mut stats);
    let adj: Vec<EdgeFaces> = edge_adjacency(&faces.occluder_indices);
    let normal = |f: u32| {
        let t = &faces.occluder_indices[3 * f as usize..3 * f as usize + 3];
        cross(sub(position(t[1]), position(t[0])), sub(position(t[2]), position(t[0])))
    };
    let bends: Vec<Bend> = adj
        .iter()
        .map(|e| {
            if e.faces.len() < 2 {
                return Bend::Smooth;
            }
            let (n1, n2) = (normal(e.faces[0]), normal(e.faces[1]));
            let d = dot(n1, n2);
            if d <= 0 {
                Bend::Crease
            } else if d * d == dot(n1, n1) * dot(n2, n2) {
                Bend::Coplanar
            } else {
                Bend::Smooth
            }
        })
        .collect();
    let edges = classify_edges(&adj, &faces.palette, &faces.style, &bends, &mut stats);
    let edges = add_decor(edges, &line_indices, &line_palette.to_vec(), &Vec::new(), &mut stats);
    Outcome { stats, edges, occluder_indices: faces.occluder_indices }
}

fn cube_soup(h: i64) -> Vec<P> {
    let corners: Vec<P> = vec![
        (-h, -h, -h),
        (h, -h, -h),
        (h, -h, h),
        (-h, -h, h),
        (-h, h, -h),
        (h, h, -h),
        (h, h, h),
        (-h, h, h),
    ];
    let shape = cube(corners);
    shape.mesh.indices.iter().map(|&i| shape.mesh.vertices[i as usize]).collect()
}

const QUAD: [P; 6] = [(0, 0, 0), (1, 0, 0), (1, 1, 0), (0, 0, 0), (1, 1, 0), (0, 1, 0)];

#[test]
fn cube_soup_yields_12_crease_edges_and_no_smooth() {
    let soup = cube_soup(1);
    let out = convert(&soup, &[0; 12], &[], &[]);
    assert_eq!(out.stats.welded_vertices, 8, "soup of 36 welds back to 8");
    assert_eq!(out.stats.crease, 12);
    assert_eq!(out.stats.boundary, 0);
    assert_eq!(out.stats.dropped_coplanar, 6);
    assert_eq!(out.stats.smooth, 0);
    assert_eq!(out.edges.len(), 12);
    assert_eq!(out.occluder_indices.len(), 36);
    assert_eq!(out.stats.always_edges(), 12);
}

#[test]
fn open_plane_has_boundary_edges_only() {
    let out = convert(&QUAD, &[0, 0], &[], &[]);
    assert_eq!(out.stats.boundary, 4);
    assert_eq!(out.stats.dropped_coplanar, 1, "the quad diagonal");
    assert_eq!(out.stats.smooth, 0);
    let pairs: Vec<(u32, u32)> = out.edges.iter().map(|e| (e.a, e.b)).collect();
    assert_eq!(pairs, vec![(0, 1), (0, 3), (1, 2), (2, 3)]);
    assert!(out.edges.iter().all(|e| e.kind == EdgeKind::Always));
}

#[test]
fn material_boundary_beats_flatness() {
    let out = convert(&QUAD, &[0, 1], &[], &[]);
    assert_eq!(out.stats.material, 1);
    assert_eq!(out.stats.boundary, 4);
    assert_eq!(out.stats.dropped_coplanar, 0);
    let diagonal = out.edges.iter().find(|e| (e.a, e.b) == (0, 2)).unwrap();
    assert_eq!(diagonal.palette, 0, "the first face's palette");
    assert_eq!(diagonal.normal_faces, Some((0, 1)));
}

#[test]
fn decor_lines_pass_through_and_dedup_against_mesh_edges() {
    // One brand-new decor line, one duplicating an existing cube edge.
    let soup = cube_soup(2);
    let lines = [((-1, 2, -1), (1, 2, 1)), ((-2, -2, -2), (2, -2, -2))];
    let out = convert(&soup, &[0; 12], &lines, &[1, 1]);
    assert_eq!(out.stats.decor, 1, "duplicate of a mesh edge is dropped");
    assert_eq!(out.edges.len(), 13);
    let decor = out.edges.iter().find(|e| e.normal_faces.is_none()).unwrap();
    assert_eq!(decor.palette, 1);
    assert!(out.edges.windows(2).all(|w| (w[0].a, w[0].b) < (w[1].a, w[1].b)));
}

#[test]
fn degenerate_triangles_are_skipped_without_panicking() {
    let tris = [(0, 0, 0), (1, 0, 0), (2, 0, 0), (0, 0, 0), (0, 0, 0), (1, 1, 1)];
    let out = convert(&tris, &[0, 0], &[], &[]);
    assert_eq!(out.stats.degenerate_triangles, 2);
    assert_eq!(out.stats.triangles, 0);
    assert!(out.occluder_indices.is_empty());
    assert!(out.edges.is_empty());
}

#[test]
fn smooth_bend_becomes_a_silhouette_candidate() {
    // Two triangles folded slightly along the edge (0,0,0)-(4,0,0).
    let tris = [(0, 0, 0), (4, 0, 0), (2, 4, 0), (0, 0, 0), (2, -4, 1), (4, 0, 0)];
    let out = convert(&tris, &[3, 3], &[], &[]);
    assert_eq!(out.stats.smooth, 1);
    assert_eq!(out.stats.boundary, 4);
    let hinge = out.edges.iter().find(|e| (e.a, e.b) == (0, 1)).unwrap();
    assert_eq!(hinge.kind, EdgeKind::Smooth);
    assert_eq!(hinge.palette, 3);
}

#[test]
fn three_faces_on_one_edge_are_non_manifold() {
    let tris = [(0, 0, 0), (1, 0, 0), (0, 1, 0), (0, 0, 0), (1, 0, 0), (0, 0, 1), (0, 0, 0), (1, 0, 0), (0, -1, 0)];
    let out = convert(&tris, &[0, 0, 0], &[], &[]);
    assert_eq!(out.stats.non_manifold, 1);
    let shared = out.edges.iter().find(|e| (e.a, e.b) == (0, 1)).unwrap();
    assert_eq!(shared.normal_faces, Some((0, 1)));
}

#[test]
fn degenerate_decor_lines_are_ignored() {
    let lines = [((0, 0, 0), (0, 0, 0)), ((5, 5, 5), (6, 6, 6)), ((6, 6, 6), (5, 5, 5))];
    let out = convert(&[], &[], &lines, &[2, 2, 2]);
    assert_eq!(out.stats.decor, 1);
    assert_eq!(out.edges.len(), 1);
    assert_eq!((out.edges[0].a, out.edges[0].b), (1, 2));
}

#[test]
fn always_edges_counts_every_stroked_class() {
    let mut stats = ConvertStats::default();
    stats.boundary = 1;
    stats.crease = 2;
    stats.material = 3;
    stats.non_manifold = 4;
    stats.decor = 5;
    stats.smooth = 100;
    stats.dropped_coplanar = 100;
    assert_eq!(stats.always_edges(), 15);
}

#[test]
fn adjacency_lists_faces_per_edge_in_order() {
    let adj = edge_adjacency(&vec![0, 1, 2, 2, 1, 3]);
    let keys: Vec<(u32, u32)> = adj.iter().map(|e| (e.a, e.b)).collect();
    assert_eq!(keys, vec![(0, 1), (0, 2), (1, 2), (1, 3), (2, 3)]);
    assert_eq!(adj[2].faces, vec![0, 1]);
    assert_eq!(adj[0].faces, vec![0]);
}

#[test]
fn reported_drawn_count_matches_the_always_drawn_edges() {
    let soup = cube_soup(2);
    let lines = [((-1, 2, -1), (1, 2, 1)), ((-2, -2, -2), (2, -2, -2))];
    let smooth_tris = [(0, 0, 0), (4, 0, 0), (2, 4, 0), (0, 0, 0), (2, -4, 1), (4, 0, 0)];
    for out in [
        convert(&soup, &[0; 12], &lines, &[1, 1]),
        convert(&smooth_tris, &[3, 3], &[], &[]),
        convert(&QUAD, &[0, 1], &[((7, 7, 7), (8, 8, 8))], &[0]),
    ] {
        let always = out.edges.iter().filter(|e| e.kind == EdgeKind::Always).count();
        let smooth = out.edges.iter().filter(|e| e.kind == EdgeKind::Smooth).count();
        assert_eq!(always, out.stats.always_edges());
        assert_eq!(smooth, out.stats.smooth);
    }
}

#[test]
fn every_mesh_edge_lands_in_exactly_one_class() {
    let soup = cube_soup(1);
    let smooth_tris = [(0, 0, 0), (4, 0, 0), (2, 4, 0), (0, 0, 0), (2, -4, 1), (4, 0, 0)];
    for (tris, palettes) in [(soup.as_slice(), vec![0u8; 12]), (&smooth_tris[..], vec![1, 1]), (&QUAD[..], vec![0, 1])] {
        let out = convert(tris, &palettes, &[], &[]);
        let s = out.stats;
        let ids: Vec<u32> = out.occluder_indices.clone();
        let distinct = vex::mesh::edges_from_triangles(&ids).len();
        assert_eq!(
            s.boundary + s.material + s.crease + s.dropped_coplanar + s.smooth + s.non_manifold,
            distinct
        );
    }
}

#[test]
fn icosahedron_edges_are_all_creases_at_30_degrees() {
    // Every icosahedron edge meets at a face-normal angle of about 41.8°:
    // beyond a 30° threshold each bend is a crease, below 60° a smooth one.
    let vertices: Vec<u32> = (0..12).collect();
    let shape = vex::mesh::icosahedron(vertices);
    let mut stats = ConvertStats::new();
    let flat = vec![false; 20];
    let faces = collect_faces(&shape.mesh.indices, &flat, &vec![0; 20], &Vec::new(), &mut stats);
    let adj = edge_adjacency(&faces.occluder_indices);
    assert_eq!(adj.len(), 30);
    assert!(adj.iter().all(|e| e.faces.len() == 2));

    let creases = vec![Bend::Crease; 30];
    let mut at_30 = stats;
    let edges = classify_edges(&adj, &faces.palette, &faces.style, &creases, &mut at_30);
    assert_eq!(at_30.crease, 30);
    assert_eq!(at_30.smooth, 0);
    assert!(edges.iter().all(|e| e.kind == EdgeKind::Always));

    // ... but with a 60° threshold they all become smooth candidates.
    let smooth = vec![Bend::Smooth; 30];
    let mut at_60 = stats;
    let edges = classify_edges(&adj, &faces.palette, &faces.style, &smooth, &mut at_60);
    assert_eq!(at_60.crease, 0);
    assert_eq!(at_60.smooth, 30);
    assert!(edges.iter().all(|e| e.kind == EdgeKind::Smooth));
    assert_eq!(at_30.crease + at_30.smooth + at_30.dropped_coplanar, at_60.crease + at_60.smooth + at_60.dropped_coplanar);
}

#[test]
fn decor_acceptance_matches_what_add_decor_keeps() {
    let adj = edge_adjacency(&vec![0, 1, 2]);
    let mut stats = ConvertStats::new();
    let edges = classify_edges(&adj, &vec![0], &vec![0], &vec![Bend::Smooth; 3], &mut stats);
    let lines = vec![(1, 0), (3, 3), (4, 5), (5, 4), (2, 6)];
    assert_eq!(decor_acceptance(&edges, &lines), vec![false, false, true, false, true]);
    // Only accepted lines need a palette entry.
    let out = add_decor(edges, &lines, &vec![9, 9, 7, 9, 8], &Vec::new(), &mut stats);
    assert_eq!(stats.decor, 2);
    assert_eq!(out.len(), 5);
}
