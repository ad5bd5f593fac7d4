use glam::{vec3, Vec3};
use vex::mesh::{cube, edges_from_triangles, icosahedron, Mesh};

fn quad() -> Mesh<Vec3> {
    Mesh {
        vertices: vec![
            vec3(0.0, 0.0, 0.0),
            vec3(1.0, 0.0, 0.0),
            vec3(1.0, 1.0, 0.0),
            vec3(0.0, 1.0, 0.0),
        ],
        indices: vec![0, 1, 2, 0, 2, 3],
    }
}

fn cube_corners(h: f32) -> Vec<Vec3> {
    vec![
        vec3(-h, -h, -h),
        vec3(h, -h, -h),
        vec3(h, -h, h),
        vec3(-h, -h, h),
        vec3(-h, h, -h),
        vec3(h, h, -h),
        vec3(h, h, h),
        vec3(-h, h, h),
    ]
}

fn icosahedron_vertices(radius: f32) -> Vec<Vec3> {
    let phi = (1.0 + 5.0f32.sqrt()) / 2.0;
    let raw = [
        vec3(-1.0, phi, 0.0),
        vec3(1.0, phi, 0.0),
        vec3(-1.0, -phi, 0.0),
        vec3(1.0, -phi, 0.0),
        vec3(0.0, -1.0, phi),
        vec3(0.0, 1.0, phi),
        vec3(0.0, -1.0, -phi),
        vec3(0.0, 1.0, -phi),
        vec3(phi, 0.0, -1.0),
        vec3(phi, 0.0, 1.0),
        vec3(-phi, 0.0, -1.0),
        vec3(-phi, 0.0, 1.0),
    ];
    raw.iter().map(|v| v.normalize() * radius).collect()
}

#[test]
fn append_into_offsets_indices() {
    let mut vertices = Vec::new();
    let mut indices = Vec::new();
    quad().append_into(&mut vertices, &mut indices);
    quad().append_into(&mut vertices, &mut indices);
    assert_eq!(vertices.len(), 8);
    assert_eq!(&indices[6..9], &[4, 5, 6]);
}

#[test]
fn triangulated_quad_has_diagonal_edge() {
    // 4 boundary edges + 1 diagonal.
    assert_eq!(edges_from_triangles(&quad().indices).len(), 5);
}

#[test]
fn cube_has_12_edges_and_12_triangles() {
    let shape = cube(cube_corners(1.0));
    assert_eq!(shape.edges.len(), 12);
    assert_eq!(shape.mesh.indices.len() / 3, 12);
    assert_eq!(shape.mesh.vertices.len(), 8);
}

#[test]
fn icosahedron_is_regular() {
    let shape = icosahedron(icosahedron_vertices(1.0));
    assert_eq!(shape.mesh.vertices.len(), 12);
    assert_eq!(shape.mesh.indices.len() / 3, 20);
    assert_eq!(shape.edges.len(), 30, "V - E + F = 2 (Euler)");
    for v in &shape.mesh.vertices {
        assert!((v.length() - 1.0).abs() < 1e-5);
    }
}

#[test]
fn edges_are_sorted_unique_and_normalized() {
    let edges = edges_from_triangles(&[2, 1, 0, 0, 1, 2, 3, 2, 1]);
    assert_eq!(edges, vec![(0, 1), (0, 2), (1, 2), (1, 3), (2, 3)]);
}

#[test]
fn trailing_partial_triangle_is_ignored() {
    assert_eq!(edges_from_triangles(&[0, 1, 2, 7, 8]), vec![(0, 1), (0, 2), (1, 2)]);
    assert!(edges_from_triangles(&[]).is_empty());
}

#[test]
fn append_into_keeps_what_was_there() {
    let mut vertices = vec![vec3(9.0, 9.0, 9.0)];
    let mut indices = vec![0];
    quad().append_into(&mut vertices, &mut indices);
    assert_eq!(vertices[0], vec3(9.0, 9.0, 9.0));
    assert_eq!(vertices[1], vec3(0.0, 0.0, 0.0));
    assert_eq!(indices, vec![0, 1, 2, 3, 1, 3, 4]);
}

#[test]
fn cube_edges_lie_on_its_triangles() {
    let shape = cube(cube_corners(0.5));
    let tri_edges = edges_from_triangles(&shape.mesh.indices);
    // 12 cube edges + 6 face diagonals.
    assert_eq!(tri_edges.len(), 18);
    for &(a, b) in &shape.edges {
        assert!(tri_edges.contains(&(a.min(b), a.max(b))));
    }
    assert_eq!(shape.edges[3], (3, 0));
}
