use glam::{vec3, Vec3};
use vex::collide::{cells_in_box, Cell, CellGrid, QueryScratch};

fn cell_of(p: Vec3, cell_size: f32) -> Cell {
    (
        (p.x / cell_size).floor() as i32,
        (p.y / cell_size).floor() as i32,
        (p.z / cell_size).floor() as i32,
    )
}

/// A soup's grid: each triangle filed under the cells its bounding box covers.
fn grid_of(vertices: &[Vec3], indices: &[u32], cell_size: f32) -> (CellGrid, Vec<(Cell, Cell)>) {
    let cell_size = cell_size.max(0.25);
    let mut grid = CellGrid::new();
    let mut boxes = Vec::new();
    for tri in indices.chunks_exact(3) {
        let t = [vertices[tri[0] as usize], vertices[tri[1] as usize], vertices[tri[2] as usize]];
        let lo = cell_of(t[0].min(t[1]).min(t[2]), cell_size);
        let hi = cell_of(t[0].max(t[1]).max(t[2]), cell_size);
        grid.push_triangle(lo, hi);
        boxes.push((lo, hi));
    }
    (grid, boxes)
}

fn inside(c: Cell, lo: Cell, hi: Cell) -> bool {
    lo.0 <= c.0 && c.0 <= hi.0 && lo.1 <= c.1 && c.1 <= hi.1 && lo.2 <= c.2 && c.2 <= hi.2
}

fn gather(grid: &CellGrid, scratch: &mut QueryScratch, lo: Vec3, hi: Vec3, cell_size: f32) -> Vec<u32> {
    let cell_size = cell_size.max(0.25);
    grid.gather(cell_of(lo, cell_size), cell_of(hi, cell_size), scratch);
    scratch.ids().clone()
}

#[test]
fn candidate_gathering_matches_sort_dedup_semantics() {
    // A grid of quads so query boxes span many cells and triangles land in
    // several buckets each (dedup actually exercised).
    let mut vertices = Vec::new();
    let mut indices = Vec::new();
    for gx in 0..6 {
        for gz in 0..6 {
            let (x, z) = (gx as f32 * 3.0 - 9.0, gz as f32 * 3.0 - 9.0);
            let base = vertices.len() as u32;
            vertices.extend([
                vec3(x, 0.0, z),
                vec3(x + 3.0, 0.0, z),
                vec3(x + 3.0, 0.0, z + 3.0),
                vec3(x, 0.0, z + 3.0),
            ]);
            indices.extend([base, base + 1, base + 2, base, base + 2, base + 3]);
        }
    }
    let (grid, tri_boxes) = grid_of(&vertices, &indices, 2.0);

    let brute = |lo: Vec3, hi: Vec3| -> Vec<u32> {
        // Gather with duplicates, then sort + dedup.
        let mut ids: Vec<u32> = Vec::new();
        for cell in cells_in_box(cell_of(lo, 2.0), cell_of(hi, 2.0)) {
            for (id, &(tlo, thi)) in tri_boxes.iter().enumerate() {
                if inside(cell, tlo, thi) {
                    ids.push(id as u32);
                }
            }
        }
        ids.sort_unstable();
        ids.dedup();
        ids
    };

    let boxes = [
        (vec3(-9.5, -1.0, -9.5), vec3(9.5, 1.0, 9.5)),
        (vec3(-1.0, -1.0, -1.0), vec3(1.0, 1.0, 1.0)),
        (vec3(-8.0, -1.0, 2.0), vec3(-2.0, 1.0, 8.0)),
        (vec3(50.0, 0.0, 50.0), vec3(51.0, 1.0, 51.0)),
    ];
    let mut scratch = QueryScratch::new();
    // Repeat so the generation stamp advances between queries.
    for _ in 0..3 {
        for (lo, hi) in boxes {
            let got = gather(&grid, &mut scratch, lo, hi, 2.0);
            assert_eq!(got, brute(lo, hi), "box {lo:?}..{hi:?}");
        }
    }

    // A larger soup on the same scratch grows the mark table.
    let (big, _) = grid_of(
        &[vec3(0.0, 0.0, 0.0), vec3(1.0, 0.0, 0.0), vec3(0.0, 0.0, 1.0)],
        &[0, 1, 2],
        0.5,
    );
    let got = gather(&big, &mut scratch, vec3(-1.0, -1.0, -1.0), vec3(2.0, 1.0, 2.0), 0.5);
    assert_eq!(got, vec![0]);
}

#[test]
fn cells_in_box_are_x_major_and_inclusive() {
    let cells = cells_in_box((0, 0, 0), (1, 0, 1));
    assert_eq!(cells, vec![(0, 0, 0), (0, 0, 1), (1, 0, 0), (1, 0, 1)]);
    assert!(cells_in_box((1, 0, 0), (0, 0, 0)).is_empty());
    assert_eq!(cells_in_box((-2, -2, -2), (-2, -2, -2)), vec![(-2, -2, -2)]);
}

#[test]
fn cells_at_the_ends_of_i32_do_not_wrap() {
    let cells = cells_in_box((i32::MAX, 0, i32::MIN), (i32::MAX, 0, i32::MIN + 1));
    assert_eq!(cells, vec![(i32::MAX, 0, i32::MIN), (i32::MAX, 0, i32::MIN + 1)]);
}

#[test]
fn push_triangle_numbers_triangles_in_order() {
    let mut grid = CellGrid::new();
    assert_eq!(grid.push_triangle((0, 0, 0), (0, 0, 0)), 0);
    assert_eq!(grid.push_triangle((0, 0, 0), (1, 0, 0)), 1);
    assert_eq!(grid.push_triangle((5, 5, 5), (5, 5, 5)), 2);
    assert_eq!(grid.triangle_count(), 3);
    let mut scratch = QueryScratch::new();
    grid.gather((1, 0, 0), (1, 0, 0), &mut scratch);
    assert_eq!(scratch.ids(), &vec![1]);
    grid.gather((-3, -3, -3), (9, 9, 9), &mut scratch);
    assert_eq!(scratch.ids(), &vec![0, 1, 2]);
    grid.gather((2, 2, 2), (4, 4, 4), &mut scratch);
    assert!(scratch.ids().is_empty());
}

#[test]
fn scratch_dedups_within_a_query_and_forgets_between_queries() {
    let mut scratch = QueryScratch::new();
    scratch.begin(10);
    scratch.add_bucket(&[7, 3, 7]);
    scratch.add_bucket(&[3, 1]);
    assert_eq!(scratch.ids(), &vec![7, 3, 1], "first occurrences, in bucket order");
    scratch.sort_candidates();
    assert_eq!(scratch.ids(), &vec![1, 3, 7]);
    scratch.begin(4);
    assert!(scratch.ids().is_empty());
    scratch.add_bucket(&[3, 3]);
    assert_eq!(scratch.ids(), &vec![3]);
}
