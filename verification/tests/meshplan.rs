//! Mesh plans: vertex grids, sample coordinates, and the triangle list.

use chunkstream::coords::ChunkCoord;
use chunkstream::mesh::MeshBuilder;

#[test]
fn four_by_four_grid_has_sixteen_vertices_and_eighteen_triangles() {
    let builder = MeshBuilder { divisions_x: 4, divisions_y: 4 };
    let plan = builder.build(ChunkCoord { x: 0, y: 0 });
    assert_eq!(plan.vertices.len(), 4 * 4);
    assert_eq!(plan.indices.len() % 3, 0);
    assert_eq!(plan.indices.len() / 3, 2 * 3 * 3);
    assert_eq!(plan.indices.len(), 54);
}

#[test]
fn resolutions_below_two_give_the_empty_plan() {
    for (nx, ny) in [(0, 0), (1, 1), (1, 9), (9, 1), (0, 5)] {
        let builder = MeshBuilder { divisions_x: nx, divisions_y: ny };
        let plan = builder.build(ChunkCoord { x: 3, y: -2 });
        assert!(plan.vertices.is_empty());
        assert!(plan.indices.is_empty());
    }
}

#[test]
fn vertices_are_row_major_with_exact_rational_coordinates() {
    let builder = MeshBuilder { divisions_x: 4, divisions_y: 3 };
    let plan = builder.build(ChunkCoord { x: 2, y: -1 });
    assert_eq!(plan.vertices.len(), 12);
    for xi in 0..4u32 {
        for yi in 0..3u32 {
            let v = plan.vertices[(xi * 3 + yi) as usize];
            assert_eq!(v.xi, xi);
            assert_eq!(v.yi, yi);
            assert_eq!(v.x_den, 3);
            assert_eq!(v.y_den, 2);
            assert_eq!(v.x_num, 2 * 3 + xi as i64);
            assert_eq!(v.y_num, -1 * 2 + yi as i64);
        }
    }
}

#[test]
fn two_by_two_grid_emits_one_quad_with_consistent_winding() {
    let builder = MeshBuilder { divisions_x: 2, divisions_y: 2 };
    let plan = builder.build(ChunkCoord { x: 0, y: 0 });
    assert_eq!(plan.vertices.len(), 4);
    assert_eq!(plan.indices, vec![0, 2, 3, 0, 3, 1]);
}

#[test]
fn five_by_four_triangle_list_covers_every_interior_cell() {
    let (nx, ny) = (5u32, 4u32);
    let builder = MeshBuilder { divisions_x: nx as usize, divisions_y: ny as usize };
    let plan = builder.build(ChunkCoord { x: -7, y: 9 });
    assert_eq!(plan.indices.len(), 6 * (nx as usize - 1) * (ny as usize - 1));
    let mut at = 0;
    for xi in 0..nx - 1 {
        for yi in 0..ny - 1 {
            let i = xi * ny + yi;
            assert_eq!(&plan.indices[at..at + 6], &[i, i + ny, i + ny + 1, i, i + ny + 1, i + 1]);
            at += 6;
        }
    }
    for &ix in &plan.indices {
        assert!(ix < nx * ny);
    }
}

#[test]
fn adjacent_chunks_share_their_edge_sample_points() {
    let builder = MeshBuilder { divisions_x: 4, divisions_y: 4 };
    let left = builder.build(ChunkCoord { x: 0, y: 0 });
    let right = builder.build(ChunkCoord { x: 1, y: 0 });
    for yi in 0..4usize {
        let a = left.vertices[3 * 4 + yi];
        let b = right.vertices[yi];
        assert_eq!(a.x_num, b.x_num);
        assert_eq!(a.y_num, b.y_num);
        assert_eq!(a.x_den, b.x_den);
        assert_eq!(a.y_den, b.y_den);
    }
    let top = builder.build(ChunkCoord { x: 0, y: 0 });
    let bottom = builder.build(ChunkCoord { x: 0, y: 1 });
    for xi in 0..4usize {
        let a = top.vertices[xi * 4 + 3];
        let b = bottom.vertices[xi * 4];
        assert_eq!(a.x_num, b.x_num);
        assert_eq!(a.y_num, b.y_num);
    }
}
