//! The integer lattice: floor division, camera cells, distances, keys.

use chunkstream::coords::camera_chunk;
use chunkstream::coords::dist_sq;
use chunkstream::coords::floor_div;
use chunkstream::coords::pack;
use chunkstream::coords::world_in_range;
use chunkstream::coords::ChunkCoord;
use chunkstream::coords::WorldPos;

#[test]
fn floor_div_rounds_toward_negative_infinity() {
    assert_eq!(floor_div(7, 2), 3);
    assert_eq!(floor_div(6, 3), 2);
    assert_eq!(floor_div(0, 5), 0);
    assert_eq!(floor_div(-1, 3), -1);
    assert_eq!(floor_div(-3, 3), -1);
    assert_eq!(floor_div(-4, 3), -2);
    assert_eq!(floor_div(-7, 2), -4);
    assert_eq!(floor_div(i64::MIN, 1), i64::MIN);
    assert_eq!(floor_div(i64::MAX, 1), i64::MAX);
    assert_eq!(floor_div(i64::MIN, i64::MAX), -2);
}

#[test]
fn camera_chunk_is_floor_of_each_axis() {
    let c = camera_chunk(WorldPos { x: 2500, z: -2500 }, 1000);
    assert_eq!(c, ChunkCoord { x: 2, y: -3 });
    let c = camera_chunk(WorldPos { x: -1, z: 0 }, 1000);
    assert_eq!(c, ChunkCoord { x: -1, y: 0 });
    let c = camera_chunk(WorldPos { x: 10, z: 10 }, 1);
    assert_eq!(c, ChunkCoord { x: 10, y: 10 });
}

#[test]
fn world_in_range_accepts_the_working_region() {
    assert!(world_in_range(WorldPos { x: 0, z: 0 }, 1));
    assert!(world_in_range(WorldPos { x: 0x10_0000, z: -0x10_0000 }, 1));
    assert!(!world_in_range(WorldPos { x: 0x10_0001, z: 0 }, 1));
    assert!(world_in_range(WorldPos { x: 0x10_0001, z: 0 }, 2));
    assert!(!world_in_range(WorldPos { x: 0, z: i64::MIN }, 3));
}

#[test]
fn dist_sq_is_the_squared_euclidean_cell_distance() {
    let a = ChunkCoord { x: 0, y: 0 };
    let b = ChunkCoord { x: 10, y: 10 };
    assert_eq!(dist_sq(a, b), 200);
    assert_eq!(dist_sq(b, a), 200);
    assert_eq!(dist_sq(a, a), 0);
    let c = ChunkCoord { x: -3, y: 4 };
    assert_eq!(dist_sq(a, c), 25);
}

#[test]
fn pack_separates_distinct_cells() {
    let cells = [
        ChunkCoord { x: 0, y: 0 },
        ChunkCoord { x: 0, y: 1 },
        ChunkCoord { x: 1, y: 0 },
        ChunkCoord { x: -1, y: 0 },
        ChunkCoord { x: 0, y: -1 },
        ChunkCoord { x: 0x20_0000, y: -0x20_0000 },
        ChunkCoord { x: -0x20_0000, y: 0x20_0000 },
    ];
    for i in 0..cells.len() {
        for j in 0..cells.len() {
            if i != j {
                assert_ne!(pack(cells[i]), pack(cells[j]));
            } else {
                assert_eq!(pack(cells[i]), pack(cells[j]));
            }
        }
    }
}
