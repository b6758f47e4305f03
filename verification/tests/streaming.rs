//! The streaming manager: spawning under a budget, eviction, idempotence.

use chunkstream::coords::ChunkCoord;
use chunkstream::coords::WorldPos;
use chunkstream::grid::ChunkGrid;
use chunkstream::grid::ConfigError;
use chunkstream::grid::GridConfig;
use chunkstream::mesh::MeshBuilder;
use chunkstream::noise::NoiseConfig;

fn refusal(r: Result<ChunkGrid, ConfigError>) -> ConfigError {
    match r {
        Ok(_) => panic!("the configuration was accepted"),
        Err(e) => e,
    }
}

fn noise_config() -> NoiseConfig {
    NoiseConfig {
        seed: 42,
        octaves: 5,
        frequency_bits: (0.013f64).to_bits(),
        lacunarity_bits: (2.0f64).to_bits(),
        persistence_bits: (0.5f64).to_bits(),
    }
}

fn config(spawn_radius: i64, retention_radius: i64, spawn_budget: usize) -> GridConfig {
    GridConfig {
        chunk_size: 1,
        spawn_radius,
        retention_radius,
        spawn_budget,
        builder: MeshBuilder { divisions_x: 4, divisions_y: 4 },
        world_scale_bits: (0.013f64).to_bits(),
        noise: noise_config(),
    }
}

#[test]
fn teleporting_the_camera_evicts_the_old_cell_and_loads_the_new_one() {
    let mut grid = ChunkGrid::new(config(1, 3, 9)).unwrap();
    grid.update(WorldPos { x: 0, z: 0 });
    assert!(grid.contains(ChunkCoord { x: 0, y: 0 }));
    let report = grid.update(WorldPos { x: 10, z: 10 });
    assert!(!grid.contains(ChunkCoord { x: 0, y: 0 }));
    assert!(grid.contains(ChunkCoord { x: 10, y: 10 }));
    assert!(report.evicted.contains(&ChunkCoord { x: 0, y: 0 }));
}

#[test]
fn one_update_never_creates_more_than_the_budget() {
    let mut grid = ChunkGrid::new(config(2, 4, 3)).unwrap();
    let report = grid.update(WorldPos { x: 0, z: 0 });
    assert_eq!(report.created.len(), 3);
    assert_eq!(grid.len(), 3);
    // the window is scanned row-major from its lowest corner
    assert_eq!(
        report.created,
        vec![
            ChunkCoord { x: -2, y: -2 },
            ChunkCoord { x: -2, y: -1 },
            ChunkCoord { x: -2, y: 0 },
        ]
    );
    // the missing cells are picked up by later ticks
    let report = grid.update(WorldPos { x: 0, z: 0 });
    assert_eq!(report.created.len(), 3);
    assert_eq!(grid.len(), 6);
}

#[test]
fn update_at_an_unchanged_position_is_a_no_op_once_saturated() {
    let mut grid = ChunkGrid::new(config(1, 3, 100)).unwrap();
    let first = grid.update(WorldPos { x: 5, z: -4 });
    assert_eq!(first.created.len(), 9);
    let before: Vec<ChunkCoord> = grid.live_coords().clone();
    let second = grid.update(WorldPos { x: 5, z: -4 });
    assert!(second.created.is_empty());
    assert!(second.evicted.is_empty());
    assert_eq!(grid.live_coords(), &before);
}

#[test]
fn every_live_cell_stays_inside_the_retention_ball() {
    let mut grid = ChunkGrid::new(config(1, 3, 4)).unwrap();
    let moves = [(0, 0), (3, 4), (-5, 2), (-5, 2), (20, -20), (21, -20)];
    for (x, z) in moves {
        grid.update(WorldPos { x, z });
        let cam = grid.last_camera().unwrap();
        for c in grid.live_coords() {
            let dx = c.x - cam.x;
            let dy = c.y - cam.y;
            assert!(dx * dx + dy * dy < 3 * 3);
        }
    }
}

#[test]
fn a_discarded_cell_is_planned_again_on_the_next_tick() {
    let mut grid = ChunkGrid::new(config(1, 3, 9)).unwrap();
    grid.update(WorldPos { x: 0, z: 0 });
    assert!(grid.contains(ChunkCoord { x: 0, y: 0 }));
    assert!(grid.discard(ChunkCoord { x: 0, y: 0 }));
    assert!(!grid.contains(ChunkCoord { x: 0, y: 0 }));
    assert!(!grid.discard(ChunkCoord { x: 0, y: 0 }));
    let report = grid.update(WorldPos { x: 0, z: 0 });
    assert_eq!(report.created, vec![ChunkCoord { x: 0, y: 0 }]);
    assert!(grid.contains(ChunkCoord { x: 0, y: 0 }));
}

#[test]
fn chunks_hold_the_plan_of_their_own_cell() {
    let mut grid = ChunkGrid::new(config(1, 3, 9)).unwrap();
    grid.update(WorldPos { x: 0, z: 0 });
    let chunk = grid.get(ChunkCoord { x: 1, y: -1 }).unwrap();
    assert_eq!(chunk.coord, ChunkCoord { x: 1, y: -1 });
    assert_eq!(chunk.plan.vertices.len(), 16);
    assert_eq!(chunk.plan.indices.len(), 54);
    assert_eq!(chunk.plan.vertices[0].x_num, 3);
    assert_eq!(chunk.plan.vertices[0].y_num, -3);
    assert!(grid.get(ChunkCoord { x: 7, y: 7 }).is_none());
}

#[test]
fn each_bad_configuration_is_refused_for_its_own_reason() {
    let good = config(1, 3, 9);
    assert!(ChunkGrid::new(good).is_ok());

    let mut cfg = good;
    cfg.chunk_size = 0;
    assert_eq!(refusal(ChunkGrid::new(cfg)), ConfigError::NonPositiveChunkSize);

    let mut cfg = good;
    cfg.spawn_radius = -1;
    assert_eq!(refusal(ChunkGrid::new(cfg)), ConfigError::SpawnRadiusOutOfRange);
    cfg.spawn_radius = 0x401;
    assert_eq!(refusal(ChunkGrid::new(cfg)), ConfigError::SpawnRadiusOutOfRange);

    let mut cfg = good;
    cfg.retention_radius = 0;
    assert_eq!(refusal(ChunkGrid::new(cfg)), ConfigError::RetentionOutOfRange);

    let mut cfg = good;
    cfg.retention_radius = 1;
    assert_eq!(refusal(ChunkGrid::new(cfg)), ConfigError::RetentionBelowSpawnWindow);

    let mut cfg = good;
    cfg.builder.divisions_x = 0;
    assert_eq!(refusal(ChunkGrid::new(cfg)), ConfigError::ZeroDivisions);

    let mut cfg = good;
    cfg.builder.divisions_y = 0x8001;
    assert_eq!(refusal(ChunkGrid::new(cfg)), ConfigError::DivisionsTooLarge);

    let mut cfg = good;
    cfg.world_scale_bits = (-0.013f64).to_bits();
    assert_eq!(refusal(ChunkGrid::new(cfg)), ConfigError::NonPositiveWorldScale);
    cfg.world_scale_bits = 0;
    assert_eq!(refusal(ChunkGrid::new(cfg)), ConfigError::NonPositiveWorldScale);
    cfg.world_scale_bits = f64::NAN.to_bits();
    assert_eq!(refusal(ChunkGrid::new(cfg)), ConfigError::NonPositiveWorldScale);

    let mut cfg = good;
    cfg.noise.octaves = 0;
    assert_eq!(refusal(ChunkGrid::new(cfg)), ConfigError::InvalidNoiseParameters);
    let mut cfg = good;
    cfg.noise.persistence_bits = f64::INFINITY.to_bits();
    assert_eq!(refusal(ChunkGrid::new(cfg)), ConfigError::InvalidNoiseParameters);
}

#[test]
fn boundary_configurations_are_accepted() {
    let mut cfg = config(1, 3, 9);
    cfg.builder.divisions_x = 0x8000;
    cfg.builder.divisions_y = 0x8000;
    assert!(ChunkGrid::new(cfg).is_ok());

    let mut cfg = config(0x400, 2048, 0);
    cfg.spawn_radius = 0x400;
    assert!(ChunkGrid::new(cfg).is_ok());

    let mut cfg = config(1, 0x8_0000, 9);
    cfg.chunk_size = i64::MAX;
    assert!(ChunkGrid::new(cfg).is_ok());
}

#[test]
fn a_fresh_grid_is_empty_until_the_first_tick() {
    let grid = ChunkGrid::new(config(1, 3, 9)).unwrap();
    assert_eq!(grid.len(), 0);
    assert!(grid.live_coords().is_empty());
    assert!(grid.last_camera().is_none());
    assert!(!grid.contains(ChunkCoord { x: 0, y: 0 }));
}
