//! The noise field, evaluated with the real noise crate against the
//! library's plans: determinism, the unit range, and seamless edges.

use chunkstream::coords::ChunkCoord;
use chunkstream::mesh::MeshBuilder;
use chunkstream::mesh::VertexPlan;
use chunkstream::noise::NoiseConfig;

use libnoise::Generator;

fn field(cfg: &NoiseConfig) -> libnoise::Fbm<2, libnoise::Simplex<2>> {
    libnoise::Source::simplex(cfg.seed).fbm(
        cfg.octaves,
        f64::from_bits(cfg.frequency_bits),
        f64::from_bits(cfg.lacunarity_bits),
        f64::from_bits(cfg.persistence_bits),
    )
}

fn sample_unit(gen: &libnoise::Fbm<2, libnoise::Simplex<2>>, x: f64, y: f64) -> f32 {
    0.5 * (gen.sample([x, y]) as f32 + 1.0)
}

/// The world-space sample point of a planned vertex, scaled for the field.
fn scaled_point(v: &VertexPlan, scale: f64) -> (f64, f64) {
    (
        v.x_num as f64 / v.x_den as f64 * scale,
        v.y_num as f64 / v.y_den as f64 * scale,
    )
}

fn noise_config(seed: u64) -> NoiseConfig {
    NoiseConfig {
        seed,
        octaves: 5,
        frequency_bits: (0.013f64).to_bits(),
        lacunarity_bits: (2.0f64).to_bits(),
        persistence_bits: (0.5f64).to_bits(),
    }
}

#[test]
fn equal_seed_and_coordinates_give_bit_identical_heights() {
    let cfg = noise_config(1234);
    let first = field(&cfg);
    let second = field(&cfg);
    let points = [(0.0, 0.0), (0.25, 0.75), (-3.5, 12.125), (1000.0, -1000.0)];
    for (x, y) in points {
        let a = sample_unit(&first, x, y);
        let b = sample_unit(&second, x, y);
        assert_eq!(a.to_bits(), b.to_bits());
        let again = sample_unit(&first, x, y);
        assert_eq!(a.to_bits(), again.to_bits());
    }
}

#[test]
fn different_seeds_give_a_different_surface() {
    let a = field(&noise_config(1));
    let b = field(&noise_config(2));
    let mut all_equal = true;
    for i in 0..16 {
        let x = i as f64 * 0.37;
        let y = i as f64 * -0.91;
        if sample_unit(&a, x, y).to_bits() != sample_unit(&b, x, y).to_bits() {
            all_equal = false;
        }
    }
    assert!(!all_equal);
}

#[test]
fn normalized_heights_stay_in_the_unit_interval() {
    let gen = field(&noise_config(99));
    for i in -20..20 {
        for j in -20..20 {
            let h = sample_unit(&gen, i as f64 * 0.61, j as f64 * 0.43);
            assert!((0.0..=1.0).contains(&h));
        }
    }
}

#[test]
fn adjacent_chunk_edges_evaluate_to_bit_identical_heights() {
    let cfg = noise_config(42);
    let gen = field(&cfg);
    let scale = 0.013f64;
    let builder = MeshBuilder { divisions_x: 4, divisions_y: 4 };
    let left = builder.build(ChunkCoord { x: 0, y: 0 });
    let right = builder.build(ChunkCoord { x: 1, y: 0 });
    for yi in 0..4usize {
        let a = &left.vertices[3 * 4 + yi];
        let b = &right.vertices[yi];
        let (ax, ay) = scaled_point(a, scale);
        let (bx, by) = scaled_point(b, scale);
        assert_eq!(ax.to_bits(), bx.to_bits());
        assert_eq!(ay.to_bits(), by.to_bits());
        let ha = sample_unit(&gen, ax, ay);
        let hb = sample_unit(&gen, bx, by);
        assert_eq!(ha.to_bits(), hb.to_bits());
    }
    let below = builder.build(ChunkCoord { x: 0, y: 1 });
    for xi in 0..4usize {
        let a = &left.vertices[xi * 4 + 3];
        let b = &below.vertices[xi * 4];
        let (ax, ay) = scaled_point(a, scale);
        let (bx, by) = scaled_point(b, scale);
        let ha = sample_unit(&gen, ax, ay);
        let hb = sample_unit(&gen, bx, by);
        assert_eq!(ha.to_bits(), hb.to_bits());
    }
}
