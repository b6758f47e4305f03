//! The chunk streaming manager.
//!
//! A `ChunkGrid` maps lattice cells to live chunks.  Each tick it is told
//! the camera's world position; it plans chunks for cells of the spawn
//! window that are not yet live — at most `spawn_budget` of them, in a
//! fixed row-major order, so one tick's work is bounded — and then evicts
//! every chunk whose cell has drifted to the retention radius or beyond.
//! The grid owns only what it can decide exactly: which cells are live,
//! in which order they were created, and each cell's mesh plan.  A host
//! realizes plans into geometry and buffers, and releases those buffers
//! for every cell the grid reports evicted.

use vstd::prelude::*;

use vstd::hash_map::HashMapWithView;

use crate::coords::CAMERA_COORD_LIMIT;
use crate::coords::COORD_LIMIT;
use crate::coords::ChunkCoord;
use crate::coords::WorldPos;
use crate::coords::camera_chunk;
use crate::coords::chunk_of_world;
use crate::coords::dist_sq;
use crate::coords::dist_sq_spec;
use crate::coords::lemma_pack_injective;
use crate::coords::pack;
use crate::coords::pack_spec;
use crate::coords::world_in_range_spec;
use crate::mesh::DIVISIONS_LIMIT;
use crate::mesh::MeshBuilder;
use crate::mesh::MeshPlan;
use crate::mesh::plan_matches;
use crate::noise::NoiseConfig;
use crate::noise::is_positive_finite_bits;
use crate::noise::positive_finite_bits;

verus! {

broadcast use vstd::std_specs::hash::group_hash_axioms, vstd::seq_lib::group_seq_properties;

/// Greatest accepted spawn-window radius.
pub const SPAWN_RADIUS_LIMIT: i64 = 0x400;

/// Greatest accepted retention radius.
pub const RETENTION_LIMIT: i64 = 0x8_0000;

/// A configuration the grid refuses to run with, detected when the grid
/// is constructed and before any chunk is planned.
#[derive(Clone, Copy, PartialEq, Eq, Structural, Debug)]
pub enum ConfigError {
    /// The lattice cell side is zero or negative.
    NonPositiveChunkSize,
    /// The spawn-window radius is negative or above the accepted range.
    SpawnRadiusOutOfRange,
    /// The retention radius is zero, negative, or above the accepted range.
    RetentionOutOfRange,
    /// The retention radius does not cover the spawn window, so a chunk
    /// could be created and evicted again on every tick.
    RetentionBelowSpawnWindow,
    /// A grid resolution of zero vertices cannot describe a surface.
    ZeroDivisions,
    /// A grid resolution above the accepted range.
    DivisionsTooLarge,
    /// The world scale is not a positive finite number.
    NonPositiveWorldScale,
    /// The noise parameters are unusable.
    InvalidNoiseParameters,
}

/// Everything a grid is built from: the lattice, the streaming policy,
/// the mesh resolution, and the noise field configuration the host
/// evaluates plans against.
#[derive(Clone, Copy, PartialEq, Eq, Structural, Debug)]
pub struct GridConfig {
    /// Side of one lattice cell, in world-position subunits.
    pub chunk_size: i64,
    /// Half-side of the square spawn window scanned around the camera.
    pub spawn_radius: i64,
    /// Chunks are kept only while their squared cell distance from the
    /// camera's cell stays below the square of this radius.
    pub retention_radius: i64,
    /// Greatest number of chunks created by one update call.
    pub spawn_budget: usize,
    /// Mesh resolution of every chunk.
    pub builder: MeshBuilder,
    /// Factor the sample coordinates are scaled by before the noise field
    /// is evaluated, as an IEEE double bit pattern.
    pub world_scale_bits: u64,
    /// Configuration of the noise field heights are drawn from.
    pub noise: NoiseConfig,
}

impl GridConfig {
    /// A configuration the grid accepts: positive cell side, radii in
    /// range, a retention ball that covers the whole spawn window, usable
    /// mesh resolutions, and well-formed noise parameters.
    pub open spec fn valid(self) -> bool {
        &&& 1 <= self.chunk_size
        &&& 0 <= self.spawn_radius <= SPAWN_RADIUS_LIMIT
        &&& 1 <= self.retention_radius <= RETENTION_LIMIT
        &&& 2 * self.spawn_radius * self.spawn_radius < self.retention_radius
            * self.retention_radius
        &&& 1 <= self.builder.divisions_x <= DIVISIONS_LIMIT
        &&& 1 <= self.builder.divisions_y <= DIVISIONS_LIMIT
        &&& positive_finite_bits(self.world_scale_bits)
        &&& self.noise.valid()
    }

    /// The first reason a configuration is refused, in the order the
    /// checks are made.
    pub open spec fn first_error(self) -> ConfigError {
        if self.chunk_size < 1 {
            ConfigError::NonPositiveChunkSize
        } else if !(0 <= self.spawn_radius <= SPAWN_RADIUS_LIMIT) {
            ConfigError::SpawnRadiusOutOfRange
        } else if !(1 <= self.retention_radius <= RETENTION_LIMIT) {
            ConfigError::RetentionOutOfRange
        } else if !(2 * self.spawn_radius * self.spawn_radius < self.retention_radius
            * self.retention_radius) {
            ConfigError::RetentionBelowSpawnWindow
        } else if self.builder.divisions_x < 1 || self.builder.divisions_y < 1 {
            ConfigError::ZeroDivisions
        } else if self.builder.divisions_x > DIVISIONS_LIMIT || self.builder.divisions_y
            > DIVISIONS_LIMIT {
            ConfigError::DivisionsTooLarge
        } else if !positive_finite_bits(self.world_scale_bits) {
            ConfigError::NonPositiveWorldScale
        } else {
            ConfigError::InvalidNoiseParameters
        }
    }

    /// Checks the configuration, and says exactly why it is refused.
    pub fn validate(&self) -> (r: Result<(), ConfigError>)
        ensures
            r is Ok <==> self.valid(),
            r is Err ==> r->Err_0 == self.first_error(),
    {
        if self.chunk_size < 1 {
            Err(ConfigError::NonPositiveChunkSize)
        } else if !(0 <= self.spawn_radius && self.spawn_radius <= SPAWN_RADIUS_LIMIT) {
            Err(ConfigError::SpawnRadiusOutOfRange)
        } else if !(1 <= self.retention_radius && self.retention_radius <= RETENTION_LIMIT) {
            Err(ConfigError::RetentionOutOfRange)
        } else {
            proof {
                assert(0 <= self.spawn_radius * self.spawn_radius <= 0x400 * 0x400)
                    by (nonlinear_arith)
                    requires
                        0 <= self.spawn_radius <= 0x400;
                assert(0 <= self.retention_radius * self.retention_radius <= 0x8_0000 * 0x8_0000)
                    by (nonlinear_arith)
                    requires
                        0 <= self.retention_radius <= 0x8_0000;
                assert(2 * (self.spawn_radius * self.spawn_radius) == 2 * self.spawn_radius
                    * self.spawn_radius) by (nonlinear_arith);
            }
            let spawn_sq = 2 * (self.spawn_radius * self.spawn_radius);
            let retention_sq = self.retention_radius * self.retention_radius;
            if !(spawn_sq < retention_sq) {
                Err(ConfigError::RetentionBelowSpawnWindow)
            } else if self.builder.divisions_x < 1 || self.builder.divisions_y < 1 {
                Err(ConfigError::ZeroDivisions)
            } else if self.builder.divisions_x > DIVISIONS_LIMIT || self.builder.divisions_y
                > DIVISIONS_LIMIT {
                Err(ConfigError::DivisionsTooLarge)
            } else if !is_positive_finite_bits(self.world_scale_bits) {
                Err(ConfigError::NonPositiveWorldScale)
            } else if !self.noise.is_valid() {
                Err(ConfigError::InvalidNoiseParameters)
            } else {
                Ok(())
            }
        }
    }
}

/// One live chunk: its cell and the mesh plan generated for it.
pub struct Chunk {
    /// The lattice cell the chunk occupies.
    pub coord: ChunkCoord,
    /// The planned mesh of the chunk's surface.
    pub plan: MeshPlan,
}

/// The chunk stored for cell `c` is exactly the one the configuration
/// prescribes for it.
pub open spec fn chunk_matches(chunk: Chunk, c: ChunkCoord, cfg: GridConfig) -> bool {
    &&& chunk.coord == c
    &&& plan_matches(
        chunk.plan,
        c,
        cfg.builder.divisions_x as int,
        cfg.builder.divisions_y as int,
    )
}

/// A cell within the retention ball around `cam`.
pub open spec fn near(c: ChunkCoord, cam: ChunkCoord, retention: int) -> bool {
    dist_sq_spec(c, cam) < retention * retention
}

/// Side of the spawn window: the cells within offset `r` along each axis.
pub open spec fn window_side(r: int) -> int {
    2 * r + 1
}

/// Number of cells in the spawn window.
pub open spec fn window_len(r: int) -> int {
    window_side(r) * window_side(r)
}

/// The cell scanned at position `k` of the spawn window around `cam`:
/// row-major over the window, one column of offsets after the other.
pub open spec fn window_at(cam: ChunkCoord, r: int, k: int) -> ChunkCoord {
    ChunkCoord {
        x: (cam.x - r + k / window_side(r)) as i64,
        y: (cam.y - r + k % window_side(r)) as i64,
    }
}

/// The cells a tick creates, scanning the window from position `k` with
/// `budget` creations left: every scanned cell not yet live, in scan
/// order, until the window or the budget is exhausted.
pub open spec fn spawn_from(
    dom: Set<ChunkCoord>,
    cam: ChunkCoord,
    r: int,
    budget: int,
    k: int,
) -> Seq<ChunkCoord>
    decreases window_len(r) - k,
{
    if k < 0 || k >= window_len(r) || budget <= 0 {
        Seq::empty()
    } else if dom.contains(window_at(cam, r, k)) {
        spawn_from(dom, cam, r, budget, k + 1)
    } else {
        seq![window_at(cam, r, k)] + spawn_from(dom, cam, r, budget - 1, k + 1)
    }
}

/// The cells one update call creates, given the cells live when it starts.
pub open spec fn spawn_list(dom: Set<ChunkCoord>, cam: ChunkCoord, cfg: GridConfig) -> Seq<
    ChunkCoord,
> {
    spawn_from(dom, cam, cfg.spawn_radius as int, cfg.spawn_budget as int, 0)
}

/// The cells of `s` kept by the eviction pass: those still inside the
/// retention ball, in their original order.
pub open spec fn keep_near(s: Seq<ChunkCoord>, cam: ChunkCoord, retention: int) -> Seq<ChunkCoord>
    decreases s.len(),
{
    if s.len() == 0 {
        Seq::empty()
    } else {
        let rest = keep_near(s.drop_last(), cam, retention);
        if near(s.last(), cam, retention) {
            rest.push(s.last())
        } else {
            rest
        }
    }
}

/// The cells of `s` removed by the eviction pass: those at or beyond the
/// retention radius, in their original order.
pub open spec fn far_part(s: Seq<ChunkCoord>, cam: ChunkCoord, retention: int) -> Seq<ChunkCoord>
    decreases s.len(),
{
    if s.len() == 0 {
        Seq::empty()
    } else {
        let rest = far_part(s.drop_last(), cam, retention);
        if near(s.last(), cam, retention) {
            rest
        } else {
            rest.push(s.last())
        }
    }
}

/// The cells of `s` other than `v`, in their original order.
pub open spec fn without(s: Seq<ChunkCoord>, v: ChunkCoord) -> Seq<ChunkCoord>
    decreases s.len(),
{
    if s.len() == 0 {
        Seq::empty()
    } else {
        let rest = without(s.drop_last(), v);
        if s.last() == v {
            rest
        } else {
            rest.push(s.last())
        }
    }
}

/// A duplicate-free sequence stays duplicate-free without its last
/// element, which it holds nowhere else.
proof fn lemma_drop_last_no_dup(s: Seq<ChunkCoord>)
    requires
        s.len() > 0,
        s.no_duplicates(),
    ensures
        s.drop_last().no_duplicates(),
        !s.drop_last().contains(s.last()),
{
    assert forall|i: int, j: int|
        0 <= i < s.drop_last().len() && 0 <= j < s.drop_last().len() && i != j implies s.drop_last()[i]
        != s.drop_last()[j] by {
        assert(s[i] == s.drop_last()[i] && s[j] == s.drop_last()[j]);
    }
    if s.drop_last().contains(s.last()) {
        let i = choose|i: int| 0 <= i < s.drop_last().len() && s.drop_last()[i] == s.last();
        assert(s[i] == s[s.len() - 1]);
    }
}

/// Appending a fresh element keeps a sequence duplicate-free.
proof fn lemma_push_no_dup(s: Seq<ChunkCoord>, x: ChunkCoord)
    requires
        s.no_duplicates(),
        !s.contains(x),
    ensures
        s.push(x).no_duplicates(),
{
    let t = s.push(x);
    assert forall|i: int, j: int| 0 <= i < t.len() && 0 <= j < t.len() && i != j implies t[i]
        != t[j] by {
        if i < s.len() && j < s.len() {
        } else if i < s.len() {
            assert(s.contains(s[i]));
        } else if j < s.len() {
            assert(s.contains(s[j]));
        }
    }
}

/// How the eviction pass splits a sequence of cells: membership of the
/// kept and the removed part, and that each part stays duplicate-free.
pub proof fn lemma_evict_split(s: Seq<ChunkCoord>, cam: ChunkCoord, retention: int)
    ensures
        forall|c: ChunkCoord| #[trigger]
            keep_near(s, cam, retention).contains(c) <==> s.contains(c) && near(
                c,
                cam,
                retention,
            ),
        forall|c: ChunkCoord| #[trigger]
            far_part(s, cam, retention).contains(c) <==> s.contains(c) && !near(
                c,
                cam,
                retention,
            ),
        s.no_duplicates() ==> keep_near(s, cam, retention).no_duplicates(),
        s.no_duplicates() ==> far_part(s, cam, retention).no_duplicates(),
        keep_near(s, cam, retention).len() + far_part(s, cam, retention).len() == s.len(),
    decreases s.len(),
{
    if s.len() == 0 {
    } else {
        lemma_evict_split(s.drop_last(), cam, retention);
        assert forall|c: ChunkCoord| s.contains(c) implies s.drop_last().contains(c) || c
            == s.last() by {
            let i = choose|i: int| 0 <= i < s.len() && s[i] == c;
            if i < s.len() - 1 {
                assert(s.drop_last()[i] == c);
            }
        }
        assert forall|c: ChunkCoord| s.drop_last().contains(c) implies s.contains(c) by {
            let i = choose|i: int| 0 <= i < s.drop_last().len() && s.drop_last()[i] == c;
            assert(s[i] == c);
        }
        assert(s.contains(s.last()));
        if s.no_duplicates() {
            lemma_drop_last_no_dup(s);
            if near(s.last(), cam, retention) {
                lemma_push_no_dup(keep_near(s.drop_last(), cam, retention), s.last());
            } else {
                lemma_push_no_dup(far_part(s.drop_last(), cam, retention), s.last());
            }
        }
    }
}

/// Removing one value: membership of what is left, freedom from
/// duplicates, and that removing an absent value changes nothing.
pub proof fn lemma_without_split(s: Seq<ChunkCoord>, v: ChunkCoord)
    ensures
        forall|c: ChunkCoord| #[trigger] without(s, v).contains(c) <==> s.contains(c) && c != v,
        s.no_duplicates() ==> without(s, v).no_duplicates(),
        !s.contains(v) ==> without(s, v) == s,
    decreases s.len(),
{
    if s.len() == 0 {
        assert(without(s, v) =~= s);
    } else {
        lemma_without_split(s.drop_last(), v);
        assert forall|c: ChunkCoord| s.contains(c) implies s.drop_last().contains(c) || c
            == s.last() by {
            let i = choose|i: int| 0 <= i < s.len() && s[i] == c;
            if i < s.len() - 1 {
                assert(s.drop_last()[i] == c);
            }
        }
        assert forall|c: ChunkCoord| s.drop_last().contains(c) implies s.contains(c) by {
            let i = choose|i: int| 0 <= i < s.drop_last().len() && s.drop_last()[i] == c;
            assert(s[i] == c);
        }
        assert(s.contains(s.last()));
        if s.no_duplicates() {
            lemma_drop_last_no_dup(s);
            if s.last() != v {
                lemma_push_no_dup(without(s.drop_last(), v), s.last());
            }
        }
        if !s.contains(v) {
            assert(without(s, v) =~= s);
        }
    }
}

/// Every cell of the spawn window is in coordinate range and inside the
/// retention ball: the window never plans a chunk that the same tick's
/// eviction pass would remove.
pub proof fn lemma_window_cell(cam: ChunkCoord, r: int, retention: int, k: int)
    requires
        -CAMERA_COORD_LIMIT <= cam.x <= CAMERA_COORD_LIMIT,
        -CAMERA_COORD_LIMIT <= cam.y <= CAMERA_COORD_LIMIT,
        0 <= r <= SPAWN_RADIUS_LIMIT,
        2 * r * r < retention * retention,
        0 <= retention,
        0 <= k < window_len(r),
    ensures
        window_at(cam, r, k).in_bounds(),
        near(window_at(cam, r, k), cam, retention),
{
    let side = window_side(r);
    let dx = k / side;
    let dy = k % side;
    assert(0 <= dx < side && 0 <= dy < side) by (nonlinear_arith)
        requires
            0 < side,
            0 <= k < side * side,
            dx == k / side,
            dy == k % side;
    let c = window_at(cam, r, k);
    assert(c.x == cam.x - r + dx && c.y == cam.y - r + dy);
    assert((dx - r) * (dx - r) + (dy - r) * (dy - r) <= 2 * r * r) by (nonlinear_arith)
        requires
            0 <= dx <= 2 * r,
            0 <= dy <= 2 * r;
    assert(dist_sq_spec(c, cam) == (dx - r) * (dx - r) + (dy - r) * (dy - r));
}

/// Different window positions scan different cells.
pub proof fn lemma_window_injective(cam: ChunkCoord, r: int, k1: int, k2: int)
    requires
        -CAMERA_COORD_LIMIT <= cam.x <= CAMERA_COORD_LIMIT,
        -CAMERA_COORD_LIMIT <= cam.y <= CAMERA_COORD_LIMIT,
        0 <= r <= SPAWN_RADIUS_LIMIT,
        0 <= k1 < window_len(r),
        0 <= k2 < window_len(r),
        k1 != k2,
    ensures
        window_at(cam, r, k1) != window_at(cam, r, k2),
{
    let side = window_side(r);
    vstd::arithmetic::div_mod::lemma_fundamental_div_mod(k1, side);
    vstd::arithmetic::div_mod::lemma_fundamental_div_mod(k2, side);
    vstd::arithmetic::div_mod::lemma_mod_bound(k1, side);
    vstd::arithmetic::div_mod::lemma_mod_bound(k2, side);
    assert(0 <= k1 / side < side && 0 <= k2 / side < side) by (nonlinear_arith)
        requires
            0 < side,
            0 <= k1 < side * side,
            0 <= k2 < side * side;
    if window_at(cam, r, k1) == window_at(cam, r, k2) {
        assert((cam.x - r + k1 / side) as i64 == (cam.x - r + k2 / side) as i64);
        assert((cam.y - r + k1 % side) as i64 == (cam.y - r + k2 % side) as i64);
        assert(k1 / side == k2 / side);
        assert(k1 % side == k2 % side);
        assert(k1 == side * (k1 / side) + k1 % side);
        assert(k2 == side * (k2 / side) + k2 % side);
    }
}

/// What the spawn scan yields: never more cells than the budget, each
/// yielded cell a window cell that was not live, no cell twice; and when
/// the budget was not exhausted, every window cell from the scan start is
/// live or yielded.
pub proof fn lemma_spawn_props(dom: Set<ChunkCoord>, cam: ChunkCoord, r: int, budget: int, k: int)
    requires
        -CAMERA_COORD_LIMIT <= cam.x <= CAMERA_COORD_LIMIT,
        -CAMERA_COORD_LIMIT <= cam.y <= CAMERA_COORD_LIMIT,
        0 <= r <= SPAWN_RADIUS_LIMIT,
        0 <= k,
    ensures
        spawn_from(dom, cam, r, budget, k).len() <= if budget < 0 {
            0
        } else {
            budget
        },
        forall|j: int|
            0 <= j < spawn_from(dom, cam, r, budget, k).len() ==> exists|m: int|
                k <= m < window_len(r) && #[trigger] spawn_from(dom, cam, r, budget, k)[j]
                    == window_at(cam, r, m),
        forall|j: int|
            0 <= j < spawn_from(dom, cam, r, budget, k).len() ==> !dom.contains(
                #[trigger] spawn_from(dom, cam, r, budget, k)[j],
            ),
        spawn_from(dom, cam, r, budget, k).no_duplicates(),
        spawn_from(dom, cam, r, budget, k).len() < budget ==> forall|m: int|
            k <= m < window_len(r) ==> dom.contains(#[trigger] window_at(cam, r, m))
                || spawn_from(dom, cam, r, budget, k).contains(window_at(cam, r, m)),
    decreases window_len(r) - k,
{
    let out = spawn_from(dom, cam, r, budget, k);
    if k < 0 || k >= window_len(r) || budget <= 0 {
    } else {
        let c = window_at(cam, r, k);
        if dom.contains(c) {
            lemma_spawn_props(dom, cam, r, budget, k + 1);
        } else {
            lemma_spawn_props(dom, cam, r, budget - 1, k + 1);
            let rest = spawn_from(dom, cam, r, budget - 1, k + 1);
            assert(out == seq![c] + rest);
            assert(out[0] == c);
            assert(forall|j: int| 1 <= j < out.len() ==> out[j] == rest[j - 1]);
            assert forall|j: int| 0 <= j < out.len() implies exists|m: int|
                k <= m < window_len(r) && #[trigger] out[j] == window_at(cam, r, m) by {
                if j == 0 {
                    assert(out[j] == window_at(cam, r, k));
                } else {
                    let m = choose|m: int|
                        k + 1 <= m < window_len(r) && #[trigger] rest[j - 1] == window_at(
                            cam,
                            r,
                            m,
                        );
                    assert(out[j] == window_at(cam, r, m));
                }
            }
            assert(out.no_duplicates()) by {
                assert(rest.no_duplicates());
                assert(!rest.contains(c)) by {
                    if rest.contains(c) {
                        let j = choose|j: int| 0 <= j < rest.len() && rest[j] == c;
                        let m = choose|m: int|
                            k + 1 <= m < window_len(r) && #[trigger] rest[j] == window_at(
                                cam,
                                r,
                                m,
                            );
                        lemma_window_injective(cam, r, k, m);
                    }
                }
                assert forall|i: int, j: int| 0 <= i < j < out.len() implies out[i] != out[j] by {
                    if i == 0 {
                        assert(out[j] == rest[j - 1]);
                        assert(rest.contains(rest[j - 1]));
                    }
                }
            }
            if out.len() < budget {
                assert(rest.len() < budget - 1);
                assert forall|m: int|
                    k <= m < window_len(r) implies dom.contains(#[trigger] window_at(cam, r, m))
                    || out.contains(window_at(cam, r, m)) by {
                    if m == k {
                        assert(out[0] == window_at(cam, r, k));
                    } else {
                        if !dom.contains(window_at(cam, r, m)) {
                            assert(rest.contains(window_at(cam, r, m)));
                            let j = choose|j: int|
                                0 <= j < rest.len() && rest[j] == window_at(cam, r, m);
                            assert(out[j + 1] == window_at(cam, r, m));
                        }
                    }
                }
            }
        }
    }
}

/// When every window cell is already live, the scan yields nothing.
pub proof fn lemma_spawn_empty(dom: Set<ChunkCoord>, cam: ChunkCoord, r: int, budget: int, k: int)
    requires
        forall|m: int| k <= m < window_len(r) ==> dom.contains(#[trigger] window_at(cam, r, m)),
    ensures
        spawn_from(dom, cam, r, budget, k) == Seq::<ChunkCoord>::empty(),
    decreases window_len(r) - k,
{
    if k < 0 || k >= window_len(r) || budget <= 0 {
    } else {
        lemma_spawn_empty(dom, cam, r, budget, k + 1);
    }
}

/// A cell is in a concatenation exactly when it is in one of the parts.
proof fn lemma_concat_contains(a: Seq<ChunkCoord>, b: Seq<ChunkCoord>, c: ChunkCoord)
    ensures
        (a + b).contains(c) <==> a.contains(c) || b.contains(c),
{
    if a.contains(c) {
        let i = choose|i: int| 0 <= i < a.len() && a[i] == c;
        assert((a + b)[i] == c);
    }
    if b.contains(c) {
        let i = choose|i: int| 0 <= i < b.len() && b[i] == c;
        assert((a + b)[a.len() + i] == c);
    }
    if (a + b).contains(c) {
        let i = choose|i: int| 0 <= i < (a + b).len() && (a + b)[i] == c;
        if i < a.len() {
            assert(a[i] == c);
        } else {
            assert(b[i - a.len()] == c);
        }
    }
}

/// When every cell of `s` is inside the retention ball, the eviction
/// pass keeps all of `s` and removes nothing.
proof fn lemma_keep_all_near(s: Seq<ChunkCoord>, cam: ChunkCoord, retention: int)
    requires
        forall|i: int| 0 <= i < s.len() ==> near(#[trigger] s[i], cam, retention),
    ensures
        keep_near(s, cam, retention) == s,
        far_part(s, cam, retention) == Seq::<ChunkCoord>::empty(),
    decreases s.len(),
{
    if s.len() == 0 {
        assert(keep_near(s, cam, retention) =~= s);
    } else {
        lemma_keep_all_near(s.drop_last(), cam, retention);
        assert(near(s.last(), cam, retention));
        assert(keep_near(s, cam, retention) =~= s);
    }
}

/// What one update call reports back to the host: the cells whose chunks
/// it created, in creation order, and the cells whose chunks it evicted,
/// whose realized resources the host must now release.
pub struct UpdateReport {
    /// Cells created this tick, in scan order.
    pub created: Vec<ChunkCoord>,
    /// Cells evicted this tick, in the order they had been created.
    pub evicted: Vec<ChunkCoord>,
}

/// The streaming manager: the live chunks, keyed by their packed cell,
/// with the creation order and the camera cell of the most recent tick.
pub struct ChunkGrid {
    cfg: GridConfig,
    chunks: HashMapWithView<u64, Chunk>,
    order: Vec<ChunkCoord>,
    last_camera: Option<ChunkCoord>,
}

impl ChunkGrid {
    /// The grid's configuration.
    pub closed spec fn config_spec(self) -> GridConfig {
        self.cfg
    }

    /// The live cells in creation order.
    pub closed spec fn live_order(self) -> Seq<ChunkCoord> {
        self.order@
    }

    /// The set of live cells.
    pub open spec fn dom(self) -> Set<ChunkCoord> {
        self.live_order().to_set()
    }

    /// The camera cell of the most recent update, if one happened.
    pub closed spec fn camera_spec(self) -> Option<ChunkCoord> {
        self.last_camera
    }

    /// The grid's internal invariant: a valid configuration; live cells
    /// recorded once each, all within coordinate range; and the chunk map
    /// holding exactly the live cells, each mapped to the chunk the
    /// configuration prescribes for it.
    pub closed spec fn wf(self) -> bool {
        &&& self.cfg.valid()
        &&& self.order@.no_duplicates()
        &&& forall|i: int| 0 <= i < self.order@.len() ==> (#[trigger] self.order@[i]).in_bounds()
        &&& forall|i: int|
            0 <= i < self.order@.len() ==> self.chunks@.contains_key(
                pack_spec(#[trigger] self.order@[i]),
            )
        &&& forall|i: int|
            0 <= i < self.order@.len() ==> chunk_matches(
                self.chunks@[pack_spec(#[trigger] self.order@[i])],
                self.order@[i],
                self.cfg,
            )
        &&& forall|key: u64| #[trigger]
            self.chunks@.dom().contains(key) ==> exists|i: int|
                0 <= i < self.order@.len() && key == pack_spec(#[trigger] self.order@[i])
    }

    /// A well-formed grid runs a valid configuration.
    pub proof fn lemma_wf_config_valid(self)
        requires
            self.wf(),
        ensures
            self.config_spec().valid(),
    {
    }

    /// Builds an empty grid, or says exactly why the configuration is
    /// refused.
    pub fn new(cfg: GridConfig) -> (r: Result<ChunkGrid, ConfigError>)
        ensures
            match r {
                Ok(grid) => {
                    &&& cfg.valid()
                    &&& grid.wf()
                    &&& grid.config_spec() == cfg
                    &&& grid.live_order() == Seq::<ChunkCoord>::empty()
                    &&& grid.camera_spec() is None
                },
                Err(e) => !cfg.valid() && e == cfg.first_error(),
            },
    {
        match cfg.validate() {
            Ok(()) => Ok(
                ChunkGrid {
                    cfg,
                    chunks: HashMapWithView::new(),
                    order: Vec::new(),
                    last_camera: None,
                },
            ),
            Err(e) => Err(e),
        }
    }

    /// The grid's configuration.
    pub fn config(&self) -> (cfg: &GridConfig)
        ensures
            *cfg == self.config_spec(),
    {
        &self.cfg
    }

    /// The camera cell of the most recent update, if one happened.
    pub fn last_camera(&self) -> (cam: Option<ChunkCoord>)
        ensures
            cam == self.camera_spec(),
    {
        self.last_camera
    }

    /// Number of live chunks.
    pub fn len(&self) -> (n: usize)
        ensures
            n == self.live_order().len(),
    {
        self.order.len()
    }

    /// The live cells in creation order.
    pub fn live_coords(&self) -> (coords: &Vec<ChunkCoord>)
        ensures
            coords@ == self.live_order(),
    {
        &self.order
    }

    /// Whether the cell `c` is live.
    pub fn contains(&self, c: ChunkCoord) -> (present: bool)
        requires
            self.wf(),
        ensures
            present == self.dom().contains(c),
    {
        proof {
            self.lemma_key_membership(c);
        }
        if !(-COORD_LIMIT <= c.x && c.x <= COORD_LIMIT && -COORD_LIMIT <= c.y && c.y
            <= COORD_LIMIT) {
            false
        } else {
            self.chunks.contains_key(&pack(c))
        }
    }

    /// The live chunk at cell `c`, if any.
    pub fn get(&self, c: ChunkCoord) -> (chunk: Option<&Chunk>)
        requires
            self.wf(),
        ensures
            match chunk {
                Some(chunk) => self.dom().contains(c) && chunk_matches(
                    *chunk,
                    c,
                    self.config_spec(),
                ),
                None => !self.dom().contains(c),
            },
    {
        proof {
            self.lemma_key_membership(c);
        }
        if !(-COORD_LIMIT <= c.x && c.x <= COORD_LIMIT && -COORD_LIMIT <= c.y && c.y
            <= COORD_LIMIT) {
            None
        } else {
            match self.chunks.get(&pack(c)) {
                Some(chunk) => {
                    proof {
                        let i = choose|i: int|
                            0 <= i < self.order@.len() && pack_spec(c) == pack_spec(
                                self.order@[i],
                            );
                        lemma_pack_injective(c, self.order@[i]);
                    }
                    Some(chunk)
                },
                None => None,
            }
        }
    }

    /// For an in-range cell, holding its packed key is the same as being
    /// live; and an out-of-range cell is never live.
    proof fn lemma_key_membership(self, c: ChunkCoord)
        requires
            self.wf(),
        ensures
            c.in_bounds() ==> (self.chunks@.contains_key(pack_spec(c)) <==> self.dom().contains(
                c,
            )),
            !c.in_bounds() ==> !self.dom().contains(c),
    {
        if c.in_bounds() {
            if self.chunks@.contains_key(pack_spec(c)) {
                let i = choose|i: int|
                    0 <= i < self.order@.len() && pack_spec(c) == pack_spec(self.order@[i]);
                lemma_pack_injective(c, self.order@[i]);
                assert(self.order@[i] == c);
                assert(self.order@.contains(c));
            }
            if self.dom().contains(c) {
                let i = choose|i: int| 0 <= i < self.order@.len() && self.order@[i] == c;
                assert(self.chunks@.contains_key(pack_spec(self.order@[i])));
            }
        } else {
            if self.dom().contains(c) {
                let i = choose|i: int| 0 <= i < self.order@.len() && self.order@[i] == c;
                assert(self.order@[i].in_bounds());
            }
        }
    }

    /// Forgets the chunk at cell `c`, reporting whether it was live.  A
    /// host calls this when realizing the chunk's plan failed, so that a
    /// later tick plans the cell again; the grid never keeps a cell whose
    /// chunk the host could not finish.
    pub fn discard(&mut self, c: ChunkCoord) -> (was_live: bool)
        requires
            old(self).wf(),
        ensures
            final(self).wf(),
            final(self).config_spec() == old(self).config_spec(),
            final(self).camera_spec() == old(self).camera_spec(),
            was_live == old(self).dom().contains(c),
            final(self).live_order() == without(old(self).live_order(), c),
            final(self).dom() =~= old(self).dom().remove(c),
    {
        proof {
            self.lemma_key_membership(c);
            lemma_without_split(old(self).live_order(), c);
        }
        let live = self.contains(c);
        if !live {
            proof {
                assert(!old(self).live_order().contains(c));
                assert(final(self).dom() =~= old(self).dom().remove(c));
            }
            return false;
        }
        let key = pack(c);
        self.chunks.remove(&key);
        let ghost order0 = self.order@;
        let ghost map0 = old(self).chunks@;
        let n = self.order.len();
        let mut kept: Vec<ChunkCoord> = Vec::new();
        let mut i: usize = 0;
        while i < n
            invariant
                n == self.order.len(),
                self.order@ == order0,
                i <= n,
                c.in_bounds(),
                forall|j: int| 0 <= j < order0.len() ==> (#[trigger] order0[j]).in_bounds(),
                kept@ == without(order0.take(i as int), c),
            decreases n - i,
        {
            let o = self.order[i];
            proof {
                assert(order0.take(i as int + 1).drop_last() =~= order0.take(i as int));
                assert(order0.take(i as int + 1).last() == order0[i as int]);
            }
            if !(o.x == c.x && o.y == c.y) {
                kept.push(o);
            }
            i = i + 1;
        }
        proof {
            assert(order0.take(n as int) =~= order0);
        }
        self.order = kept;
        proof {
            self.lemma_discard_wf(c, *old(self));
        }
        true
    }

    /// After a discard: the grid is well-formed again and holds exactly
    /// the other cells.
    proof fn lemma_discard_wf(self, c: ChunkCoord, prev: ChunkGrid)
        requires
            prev.wf(),
            c.in_bounds(),
            self.cfg == prev.cfg,
            self.last_camera == prev.last_camera,
            self.order@ == without(prev.order@, c),
            self.chunks@ == prev.chunks@.remove(pack_spec(c)),
        ensures
            self.wf(),
            self.dom() =~= prev.dom().remove(c),
    {
        lemma_without_split(prev.order@, c);
        assert forall|i: int| 0 <= i < self.order@.len() implies {
            &&& (#[trigger] self.order@[i]).in_bounds()
            &&& self.chunks@.contains_key(pack_spec(self.order@[i]))
            &&& chunk_matches(
                self.chunks@[pack_spec(self.order@[i])],
                self.order@[i],
                self.cfg,
            )
        } by {
            let e = self.order@[i];
            assert(self.order@.contains(e));
            assert(prev.order@.contains(e) && e != c);
            let j = choose|j: int| 0 <= j < prev.order@.len() && prev.order@[j] == e;
            assert(prev.chunks@.contains_key(pack_spec(prev.order@[j])));
            lemma_pack_injective_contrapositive(e, c);
        }
        assert forall|key: u64| #[trigger] self.chunks@.dom().contains(key) implies exists|i: int|
            0 <= i < self.order@.len() && key == pack_spec(#[trigger] self.order@[i]) by {
            assert(prev.chunks@.dom().contains(key));
            let j = choose|j: int|
                0 <= j < prev.order@.len() && key == pack_spec(#[trigger] prev.order@[j]);
            let e = prev.order@[j];
            lemma_pack_injective_contrapositive(e, c);
            assert(e != c);
            assert(prev.order@.contains(e));
            assert(self.order@.contains(e));
            let i = choose|i: int| 0 <= i < self.order@.len() && self.order@[i] == e;
            assert(key == pack_spec(self.order@[i]));
        }
        assert forall|e: ChunkCoord| #[trigger] self.dom().contains(e) implies prev.dom().remove(
            c,
        ).contains(e) by {
            assert(self.order@.contains(e));
        }
        assert forall|e: ChunkCoord| #[trigger] prev.dom().remove(c).contains(e) implies self.dom()
            .contains(e) by {
            assert(prev.order@.contains(e) && e != c);
            assert(self.order@.contains(e));
        }
    }

    /// One streaming tick.  Computes the camera's cell; plans and records
    /// chunks for spawn-window cells that are not live, in row-major
    /// window order and never more than the spawn budget; then evicts
    /// every chunk at or beyond the retention radius from the camera's
    /// cell.  Afterwards every live cell lies strictly inside the
    /// retention ball, and the report says exactly which cells were
    /// created and which were evicted.
    pub fn update(&mut self, pos: WorldPos) -> (report: UpdateReport)
        requires
            old(self).wf(),
            world_in_range_spec(pos, old(self).config_spec().chunk_size),
        ensures
            final(self).wf(),
            final(self).config_spec() == old(self).config_spec(),
            ({
                let cfg = old(self).config_spec();
                let cam = chunk_of_world(pos, cfg.chunk_size);
                let retention = cfg.retention_radius as int;
                let full = old(self).live_order() + report.created@;
                &&& final(self).camera_spec() == Some(cam)
                &&& report.created@ == spawn_list(old(self).dom(), cam, cfg)
                &&& report.created@.len() <= cfg.spawn_budget
                &&& final(self).live_order() == keep_near(full, cam, retention)
                &&& report.evicted@ == far_part(full, cam, retention)
                &&& forall|c: ChunkCoord| #[trigger]
                    final(self).dom().contains(c) ==> near(c, cam, retention)
                &&& forall|c: ChunkCoord|
                    #[trigger] final(self).dom().contains(c) <==> ((old(self).dom().contains(c)
                        || report.created@.contains(c)) && near(c, cam, retention))
                &&& final(self).live_order().len() <= old(self).live_order().len()
                    + cfg.spawn_budget
            }),
    {
        let ghost cfg = self.cfg;
        let cam = camera_chunk(pos, self.cfg.chunk_size);
        let r = self.cfg.spawn_radius;
        let side: usize = (2 * r + 1) as usize;
        proof {
            assert(side * side <= 0x801 * 0x801) by (nonlinear_arith)
                requires
                    0 < side <= 0x801;
        }
        let wlen: usize = side * side;
        let budget = self.cfg.spawn_budget;
        let ghost dom0 = self.dom();
        let ghost order0 = self.order@;
        let mut created: Vec<ChunkCoord> = Vec::new();
        let mut k: usize = 0;
        while k < wlen && created.len() < budget
            invariant
                self.wf(),
                self.cfg == cfg,
                cfg.valid(),
                cam == chunk_of_world(pos, cfg.chunk_size),
                -CAMERA_COORD_LIMIT <= cam.x <= CAMERA_COORD_LIMIT,
                -CAMERA_COORD_LIMIT <= cam.y <= CAMERA_COORD_LIMIT,
                r == cfg.spawn_radius,
                side == window_side(r as int),
                wlen == window_len(r as int),
                budget == cfg.spawn_budget,
                k <= wlen,
                created@.len() <= budget,
                dom0 == order0.to_set(),
                self.order@ == order0 + created@,
                spawn_from(dom0, cam, r as int, budget as int, 0) == created@ + spawn_from(
                    dom0,
                    cam,
                    r as int,
                    budget as int - created@.len(),
                    k as int,
                ),
                forall|j: int|
                    0 <= j < created@.len() ==> exists|m: int|
                        0 <= m < k && #[trigger] created@[j] == window_at(cam, r as int, m),
            decreases wlen - k,
        {
            let dx = k / side;
            let dy = k % side;
            proof {
                assert(0 <= (k as int) / (side as int) && (k as int) / (side as int) < side)
                    by (nonlinear_arith)
                    requires
                        0 < side,
                        0 <= k < side * side;
            }
            let c = ChunkCoord { x: cam.x - r + dx as i64, y: cam.y - r + dy as i64 };
            proof {
                assert(c == window_at(cam, r as int, k as int));
                lemma_window_cell(cam, r as int, cfg.retention_radius as int, k as int);
            }
            let key = pack(c);
            let present = self.chunks.contains_key(&key);
            proof {
                self.lemma_key_membership(c);
                lemma_concat_contains(order0, created@, c);
                if created@.contains(c) {
                    let j = choose|j: int| 0 <= j < created@.len() && created@[j] == c;
                    let m = choose|m: int|
                        0 <= m < k && #[trigger] created@[j] == window_at(cam, r as int, m);
                    lemma_window_injective(cam, r as int, m, k as int);
                }
                assert(present == dom0.contains(c));
            }
            if !present {
                let plan = self.cfg.builder.build(c);
                let ghost prev = *self;
                let chunk = Chunk { coord: c, plan };
                proof {
                    assert(chunk_matches(chunk, c, cfg));
                }
                self.chunks.insert(key, chunk);
                self.order.push(c);
                proof {
                    assert(!prev.order@.contains(c)) by {
                        lemma_concat_contains(order0, created@, c);
                    }
                    lemma_insert_wf(prev, *self, c, Chunk { coord: c, plan: chunk.plan });
                }
                created.push(c);
                proof {
                    assert(self.order@ =~= order0 + created@);
                    let b_left = budget as int - (created@.len() - 1);
                    assert(spawn_from(dom0, cam, r as int, b_left, k as int) == seq![c]
                        + spawn_from(dom0, cam, r as int, b_left - 1, k as int + 1));
                    assert(created@ =~= created@.drop_last().push(c));
                    assert(created@.drop_last() + spawn_from(dom0, cam, r as int, b_left, k as int)
                        =~= created@ + spawn_from(dom0, cam, r as int, b_left - 1, k as int + 1));
                    assert forall|j: int| 0 <= j < created@.len() implies exists|m: int|
                        0 <= m < k + 1 && #[trigger] created@[j] == window_at(cam, r as int, m) by {
                        if j < created@.len() - 1 {
                            assert(created@[j] == created@.drop_last()[j]);
                            let m = choose|m: int|
                                0 <= m < k && #[trigger] created@.drop_last()[j] == window_at(
                                    cam,
                                    r as int,
                                    m,
                                );
                            assert(created@[j] == window_at(cam, r as int, m));
                        } else {
                            assert(created@[j] == window_at(cam, r as int, k as int));
                        }
                    }
                }
            } else {
                proof {
                    assert(spawn_from(dom0, cam, r as int, budget as int - created@.len(), k as int)
                        == spawn_from(
                        dom0,
                        cam,
                        r as int,
                        budget as int - created@.len(),
                        k as int + 1,
                    ));
                }
            }
            k = k + 1;
        }
        proof {
            assert(spawn_from(dom0, cam, r as int, budget as int - created@.len(), k as int)
                == Seq::<ChunkCoord>::empty());
            assert(created@ + Seq::<ChunkCoord>::empty() =~= created@);
            assert(created@ == spawn_list(dom0, cam, cfg));
        }
        let retention = self.cfg.retention_radius;
        proof {
            assert(0 <= retention * retention <= 0x8_0000 * 0x8_0000) by (nonlinear_arith)
                requires
                    0 <= retention <= 0x8_0000;
        }
        let retention_sq = retention * retention;
        let ghost mid_order = self.order@;
        let ghost mid_map = self.chunks@;
        let n = self.order.len();
        let mut kept_vec: Vec<ChunkCoord> = Vec::new();
        let mut evicted: Vec<ChunkCoord> = Vec::new();
        let mut i: usize = 0;
        while i < n
            invariant
                self.cfg == cfg,
                cfg.valid(),
                retention == cfg.retention_radius,
                retention_sq == retention * retention,
                -CAMERA_COORD_LIMIT <= cam.x <= CAMERA_COORD_LIMIT,
                -CAMERA_COORD_LIMIT <= cam.y <= CAMERA_COORD_LIMIT,
                n == self.order.len(),
                self.order@ == mid_order,
                mid_order.no_duplicates(),
                forall|j: int| 0 <= j < mid_order.len() ==> (#[trigger] mid_order[j]).in_bounds(),
                i <= n,
                kept_vec@ == keep_near(mid_order.take(i as int), cam, retention as int),
                evicted@ == far_part(mid_order.take(i as int), cam, retention as int),
                forall|key: u64| #[trigger]
                    self.chunks@.dom().contains(key) ==> mid_map.dom().contains(key)
                        && self.chunks@[key] == mid_map[key],
                forall|j: int|
                    0 <= j < mid_order.len() ==> (self.chunks@.contains_key(
                        pack_spec(#[trigger] mid_order[j]),
                    ) <==> (i <= j || near(mid_order[j], cam, retention as int))),
                forall|j: int|
                    0 <= j < mid_order.len() ==> mid_map.contains_key(
                        pack_spec(#[trigger] mid_order[j]),
                    ),
                forall|j: int|
                    0 <= j < mid_order.len() ==> chunk_matches(
                        mid_map[pack_spec(#[trigger] mid_order[j])],
                        mid_order[j],
                        cfg,
                    ),
                forall|key: u64| #[trigger]
                    mid_map.dom().contains(key) ==> exists|j: int|
                        0 <= j < mid_order.len() && key == pack_spec(#[trigger] mid_order[j]),
            decreases n - i,
        {
            let c = self.order[i];
            let d = dist_sq(c, cam);
            proof {
                assert(mid_order.take(i as int + 1).drop_last() =~= mid_order.take(i as int));
                assert(mid_order.take(i as int + 1).last() == mid_order[i as int]);
            }
            if d < retention_sq {
                kept_vec.push(c);
            } else {
                let key = pack(c);
                self.chunks.remove(&key);
                evicted.push(c);
                proof {
                    assert forall|j: int|
                        0 <= j < mid_order.len() && j != i as int implies pack_spec(
                        mid_order[j],
                    ) != pack_spec(mid_order[i as int]) by {
                        lemma_pack_injective_contrapositive(mid_order[j], mid_order[i as int]);
                    }
                }
            }
            i = i + 1;
        }
        proof {
            assert(mid_order.take(n as int) =~= mid_order);
            lemma_evict_split(mid_order, cam, retention as int);
        }
        self.order = kept_vec;
        self.last_camera = Some(cam);
        let report = UpdateReport { created, evicted };
        proof {
            let ret_int = retention as int;
            assert(self.order@.no_duplicates());
            assert forall|idx: int| 0 <= idx < self.order@.len() implies {
                &&& (#[trigger] self.order@[idx]).in_bounds()
                &&& self.chunks@.contains_key(pack_spec(self.order@[idx]))
                &&& chunk_matches(self.chunks@[pack_spec(self.order@[idx])], self.order@[idx], cfg)
            } by {
                let e = self.order@[idx];
                assert(self.order@.contains(e));
                assert(mid_order.contains(e) && near(e, cam, ret_int));
                let j = choose|j: int| 0 <= j < mid_order.len() && mid_order[j] == e;
                assert(self.chunks@.contains_key(pack_spec(mid_order[j])));
            }
            assert forall|key: u64| #[trigger] self.chunks@.dom().contains(key) implies exists|
                idx: int,
            |
                0 <= idx < self.order@.len() && key == pack_spec(#[trigger] self.order@[idx]) by {
                assert(mid_map.dom().contains(key));
                let j = choose|j: int|
                    0 <= j < mid_order.len() && key == pack_spec(#[trigger] mid_order[j]);
                assert(self.chunks@.contains_key(pack_spec(mid_order[j])));
                assert(near(mid_order[j], cam, ret_int));
                assert(mid_order.contains(mid_order[j]));
                assert(keep_near(mid_order, cam, ret_int).contains(mid_order[j]));
                let idx = choose|idx: int|
                    0 <= idx < self.order@.len() && self.order@[idx] == mid_order[j];
                assert(key == pack_spec(self.order@[idx]));
            }
            assert(self.wf());
            assert forall|c: ChunkCoord| #[trigger]
                self.dom().contains(c) <==> ((old(self).dom().contains(c) || created@.contains(c))
                && near(c, cam, ret_int)) by {
                lemma_concat_contains(order0, created@, c);
                assert(self.dom().contains(c) <==> self.order@.contains(c));
                assert(self.order@.contains(c) <==> mid_order.contains(c) && near(c, cam, ret_int));
            }
            assert(self.live_order().len() <= mid_order.len()) by {
                lemma_evict_split(mid_order, cam, ret_int);
            }
        }
        report
    }
}

/// Recording one fresh, matching chunk preserves the grid invariant.
proof fn lemma_insert_wf(prev: ChunkGrid, nxt: ChunkGrid, c: ChunkCoord, chunk: Chunk)
    requires
        prev.wf(),
        c.in_bounds(),
        !prev.order@.contains(c),
        chunk_matches(chunk, c, prev.cfg),
        nxt.cfg == prev.cfg,
        nxt.order@ == prev.order@.push(c),
        nxt.chunks@ == prev.chunks@.insert(pack_spec(c), chunk),
    ensures
        nxt.wf(),
{
    lemma_push_no_dup(prev.order@, c);
    let m = prev.order@.len() as int;
    assert forall|i: int| 0 <= i < nxt.order@.len() implies {
        &&& (#[trigger] nxt.order@[i]).in_bounds()
        &&& nxt.chunks@.contains_key(pack_spec(nxt.order@[i]))
        &&& chunk_matches(nxt.chunks@[pack_spec(nxt.order@[i])], nxt.order@[i], nxt.cfg)
    } by {
        if i < m {
            let e = prev.order@[i];
            assert(prev.order@.contains(e));
            assert(e != c);
            lemma_pack_injective_contrapositive(e, c);
            assert(nxt.order@[i] == e);
        } else {
            assert(nxt.order@[i] == c);
        }
    }
    assert forall|key: u64| #[trigger] nxt.chunks@.dom().contains(key) implies exists|i: int|
        0 <= i < nxt.order@.len() && key == pack_spec(#[trigger] nxt.order@[i]) by {
        if key == pack_spec(c) {
            assert(nxt.order@[m] == c);
            assert(0 <= m < nxt.order@.len() && key == pack_spec(nxt.order@[m]));
        } else {
            assert(prev.chunks@.dom().contains(key));
            let j = choose|j: int|
                0 <= j < prev.order@.len() && key == pack_spec(#[trigger] prev.order@[j]);
            assert(nxt.order@[j] == prev.order@[j]);
            assert(0 <= j < nxt.order@.len() && key == pack_spec(nxt.order@[j]));
        }
    }
}

/// Streaming is idempotent at a fixed camera cell.  After a tick whose
/// spawn budget was not exhausted, the spawn window is saturated and
/// every live cell lies inside the retention ball; a second tick at the
/// same cell therefore creates nothing, evicts nothing, and leaves the
/// live cells exactly as the first tick left them.
pub proof fn lemma_update_idempotent(order0: Seq<ChunkCoord>, cam: ChunkCoord, cfg: GridConfig)
    requires
        cfg.valid(),
        -CAMERA_COORD_LIMIT <= cam.x <= CAMERA_COORD_LIMIT,
        -CAMERA_COORD_LIMIT <= cam.y <= CAMERA_COORD_LIMIT,
        spawn_list(order0.to_set(), cam, cfg).len() < cfg.spawn_budget,
    ensures
        ({
            let created = spawn_list(order0.to_set(), cam, cfg);
            let retention = cfg.retention_radius as int;
            let order1 = keep_near(order0 + created, cam, retention);
            let again = spawn_list(order1.to_set(), cam, cfg);
            &&& again == Seq::<ChunkCoord>::empty()
            &&& far_part(order1 + again, cam, retention) == Seq::<ChunkCoord>::empty()
            &&& keep_near(order1 + again, cam, retention) == order1
        }),
{
    let r = cfg.spawn_radius as int;
    let b = cfg.spawn_budget as int;
    let retention = cfg.retention_radius as int;
    let dom0 = order0.to_set();
    let created = spawn_list(dom0, cam, cfg);
    let full = order0 + created;
    let order1 = keep_near(full, cam, retention);
    lemma_spawn_props(dom0, cam, r, b, 0);
    lemma_evict_split(full, cam, retention);
    assert forall|m: int| 0 <= m < window_len(r) implies order1.to_set().contains(
        #[trigger] window_at(cam, r, m),
    ) by {
        let w = window_at(cam, r, m);
        lemma_window_cell(cam, r, retention, m);
        lemma_concat_contains(order0, created, w);
        assert(dom0.contains(w) || created.contains(w));
        assert(full.contains(w) && near(w, cam, retention));
        assert(order1.contains(w));
    }
    lemma_spawn_empty(order1.to_set(), cam, r, b, 0);
    let again = spawn_list(order1.to_set(), cam, cfg);
    assert(order1 + again =~= order1);
    assert forall|i: int| 0 <= i < order1.len() implies near(
        #[trigger] order1[i],
        cam,
        retention,
    ) by {
        assert(order1.contains(order1[i]));
    }
    lemma_keep_all_near(order1, cam, retention);
}

/// Cells in range that pack alike are alike; stated over distinctness.
proof fn lemma_pack_injective_contrapositive(a: ChunkCoord, b: ChunkCoord)
    requires
        a.in_bounds(),
        b.in_bounds(),
    ensures
        a != b ==> pack_spec(a) != pack_spec(b),
        pack_spec(a) == pack_spec(b) ==> a == b,
{
    if pack_spec(a) == pack_spec(b) {
        lemma_pack_injective(a, b);
    }
}

} // verus!
