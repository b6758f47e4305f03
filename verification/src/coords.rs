//! The integer chunk lattice.
//!
//! World space is continuous; the engine partitions it into unit cells of
//! side `chunk_size`.  A world position is carried in fixed-point form (a
//! whole number of subunits), so the cell that contains it is an exact
//! floor division, and every statement about which chunk a camera sits in
//! is a statement about integers.

use vstd::prelude::*;

verus! {

/// Greatest magnitude allowed for a camera's chunk coordinate.
pub const CAMERA_COORD_LIMIT: i64 = 0x10_0000;

/// Greatest magnitude allowed for any chunk coordinate held by a grid.
/// Camera coordinates plus a spawn-window offset always stay below it.
pub const COORD_LIMIT: i64 = 0x20_0000;

/// Half the range of one packed coordinate component.
pub const PACK_HALF: i64 = 0x40_0000;

/// The full range of one packed coordinate component.
pub const PACK_SPAN: u64 = 0x80_0000;

/// A continuous world position in fixed-point form: a whole number of
/// subunits along the two horizontal axes.  The vertical axis plays no
/// part in chunk selection.
#[derive(Clone, Copy, PartialEq, Eq, Structural, Debug)]
pub struct WorldPos {
    pub x: i64,
    pub z: i64,
}

/// A cell of the integer lattice that partitions world space: one chunk
/// occupies exactly one such cell.
#[derive(Clone, Copy, PartialEq, Eq, Structural, Debug)]
pub struct ChunkCoord {
    pub x: i64,
    pub y: i64,
}

impl ChunkCoord {
    /// Both components lie strictly inside the range the engine works in.
    pub open spec fn in_bounds(self) -> bool {
        -COORD_LIMIT <= self.x <= COORD_LIMIT && -COORD_LIMIT <= self.y <= COORD_LIMIT
    }
}

/// Floor of `x / d` over the integers, for a positive divisor.  In
/// specification arithmetic `/` is Euclidean division, which agrees with
/// the floor for `d > 0`.
pub fn floor_div(x: i64, d: i64) -> (q: i64)
    requires
        1 <= d,
    ensures
        q == (x as int) / (d as int),
{
    if x >= 0 {
        let q = ((x as u64) / (d as u64)) as i64;
        q
    } else {
        let nx: u64 = (-(x + 1)) as u64;
        let v: u64 = nx / (d as u64);
        let q = -(v as i64) - 1;
        proof {
            lemma_floor_div_negative(x as int, d as int);
        }
        q
    }
}

/// For a negative dividend, the floor quotient is obtained from the
/// non-negative division `(-x - 1) / d`.
proof fn lemma_floor_div_negative(x: int, d: int)
    requires
        x < 0,
        1 <= d,
    ensures
        x / d == -((-x - 1) / d) - 1,
{
    let q = x / d;
    let r = x % d;
    vstd::arithmetic::div_mod::lemma_fundamental_div_mod(x, d);
    vstd::arithmetic::div_mod::lemma_mod_bound(x, d);
    assert(-x - 1 == (-q - 1) * d + (d - r - 1)) by (nonlinear_arith)
        requires
            x == q * d + r;
    vstd::arithmetic::div_mod::lemma_fundamental_div_mod_converse(
        -x - 1,
        d,
        -q - 1,
        d - r - 1,
    );
}

/// The chunk coordinate whose cell contains the given world position:
/// the floor of the position divided by the cell side.
pub open spec fn chunk_of_world(pos: WorldPos, chunk_size: i64) -> ChunkCoord {
    ChunkCoord {
        x: ((pos.x as int) / (chunk_size as int)) as i64,
        y: ((pos.z as int) / (chunk_size as int)) as i64,
    }
}

/// Computes the chunk cell that contains `pos`.
pub fn camera_chunk(pos: WorldPos, chunk_size: i64) -> (c: ChunkCoord)
    requires
        1 <= chunk_size,
    ensures
        c == chunk_of_world(pos, chunk_size),
{
    ChunkCoord { x: floor_div(pos.x, chunk_size), y: floor_div(pos.z, chunk_size) }
}

/// Whether the chunk cell containing `pos` lies within the coordinate
/// range the engine accepts for a camera.
pub open spec fn world_in_range_spec(pos: WorldPos, chunk_size: i64) -> bool {
    let c = chunk_of_world(pos, chunk_size);
    -CAMERA_COORD_LIMIT <= c.x <= CAMERA_COORD_LIMIT && -CAMERA_COORD_LIMIT <= c.y
        <= CAMERA_COORD_LIMIT
}

/// Tests whether a world position is close enough to the origin for the
/// engine to track; a host checks this before asking for an update.
pub fn world_in_range(pos: WorldPos, chunk_size: i64) -> (ok: bool)
    requires
        1 <= chunk_size,
    ensures
        ok == world_in_range_spec(pos, chunk_size),
{
    let c = camera_chunk(pos, chunk_size);
    -CAMERA_COORD_LIMIT <= c.x && c.x <= CAMERA_COORD_LIMIT && -CAMERA_COORD_LIMIT <= c.y && c.y
        <= CAMERA_COORD_LIMIT
}

/// Squared distance between two lattice cells.
pub open spec fn dist_sq_spec(a: ChunkCoord, b: ChunkCoord) -> int {
    (a.x - b.x) * (a.x - b.x) + (a.y - b.y) * (a.y - b.y)
}

/// Computes the squared lattice distance between two in-range cells.
pub fn dist_sq(a: ChunkCoord, b: ChunkCoord) -> (d: i64)
    requires
        a.in_bounds(),
        b.in_bounds(),
    ensures
        d == dist_sq_spec(a, b),
{
    let dx = a.x - b.x;
    let dy = a.y - b.y;
    proof {
        assert(dx * dx + dy * dy < 0x8000_0000_0000_0000 && dx * dx >= 0 && dy * dy >= 0)
            by (nonlinear_arith)
            requires
                -0x80_0000 <= dx <= 0x80_0000,
                -0x80_0000 <= dy <= 0x80_0000;
    }
    dx * dx + dy * dy
}

/// The packed map key of a lattice cell: both components shifted into the
/// non-negative range and combined positionally.
pub open spec fn pack_spec(c: ChunkCoord) -> u64 {
    ((c.x + PACK_HALF) * PACK_SPAN + (c.y + PACK_HALF)) as u64
}

/// Packs an in-range cell into a single map key.
pub fn pack(c: ChunkCoord) -> (k: u64)
    requires
        c.in_bounds(),
    ensures
        k == pack_spec(c),
{
    ((c.x + PACK_HALF) as u64) * PACK_SPAN + ((c.y + PACK_HALF) as u64)
}

/// Packing is injective on in-range cells, so one map key names one cell.
pub proof fn lemma_pack_injective(a: ChunkCoord, b: ChunkCoord)
    requires
        a.in_bounds(),
        b.in_bounds(),
        pack_spec(a) == pack_spec(b),
    ensures
        a == b,
{
    let ax = a.x + PACK_HALF;
    let ay = a.y + PACK_HALF;
    let bx = b.x + PACK_HALF;
    let by = b.y + PACK_HALF;
    assert(ax == bx && ay == by) by (nonlinear_arith)
        requires
            0 <= ax < PACK_SPAN,
            0 <= ay < PACK_SPAN,
            0 <= bx < PACK_SPAN,
            0 <= by < PACK_SPAN,
            ax * PACK_SPAN + ay == bx * PACK_SPAN + by;
}

} // verus!
