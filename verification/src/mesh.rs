//! Mesh planning for one terrain chunk.
//!
//! A chunk spans one unit cell of the lattice.  Its surface is a grid of
//! `divisions_x` by `divisions_y` vertices; the vertex at grid index
//! `(xi, yi)` sits at the exact rational world coordinate
//! `(c.x + xi/(divisions_x-1), c.y + yi/(divisions_y-1))`, carried here as
//! an integer numerator over the shared denominator.  The plan records,
//! for every vertex, that coordinate (the point at which the noise field
//! is sampled for the height, and whose axis neighbours at numerator
//! offset one are sampled for the smoothed normal), and the triangle
//! index buffer: two triangles per interior cell with consistent winding.
//! Evaluating the plan into floating-point geometry is the host's work.

use vstd::prelude::*;

use crate::coords::ChunkCoord;

verus! {

/// Greatest grid resolution accepted along one axis; keeps every
/// numerator and every vertex index comfortably inside the machine types.
pub const DIVISIONS_LIMIT: usize = 0x8000;

/// One planned vertex: its grid indices and the exact rational world
/// coordinate it is sampled at.
#[derive(Clone, Copy, PartialEq, Eq, Structural, Debug)]
pub struct VertexPlan {
    /// Grid column; the vertex's row-major index is `xi * divisions_y + yi`.
    pub xi: u32,
    /// Grid row.
    pub yi: u32,
    /// Numerator of the world x coordinate, over `x_den`.
    pub x_num: i64,
    /// Numerator of the world y coordinate, over `y_den`.
    pub y_num: i64,
    /// Denominator along x: `divisions_x - 1`.
    pub x_den: u32,
    /// Denominator along y: `divisions_y - 1`.
    pub y_den: u32,
}

/// The planned mesh of one chunk: every vertex's sample coordinate, and
/// the triangle list over the vertex grid.
pub struct MeshPlan {
    /// Vertices in row-major order: all rows of one column, column by column.
    pub vertices: Vec<VertexPlan>,
    /// Triangle list: three vertex indices per triangle, two triangles per
    /// interior grid cell.
    pub indices: Vec<u32>,
}

/// Number of vertices a plan holds: the full grid, or none at all when
/// either resolution is too small to form a surface.
pub open spec fn vertex_count_spec(nx: int, ny: int) -> int {
    if nx < 2 || ny < 2 {
        0
    } else {
        nx * ny
    }
}

/// Number of index entries: three per triangle, two triangles per
/// interior cell.
pub open spec fn index_count_spec(nx: int, ny: int) -> int {
    if nx < 2 || ny < 2 {
        0
    } else {
        6 * ((nx - 1) * (ny - 1))
    }
}

/// The vertex that stands at row-major position `k` of the plan for
/// chunk `c` at grid resolution `nx` by `ny`.
pub open spec fn vertex_plan_at(c: ChunkCoord, nx: int, ny: int, k: int) -> VertexPlan {
    let xi = k / ny;
    let yi = k % ny;
    VertexPlan {
        xi: xi as u32,
        yi: yi as u32,
        x_num: (c.x * (nx - 1) + xi) as i64,
        y_num: (c.y * (ny - 1) + yi) as i64,
        x_den: (nx - 1) as u32,
        y_den: (ny - 1) as u32,
    }
}

/// The index-buffer entry at position `j`: entry `t` of the two triangles
/// of interior cell `q`, where `j == 6 * q + t`.  With `i` the row-major
/// index of the cell's corner vertex, the triangles are
/// `(i, i+ny, i+ny+1)` and `(i, i+ny+1, i+1)`.
pub open spec fn index_entry_spec(nx: int, ny: int, j: int) -> u32 {
    let q = j / 6;
    let t = j % 6;
    let xi = q / (ny - 1);
    let yi = q % (ny - 1);
    let i = xi * ny + yi;
    if t == 0 {
        i as u32
    } else if t == 1 {
        (i + ny) as u32
    } else if t == 2 {
        (i + ny + 1) as u32
    } else if t == 3 {
        i as u32
    } else if t == 4 {
        (i + ny + 1) as u32
    } else {
        (i + 1) as u32
    }
}

/// A plan is exactly the one prescribed for chunk `c` at resolution
/// `nx` by `ny`.
pub open spec fn plan_matches(plan: MeshPlan, c: ChunkCoord, nx: int, ny: int) -> bool {
    &&& plan.vertices@.len() == vertex_count_spec(nx, ny)
    &&& forall|k: int|
        0 <= k < plan.vertices@.len() ==> plan.vertices@[k] == vertex_plan_at(c, nx, ny, k)
    &&& plan.indices@.len() == index_count_spec(nx, ny)
    &&& forall|j: int|
        0 <= j < plan.indices@.len() ==> plan.indices@[j] == index_entry_spec(nx, ny, j)
}

/// Plans chunk meshes at a fixed grid resolution.
#[derive(Clone, Copy, PartialEq, Eq, Structural, Debug)]
pub struct MeshBuilder {
    /// Vertices along the x axis of each chunk.
    pub divisions_x: usize,
    /// Vertices along the y axis of each chunk.
    pub divisions_y: usize,
}

impl MeshBuilder {
    /// The builder's resolutions are within the accepted range.
    pub open spec fn valid(self) -> bool {
        self.divisions_x <= DIVISIONS_LIMIT && self.divisions_y <= DIVISIONS_LIMIT
    }

    /// Plans the mesh of the chunk at `c`: the full vertex grid with its
    /// exact sample coordinates, and two triangles per interior cell.  A
    /// resolution below two along either axis yields the valid empty
    /// plan rather than an error.
    pub fn build(&self, c: ChunkCoord) -> (plan: MeshPlan)
        requires
            self.valid(),
            c.in_bounds(),
        ensures
            plan_matches(plan, c, self.divisions_x as int, self.divisions_y as int),
    {
        let nx = self.divisions_x;
        let ny = self.divisions_y;
        if nx < 2 || ny < 2 {
            MeshPlan { vertices: Vec::new(), indices: Vec::new() }
        } else {
            let vertices = build_vertices(c, nx, ny);
            let indices = build_indices(nx, ny);
            MeshPlan { vertices, indices }
        }
    }
}

/// Builds the row-major vertex grid for chunk `c`.
fn build_vertices(c: ChunkCoord, nx: usize, ny: usize) -> (vertices: Vec<VertexPlan>)
    requires
        2 <= nx <= DIVISIONS_LIMIT,
        2 <= ny <= DIVISIONS_LIMIT,
        c.in_bounds(),
    ensures
        vertices@.len() == nx * ny,
        forall|k: int|
            0 <= k < vertices@.len() ==> vertices@[k] == vertex_plan_at(
                c,
                nx as int,
                ny as int,
                k,
            ),
{
    proof {
        assert(nx * ny <= 0x8000 * 0x8000) by (nonlinear_arith)
            requires
                nx <= 0x8000,
                ny <= 0x8000;
    }
    let total = nx * ny;
    let mut vertices: Vec<VertexPlan> = Vec::new();
    let mut k: usize = 0;
    while k < total
        invariant
            2 <= nx <= DIVISIONS_LIMIT,
            2 <= ny <= DIVISIONS_LIMIT,
            c.in_bounds(),
            total == nx * ny,
            k <= total,
            vertices@.len() == k,
            forall|m: int|
                0 <= m < k ==> vertices@[m] == vertex_plan_at(c, nx as int, ny as int, m),
        decreases total - k,
    {
        let xi = k / ny;
        let yi = k % ny;
        proof {
            assert((k as int) / (ny as int) < nx) by (nonlinear_arith)
                requires
                    2 <= ny,
                    0 <= k < nx * ny;
            assert(-0x20_0000 * 0x8000 <= c.x * (nx - 1) <= 0x20_0000 * 0x8000)
                by (nonlinear_arith)
                requires
                    -0x20_0000 <= c.x <= 0x20_0000,
                    1 <= nx - 1 < 0x8000;
            assert(-0x20_0000 * 0x8000 <= c.y * (ny - 1) <= 0x20_0000 * 0x8000)
                by (nonlinear_arith)
                requires
                    -0x20_0000 <= c.y <= 0x20_0000,
                    1 <= ny - 1 < 0x8000;
        }
        let x_num: i64 = c.x * ((nx - 1) as i64) + (xi as i64);
        let y_num: i64 = c.y * ((ny - 1) as i64) + (yi as i64);
        let v = VertexPlan {
            xi: xi as u32,
            yi: yi as u32,
            x_num,
            y_num,
            x_den: (nx - 1) as u32,
            y_den: (ny - 1) as u32,
        };
        vertices.push(v);
        k = k + 1;
    }
    vertices
}

/// Builds the triangle list over an `nx` by `ny` vertex grid.
fn build_indices(nx: usize, ny: usize) -> (indices: Vec<u32>)
    requires
        2 <= nx <= DIVISIONS_LIMIT,
        2 <= ny <= DIVISIONS_LIMIT,
    ensures
        indices@.len() == 6 * ((nx - 1) * (ny - 1)),
        forall|j: int|
            0 <= j < indices@.len() ==> indices@[j] == index_entry_spec(nx as int, ny as int, j),
{
    proof {
        assert((nx - 1) * (ny - 1) <= 0x8000 * 0x8000) by (nonlinear_arith)
            requires
                2 <= nx <= 0x8000,
                2 <= ny <= 0x8000;
    }
    let cells = (nx - 1) * (ny - 1);
    let mut indices: Vec<u32> = Vec::new();
    let mut q: usize = 0;
    while q < cells
        invariant
            2 <= nx <= DIVISIONS_LIMIT,
            2 <= ny <= DIVISIONS_LIMIT,
            cells == (nx - 1) * (ny - 1),
            q <= cells,
            indices@.len() == 6 * q,
            forall|j: int|
                0 <= j < indices@.len() ==> indices@[j] == index_entry_spec(
                    nx as int,
                    ny as int,
                    j,
                ),
        decreases cells - q,
    {
        let xi = q / (ny - 1);
        let yi = q % (ny - 1);
        proof {
            assert((q as int) / (ny - 1 as int) < nx - 1) by (nonlinear_arith)
                requires
                    2 <= ny,
                    0 <= q < (nx - 1) * (ny - 1);
            assert(((q as int) / (ny - 1 as int)) * ny + (q as int) % (ny - 1 as int) + ny + 1 < nx * ny)
                by (nonlinear_arith)
                requires
                    2 <= nx,
                    2 <= ny,
                    0 <= (q as int) / (ny - 1 as int) < nx - 1,
                    0 <= (q as int) % (ny - 1 as int) < ny - 1;
            assert(nx * ny <= 0x8000 * 0x8000) by (nonlinear_arith)
                requires
                    2 <= nx <= 0x8000,
                    2 <= ny <= 0x8000;
        }
        let i: u32 = (xi * ny + yi) as u32;
        let step: u32 = ny as u32;
        indices.push(i);
        indices.push(i + step);
        indices.push(i + step + 1);
        indices.push(i);
        indices.push(i + step + 1);
        indices.push(i + 1);
        proof {
            lemma_cell_entry(q as int, 0);
            lemma_cell_entry(q as int, 1);
            lemma_cell_entry(q as int, 2);
            lemma_cell_entry(q as int, 3);
            lemma_cell_entry(q as int, 4);
            lemma_cell_entry(q as int, 5);
        }
        q = q + 1;
    }
    indices
}

/// An index-buffer position `6 q + t` decomposes back into its cell `q`
/// and entry `t`.
proof fn lemma_cell_entry(q: int, t: int)
    requires
        0 <= q,
        0 <= t < 6,
    ensures
        (6 * q + t) / 6 == q,
        (6 * q + t) % 6 == t,
{
    vstd::arithmetic::div_mod::lemma_fundamental_div_mod_converse(6 * q + t, 6, q, t);
}

/// Boundary continuity along a vertical chunk edge: the vertex in the
/// last grid column of chunk `c` and the vertex in the first grid column
/// of the chunk one cell to the right, at the same grid row, carry the
/// identical exact sample coordinate.  Their heights and their smoothed
/// normals are therefore computed from identical inputs, and the two
/// chunks meet seamlessly.
pub proof fn lemma_edge_continuity_x(c: ChunkCoord, nx: int, ny: int, yi: int)
    requires
        c.in_bounds(),
        2 <= nx,
        2 <= ny,
        0 <= yi < ny,
    ensures
        ({
            let right = ChunkCoord { x: (c.x + 1) as i64, y: c.y };
            let a = vertex_plan_at(c, nx, ny, (nx - 1) * ny + yi);
            let b = vertex_plan_at(right, nx, ny, yi);
            a.x_num == b.x_num && a.y_num == b.y_num && a.x_den == b.x_den && a.y_den == b.y_den
        }),
{
    let k = (nx - 1) * ny + yi;
    vstd::arithmetic::div_mod::lemma_fundamental_div_mod_converse(k, ny, nx - 1, yi);
    vstd::arithmetic::div_mod::lemma_fundamental_div_mod_converse(yi, ny, 0, yi);
    assert(c.x * (nx - 1) + (nx - 1) == (c.x + 1) * (nx - 1)) by (nonlinear_arith);
}

/// Boundary continuity along a horizontal chunk edge: the vertex in the
/// last grid row of chunk `c` and the vertex in the first grid row of the
/// chunk one cell below, at the same grid column, carry the identical
/// exact sample coordinate.
pub proof fn lemma_edge_continuity_y(c: ChunkCoord, nx: int, ny: int, xi: int)
    requires
        c.in_bounds(),
        2 <= nx,
        2 <= ny,
        0 <= xi < nx,
    ensures
        ({
            let below = ChunkCoord { x: c.x, y: (c.y + 1) as i64 };
            let a = vertex_plan_at(c, nx, ny, xi * ny + (ny - 1));
            let b = vertex_plan_at(below, nx, ny, xi * ny);
            a.x_num == b.x_num && a.y_num == b.y_num && a.x_den == b.x_den && a.y_den == b.y_den
        }),
{
    vstd::arithmetic::div_mod::lemma_fundamental_div_mod_converse(
        xi * ny + (ny - 1),
        ny,
        xi,
        ny - 1,
    );
    vstd::arithmetic::div_mod::lemma_fundamental_div_mod_converse(xi * ny, ny, xi, 0);
    assert(c.y * (ny - 1) + (ny - 1) == (c.y + 1) * (ny - 1)) by (nonlinear_arith);
}

} // verus!
