//! Rasterizing a triangle mesh into a height field: each grid sample ends up
//! holding the maximum z of any triangle covering it, interpolated with
//! barycentric weights, or the unset sentinel where no triangle reaches.
//!
//! Containment tests and interpolation are exact integer arithmetic, so
//! samples on a shared edge or corner belong to both triangles and no
//! tolerance is needed. The output buffer is linearized as `ix * res_y + iy`.

use vstd::prelude::*;

verus! {

use crate::num::{
    MAX_COORD, UNSET_HEIGHT, rdiv, cell_at, coords_wf, round_div_i64, round_div_i128,
    lemma_rdiv_error, lemma_flat_index_split, floor_div_i64,
};

/// An input triangle mesh: a flat buffer of vertex coordinates in ticks,
/// with either explicit vertex-index triples or implicit consecutive
/// triples.
pub struct MeshRust {
    pub positions: Vec<i64>,
    pub indices: Option<Vec<u32>>,
}

/// The target grid: world-space x/y bounds in ticks, and sample counts per
/// axis (grid-line counts: one more than the interval count).
pub struct HeightmapGridRust {
    pub min_x: i64,
    pub max_x: i64,
    pub min_y: i64,
    pub max_y: i64,
    pub res_x: usize,
    pub res_y: usize,
}

/// The signed doubled area of the triangle, the denominator of its
/// barycentric coordinates.
pub open spec fn tri_det(ax: int, ay: int, bx: int, by: int, cx: int, cy: int) -> int {
    (by - cy) * (ax - cx) + (cx - bx) * (ay - cy)
}

/// Unnormalized barycentric weight of the first vertex at `(px, py)`.
pub open spec fn bary_w1(
    ax: int,
    ay: int,
    bx: int,
    by: int,
    cx: int,
    cy: int,
    px: int,
    py: int,
) -> int {
    (by - cy) * (px - cx) + (cx - bx) * (py - cy)
}

/// Unnormalized barycentric weight of the second vertex at `(px, py)`.
pub open spec fn bary_w2(
    ax: int,
    ay: int,
    bx: int,
    by: int,
    cx: int,
    cy: int,
    px: int,
    py: int,
) -> int {
    (cy - ay) * (px - cx) + (ax - cx) * (py - cy)
}

/// Unnormalized barycentric weight of the third vertex: the remainder, so
/// the three always sum to the determinant.
pub open spec fn bary_w3(
    ax: int,
    ay: int,
    bx: int,
    by: int,
    cx: int,
    cy: int,
    px: int,
    py: int,
) -> int {
    tri_det(ax, ay, bx, by, cx, cy) - bary_w1(ax, ay, bx, by, cx, cy, px, py) - bary_w2(
        ax,
        ay,
        bx,
        by,
        cx,
        cy,
        px,
        py,
    )
}

/// Whether a weight lies on the triangle's side of its opposite edge.
pub open spec fn same_side(w: int, det: int) -> bool {
    if det > 0 {
        w >= 0
    } else {
        w <= 0
    }
}

/// Planar containment: the sample lies in the closed triangle, edges and
/// corners included; a degenerate (zero-area) triangle contains nothing.
pub open spec fn covers(
    ax: int,
    ay: int,
    bx: int,
    by: int,
    cx: int,
    cy: int,
    px: int,
    py: int,
) -> bool {
    let det = tri_det(ax, ay, bx, by, cx, cy);
    &&& det != 0
    &&& same_side(bary_w1(ax, ay, bx, by, cx, cy, px, py), det)
    &&& same_side(bary_w2(ax, ay, bx, by, cx, cy, px, py), det)
    &&& same_side(bary_w3(ax, ay, bx, by, cx, cy, px, py), det)
}

/// The triangle's z at a contained sample: the barycentric combination of
/// the three vertex heights, rounded to the nearest tick.
pub open spec fn interp_z(
    ax: int,
    ay: int,
    az: int,
    bx: int,
    by: int,
    bz: int,
    cx: int,
    cy: int,
    cz: int,
    px: int,
    py: int,
) -> int {
    let det = tri_det(ax, ay, bx, by, cx, cy);
    let num = bary_w1(ax, ay, bx, by, cx, cy, px, py) * az + bary_w2(
        ax,
        ay,
        bx,
        by,
        cx,
        cy,
        px,
        py,
    ) * bz + bary_w3(ax, ay, bx, by, cx, cy, px, py) * cz;
    if det > 0 {
        rdiv(num, det)
    } else {
        rdiv(-num, -det)
    }
}

/// A contained sample's interpolated z stays within any bound all three
/// vertex heights satisfy; in particular a constant-z triangle interpolates
/// exactly.
pub proof fn lemma_interp_z_bounds(
    ax: int,
    ay: int,
    az: int,
    bx: int,
    by: int,
    bz: int,
    cx: int,
    cy: int,
    cz: int,
    px: int,
    py: int,
    zlo: int,
    zhi: int,
)
    requires
        covers(ax, ay, bx, by, cx, cy, px, py),
        zlo <= az <= zhi,
        zlo <= bz <= zhi,
        zlo <= cz <= zhi,
    ensures
        zlo <= interp_z(ax, ay, az, bx, by, bz, cx, cy, cz, px, py) <= zhi,
{
    let det = tri_det(ax, ay, bx, by, cx, cy);
    let w1 = bary_w1(ax, ay, bx, by, cx, cy, px, py);
    let w2 = bary_w2(ax, ay, bx, by, cx, cy, px, py);
    let w3 = bary_w3(ax, ay, bx, by, cx, cy, px, py);
    let num = w1 * az + w2 * bz + w3 * cz;
    if det > 0 {
        assert(det * zlo <= num <= det * zhi) by (nonlinear_arith)
            requires
                0 <= w1,
                0 <= w2,
                0 <= w3,
                w1 + w2 + w3 == det,
                zlo <= az <= zhi,
                zlo <= bz <= zhi,
                zlo <= cz <= zhi,
                num == w1 * az + w2 * bz + w3 * cz,
        ;
        crate::num::lemma_rdiv_exact_multiple(zlo, det);
        crate::num::lemma_rdiv_exact_multiple(zhi, det);
        crate::num::lemma_rdiv_monotone(det * zlo, num, det);
        crate::num::lemma_rdiv_monotone(num, det * zhi, det);
    } else {
        assert((-det) * zlo <= -num <= (-det) * zhi) by (nonlinear_arith)
            requires
                w1 <= 0,
                w2 <= 0,
                w3 <= 0,
                w1 + w2 + w3 == det,
                det < 0,
                zlo <= az <= zhi,
                zlo <= bz <= zhi,
                zlo <= cz <= zhi,
                num == w1 * az + w2 * bz + w3 * cz,
        ;
        crate::num::lemma_rdiv_exact_multiple(zlo, -det);
        crate::num::lemma_rdiv_exact_multiple(zhi, -det);
        crate::num::lemma_rdiv_monotone((-det) * zlo, -num, -det);
        crate::num::lemma_rdiv_monotone(-num, (-det) * zhi, -det);
    }
}

/// Number of triangles a mesh holds: indexed triples when an index buffer
/// is present, else consecutive position triples.
pub open spec fn mesh_tri_count(m: MeshRust) -> int {
    match m.indices {
        Some(ind) => ind@.len() as int / 3,
        None => m.positions@.len() as int / 9,
    }
}

/// The flat vertex number of corner `j` of triangle `t`.
pub open spec fn mesh_vertex(m: MeshRust, t: int, j: int) -> int {
    match m.indices {
        Some(ind) => ind@[3 * t + j] as int,
        None => 3 * t + j,
    }
}

pub open spec fn vert_x(m: MeshRust, v: int) -> int {
    m.positions@[3 * v] as int
}

pub open spec fn vert_y(m: MeshRust, v: int) -> int {
    m.positions@[3 * v + 1] as int
}

pub open spec fn vert_z(m: MeshRust, v: int) -> int {
    m.positions@[3 * v + 2] as int
}

/// Mesh validity: bounded coordinates, and every used vertex index within
/// the position buffer.
pub open spec fn mesh_wf(m: MeshRust) -> bool {
    &&& coords_wf(m.positions@)
    &&& match m.indices {
        Some(ind) => forall|i: int|
            0 <= i < 3 * (ind@.len() as int / 3) ==> (#[trigger] ind@[i]) < m.positions@.len()
                as int / 3,
        None => true,
    }
}

/// Grid validity: at least two samples per axis, bounded extents, and a
/// span wide enough that each cell spacing is at least one tick.
pub open spec fn grid_wf(g: HeightmapGridRust) -> bool {
    &&& 2 <= g.res_x
    &&& 2 <= g.res_y
    &&& g.res_x * g.res_y <= usize::MAX
    &&& -MAX_COORD <= g.min_x <= MAX_COORD
    &&& -MAX_COORD <= g.min_y <= MAX_COORD
    &&& g.res_x - 1 <= g.max_x - g.min_x <= MAX_COORD
    &&& g.res_y - 1 <= g.max_y - g.min_y <= MAX_COORD
}

/// The grid's cell spacing along x: the span divided by the interval count,
/// rounded to the nearest tick.
pub open spec fn grid_step_x(g: HeightmapGridRust) -> int {
    rdiv(g.max_x - g.min_x, g.res_x - 1)
}

pub open spec fn grid_step_y(g: HeightmapGridRust) -> int {
    rdiv(g.max_y - g.min_y, g.res_y - 1)
}

/// World x of grid column `ix`.
pub open spec fn grid_sample_x(g: HeightmapGridRust, ix: int) -> int {
    g.min_x + ix * grid_step_x(g)
}

/// World y of grid row `iy`.
pub open spec fn grid_sample_y(g: HeightmapGridRust, iy: int) -> int {
    g.min_y + iy * grid_step_y(g)
}

/// Whether triangle `t` of the mesh covers the planar point `(px, py)`.
pub open spec fn tri_covers(m: MeshRust, t: int, px: int, py: int) -> bool {
    covers(
        vert_x(m, mesh_vertex(m, t, 0)),
        vert_y(m, mesh_vertex(m, t, 0)),
        vert_x(m, mesh_vertex(m, t, 1)),
        vert_y(m, mesh_vertex(m, t, 1)),
        vert_x(m, mesh_vertex(m, t, 2)),
        vert_y(m, mesh_vertex(m, t, 2)),
        px,
        py,
    )
}

/// Triangle `t`'s interpolated z at `(px, py)`.
pub open spec fn tri_interp(m: MeshRust, t: int, px: int, py: int) -> int {
    interp_z(
        vert_x(m, mesh_vertex(m, t, 0)),
        vert_y(m, mesh_vertex(m, t, 0)),
        vert_z(m, mesh_vertex(m, t, 0)),
        vert_x(m, mesh_vertex(m, t, 1)),
        vert_y(m, mesh_vertex(m, t, 1)),
        vert_z(m, mesh_vertex(m, t, 1)),
        vert_x(m, mesh_vertex(m, t, 2)),
        vert_y(m, mesh_vertex(m, t, 2)),
        vert_z(m, mesh_vertex(m, t, 2)),
        px,
        py,
    )
}

/// The height of cell `(ix, iy)` after the first `t` triangles: the maximum
/// interpolated z over those that cover its sample, the unset sentinel
/// where none does.
pub open spec fn raster_cell(
    m: MeshRust,
    g: HeightmapGridRust,
    t: nat,
    ix: int,
    iy: int,
) -> int
    decreases t,
{
    if t == 0 {
        UNSET_HEIGHT as int
    } else {
        let prev = raster_cell(m, g, (t - 1) as nat, ix, iy);
        let px = grid_sample_x(g, ix);
        let py = grid_sample_y(g, iy);
        if tri_covers(m, t - 1, px, py) && tri_interp(m, t - 1, px, py) > prev {
            tri_interp(m, t - 1, px, py)
        } else {
            prev
        }
    }
}

/// The rasterized (pre-backfill) value of a cell.
pub open spec fn raster_base(m: MeshRust, g: HeightmapGridRust, ix: int, iy: int) -> int {
    raster_cell(m, g, mesh_tri_count(m) as nat, ix, iy)
}

/// Whether every covered cell rasterizes to the one height `v`, with at
/// least one covered cell.
pub open spec fn raster_is_uniform(m: MeshRust, g: HeightmapGridRust, v: int) -> bool {
    &&& exists|ix: int, iy: int|
        0 <= ix < g.res_x && 0 <= iy < g.res_y && #[trigger] raster_base(m, g, ix, iy) == v && v
            != UNSET_HEIGHT
    &&& forall|ix: int, iy: int|
        0 <= ix < g.res_x && 0 <= iy < g.res_y && #[trigger] raster_base(m, g, ix, iy)
            != UNSET_HEIGHT ==> raster_base(m, g, ix, iy) == v
}

/// The single height shared by every covered cell, when there is one.
pub open spec fn raster_uniform(m: MeshRust, g: HeightmapGridRust) -> Option<int> {
    if exists|v: int| raster_is_uniform(m, g, v) {
        Some(choose|v: int| raster_is_uniform(m, g, v))
    } else {
        None
    }
}

/// What the rasterizer hands back for a cell: its rasterized height, except
/// that when every covered cell holds one same height, uncovered cells are
/// backfilled with it.
pub open spec fn raster_final(m: MeshRust, g: HeightmapGridRust, ix: int, iy: int) -> int {
    let base = raster_base(m, g, ix, iy);
    if base != UNSET_HEIGHT {
        base
    } else {
        match raster_uniform(m, g) {
            Some(v) => v,
            None => UNSET_HEIGHT as int,
        }
    }
}

/// Planar containment of a sample in a triangle, all coordinates in ticks;
/// exact, so edges and corners are included.
pub fn point_in_triangle_2d(x: i64, y: i64, a: [i64; 3], b: [i64; 3], c: [i64; 3]) -> (inside:
    bool)
    requires
        -0x400_0000_0000 <= x <= 0x400_0000_0000,
        -0x400_0000_0000 <= y <= 0x400_0000_0000,
        forall|j: int| 0 <= j < 3 ==> -MAX_COORD <= #[trigger] a@[j] <= MAX_COORD,
        forall|j: int| 0 <= j < 3 ==> -MAX_COORD <= #[trigger] b@[j] <= MAX_COORD,
        forall|j: int| 0 <= j < 3 ==> -MAX_COORD <= #[trigger] c@[j] <= MAX_COORD,
    ensures
        inside == covers(
            a@[0] as int,
            a@[1] as int,
            b@[0] as int,
            b@[1] as int,
            c@[0] as int,
            c@[1] as int,
            x as int,
            y as int,
        ),
{
    let ax = a[0] as i128;
    let ay = a[1] as i128;
    let bx = b[0] as i128;
    let by = b[1] as i128;
    let cx = c[0] as i128;
    let cy = c[1] as i128;
    let px = x as i128;
    let py = y as i128;
    proof {
        assert(-0x10_0000_0000_0000_0000_0000 <= (by - cy) * (ax - cx)
            <= 0x10_0000_0000_0000_0000_0000) by (nonlinear_arith)
            requires
                -0x200_0000_0000 <= by - cy <= 0x200_0000_0000,
                -0x200_0000_0000 <= ax - cx <= 0x200_0000_0000,
        ;
        assert(-0x10_0000_0000_0000_0000_0000 <= (cx - bx) * (ay - cy)
            <= 0x10_0000_0000_0000_0000_0000) by (nonlinear_arith)
            requires
                -0x200_0000_0000 <= cx - bx <= 0x200_0000_0000,
                -0x200_0000_0000 <= ay - cy <= 0x200_0000_0000,
        ;
        assert(-0x10_0000_0000_0000_0000_0000 <= (by - cy) * (px - cx)
            <= 0x10_0000_0000_0000_0000_0000) by (nonlinear_arith)
            requires
                -0x200_0000_0000 <= by - cy <= 0x200_0000_0000,
                -0x500_0000_0000 <= px - cx <= 0x500_0000_0000,
        ;
        assert(-0x10_0000_0000_0000_0000_0000 <= (cx - bx) * (py - cy)
            <= 0x10_0000_0000_0000_0000_0000) by (nonlinear_arith)
            requires
                -0x200_0000_0000 <= cx - bx <= 0x200_0000_0000,
                -0x500_0000_0000 <= py - cy <= 0x500_0000_0000,
        ;
        assert(-0x10_0000_0000_0000_0000_0000 <= (cy - ay) * (px - cx)
            <= 0x10_0000_0000_0000_0000_0000) by (nonlinear_arith)
            requires
                -0x200_0000_0000 <= cy - ay <= 0x200_0000_0000,
                -0x500_0000_0000 <= px - cx <= 0x500_0000_0000,
        ;
        assert(-0x10_0000_0000_0000_0000_0000 <= (ax - cx) * (py - cy)
            <= 0x10_0000_0000_0000_0000_0000) by (nonlinear_arith)
            requires
                -0x200_0000_0000 <= ax - cx <= 0x200_0000_0000,
                -0x500_0000_0000 <= py - cy <= 0x500_0000_0000,
        ;
    }
    let det = (by - cy) * (ax - cx) + (cx - bx) * (ay - cy);
    let w1 = (by - cy) * (px - cx) + (cx - bx) * (py - cy);
    let w2 = (cy - ay) * (px - cx) + (ax - cx) * (py - cy);
    let w3 = det - w1 - w2;
    if det == 0 {
        false
    } else if det > 0 {
        w1 >= 0 && w2 >= 0 && w3 >= 0
    } else {
        w1 <= 0 && w2 <= 0 && w3 <= 0
    }
}

/// The triangle's z at a contained sample, by barycentric interpolation
/// rounded to the nearest tick; a constant-height triangle interpolates
/// exactly.
pub fn interpolate_z(x: i64, y: i64, a: [i64; 3], b: [i64; 3], c: [i64; 3]) -> (z: i64)
    requires
        -0x400_0000_0000 <= x <= 0x400_0000_0000,
        -0x400_0000_0000 <= y <= 0x400_0000_0000,
        forall|j: int| 0 <= j < 3 ==> -MAX_COORD <= #[trigger] a@[j] <= MAX_COORD,
        forall|j: int| 0 <= j < 3 ==> -MAX_COORD <= #[trigger] b@[j] <= MAX_COORD,
        forall|j: int| 0 <= j < 3 ==> -MAX_COORD <= #[trigger] c@[j] <= MAX_COORD,
        covers(
            a@[0] as int,
            a@[1] as int,
            b@[0] as int,
            b@[1] as int,
            c@[0] as int,
            c@[1] as int,
            x as int,
            y as int,
        ),
    ensures
        z as int == interp_z(
            a@[0] as int,
            a@[1] as int,
            a@[2] as int,
            b@[0] as int,
            b@[1] as int,
            b@[2] as int,
            c@[0] as int,
            c@[1] as int,
            c@[2] as int,
            x as int,
            y as int,
        ),
        -MAX_COORD <= z <= MAX_COORD,
{
    proof {
        lemma_interp_z_bounds(
            a@[0] as int,
            a@[1] as int,
            a@[2] as int,
            b@[0] as int,
            b@[1] as int,
            b@[2] as int,
            c@[0] as int,
            c@[1] as int,
            c@[2] as int,
            x as int,
            y as int,
            -MAX_COORD as int,
            MAX_COORD as int,
        );
    }
    let ax = a[0] as i128;
    let ay = a[1] as i128;
    let az = a[2] as i128;
    let bx = b[0] as i128;
    let by = b[1] as i128;
    let bz = b[2] as i128;
    let cx = c[0] as i128;
    let cy = c[1] as i128;
    let cz = c[2] as i128;
    let px = x as i128;
    let py = y as i128;
    proof {
        assert(-0x10_0000_0000_0000_0000_0000 <= (by - cy) * (ax - cx)
            <= 0x10_0000_0000_0000_0000_0000) by (nonlinear_arith)
            requires
                -0x200_0000_0000 <= by - cy <= 0x200_0000_0000,
                -0x200_0000_0000 <= ax - cx <= 0x200_0000_0000,
        ;
        assert(-0x10_0000_0000_0000_0000_0000 <= (cx - bx) * (ay - cy)
            <= 0x10_0000_0000_0000_0000_0000) by (nonlinear_arith)
            requires
                -0x200_0000_0000 <= cx - bx <= 0x200_0000_0000,
                -0x200_0000_0000 <= ay - cy <= 0x200_0000_0000,
        ;
        assert(-0x10_0000_0000_0000_0000_0000 <= (by - cy) * (px - cx)
            <= 0x10_0000_0000_0000_0000_0000) by (nonlinear_arith)
            requires
                -0x200_0000_0000 <= by - cy <= 0x200_0000_0000,
                -0x500_0000_0000 <= px - cx <= 0x500_0000_0000,
        ;
        assert(-0x10_0000_0000_0000_0000_0000 <= (cx - bx) * (py - cy)
            <= 0x10_0000_0000_0000_0000_0000) by (nonlinear_arith)
            requires
                -0x200_0000_0000 <= cx - bx <= 0x200_0000_0000,
                -0x500_0000_0000 <= py - cy <= 0x500_0000_0000,
        ;
        assert(-0x10_0000_0000_0000_0000_0000 <= (cy - ay) * (px - cx)
            <= 0x10_0000_0000_0000_0000_0000) by (nonlinear_arith)
            requires
                -0x200_0000_0000 <= cy - ay <= 0x200_0000_0000,
                -0x500_0000_0000 <= px - cx <= 0x500_0000_0000,
        ;
        assert(-0x10_0000_0000_0000_0000_0000 <= (ax - cx) * (py - cy)
            <= 0x10_0000_0000_0000_0000_0000) by (nonlinear_arith)
            requires
                -0x200_0000_0000 <= ax - cx <= 0x200_0000_0000,
                -0x500_0000_0000 <= py - cy <= 0x500_0000_0000,
        ;
    }
    let det = (by - cy) * (ax - cx) + (cx - bx) * (ay - cy);
    let w1 = (by - cy) * (px - cx) + (cx - bx) * (py - cy);
    let w2 = (cy - ay) * (px - cx) + (ax - cx) * (py - cy);
    let w3 = det - w1 - w2;
    let ghost adet: int = if det > 0 { det as int } else { -(det as int) };
    proof {
        assert(w1 * az + w2 * bz + w3 * cz <= adet * MAX_COORD && -(adet * MAX_COORD) <= w1 * az
            + w2 * bz + w3 * cz) by (nonlinear_arith)
            requires
                adet == (if det > 0 { det as int } else { -(det as int) }),
                w1 + w2 + w3 == det,
                det != 0,
                (det > 0 ==> w1 >= 0 && w2 >= 0 && w3 >= 0),
                (det < 0 ==> w1 <= 0 && w2 <= 0 && w3 <= 0),
                -MAX_COORD <= az <= MAX_COORD,
                -MAX_COORD <= bz <= MAX_COORD,
                -MAX_COORD <= cz <= MAX_COORD,
        ;
    }
    proof {
        assert(-0x2000_0000_0000_0000_0000_0000_0000_0000 <= w1 * az <= 0x2000_0000_0000_0000_0000_0000_0000_0000)
            by (nonlinear_arith)
            requires
                -0x20_0000_0000_0000_0000_0000 <= w1 <= 0x20_0000_0000_0000_0000_0000,
                -0x100_0000_0000 <= az <= 0x100_0000_0000,
        ;
        assert(-0x2000_0000_0000_0000_0000_0000_0000_0000 <= w2 * bz <= 0x2000_0000_0000_0000_0000_0000_0000_0000)
            by (nonlinear_arith)
            requires
                -0x20_0000_0000_0000_0000_0000 <= w2 <= 0x20_0000_0000_0000_0000_0000,
                -0x100_0000_0000 <= bz <= 0x100_0000_0000,
        ;
        assert(-0x6000_0000_0000_0000_0000_0000_0000_0000 <= w3 * cz <= 0x6000_0000_0000_0000_0000_0000_0000_0000)
            by (nonlinear_arith)
            requires
                -0x60_0000_0000_0000_0000_0000 <= w3 <= 0x60_0000_0000_0000_0000_0000,
                -0x100_0000_0000 <= cz <= 0x100_0000_0000,
        ;
        assert(adet * MAX_COORD <= 0x20_0000_0000_0000_0000_0000int * 0x100_0000_0000int)
            by (nonlinear_arith)
            requires
                0 <= adet <= 0x20_0000_0000_0000_0000_0000,
        ;
    }
    let num = w1 * az + w2 * bz + w3 * cz;
    if det > 0 {
        round_div_i128(num, det) as i64
    } else {
        round_div_i128(-num, -det) as i64
    }
}

/// Distributing a pair of barycentric weights over a pair of coordinate
/// differences.
proof fn lemma_pair_combination(
    e1: int,
    f1: int,
    e2: int,
    f2: int,
    u: int,
    v: int,
    va: int,
    vb: int,
    pp: int,
    qq: int,
    w1: int,
    w2: int,
)
    requires
        w1 == e1 * u + f1 * v,
        w2 == e2 * u + f2 * v,
        e1 * va + e2 * vb == pp,
        f1 * va + f2 * vb == qq,
    ensures
        w1 * va + w2 * vb == pp * u + qq * v,
{
    assert(w1 * va == e1 * (u * va) + f1 * (v * va)) by (nonlinear_arith)
        requires
            w1 == e1 * u + f1 * v,
    ;
    assert(w2 * vb == e2 * (u * vb) + f2 * (v * vb)) by (nonlinear_arith)
        requires
            w2 == e2 * u + f2 * v,
    ;
    assert(e1 * (u * va) + e2 * (u * vb) == (e1 * va + e2 * vb) * u) by (nonlinear_arith);
    assert(f1 * (v * va) + f2 * (v * vb) == (f1 * va + f2 * vb) * v) by (nonlinear_arith);
}

/// A contained point lies within the triangle's axis-aligned bounding box.
pub proof fn lemma_covers_in_bbox(
    ax: int,
    ay: int,
    bx: int,
    by: int,
    cx: int,
    cy: int,
    px: int,
    py: int,
)
    requires
        covers(ax, ay, bx, by, cx, cy, px, py),
    ensures
        px >= ax || px >= bx || px >= cx,
        px <= ax || px <= bx || px <= cx,
        py >= ay || py >= by || py >= cy,
        py <= ay || py <= by || py <= cy,
{
    let det = tri_det(ax, ay, bx, by, cx, cy);
    let w1 = bary_w1(ax, ay, bx, by, cx, cy, px, py);
    let w2 = bary_w2(ax, ay, bx, by, cx, cy, px, py);
    let w3 = bary_w3(ax, ay, bx, by, cx, cy, px, py);
    let e1 = by - cy;
    let f1 = cx - bx;
    let e2 = cy - ay;
    let f2 = ax - cx;
    let u = px - cx;
    let v = py - cy;
    assert(e1 * (ax - cx) + e2 * (bx - cx) == det) by (nonlinear_arith)
        requires
            e1 == by - cy,
            e2 == cy - ay,
            det == (by - cy) * (ax - cx) + (cx - bx) * (ay - cy),
    ;
    assert(f1 * (ax - cx) + f2 * (bx - cx) == 0) by (nonlinear_arith)
        requires
            f1 == cx - bx,
            f2 == ax - cx,
    ;
    lemma_pair_combination(e1, f1, e2, f2, u, v, ax - cx, bx - cx, det, 0, w1, w2);
    assert(w1 * (ax - cx) + w2 * (bx - cx) == det * u);
    assert(e1 * (ay - cy) + e2 * (by - cy) == 0) by (nonlinear_arith)
        requires
            e1 == by - cy,
            e2 == cy - ay,
    ;
    assert(f1 * (ay - cy) + f2 * (by - cy) == det) by (nonlinear_arith)
        requires
            f1 == cx - bx,
            f2 == ax - cx,
            det == (by - cy) * (ax - cx) + (cx - bx) * (ay - cy),
    ;
    lemma_pair_combination(e1, f1, e2, f2, u, v, ay - cy, by - cy, 0, det, w1, w2);
    assert(w1 * (ay - cy) + w2 * (by - cy) == det * v);
    // fold the third weight back in: the weighted vertices average to the
    // sample, scaled by the determinant
    assert(w1 * ax + w2 * bx + w3 * cx == det * px) by (nonlinear_arith)
        requires
            w1 * (ax - cx) + w2 * (bx - cx) == det * (px - cx),
            w3 == det - w1 - w2,
    ;
    assert(w1 * ay + w2 * by + w3 * cy == det * py) by (nonlinear_arith)
        requires
            w1 * (ay - cy) + w2 * (by - cy) == det * (py - cy),
            w3 == det - w1 - w2,
    ;
    if det > 0 {
        assert(px >= ax || px >= bx || px >= cx) by (nonlinear_arith)
            requires
                w1 >= 0,
                w2 >= 0,
                w3 >= 0,
                w1 + w2 + w3 == det,
                det > 0,
                w1 * ax + w2 * bx + w3 * cx == det * px,
        ;
        assert(px <= ax || px <= bx || px <= cx) by (nonlinear_arith)
            requires
                w1 >= 0,
                w2 >= 0,
                w3 >= 0,
                w1 + w2 + w3 == det,
                det > 0,
                w1 * ax + w2 * bx + w3 * cx == det * px,
        ;
        assert(py >= ay || py >= by || py >= cy) by (nonlinear_arith)
            requires
                w1 >= 0,
                w2 >= 0,
                w3 >= 0,
                w1 + w2 + w3 == det,
                det > 0,
                w1 * ay + w2 * by + w3 * cy == det * py,
        ;
        assert(py <= ay || py <= by || py <= cy) by (nonlinear_arith)
            requires
                w1 >= 0,
                w2 >= 0,
                w3 >= 0,
                w1 + w2 + w3 == det,
                det > 0,
                w1 * ay + w2 * by + w3 * cy == det * py,
        ;
    } else {
        assert(px >= ax || px >= bx || px >= cx) by (nonlinear_arith)
            requires
                w1 <= 0,
                w2 <= 0,
                w3 <= 0,
                w1 + w2 + w3 == det,
                det < 0,
                w1 * ax + w2 * bx + w3 * cx == det * px,
        ;
        assert(px <= ax || px <= bx || px <= cx) by (nonlinear_arith)
            requires
                w1 <= 0,
                w2 <= 0,
                w3 <= 0,
                w1 + w2 + w3 == det,
                det < 0,
                w1 * ax + w2 * bx + w3 * cx == det * px,
        ;
        assert(py >= ay || py >= by || py >= cy) by (nonlinear_arith)
            requires
                w1 <= 0,
                w2 <= 0,
                w3 <= 0,
                w1 + w2 + w3 == det,
                det < 0,
                w1 * ay + w2 * by + w3 * cy == det * py,
        ;
        assert(py <= ay || py <= by || py <= cy) by (nonlinear_arith)
            requires
                w1 <= 0,
                w2 <= 0,
                w3 <= 0,
                w1 + w2 + w3 == det,
                det < 0,
                w1 * ay + w2 * by + w3 * cy == det * py,
        ;
    }
}

/// The grid's cell spacings are positive and all its samples stay within
/// bounded world coordinates.
pub proof fn lemma_grid_geometry(g: HeightmapGridRust)
    requires
        grid_wf(g),
    ensures
        1 <= grid_step_x(g) <= MAX_COORD,
        1 <= grid_step_y(g) <= MAX_COORD,
        forall|ix: int|
            0 <= ix < g.res_x ==> -0x400_0000_0000 <= #[trigger] grid_sample_x(g, ix)
                <= 0x400_0000_0000,
        forall|iy: int|
            0 <= iy < g.res_y ==> -0x400_0000_0000 <= #[trigger] grid_sample_y(g, iy)
                <= 0x400_0000_0000,
{
    let sx = grid_step_x(g);
    let bx = g.res_x - 1;
    let spanx = g.max_x - g.min_x;
    crate::num::lemma_rdiv_le(spanx, bx);
    assert(1 <= sx) by {
        vstd::arithmetic::div_mod::lemma_div_is_ordered(bx, spanx + bx / 2, bx);
        vstd::arithmetic::div_mod::lemma_div_by_self(bx);
    }
    lemma_rdiv_error(spanx, bx);
    assert forall|ix: int| 0 <= ix < g.res_x implies -0x400_0000_0000 <= #[trigger] grid_sample_x(
        g,
        ix,
    ) <= 0x400_0000_0000 by {
        assert(0 <= ix * sx <= bx * sx) by (nonlinear_arith)
            requires
                0 <= ix <= bx,
                1 <= sx,
        ;
        assert(bx * sx == sx * bx) by (nonlinear_arith);
        assert(2 * (sx * bx) <= 2 * spanx + bx);
    }
    let sy = grid_step_y(g);
    let by0 = g.res_y - 1;
    let spany = g.max_y - g.min_y;
    crate::num::lemma_rdiv_le(spany, by0);
    assert(1 <= sy) by {
        vstd::arithmetic::div_mod::lemma_div_is_ordered(by0, spany + by0 / 2, by0);
        vstd::arithmetic::div_mod::lemma_div_by_self(by0);
    }
    lemma_rdiv_error(spany, by0);
    assert forall|iy: int| 0 <= iy < g.res_y implies -0x400_0000_0000 <= #[trigger] grid_sample_y(
        g,
        iy,
    ) <= 0x400_0000_0000 by {
        assert(0 <= iy * sy <= by0 * sy) by (nonlinear_arith)
            requires
                0 <= iy <= by0,
                1 <= sy,
        ;
        assert(by0 * sy == sy * by0) by (nonlinear_arith);
        assert(2 * (sy * by0) <= 2 * spany + by0);
    }
}

/// The largest value the first `k` entries hold (the unset sentinel when
/// they hold none).
pub open spec fn scan_max(h: Seq<i64>, k: nat) -> int
    decreases k,
{
    if k == 0 {
        UNSET_HEIGHT as int
    } else {
        let p = scan_max(h, (k - 1) as nat);
        if h[k - 1] > p {
            h[k - 1] as int
        } else {
            p
        }
    }
}

/// The smallest held value among the first `k` entries (`i64::MAX` when
/// they hold none).
pub open spec fn scan_min(h: Seq<i64>, k: nat) -> int
    decreases k,
{
    if k == 0 {
        i64::MAX as int
    } else {
        let p = scan_min(h, (k - 1) as nat);
        if h[k - 1] != UNSET_HEIGHT && h[k - 1] < p {
            h[k - 1] as int
        } else {
            p
        }
    }
}

/// What the running extremes of a scan say of every entry scanned: the
/// maximum dominates, the minimum lower-bounds the held entries, and each
/// extreme is attained when it moved at all.
pub proof fn lemma_scan_props(h: Seq<i64>, k: nat)
    requires
        k <= h.len(),
    ensures
        forall|i: int| 0 <= i < k ==> #[trigger] h[i] <= scan_max(h, k),
        forall|i: int|
            0 <= i < k && #[trigger] h[i] != UNSET_HEIGHT ==> scan_min(h, k) <= h[i],
        scan_max(h, k) != UNSET_HEIGHT ==> exists|i: int|
            0 <= i < k && #[trigger] h[i] == scan_max(h, k) && h[i] != UNSET_HEIGHT,
        scan_min(h, k) != i64::MAX ==> exists|i: int|
            0 <= i < k && #[trigger] h[i] == scan_min(h, k) && h[i] != UNSET_HEIGHT,
        scan_max(h, k) == UNSET_HEIGHT ==> forall|i: int|
            0 <= i < k ==> #[trigger] h[i] == UNSET_HEIGHT,
    decreases k,
{
    if k > 0 {
        lemma_scan_props(h, (k - 1) as nat);
    }
}

/// When the scan of a rasterized field finds one single held height, the
/// field is uniform at it.
proof fn lemma_uniform_detected(m: MeshRust, g: HeightmapGridRust, mid: Seq<i64>, maxv: int)
    requires
        2 <= g.res_y,
        mid.len() == g.res_x * g.res_y,
        forall|ix: int, iy: int|
            0 <= ix < g.res_x && 0 <= iy < g.res_y ==> #[trigger] cell_at(
                mid,
                g.res_y as int,
                ix,
                iy,
            ) as int == raster_base(m, g, ix, iy),
        maxv == scan_max(mid, mid.len()),
        maxv == scan_min(mid, mid.len()),
        maxv != UNSET_HEIGHT,
    ensures
        raster_uniform(m, g) == Some(maxv),
{
    let n = mid.len() as int;
    let nx = g.res_x as int;
    let ny = g.res_y as int;
    lemma_scan_props(mid, mid.len());
    assert(raster_is_uniform(m, g, maxv)) by {
        let i0 = choose|i0: int|
            0 <= i0 < n && #[trigger] mid[i0] == scan_max(mid, mid.len()) && mid[i0]
                != UNSET_HEIGHT;
        lemma_flat_index_split(nx, ny, i0);
        assert(cell_at(mid, ny, i0 / ny, i0 % ny) == mid[i0]);
        assert(raster_base(m, g, i0 / ny, i0 % ny) == maxv);
        assert forall|ix: int, iy: int|
            0 <= ix < g.res_x && 0 <= iy < g.res_y && #[trigger] raster_base(m, g, ix, iy)
                != UNSET_HEIGHT implies raster_base(m, g, ix, iy) == maxv by {
            assert(0 <= ix * ny + iy && ix * ny + iy < n) by (nonlinear_arith)
                requires
                    0 <= ix < g.res_x,
                    0 <= iy < g.res_y,
                    n == g.res_x * g.res_y,
                    ny == g.res_y,
            ;
            assert(mid[ix * ny + iy] == cell_at(mid, ny, ix, iy));
        }
    }
    let v = choose|v: int| raster_is_uniform(m, g, v);
    assert(raster_is_uniform(m, g, v));
    let (wx, wy) = choose|wx: int, wy: int|
        0 <= wx < g.res_x && 0 <= wy < g.res_y && #[trigger] raster_base(m, g, wx, wy)
            == maxv && maxv != UNSET_HEIGHT;
    assert(raster_base(m, g, wx, wy) == v);
}

/// When the scan finds no held height, or two different ones, the field is
/// not uniform.
proof fn lemma_uniform_absent(m: MeshRust, g: HeightmapGridRust, mid: Seq<i64>, maxv: int, minv: int)
    requires
        2 <= g.res_y,
        mid.len() == g.res_x * g.res_y,
        forall|ix: int, iy: int|
            0 <= ix < g.res_x && 0 <= iy < g.res_y ==> #[trigger] cell_at(
                mid,
                g.res_y as int,
                ix,
                iy,
            ) as int == raster_base(m, g, ix, iy),
        maxv == scan_max(mid, mid.len()),
        minv == scan_min(mid, mid.len()),
        !(maxv == minv && maxv != UNSET_HEIGHT),
    ensures
        raster_uniform(m, g) is None,
{
    let n = mid.len() as int;
    let nx = g.res_x as int;
    let ny = g.res_y as int;
    lemma_scan_props(mid, mid.len());
    assert forall|v: int| !raster_is_uniform(m, g, v) by {
        if raster_is_uniform(m, g, v) {
            let (wx, wy) = choose|wx: int, wy: int|
                0 <= wx < g.res_x && 0 <= wy < g.res_y && #[trigger] raster_base(m, g, wx, wy)
                    == v && v != UNSET_HEIGHT;
            assert(0 <= wx * ny + wy && wx * ny + wy < n) by (nonlinear_arith)
                requires
                    0 <= wx < g.res_x,
                    0 <= wy < g.res_y,
                    n == g.res_x * g.res_y,
                    ny == g.res_y,
            ;
            assert(mid[wx * ny + wy] == cell_at(mid, ny, wx, wy));
            assert(mid[wx * ny + wy] != UNSET_HEIGHT);
            assert(scan_max(mid, mid.len()) != UNSET_HEIGHT);
            let i0 = choose|i0: int|
                0 <= i0 < n && #[trigger] mid[i0] == scan_max(mid, mid.len()) && mid[i0]
                    != UNSET_HEIGHT;
            lemma_flat_index_split(nx, ny, i0);
            assert(cell_at(mid, ny, i0 / ny, i0 % ny) == mid[i0]);
            assert(raster_base(m, g, i0 / ny, i0 % ny) == v);
            assert(scan_min(mid, mid.len()) != i64::MAX);
            let i1 = choose|i1: int|
                0 <= i1 < n && #[trigger] mid[i1] == scan_min(mid, mid.len()) && mid[i1]
                    != UNSET_HEIGHT;
            lemma_flat_index_split(nx, ny, i1);
            assert(cell_at(mid, ny, i1 / ny, i1 % ny) == mid[i1]);
            assert(raster_base(m, g, i1 / ny, i1 % ny) == v);
            assert(false);
        }
    }
}

/// A covered in-grid cell lies within the clamped loop range derived from
/// the triangle's bounding box.
proof fn lemma_covered_cell_in_box(
    m: MeshRust,
    g: HeightmapGridRust,
    t: int,
    gsx: int,
    gsy: int,
    tminx: int,
    tmaxx: int,
    tminy: int,
    tmaxy: int,
    lo_x: int,
    hi_x: int,
    lo_y: int,
    hi_y: int,
    jx: int,
    jy: int,
)
    requires
        grid_wf(g),
        gsx == grid_step_x(g),
        gsy == grid_step_y(g),
        1 <= gsx,
        1 <= gsy,
        tminx <= vert_x(m, mesh_vertex(m, t, 0)),
        tminx <= vert_x(m, mesh_vertex(m, t, 1)),
        tminx <= vert_x(m, mesh_vertex(m, t, 2)),
        tmaxx >= vert_x(m, mesh_vertex(m, t, 0)),
        tmaxx >= vert_x(m, mesh_vertex(m, t, 1)),
        tmaxx >= vert_x(m, mesh_vertex(m, t, 2)),
        tminy <= vert_y(m, mesh_vertex(m, t, 0)),
        tminy <= vert_y(m, mesh_vertex(m, t, 1)),
        tminy <= vert_y(m, mesh_vertex(m, t, 2)),
        tmaxy >= vert_y(m, mesh_vertex(m, t, 0)),
        tmaxy >= vert_y(m, mesh_vertex(m, t, 1)),
        tmaxy >= vert_y(m, mesh_vertex(m, t, 2)),
        lo_x == (tminx - g.min_x) / gsx,
        hi_x == (tmaxx - g.min_x + (gsx - 1)) / gsx,
        lo_y == (tminy - g.min_y) / gsy,
        hi_y == (tmaxy - g.min_y + (gsy - 1)) / gsy,
        0 <= jx < g.res_x,
        0 <= jy < g.res_y,
        tri_covers(m, t, grid_sample_x(g, jx), grid_sample_y(g, jy)),
    ensures
        lo_x <= jx <= hi_x,
        lo_y <= jy <= hi_y,
{
    let sxj = grid_sample_x(g, jx);
    let syj = grid_sample_y(g, jy);
    lemma_covers_in_bbox(
        vert_x(m, mesh_vertex(m, t, 0)),
        vert_y(m, mesh_vertex(m, t, 0)),
        vert_x(m, mesh_vertex(m, t, 1)),
        vert_y(m, mesh_vertex(m, t, 1)),
        vert_x(m, mesh_vertex(m, t, 2)),
        vert_y(m, mesh_vertex(m, t, 2)),
        sxj,
        syj,
    );
    assert(tminx <= sxj <= tmaxx);
    assert(tminy <= syj <= tmaxy);
    assert(jx * gsx >= tminx - g.min_x);
    vstd::arithmetic::div_mod::lemma_div_is_ordered(tminx - g.min_x, jx * gsx, gsx);
    vstd::arithmetic::div_mod::lemma_div_by_multiple(jx, gsx);
    assert(lo_x <= jx);
    assert(jx * gsx <= tmaxx - g.min_x);
    vstd::arithmetic::div_mod::lemma_div_is_ordered(jx * gsx, tmaxx - g.min_x + (gsx - 1), gsx);
    assert(jx <= hi_x);
    assert(jy * gsy >= tminy - g.min_y);
    vstd::arithmetic::div_mod::lemma_div_is_ordered(tminy - g.min_y, jy * gsy, gsy);
    vstd::arithmetic::div_mod::lemma_div_by_multiple(jy, gsy);
    assert(lo_y <= jy);
    assert(jy * gsy <= tmaxy - g.min_y);
    vstd::arithmetic::div_mod::lemma_div_is_ordered(jy * gsy, tmaxy - g.min_y + (gsy - 1), gsy);
    assert(jy <= hi_y);
}

/// Sweep order of the per-triangle raster loops: all rows below `cy`, then
/// the cells left of `cx` in row `cy`, within the clamped bounding box
/// `[xs, xe] x [ys, ye]`.
pub open spec fn raster_swept(
    xs: int,
    xe: int,
    ys: int,
    ye: int,
    cy: int,
    cx: int,
    jx: int,
    jy: int,
) -> bool {
    xs <= jx <= xe && ys <= jy <= ye && (jy < cy || (jy == cy && jx < cx))
}

/// Reads one triangle's three vertices out of the mesh.
#[verifier::loop_isolation(false)]
fn triangle_vertices(mesh: &MeshRust, t: usize) -> (r: ([i64; 3], [i64; 3], [i64; 3]))
    requires
        mesh_wf(*mesh),
        t < mesh_tri_count(*mesh),
    ensures
        r.0@[0] as int == vert_x(*mesh, mesh_vertex(*mesh, t as int, 0)),
        r.0@[1] as int == vert_y(*mesh, mesh_vertex(*mesh, t as int, 0)),
        r.0@[2] as int == vert_z(*mesh, mesh_vertex(*mesh, t as int, 0)),
        r.1@[0] as int == vert_x(*mesh, mesh_vertex(*mesh, t as int, 1)),
        r.1@[1] as int == vert_y(*mesh, mesh_vertex(*mesh, t as int, 1)),
        r.1@[2] as int == vert_z(*mesh, mesh_vertex(*mesh, t as int, 1)),
        r.2@[0] as int == vert_x(*mesh, mesh_vertex(*mesh, t as int, 2)),
        r.2@[1] as int == vert_y(*mesh, mesh_vertex(*mesh, t as int, 2)),
        r.2@[2] as int == vert_z(*mesh, mesh_vertex(*mesh, t as int, 2)),
        forall|c: int| 0 <= c < 3 ==> -MAX_COORD <= #[trigger] r.0@[c] <= MAX_COORD,
        forall|c: int| 0 <= c < 3 ==> -MAX_COORD <= #[trigger] r.1@[c] <= MAX_COORD,
        forall|c: int| 0 <= c < 3 ==> -MAX_COORD <= #[trigger] r.2@[c] <= MAX_COORD,
{
    let plen: usize = mesh.positions.len();
    let (v0, v1, v2): (usize, usize, usize) = match &mesh.indices {
        Some(ind) => {
            let ilen = ind.len();
            proof {
                vstd::arithmetic::div_mod::lemma_fundamental_div_mod(ind@.len() as int, 3);
                vstd::arithmetic::div_mod::lemma_mod_bound(ind@.len() as int, 3);
                assert(3 * (t as int) + 2 < ind@.len());
            }
            (ind[3 * t] as usize, ind[3 * t + 1] as usize, ind[3 * t + 2] as usize)
        },
        None => {
            proof {
                vstd::arithmetic::div_mod::lemma_fundamental_div_mod(plen as int, 9);
                vstd::arithmetic::div_mod::lemma_mod_bound(plen as int, 9);
                assert(9 * (t as int) + 8 < plen);
            }
            (3 * t, 3 * t + 1, 3 * t + 2)
        },
    };
    proof {
        vstd::arithmetic::div_mod::lemma_fundamental_div_mod(plen as int, 3);
        vstd::arithmetic::div_mod::lemma_mod_bound(plen as int, 3);
        assert(3 * (v0 as int) + 2 < plen);
        assert(3 * (v1 as int) + 2 < plen);
        assert(3 * (v2 as int) + 2 < plen);
    }
    let pa = [mesh.positions[3 * v0], mesh.positions[3 * v0 + 1], mesh.positions[3 * v0 + 2]];
    let pb = [mesh.positions[3 * v1], mesh.positions[3 * v1 + 1], mesh.positions[3 * v1 + 2]];
    let pc = [mesh.positions[3 * v2], mesh.positions[3 * v2 + 1], mesh.positions[3 * v2 + 2]];
    (pa, pb, pc)
}

/// Applies one triangle to the field: every cell within its clamped
/// bounding box whose sample it covers rises to the triangle's height there
/// if that is higher.
#[verifier::loop_isolation(false)]
#[verifier::rlimit(100)]
fn raster_one_triangle(
    heightmap: &mut Vec<i64>,
    mesh: &MeshRust,
    grid: &HeightmapGridRust,
    gsx: i64,
    gsy: i64,
    t: usize,
)
    requires
        mesh_wf(*mesh),
        grid_wf(*grid),
        gsx as int == grid_step_x(*grid),
        gsy as int == grid_step_y(*grid),
        t < mesh_tri_count(*mesh),
        old(heightmap)@.len() == grid.res_x * grid.res_y,
        forall|ix: int, iy: int|
            0 <= ix < grid.res_x && 0 <= iy < grid.res_y ==> #[trigger] cell_at(
                old(heightmap)@,
                grid.res_y as int,
                ix,
                iy,
            ) as int == raster_cell(*mesh, *grid, t as nat, ix, iy),
    ensures
        final(heightmap)@.len() == old(heightmap)@.len(),
        forall|ix: int, iy: int|
            0 <= ix < grid.res_x && 0 <= iy < grid.res_y ==> #[trigger] cell_at(
                final(heightmap)@,
                grid.res_y as int,
                ix,
                iy,
            ) as int == raster_cell(*mesh, *grid, (t + 1) as nat, ix, iy),
{
    let nx: usize = grid.res_x;
    let ny: usize = grid.res_y;
    let ghost n = grid.res_x * grid.res_y;
    let plen: usize = mesh.positions.len();
    proof {
        lemma_grid_geometry(*grid);
    }
    let (pa, pb, pc) = triangle_vertices(mesh, t);
    let tminx = if pa[0] <= pb[0] && pa[0] <= pc[0] {
        pa[0]
    } else if pb[0] <= pc[0] {
        pb[0]
    } else {
        pc[0]
    };
    let tmaxx = if pa[0] >= pb[0] && pa[0] >= pc[0] {
        pa[0]
    } else if pb[0] >= pc[0] {
        pb[0]
    } else {
        pc[0]
    };
    let tminy = if pa[1] <= pb[1] && pa[1] <= pc[1] {
        pa[1]
    } else if pb[1] <= pc[1] {
        pb[1]
    } else {
        pc[1]
    };
    let tmaxy = if pa[1] >= pb[1] && pa[1] >= pc[1] {
        pa[1]
    } else if pb[1] >= pc[1] {
        pb[1]
    } else {
        pc[1]
    };
    let lo_x = floor_div_i64(tminx - grid.min_x, gsx);
    let hi_x = floor_div_i64(tmaxx - grid.min_x + (gsx - 1), gsx);
    let lo_y = floor_div_i64(tminy - grid.min_y, gsy);
    let hi_y = floor_div_i64(tmaxy - grid.min_y + (gsy - 1), gsy);
    let x_start: i64 = if lo_x < 0 {
        0
    } else {
        lo_x
    };
    let x_end: i64 = if hi_x > (nx - 1) as i64 {
        (nx - 1) as i64
    } else {
        hi_x
    };
    let y_start: i64 = if lo_y < 0 {
        0
    } else {
        lo_y
    };
    let y_end: i64 = if hi_y > (ny - 1) as i64 {
        (ny - 1) as i64
    } else {
        hi_y
    };
    if x_start <= x_end && y_start <= y_end {
        let mut iy: i64 = y_start;
        while iy <= y_end
            invariant
                y_start <= iy <= y_end + 1,
                heightmap@.len() == n,
                forall|jx: int, jy: int|
                    0 <= jx < nx && 0 <= jy < ny ==> #[trigger] cell_at(
                        heightmap@,
                        ny as int,
                        jx,
                        jy,
                    ) as int == (if raster_swept(
                        x_start as int,
                        x_end as int,
                        y_start as int,
                        y_end as int,
                        iy as int,
                        x_start as int,
                        jx,
                        jy,
                    ) {
                        raster_cell(*mesh, *grid, (t + 1) as nat, jx, jy)
                    } else {
                        raster_cell(*mesh, *grid, t as nat, jx, jy)
                    }),
            decreases y_end - iy + 1,
        {
            proof {
                assert(-0x400_0000_0000 <= grid_sample_y(*grid, iy as int)
                    <= 0x400_0000_0000);
            }
            let py: i64 = grid.min_y + iy * gsy;
            let mut ix: i64 = x_start;
            while ix <= x_end
                invariant
                    x_start <= ix <= x_end + 1,
                    y_start <= iy <= y_end,
                    py == grid_sample_y(*grid, iy as int),
                    heightmap@.len() == n,
                    forall|jx: int, jy: int|
                        0 <= jx < nx && 0 <= jy < ny ==> #[trigger] cell_at(
                            heightmap@,
                            ny as int,
                            jx,
                            jy,
                        ) as int == (if raster_swept(
                            x_start as int,
                            x_end as int,
                            y_start as int,
                            y_end as int,
                            iy as int,
                            ix as int,
                            jx,
                            jy,
                        ) {
                            raster_cell(*mesh, *grid, (t + 1) as nat, jx, jy)
                        } else {
                            raster_cell(*mesh, *grid, t as nat, jx, jy)
                        }),
                decreases x_end - ix + 1,
            {
                proof {
                    assert(-0x400_0000_0000 <= grid_sample_x(*grid, ix as int)
                        <= 0x400_0000_0000);
                }
                let px: i64 = grid.min_x + ix * gsx;
                let ghost pre = heightmap@;
                let inside = point_in_triangle_2d(px, py, pa, pb, pc);
                proof {
                    assert(inside == tri_covers(*mesh, t as int, px as int, py as int));
                    assert(0 <= (ix as int) * (ny as int) + (iy as int) && (ix as int) * (
                    ny as int) + (iy as int) < n) by (nonlinear_arith)
                        requires
                            0 <= ix < nx,
                            0 <= iy < ny,
                            n == nx * ny,
                    ;
                }
                if inside {
                    let z = interpolate_z(px, py, pa, pb, pc);
                    let idx = (ix as usize) * ny + (iy as usize);
                    if z > heightmap[idx] {
                        heightmap.set(idx, z);
                    }
                }
                proof {
                    assert forall|jx: int, jy: int|
                        0 <= jx < nx && 0 <= jy < ny implies #[trigger] cell_at(
                        heightmap@,
                        ny as int,
                        jx,
                        jy,
                    ) as int == (if raster_swept(
                        x_start as int,
                        x_end as int,
                        y_start as int,
                        y_end as int,
                        iy as int,
                        ix + 1,
                        jx,
                        jy,
                    ) {
                        raster_cell(*mesh, *grid, (t + 1) as nat, jx, jy)
                    } else {
                        raster_cell(*mesh, *grid, t as nat, jx, jy)
                    }) by {
                        assert(0 <= jx * (ny as int) + jy && jx * (ny as int) + jy < n)
                            by (nonlinear_arith)
                            requires
                                0 <= jx < nx,
                                0 <= jy < ny,
                                n == nx * ny,
                        ;
                        if jx == ix && jy == iy {
                            assert(cell_at(pre, ny as int, jx, jy) as int == raster_cell(
                                *mesh,
                                *grid,
                                t as nat,
                                jx,
                                jy,
                            ));
                            assert(grid_sample_x(*grid, jx) == px as int);
                            assert(grid_sample_y(*grid, jy) == py as int);
                        } else {
                            if jx * (ny as int) + jy == (ix as int) * (ny as int) + (
                            iy as int) {
                                crate::simulate_material_removal::lemma_cell_index_injective(
                                    ny as int,
                                    jx,
                                    jy,
                                    ix as int,
                                    iy as int,
                                );
                            }
                            assert(cell_at(heightmap@, ny as int, jx, jy) == cell_at(
                                pre,
                                ny as int,
                                jx,
                                jy,
                            ));
                        }
                    }
                }
                ix = ix + 1;
            }
            iy = iy + 1;
        }
    }
    proof {
        assert forall|jx: int, jy: int|
            0 <= jx < nx && 0 <= jy < ny implies #[trigger] cell_at(
            heightmap@,
            ny as int,
            jx,
            jy,
        ) as int == raster_cell(*mesh, *grid, (t + 1) as nat, jx, jy) by {
            if !(x_start <= jx <= x_end && y_start <= jy <= y_end) {
                // a cell outside the swept box is not covered by this
                // triangle, so the triangle leaves its value alone
                if tri_covers(*mesh, t as int, grid_sample_x(*grid, jx), grid_sample_y(
                    *grid,
                    jy,
                )) {
                    lemma_covered_cell_in_box(
                        *mesh,
                        *grid,
                        t as int,
                        gsx as int,
                        gsy as int,
                        tminx as int,
                        tmaxx as int,
                        tminy as int,
                        tmaxy as int,
                        lo_x as int,
                        hi_x as int,
                        lo_y as int,
                        hi_y as int,
                        jx,
                        jy,
                    );
                    assert(false);
                }
            }
        }
    }
}

/// When every held cell of the field carries one same height, fills the
/// unheld cells with it; otherwise leaves the field alone.
#[verifier::loop_isolation(false)]
fn backfill_uniform_cells(heightmap: &mut Vec<i64>)
    ensures
        final(heightmap)@.len() == old(heightmap)@.len(),
        ({
            let h0 = old(heightmap)@;
            let mx = scan_max(h0, h0.len());
            if scan_max(h0, h0.len()) == scan_min(h0, h0.len()) && mx != UNSET_HEIGHT {
                forall|j: int|
                    0 <= j < h0.len() ==> #[trigger] final(heightmap)@[j] as int == (if h0[j]
                        == UNSET_HEIGHT {
                        mx
                    } else {
                        h0[j] as int
                    })
            } else {
                final(heightmap)@ == h0
            }
        }),
{
    let ghost mid = heightmap@;
    let n = heightmap.len();
    let mut max_z: i64 = UNSET_HEIGHT;
    let mut min_z: i64 = i64::MAX;
    let mut i2: usize = 0;
    while i2 < n
        invariant
            i2 <= n,
            heightmap@ == mid,
            max_z as int == scan_max(mid, i2 as nat),
            min_z as int == scan_min(mid, i2 as nat),
        decreases n - i2,
    {
        let zv = heightmap[i2];
        if zv > max_z {
            max_z = zv;
        }
        if zv < min_z && zv > UNSET_HEIGHT {
            min_z = zv;
        }
        i2 = i2 + 1;
    }
    if max_z == min_z && max_z > UNSET_HEIGHT {
        let mut i3: usize = 0;
        while i3 < n
            invariant
                i3 <= n,
                heightmap@.len() == n,
                forall|j: int|
                    0 <= j < i3 ==> #[trigger] heightmap@[j] == (if mid[j] == UNSET_HEIGHT {
                        max_z
                    } else {
                        mid[j]
                    }),
                forall|j: int| i3 <= j < n ==> #[trigger] heightmap@[j] == mid[j],
            decreases n - i3,
        {
            if heightmap[i3] == UNSET_HEIGHT {
                heightmap.set(i3, max_z);
            }
            i3 = i3 + 1;
        }
    }
}

/// Rasterizes the mesh onto the grid: each cell of the result holds the
/// maximum triangle height over its sample point, the unset sentinel where
/// no triangle covers it — except that when every covered cell agrees on
/// one height, the uncovered cells are backfilled with that height.
#[verifier::loop_isolation(false)]
pub fn heightmap_from_mesh_rust(mesh: &MeshRust, grid: &HeightmapGridRust) -> (r: Vec<i64>)
    requires
        mesh_wf(*mesh),
        grid_wf(*grid),
    ensures
        r@.len() == grid.res_x * grid.res_y,
        forall|ix: int, iy: int|
            0 <= ix < grid.res_x && 0 <= iy < grid.res_y ==> #[trigger] cell_at(
                r@,
                grid.res_y as int,
                ix,
                iy,
            ) as int == raster_final(*mesh, *grid, ix, iy),
{
    let nx: usize = grid.res_x;
    let ny: usize = grid.res_y;
    let n: usize = nx * ny;
    let gsx: i64 = round_div_i64(grid.max_x - grid.min_x, (nx - 1) as i64);
    let gsy: i64 = round_div_i64(grid.max_y - grid.min_y, (ny - 1) as i64);
    let mut heightmap: Vec<i64> = Vec::new();
    let mut i: usize = 0;
    while i < n
        invariant
            i <= n,
            heightmap@.len() == i,
            forall|j: int| 0 <= j < i ==> #[trigger] heightmap@[j] == UNSET_HEIGHT,
        decreases n - i,
    {
        heightmap.push(UNSET_HEIGHT);
        i = i + 1;
    }
    let t_count: usize = match &mesh.indices {
        Some(ind) => ind.len() / 3,
        None => mesh.positions.len() / 9,
    };
    proof {
        assert(t_count == mesh_tri_count(*mesh));
        assert forall|ix: int, iy: int| 0 <= ix < nx && 0 <= iy < ny implies #[trigger] cell_at(
            heightmap@,
            ny as int,
            ix,
            iy,
        ) as int == raster_cell(*mesh, *grid, 0, ix, iy) by {
            assert(0 <= ix * (ny as int) + iy < n) by (nonlinear_arith)
                requires
                    0 <= ix < nx,
                    0 <= iy < ny,
                    n == nx * ny,
            ;
        }
    }
    let mut t: usize = 0;
    while t < t_count
        invariant
            t <= t_count,
            heightmap@.len() == n,
            forall|ix: int, iy: int|
                0 <= ix < nx && 0 <= iy < ny ==> #[trigger] cell_at(
                    heightmap@,
                    ny as int,
                    ix,
                    iy,
                ) as int == raster_cell(*mesh, *grid, t as nat, ix, iy),
        decreases t_count - t,
    {
        raster_one_triangle(&mut heightmap, mesh, grid, gsx, gsy, t);
        t = t + 1;
    }
    let ghost mid = heightmap@;
    backfill_uniform_cells(&mut heightmap);
    proof {
        if scan_max(mid, mid.len()) == scan_min(mid, mid.len()) && scan_max(mid, mid.len())
            != UNSET_HEIGHT {
            lemma_uniform_detected(*mesh, *grid, mid, scan_max(mid, mid.len()));
        } else {
            lemma_uniform_absent(
                *mesh,
                *grid,
                mid,
                scan_max(mid, mid.len()),
                scan_min(mid, mid.len()),
            );
        }
        assert forall|ix: int, iy: int| 0 <= ix < nx && 0 <= iy < ny implies #[trigger] cell_at(
            heightmap@,
            ny as int,
            ix,
            iy,
        ) as int == raster_final(*mesh, *grid, ix, iy) by {
            assert(0 <= ix * (ny as int) + iy && ix * (ny as int) + iy < n) by (nonlinear_arith)
                requires
                    0 <= ix < nx,
                    0 <= iy < ny,
                    n == nx * ny,
            ;
            assert(mid[ix * (ny as int) + iy] == cell_at(mid, ny as int, ix, iy));
        }
    }
    heightmap
}

/// Flat-triangle exactness: rasterizing a single constant-height triangle
/// over a grid whose every sample it covers yields exactly that height at
/// every cell.
pub proof fn lemma_flat_triangle_exact(m: MeshRust, g: HeightmapGridRust, z: int)
    requires
        mesh_wf(m),
        grid_wf(g),
        mesh_tri_count(m) == 1,
        vert_z(m, mesh_vertex(m, 0, 0)) == z,
        vert_z(m, mesh_vertex(m, 0, 1)) == z,
        vert_z(m, mesh_vertex(m, 0, 2)) == z,
        forall|ix: int, iy: int|
            0 <= ix < g.res_x && 0 <= iy < g.res_y ==> tri_covers(
                m,
                0,
                #[trigger] grid_sample_x(g, ix),
                #[trigger] grid_sample_y(g, iy),
            ),
    ensures
        forall|ix: int, iy: int|
            0 <= ix < g.res_x && 0 <= iy < g.res_y ==> #[trigger] raster_final(m, g, ix, iy)
                == z,
{
    assert forall|ix: int, iy: int|
        0 <= ix < g.res_x && 0 <= iy < g.res_y implies #[trigger] raster_final(m, g, ix, iy)
        == z by {
        let px = grid_sample_x(g, ix);
        let py = grid_sample_y(g, iy);
        let v0 = mesh_vertex(m, 0, 0);
        lemma_interp_z_bounds(
            vert_x(m, mesh_vertex(m, 0, 0)),
            vert_y(m, mesh_vertex(m, 0, 0)),
            vert_z(m, mesh_vertex(m, 0, 0)),
            vert_x(m, mesh_vertex(m, 0, 1)),
            vert_y(m, mesh_vertex(m, 0, 1)),
            vert_z(m, mesh_vertex(m, 0, 1)),
            vert_x(m, mesh_vertex(m, 0, 2)),
            vert_y(m, mesh_vertex(m, 0, 2)),
            vert_z(m, mesh_vertex(m, 0, 2)),
            px,
            py,
            z,
            z,
        );
        assert(tri_interp(m, 0, px, py) == z);
        match m.indices {
            Some(ind) => {
                vstd::arithmetic::div_mod::lemma_fundamental_div_mod(ind@.len() as int, 3);
                vstd::arithmetic::div_mod::lemma_mod_bound(ind@.len() as int, 3);
                vstd::arithmetic::div_mod::lemma_fundamental_div_mod(
                    m.positions@.len() as int,
                    3,
                );
                vstd::arithmetic::div_mod::lemma_mod_bound(m.positions@.len() as int, 3);
                assert(ind@[0] < m.positions@.len() as int / 3);
            },
            None => {
                vstd::arithmetic::div_mod::lemma_fundamental_div_mod(
                    m.positions@.len() as int,
                    9,
                );
                vstd::arithmetic::div_mod::lemma_mod_bound(m.positions@.len() as int, 9);
            },
        }
        assert(3 * v0 + 2 < m.positions@.len());
        assert(-MAX_COORD <= m.positions@[3 * v0 + 2] <= MAX_COORD);
        assert(z > UNSET_HEIGHT);
        assert(raster_cell(m, g, 0, ix, iy) == UNSET_HEIGHT as int);
        assert(raster_cell(m, g, 1, ix, iy) == z);
        assert(raster_base(m, g, ix, iy) == z);
    }
}

} // verus!
