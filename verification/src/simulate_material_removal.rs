//! Material removal over a height-field stock, and non-gouging clearance
//! heights ("safe toolpath") queried against the same stock.
//!
//! The height field is a flat buffer of `nx * ny` heights, linearized as
//! `ix * ny + iy` (the outer index walks x). A toolpath is a flat buffer of
//! `(x, y, z)` triples in ticks. Each toolpath point lowers every covered
//! cell to at most the tool-surface height there; cells only ever move down,
//! and the final field does not depend on the order of the points.

use vstd::prelude::*;

verus! {

use crate::num::{
    MAX_COORD, UNSET_HEIGHT, rdiv, cdiv, round_div_i64, ceil_div_i64, lemma_rdiv_error,
    heights_wf, coords_wf, cell_at,
};
use crate::tool::{
    ToolKind, ToolProfile, tool_wf, tool_radius, tool_offset, kernel_d2, kernel_wf, opt_int,
    build_tool_kernel, compute_tool_offset, lemma_tool_offset_bounds,
    lemma_tool_offset_le_radius, lemma_kernel_reach,
};

/// A single tool-tip position in world ticks.
#[derive(Clone, Copy, PartialEq, Eq, Structural, Debug)]
pub struct ToolpathPoint {
    pub x: i64,
    pub y: i64,
    pub z: i64,
}

/// The grid a removal run works against, and the cutter that does the work.
#[derive(Clone, Copy)]
pub struct SimulateMaterialRemovalParams {
    pub nx: usize,
    pub ny: usize,
    pub grid_size: i64,
    pub origin_x: i64,
    pub origin_y: i64,
    pub tool: ToolProfile,
}

/// A malformed buffer shape: the call is rejected outright, never truncated.
#[derive(Clone, Copy, PartialEq, Eq, Structural, Debug)]
pub enum ShapeError {
    /// The heights buffer length differs from `nx * ny`.
    HeightmapLength,
    /// The toolpath buffer length is not a multiple of three.
    ToolpathLength,
}

pub open spec fn params_wf(p: SimulateMaterialRemovalParams) -> bool {
    &&& 1 <= p.grid_size <= MAX_COORD
    &&& -MAX_COORD <= p.origin_x <= MAX_COORD
    &&& -MAX_COORD <= p.origin_y <= MAX_COORD
    &&& tool_wf(p.tool)
    &&& cdiv(tool_radius(p.tool), p.grid_size as int) <= 0x4000_0000
}

/// The grid cell nearest a world coordinate: the normalized offset from the
/// origin, rounded to the nearest integer (ties away from zero).
pub open spec fn nearest_cell(x: int, origin: int, step: int) -> int {
    rdiv(x - origin, step)
}

/// What one toolpath point imposes on one grid cell: the tool-surface height
/// there, or `None` where the cell lies outside the tool's footprint for
/// that pass.
pub open spec fn point_contribution(
    p: SimulateMaterialRemovalParams,
    pt: ToolpathPoint,
    ix: int,
    iy: int,
) -> Option<int> {
    let s = p.grid_size as int;
    let cx = nearest_cell(pt.x as int, p.origin_x as int, s);
    let cy = nearest_cell(pt.y as int, p.origin_y as int, s);
    let rc = cdiv(tool_radius(p.tool), s);
    let dx = ix - cx;
    let dy = iy - cy;
    if -rc <= dx <= rc && -rc <= dy <= rc {
        match tool_offset(p.tool, (dx * s) * (dx * s) + (dy * s) * (dy * s)) {
            Some(o) => Some(pt.z + o),
            None => None,
        }
    } else {
        None
    }
}

/// One point applied to one cell: the cell keeps the lower of its height and
/// the surface the pass imposes.
pub open spec fn apply_point(
    p: SimulateMaterialRemovalParams,
    h: int,
    pt: ToolpathPoint,
    ix: int,
    iy: int,
) -> int {
    match point_contribution(p, pt, ix, iy) {
        Some(v) => if v < h {
            v
        } else {
            h
        },
        None => h,
    }
}

/// The fold step of a removal run, as a named function value so that two
/// mentions of it denote the same function.
pub open spec fn carve_step(p: SimulateMaterialRemovalParams, ix: int, iy: int) -> spec_fn(
    int,
    ToolpathPoint,
) -> int {
    |h: int, pt: ToolpathPoint| apply_point(p, h, pt, ix, iy)
}

/// The height of cell `(ix, iy)` after a whole toolpath is applied to the
/// starting height `h0`.
pub open spec fn carved_height(
    p: SimulateMaterialRemovalParams,
    h0: int,
    pts: Seq<ToolpathPoint>,
    ix: int,
    iy: int,
) -> int {
    pts.fold_left(h0, carve_step(p, ix, iy))
}

/// The toolpath triples held by a flat coordinate buffer.
pub open spec fn toolpath_points(tp: Seq<i64>) -> Seq<ToolpathPoint> {
    Seq::new(
        (tp.len() / 3) as nat,
        |i: int| ToolpathPoint { x: tp[3 * i], y: tp[3 * i + 1], z: tp[3 * i + 2] },
    )
}

/// Applying one more point folds into the prefix result.
pub proof fn lemma_carved_height_step(
    p: SimulateMaterialRemovalParams,
    h0: int,
    pts: Seq<ToolpathPoint>,
    k: int,
    ix: int,
    iy: int,
)
    requires
        0 <= k < pts.len(),
    ensures
        carved_height(p, h0, pts.take(k + 1), ix, iy) == apply_point(
            p,
            carved_height(p, h0, pts.take(k), ix, iy),
            pts[k],
            ix,
            iy,
        ),
{
    assert(pts.take(k + 1).drop_last() =~= pts.take(k));
    assert(pts.take(k + 1).last() == pts[k]);
}

/// The whole sequence is its own full prefix.
pub proof fn lemma_carved_height_full(
    p: SimulateMaterialRemovalParams,
    h0: int,
    pts: Seq<ToolpathPoint>,
    ix: int,
    iy: int,
)
    ensures
        carved_height(p, h0, pts.take(pts.len() as int), ix, iy) == carved_height(
            p,
            h0,
            pts,
            ix,
            iy,
        ),
{
    assert(pts.take(pts.len() as int) =~= pts);
}

/// Lexicographic order over kernel offsets, matching the sweep order of the
/// removal loops: all of row `dx0` before row `dx0 + 1`, each row in
/// ascending `dy0`.
pub open spec fn offset_before(dx0: int, dy0: int, dx: int, dy: int) -> bool {
    dx0 < dx || (dx0 == dx && dy0 < dy)
}

/// Exactly one pair `(ix, iy)` in a field of row length `ny` has a given
/// linear index.
pub proof fn lemma_cell_index_injective(ny: int, ax: int, ay: int, bx: int, by0: int)
    requires
        0 <= ay < ny,
        0 <= by0 < ny,
        ax * ny + ay == bx * ny + by0,
    ensures
        ax == bx && ay == by0,
{
    assert(ax == bx && ay == by0) by (nonlinear_arith)
        requires
            0 <= ay < ny,
            0 <= by0 < ny,
            ax * ny + ay == bx * ny + by0,
    ;
}

/// A flat tool no wider than one grid cell touches exactly the cell nearest
/// its tip, where it imposes the tip height itself.
pub proof fn lemma_small_flat_tool_contribution(
    p: SimulateMaterialRemovalParams,
    pt: ToolpathPoint,
    ix: int,
    iy: int,
)
    requires
        params_wf(p),
        p.tool.kind is Flat,
        p.tool.diameter <= p.grid_size,
    ensures
        point_contribution(p, pt, ix, iy) == (if ix == nearest_cell(
            pt.x as int,
            p.origin_x as int,
            p.grid_size as int,
        ) && iy == nearest_cell(pt.y as int, p.origin_y as int, p.grid_size as int) {
            Some(pt.z as int)
        } else {
            Option::<int>::None
        }),
{
    let s = p.grid_size as int;
    let r = tool_radius(p.tool);
    let rc = cdiv(r, s);
    let cx = nearest_cell(pt.x as int, p.origin_x as int, s);
    let cy = nearest_cell(pt.y as int, p.origin_y as int, s);
    let dx = ix - cx;
    let dy = iy - cy;
    assert(0 <= 2 * r <= s);
    assert(0 <= rc <= 1) by {
        vstd::arithmetic::div_mod::lemma_div_is_ordered(r + s - 1, 2 * s - 1, s);
        vstd::arithmetic::div_mod::lemma_fundamental_div_mod(2 * s - 1, s);
        vstd::arithmetic::div_mod::lemma_mod_bound(2 * s - 1, s);
        assert((2 * s - 1) / s <= 1) by (nonlinear_arith)
            requires
                1 <= s,
                2 * s - 1 == s * ((2 * s - 1) / s) + (2 * s - 1) % s,
                0 <= (2 * s - 1) % s < s,
        ;
        vstd::arithmetic::div_mod::lemma_div_pos_is_pos(r + s - 1, s);
    }
    if dx == 0 && dy == 0 {
        assert(0 <= r * r) by (nonlinear_arith);
        assert(tool_offset(p.tool, (0 * s) * (0 * s) + (0 * s) * (0 * s)) == Some(0int));
    } else if -rc <= dx <= rc && -rc <= dy <= rc {
        let d2 = (dx * s) * (dx * s) + (dy * s) * (dy * s);
        assert(d2 > r * r) by (nonlinear_arith)
            requires
                0 <= 2 * r <= s,
                -1 <= dx <= 1,
                -1 <= dy <= 1,
                dx != 0 || dy != 0,
                d2 == (dx * s) * (dx * s) + (dy * s) * (dy * s),
                1 <= s,
        ;
        assert(tool_offset(p.tool, d2) is None);
    }
}

/// Carves the stock: every cell ends at the minimum of its prior height and
/// the tool-surface height of every pass whose footprint covers it. Rejects
/// malformed buffer shapes and changes nothing then.
#[verifier::loop_isolation(false)]
pub fn simulate_material_removal(
    heightmap: &mut Vec<i64>,
    params: SimulateMaterialRemovalParams,
    toolpath: &Vec<i64>,
) -> (r: Result<(), ShapeError>)
    requires
        params_wf(params),
        heights_wf(old(heightmap)@),
        coords_wf(toolpath@),
    ensures
        heightmap_result_spec(*old(heightmap), *final(heightmap), params, toolpath@, r),
{
    let h_len = heightmap.len();
    let shape_ok = match params.nx.checked_mul(params.ny) {
        Some(n) => h_len == n,
        None => false,
    };
    if !shape_ok {
        return Err(ShapeError::HeightmapLength);
    }
    if toolpath.len() % 3 != 0 {
        return Err(ShapeError::ToolpathLength);
    }
    let ghost pts = toolpath_points(toolpath@);
    let ghost h_init = heightmap@;
    let kernel = build_tool_kernel(&params.tool, params.grid_size);
    let rc: i64 = kernel.radius_cells;
    let tp_len: usize = toolpath.len();
    let n_pts: usize = tp_len / 3;
    let mut k: usize = 0;
    while k < n_pts
        invariant
            params_wf(params),
            coords_wf(toolpath@),
            kernel_wf(kernel, params.tool),
            kernel.step == params.grid_size,
            rc == kernel.radius_cells,
            toolpath@.len() % 3 == 0,
            toolpath@.len() == tp_len,
            n_pts == toolpath@.len() / 3,
            pts == toolpath_points(toolpath@),
            pts.len() == n_pts,
            k <= n_pts,
            h_init.len() == params.nx * params.ny,
            h_init.len() <= usize::MAX,
            heightmap@.len() == h_init.len(),
            forall|ix: int, iy: int|
                0 <= ix < params.nx && 0 <= iy < params.ny ==> #[trigger] cell_at(
                    heightmap@,
                    params.ny as int,
                    ix,
                    iy,
                ) == carved_height(
                    params,
                    cell_at(h_init, params.ny as int, ix, iy) as int,
                    pts.take(k as int),
                    ix,
                    iy,
                ),
        decreases n_pts - k,
    {
        proof {
            assert(3 * (toolpath@.len() / 3) == toolpath@.len());
            assert(3 * k + 2 < toolpath@.len());
        }
        let x0 = toolpath[3 * k];
        let y0 = toolpath[3 * k + 1];
        let z0 = toolpath[3 * k + 2];
        let ghost pt = pts[k as int];
        proof {
            assert(pt.x == x0 && pt.y == y0 && pt.z == z0);
        }
        let cx = round_div_i64(x0 - params.origin_x, params.grid_size);
        let cy = round_div_i64(y0 - params.origin_y, params.grid_size);
        let ghost g0 = heightmap@;
        if params.tool.kind == ToolKind::Flat && params.tool.diameter <= params.grid_size {
            // fast path: the footprint is a single cell, cut directly to the
            // tip height
            if cx >= 0 && cy >= 0 && (cx as u64) < (params.nx as u64) && (cy as u64) < (
            params.ny as u64) {
                proof {
                    assert(0 <= (cx as int) * (params.ny as int) + (cy as int) && (cx as int) * (
                    params.ny as int) + (cy as int) < params.nx * params.ny) by (nonlinear_arith)
                        requires
                            0 <= cx,
                            0 <= cy,
                            (cx as u64) < (params.nx as u64),
                            (cy as u64) < (params.ny as u64),
                    ;
                }
                let idx = (cx as usize) * params.ny + (cy as usize);
                if heightmap[idx] > z0 {
                    heightmap.set(idx, z0);
                }
            }
            proof {
                assert forall|jx: int, jy: int|
                    0 <= jx < params.nx && 0 <= jy < params.ny implies #[trigger] cell_at(
                    heightmap@,
                    params.ny as int,
                    jx,
                    jy,
                ) == carved_height(
                    params,
                    cell_at(h_init, params.ny as int, jx, jy) as int,
                    pts.take(k + 1),
                    jx,
                    jy,
                ) by {
                    assert(0 <= jx * (params.ny as int) + jy && jx * (params.ny as int) + jy
                        < g0.len()) by (nonlinear_arith)
                        requires
                            0 <= jx < params.nx,
                            0 <= jy < params.ny,
                            g0.len() == params.nx * params.ny,
                    ;
                    lemma_small_flat_tool_contribution(params, pt, jx, jy);
                    if jx == cx && jy == cy {
                        assert((cx as u64) < (params.nx as u64) && (cy as u64) < (
                        params.ny as u64));
                        assert(cell_at(heightmap@, params.ny as int, jx, jy) == (if cell_at(
                            g0,
                            params.ny as int,
                            jx,
                            jy,
                        ) > pt.z {
                            pt.z
                        } else {
                            cell_at(g0, params.ny as int, jx, jy)
                        }));
                    } else {
                        if 0 <= cx < params.nx && 0 <= cy < params.ny {
                            if jx * (params.ny as int) + jy == (cx as int) * (params.ny as int)
                                + (cy as int) {
                                lemma_cell_index_injective(
                                    params.ny as int,
                                    jx,
                                    jy,
                                    cx as int,
                                    cy as int,
                                );
                            }
                        }
                        assert(cell_at(heightmap@, params.ny as int, jx, jy) == cell_at(
                            g0,
                            params.ny as int,
                            jx,
                            jy,
                        ));
                    }
                    lemma_carved_height_step(
                        params,
                        cell_at(h_init, params.ny as int, jx, jy) as int,
                        pts,
                        k as int,
                        jx,
                        jy,
                    );
                }
            }
            k = k + 1;
            continue;
        }
        let mut dx: i64 = -rc;
        while dx <= rc
            invariant
                params_wf(params),
                kernel_wf(kernel, params.tool),
                kernel.step == params.grid_size,
                rc == kernel.radius_cells,
                -rc <= dx <= rc + 1,
                cx == nearest_cell(pt.x as int, params.origin_x as int, params.grid_size as int),
                cy == nearest_cell(pt.y as int, params.origin_y as int, params.grid_size as int),
                -0x200_0000_0000 <= cx <= 0x200_0000_0000,
                -0x200_0000_0000 <= cy <= 0x200_0000_0000,
                -MAX_COORD <= pt.z <= MAX_COORD,
                g0.len() == params.nx * params.ny,
                g0.len() <= usize::MAX,
                heightmap@.len() == g0.len(),
                forall|ix: int, iy: int|
                    0 <= ix < params.nx && 0 <= iy < params.ny ==> #[trigger] cell_at(
                        heightmap@,
                        params.ny as int,
                        ix,
                        iy,
                    ) == (if offset_before(ix - cx, iy - cy, dx as int, -rc as int) {
                        apply_point(
                            params,
                            cell_at(g0, params.ny as int, ix, iy) as int,
                            pt,
                            ix,
                            iy,
                        )
                    } else {
                        cell_at(g0, params.ny as int, ix, iy) as int
                    }),
            decreases rc - dx + 1,
        {
            let mut dy: i64 = -rc;
            while dy <= rc
                invariant
                    params_wf(params),
                    kernel_wf(kernel, params.tool),
                    kernel.step == params.grid_size,
                    rc == kernel.radius_cells,
                    -rc <= dx <= rc,
                    -rc <= dy <= rc + 1,
                    cx == nearest_cell(
                        pt.x as int,
                        params.origin_x as int,
                        params.grid_size as int,
                    ),
                    cy == nearest_cell(
                        pt.y as int,
                        params.origin_y as int,
                        params.grid_size as int,
                    ),
                    -0x200_0000_0000 <= cx <= 0x200_0000_0000,
                    -0x200_0000_0000 <= cy <= 0x200_0000_0000,
                    -MAX_COORD <= pt.z <= MAX_COORD,
                    g0.len() == params.nx * params.ny,
                    g0.len() <= usize::MAX,
                    heightmap@.len() == g0.len(),
                    forall|ix: int, iy: int|
                        0 <= ix < params.nx && 0 <= iy < params.ny ==> #[trigger] cell_at(
                            heightmap@,
                            params.ny as int,
                            ix,
                            iy,
                        ) == (if offset_before(ix - cx, iy - cy, dx as int, dy as int) {
                            apply_point(
                                params,
                                cell_at(g0, params.ny as int, ix, iy) as int,
                                pt,
                                ix,
                                iy,
                            )
                        } else {
                            cell_at(g0, params.ny as int, ix, iy) as int
                        }),
                decreases rc - dy + 1,
            {
                let ix = cx + dx;
                let iy = cy + dy;
                let ghost pre = heightmap@;
                let ghost s = params.grid_size as int;
                let ghost d2 = (dx * s) * (dx * s) + (dy * s) * (dy * s);
                if ix >= 0 && iy >= 0 && (ix as u64) < (params.nx as u64) && (iy as u64) < (
                params.ny as u64) {
                    let ti = (dx + rc) as usize;
                    let tj = (dy + rc) as usize;
                    proof {
                        assert(0 <= d2) by (nonlinear_arith)
                            requires
                                d2 == (dx * s) * (dx * s) + (dy * s) * (dy * s),
                        ;
                        assert(0 <= (ix as int) && (ix as int) < (params.nx as int));
                        assert(0 <= (iy as int) && (iy as int) < (params.ny as int));
                        assert(ti as int == dx + rc && tj as int == dy + rc);
                        assert(0 <= (ti as int) && (ti as int) < kernel.table.len());
                        assert(0 <= (tj as int) && (tj as int) < kernel.table.len());
                        assert(opt_int(kernel.table[ti as int][tj as int]) == tool_offset(
                            params.tool,
                            kernel_d2(rc as int, s, ti as int, tj as int),
                        ));
                        assert(kernel_d2(rc as int, s, ti as int, tj as int) == d2);
                        assert(point_contribution(params, pt, ix as int, iy as int) == (
                        match tool_offset(params.tool, d2) {
                            Some(o) => Some(pt.z + o),
                            None => None,
                        }));
                        assert((ix as int) * (params.ny as int) + (iy as int) < params.nx
                            * params.ny && 0 <= (ix as int) * (params.ny as int) + (iy as int))
                            by (nonlinear_arith)
                            requires
                                0 <= ix,
                                0 <= iy,
                                (ix as u64) < (params.nx as u64),
                                (iy as u64) < (params.ny as u64),
                        ;
                    }
                    let off = kernel.table[ti][tj];
                    match off {
                        Some(o) => {
                            proof {
                                lemma_tool_offset_bounds(params.tool, d2);
                                assert(tool_radius(params.tool) * crate::num::SCALE
                                    <= 0x100_0000_0000i64 * 0x1_0000i64) by (nonlinear_arith)
                                    requires
                                        0 <= tool_radius(params.tool) <= 0x100_0000_0000,
                                ;
                            }
                            let candidate = z0 + o;
                            proof {
                                assert((ix as usize) as int == ix as int);
                                assert((iy as usize) as int == iy as int);
                            }
                            let idx = (ix as usize) * params.ny + (iy as usize);
                            proof {
                                assert(idx as int == (ix as int) * (params.ny as int) + (
                                iy as int));
                                assert(idx < heightmap@.len());
                            }
                            if heightmap[idx] > candidate {
                                heightmap.set(idx, candidate);
                            }
                        },
                        None => {},
                    }
                }
                proof {
                    assert forall|jx: int, jy: int|
                        0 <= jx < params.nx && 0 <= jy < params.ny implies #[trigger] cell_at(
                        heightmap@,
                        params.ny as int,
                        jx,
                        jy,
                    ) == (if offset_before(jx - cx, jy - cy, dx as int, dy + 1) {
                        apply_point(
                            params,
                            cell_at(g0, params.ny as int, jx, jy) as int,
                            pt,
                            jx,
                            jy,
                        )
                    } else {
                        cell_at(g0, params.ny as int, jx, jy) as int
                    }) by {
                        assert(0 <= jx * (params.ny as int) + jy && jx * (params.ny as int) + jy
                            < g0.len()) by (nonlinear_arith)
                            requires
                                0 <= jx < params.nx,
                                0 <= jy < params.ny,
                                g0.len() == params.nx * params.ny,
                        ;
                        if jx == ix && jy == iy {
                            // the cell this kernel offset touches: the update
                            // above made it apply_point of its prior value
                            assert(cell_at(pre, params.ny as int, jx, jy) == cell_at(
                                g0,
                                params.ny as int,
                                jx,
                                jy,
                            ));
                        } else {
                            // any other cell is untouched this iteration
                            if 0 <= ix < params.nx && 0 <= iy < params.ny {
                                if jx * (params.ny as int) + jy == (ix as int) * (params.ny as int)
                                    + (iy as int) {
                                    lemma_cell_index_injective(
                                        params.ny as int,
                                        jx,
                                        jy,
                                        ix as int,
                                        iy as int,
                                    );
                                }
                            }
                            assert(cell_at(heightmap@, params.ny as int, jx, jy) == cell_at(
                                pre,
                                params.ny as int,
                                jx,
                                jy,
                            ));
                            if jx - cx == dx && jy - cy == dy {
                                assert(jx == cx + dx && jy == cy + dy);
                                assert(false);
                            }
                            assert(offset_before(jx - cx, jy - cy, dx as int, dy + 1)
                                == offset_before(jx - cx, jy - cy, dx as int, dy as int));
                        }
                    }
                }
                dy = dy + 1;
            }
            proof {
                assert forall|jx: int, jy: int|
                    0 <= jx < params.nx && 0 <= jy < params.ny implies #[trigger] cell_at(
                    heightmap@,
                    params.ny as int,
                    jx,
                    jy,
                ) == (if offset_before(jx - cx, jy - cy, dx + 1, -rc as int) {
                    apply_point(params, cell_at(g0, params.ny as int, jx, jy) as int, pt, jx, jy)
                } else {
                    cell_at(g0, params.ny as int, jx, jy) as int
                }) by {
                    if jx - cx == dx && jy - cy > rc {
                        assert(point_contribution(params, pt, jx, jy) is None);
                    } else if jx - cx == dx + 1 && jy - cy < -rc {
                        assert(point_contribution(params, pt, jx, jy) is None);
                    }
                }
            }
            dx = dx + 1;
        }
        proof {
            assert forall|jx: int, jy: int|
                0 <= jx < params.nx && 0 <= jy < params.ny implies #[trigger] cell_at(
                heightmap@,
                params.ny as int,
                jx,
                jy,
            ) == carved_height(
                params,
                cell_at(h_init, params.ny as int, jx, jy) as int,
                pts.take(k + 1),
                jx,
                jy,
            ) by {
                if !offset_before(jx - cx, jy - cy, rc + 1, -rc as int) {
                    assert(point_contribution(params, pt, jx, jy) is None);
                }
                lemma_carved_height_step(
                    params,
                    cell_at(h_init, params.ny as int, jx, jy) as int,
                    pts,
                    k as int,
                    jx,
                    jy,
                );
            }
        }
        k = k + 1;
    }
    proof {
        assert forall|ix: int, iy: int| 0 <= ix < params.nx && 0 <= iy < params.ny implies
            #[trigger] cell_at(heightmap@, params.ny as int, ix, iy) == carved_height(
            params,
            cell_at(h_init, params.ny as int, ix, iy) as int,
            toolpath_points(toolpath@),
            ix,
            iy,
        ) by {
            lemma_carved_height_full(
                params,
                cell_at(h_init, params.ny as int, ix, iy) as int,
                pts,
                ix,
                iy,
            );
        }
    }
    Ok(())
}

/// What `simulate_material_removal` promises of its result: rejection with
/// an untouched field exactly on a malformed shape, and otherwise the
/// pointwise carved field.
pub open spec fn heightmap_result_spec(
    h_old: Vec<i64>,
    h_new: Vec<i64>,
    params: SimulateMaterialRemovalParams,
    toolpath: Seq<i64>,
    r: Result<(), ShapeError>,
) -> bool {
    match r {
        Err(ShapeError::HeightmapLength) => {
            &&& h_old@.len() != params.nx * params.ny
            &&& h_new@ == h_old@
        },
        Err(ShapeError::ToolpathLength) => {
            &&& h_old@.len() == params.nx * params.ny
            &&& toolpath.len() % 3 != 0
            &&& h_new@ == h_old@
        },
        Ok(()) => {
            &&& h_old@.len() == params.nx * params.ny
            &&& toolpath.len() % 3 == 0
            &&& h_new@.len() == h_old@.len()
            &&& forall|ix: int, iy: int|
                0 <= ix < params.nx && 0 <= iy < params.ny ==> #[trigger] cell_at(
                    h_new@,
                    params.ny as int,
                    ix,
                    iy,
                ) == carved_height(
                    params,
                    cell_at(h_old@, params.ny as int, ix, iy) as int,
                    toolpath_points(toolpath),
                    ix,
                    iy,
                )
        },
    }
}

/// The clearance constraint one covered cell imposes on a tool centered
/// over cell `(cx, cy)`: the tool-center height at which the tool surface
/// just touches the stored height at cell offset `(dx, dy)`, or `None` where
/// that cell lies outside the grid, holds no height, or sits outside the
/// tool radius.
pub open spec fn required_z(
    h: Seq<i64>,
    nx: int,
    ny: int,
    gsx: int,
    gsy: int,
    tool: ToolProfile,
    cx: int,
    cy: int,
    dx: int,
    dy: int,
) -> Option<int> {
    let ix = cx + dx;
    let iy = cy + dy;
    if 0 <= ix < nx && 0 <= iy < ny {
        let hv = cell_at(h, ny, ix, iy);
        if hv == UNSET_HEIGHT {
            None
        } else {
            match tool_offset(tool, (dx * gsx) * (dx * gsx) + (dy * gsy) * (dy * gsy)) {
                Some(o) => Some(hv - o),
                None => None,
            }
        }
    } else {
        None
    }
}

/// The highest constraint in kernel row `dx` over the first `cnt` cells
/// starting at `dy = -ry`, folded onto `base`.
pub open spec fn safe_z_row(
    h: Seq<i64>,
    nx: int,
    ny: int,
    gsx: int,
    gsy: int,
    tool: ToolProfile,
    cx: int,
    cy: int,
    dx: int,
    ry: int,
    cnt: nat,
    base: int,
) -> int
    decreases cnt,
{
    if cnt == 0 {
        base
    } else {
        let prev = safe_z_row(h, nx, ny, gsx, gsy, tool, cx, cy, dx, ry, (cnt - 1) as nat, base);
        match required_z(h, nx, ny, gsx, gsy, tool, cx, cy, dx, -ry + cnt - 1) {
            Some(v) => if v > prev {
                v
            } else {
                prev
            },
            None => prev,
        }
    }
}

/// The highest constraint over the first `cnt` kernel rows starting at
/// `dx = -rx`, folded onto `base`.
pub open spec fn safe_z_rows(
    h: Seq<i64>,
    nx: int,
    ny: int,
    gsx: int,
    gsy: int,
    tool: ToolProfile,
    cx: int,
    cy: int,
    rx: int,
    ry: int,
    cnt: nat,
    base: int,
) -> int
    decreases cnt,
{
    if cnt == 0 {
        base
    } else {
        safe_z_row(
            h,
            nx,
            ny,
            gsx,
            gsy,
            tool,
            cx,
            cy,
            -rx + cnt - 1,
            ry,
            (2 * ry + 1) as nat,
            safe_z_rows(h, nx, ny, gsx, gsy, tool, cx, cy, rx, ry, (cnt - 1) as nat, base),
        )
    }
}

/// The highest z at which the tool, centered over the cell nearest
/// `(qx, qy)`, has its surface nowhere below the stored heights under its
/// footprint; the unset sentinel when its footprint covers no held cell.
pub open spec fn safe_z(
    h: Seq<i64>,
    nx: int,
    ny: int,
    gsx: int,
    gsy: int,
    ox: int,
    oy: int,
    tool: ToolProfile,
    qx: int,
    qy: int,
) -> int {
    let cx = nearest_cell(qx, ox, gsx);
    let cy = nearest_cell(qy, oy, gsy);
    let rx = cdiv(tool_radius(tool), gsx);
    let ry = cdiv(tool_radius(tool), gsy);
    safe_z_rows(
        h,
        nx,
        ny,
        gsx,
        gsy,
        tool,
        cx,
        cy,
        rx,
        ry,
        (2 * rx + 1) as nat,
        UNSET_HEIGHT as int,
    )
}

/// Every query coordinate pair is bounded.
pub open spec fn queries_wf(q: Seq<(i64, i64)>) -> bool {
    forall|i: int|
        0 <= i < q.len() ==> -MAX_COORD <= (#[trigger] q[i]).0 <= MAX_COORD && -MAX_COORD
            <= q[i].1 <= MAX_COORD
}

/// Computes, for each planar query point, the highest z at which the tool
/// could be centered without its surface dipping below the current heights
/// anywhere under its footprint; cells the grid does not hold impose no
/// constraint, and a footprint entirely off the grid yields the unset
/// sentinel. Grid cell spacing may differ per axis.
#[verifier::loop_isolation(false)]
pub fn generate_safe_toolpath_grid(
    heightmap: &Vec<i64>,
    nx: usize,
    ny: usize,
    grid_size_x: i64,
    grid_size_y: i64,
    origin_x: i64,
    origin_y: i64,
    tool: &ToolProfile,
    toolpath_xy: &Vec<(i64, i64)>,
) -> (r: Result<Vec<i64>, ShapeError>)
    requires
        1 <= grid_size_x <= MAX_COORD,
        1 <= grid_size_y <= MAX_COORD,
        -MAX_COORD <= origin_x <= MAX_COORD,
        -MAX_COORD <= origin_y <= MAX_COORD,
        tool_wf(*tool),
        cdiv(tool_radius(*tool), grid_size_x as int) <= 0x4000_0000,
        cdiv(tool_radius(*tool), grid_size_y as int) <= 0x4000_0000,
        heights_wf(heightmap@),
        queries_wf(toolpath_xy@),
    ensures
        match r {
            Err(e) => e == ShapeError::HeightmapLength && heightmap@.len() != nx * ny,
            Ok(zs) => {
                &&& heightmap@.len() == nx * ny
                &&& zs@.len() == toolpath_xy@.len()
                &&& forall|i: int|
                    0 <= i < zs@.len() ==> #[trigger] zs@[i] == safe_z(
                        heightmap@,
                        nx as int,
                        ny as int,
                        grid_size_x as int,
                        grid_size_y as int,
                        origin_x as int,
                        origin_y as int,
                        *tool,
                        toolpath_xy@[i].0 as int,
                        toolpath_xy@[i].1 as int,
                    )
            },
        },
{
    let h_len = heightmap.len();
    let shape_ok = match nx.checked_mul(ny) {
        Some(n) => h_len == n,
        None => false,
    };
    if !shape_ok {
        return Err(ShapeError::HeightmapLength);
    }
    let rad: i64 = (tool.diameter as u64 / 2) as i64;
    let rx: i64 = ceil_div_i64(rad, grid_size_x);
    let ry: i64 = ceil_div_i64(rad, grid_size_y);
    proof {
        lemma_kernel_reach(rad as int, grid_size_x as int);
        lemma_kernel_reach(rad as int, grid_size_y as int);
        assert(forall|d: int|
            -rx <= d <= rx ==> -0x400_0000_0000 <= #[trigger] (d * grid_size_x)
                <= 0x400_0000_0000) by (nonlinear_arith)
            requires
                0 <= rx,
                1 <= grid_size_x,
                rx * grid_size_x < 0x200_0000_0000,
        ;
        assert(forall|d: int|
            -ry <= d <= ry ==> -0x400_0000_0000 <= #[trigger] (d * grid_size_y)
                <= 0x400_0000_0000) by (nonlinear_arith)
            requires
                0 <= ry,
                1 <= grid_size_y,
                ry * grid_size_y < 0x200_0000_0000,
        ;
    }
    let mut safe_zs: Vec<i64> = Vec::new();
    let n_q = toolpath_xy.len();
    let mut qi: usize = 0;
    while qi < n_q
        invariant
            qi <= n_q,
            safe_zs@.len() == qi,
            forall|i: int|
                0 <= i < qi ==> #[trigger] safe_zs@[i] == safe_z(
                    heightmap@,
                    nx as int,
                    ny as int,
                    grid_size_x as int,
                    grid_size_y as int,
                    origin_x as int,
                    origin_y as int,
                    *tool,
                    toolpath_xy@[i].0 as int,
                    toolpath_xy@[i].1 as int,
                ),
        decreases n_q - qi,
    {
        let q = toolpath_xy[qi];
        let cx = round_div_i64(q.0 - origin_x, grid_size_x);
        let cy = round_div_i64(q.1 - origin_y, grid_size_y);
        let mut best: i64 = UNSET_HEIGHT;
        let mut dx: i64 = -rx;
        while dx <= rx
            invariant
                -rx <= dx <= rx + 1,
                cx == nearest_cell(q.0 as int, origin_x as int, grid_size_x as int),
                cy == nearest_cell(q.1 as int, origin_y as int, grid_size_y as int),
                best as int == safe_z_rows(
                    heightmap@,
                    nx as int,
                    ny as int,
                    grid_size_x as int,
                    grid_size_y as int,
                    *tool,
                    cx as int,
                    cy as int,
                    rx as int,
                    ry as int,
                    (dx + rx) as nat,
                    UNSET_HEIGHT as int,
                ),
            decreases rx - dx + 1,
        {
            let mut dy: i64 = -ry;
            let ghost row_base = best as int;
            while dy <= ry
                invariant
                    -rx <= dx <= rx,
                    -ry <= dy <= ry + 1,
                    cx == nearest_cell(q.0 as int, origin_x as int, grid_size_x as int),
                    cy == nearest_cell(q.1 as int, origin_y as int, grid_size_y as int),
                    row_base == safe_z_rows(
                        heightmap@,
                        nx as int,
                        ny as int,
                        grid_size_x as int,
                        grid_size_y as int,
                        *tool,
                        cx as int,
                        cy as int,
                        rx as int,
                        ry as int,
                        (dx + rx) as nat,
                        UNSET_HEIGHT as int,
                    ),
                    best as int == safe_z_row(
                        heightmap@,
                        nx as int,
                        ny as int,
                        grid_size_x as int,
                        grid_size_y as int,
                        *tool,
                        cx as int,
                        cy as int,
                        dx as int,
                        ry as int,
                        (dy + ry) as nat,
                        row_base,
                    ),
                decreases ry - dy + 1,
            {
                let ix = cx + dx;
                let iy = cy + dy;
                let ghost d2 = ((dx * grid_size_x) * (dx * grid_size_x) + (dy * grid_size_y) * (
                dy * grid_size_y)) as int;
                if ix >= 0 && iy >= 0 && (ix as u64) < (nx as u64) && (iy as u64) < (ny as u64) {
                    proof {
                        assert(0 <= (ix as int) * (ny as int) + (iy as int) && (ix as int) * (
                        ny as int) + (iy as int) < nx * ny) by (nonlinear_arith)
                            requires
                                0 <= ix,
                                0 <= iy,
                                (ix as u64) < (nx as u64),
                                (iy as u64) < (ny as u64),
                        ;
                    }
                    let idx = (ix as usize) * ny + (iy as usize);
                    let hv = heightmap[idx];
                    if hv != UNSET_HEIGHT {
                        let off = compute_tool_offset(tool, dx * grid_size_x, dy * grid_size_y);
                        match off {
                            Some(o) => {
                                proof {
                                    assert(0 <= d2) by (nonlinear_arith)
                                        requires
                                            d2 == (dx * grid_size_x) * (dx * grid_size_x) + (dy
                                                * grid_size_y) * (dy * grid_size_y),
                                    ;
                                    lemma_tool_offset_bounds(*tool, d2);
                                    assert(tool_radius(*tool) * crate::num::SCALE
                                        <= 0x100_0000_0000i64 * 0x1_0000i64) by (nonlinear_arith)
                                        requires
                                            0 <= tool_radius(*tool) <= 0x100_0000_0000,
                                    ;
                                }
                                let req = hv - o;
                                proof {
                                    assert(required_z(
                                        heightmap@,
                                        nx as int,
                                        ny as int,
                                        grid_size_x as int,
                                        grid_size_y as int,
                                        *tool,
                                        cx as int,
                                        cy as int,
                                        dx as int,
                                        dy as int,
                                    ) == Some(req as int));
                                }
                                if req > best {
                                    best = req;
                                }
                            },
                            None => {},
                        }
                    }
                }
                dy = dy + 1;
            }
            dx = dx + 1;
        }
        safe_zs.push(best);
        qi = qi + 1;
    }
    Ok(safe_zs)
}

/// The square-cell form of the clearance query: one spacing serves both
/// axes.
pub fn generate_safe_toolpath(
    heightmap: &Vec<i64>,
    nx: usize,
    ny: usize,
    grid_size: i64,
    origin_x: i64,
    origin_y: i64,
    tool: &ToolProfile,
    toolpath_xy: &Vec<(i64, i64)>,
) -> (r: Result<Vec<i64>, ShapeError>)
    requires
        1 <= grid_size <= MAX_COORD,
        -MAX_COORD <= origin_x <= MAX_COORD,
        -MAX_COORD <= origin_y <= MAX_COORD,
        tool_wf(*tool),
        cdiv(tool_radius(*tool), grid_size as int) <= 0x4000_0000,
        heights_wf(heightmap@),
        queries_wf(toolpath_xy@),
    ensures
        match r {
            Err(e) => e == ShapeError::HeightmapLength && heightmap@.len() != nx * ny,
            Ok(zs) => {
                &&& heightmap@.len() == nx * ny
                &&& zs@.len() == toolpath_xy@.len()
                &&& forall|i: int|
                    0 <= i < zs@.len() ==> #[trigger] zs@[i] == safe_z(
                        heightmap@,
                        nx as int,
                        ny as int,
                        grid_size as int,
                        grid_size as int,
                        origin_x as int,
                        origin_y as int,
                        *tool,
                        toolpath_xy@[i].0 as int,
                        toolpath_xy@[i].1 as int,
                    )
            },
        },
{
    generate_safe_toolpath_grid(
        heightmap,
        nx,
        ny,
        grid_size,
        grid_size,
        origin_x,
        origin_y,
        tool,
        toolpath_xy,
    )
}

/// Monotonicity: a removal run can only lower a cell, never raise it,
/// whatever the tool kind and whatever the toolpath.
pub proof fn lemma_carving_monotonic(
    p: SimulateMaterialRemovalParams,
    h0: int,
    pts: Seq<ToolpathPoint>,
    ix: int,
    iy: int,
)
    ensures
        carved_height(p, h0, pts, ix, iy) <= h0,
    decreases pts.len(),
{
    if pts.len() == 0 {
    } else {
        lemma_carving_monotonic(p, h0, pts.drop_last(), ix, iy);
    }
}

/// Order independence: toolpaths holding the same points in any order carve
/// every cell to the same final height.
pub proof fn lemma_carving_order_independent(
    p: SimulateMaterialRemovalParams,
    h0: int,
    pts1: Seq<ToolpathPoint>,
    pts2: Seq<ToolpathPoint>,
    ix: int,
    iy: int,
)
    requires
        pts1.to_multiset() == pts2.to_multiset(),
    ensures
        carved_height(p, h0, pts1, ix, iy) == carved_height(p, h0, pts2, ix, iy),
{
    let f = carve_step(p, ix, iy);
    assert forall|x: ToolpathPoint, y: ToolpathPoint, v: int| #[trigger] f(f(v, x), y) == f(
        f(v, y),
        x,
    ) by {
        assert(f(f(v, x), y) == apply_point(p, apply_point(p, v, x, ix, iy), y, ix, iy));
        assert(f(f(v, y), x) == apply_point(p, apply_point(p, v, y, ix, iy), x, ix, iy));
    }
    assert(vstd::seq_lib::commutative_foldl(f));
    vstd::seq_lib::lemma_fold_left_permutation(pts1, pts2, f, h0);
}

/// World x of the center of grid column `ix`.
pub open spec fn cell_world_x(p: SimulateMaterialRemovalParams, ix: int) -> int {
    p.origin_x + ix * p.grid_size
}

/// World y of the center of grid row `iy`.
pub open spec fn cell_world_y(p: SimulateMaterialRemovalParams, iy: int) -> int {
    p.origin_y + iy * p.grid_size
}

/// A pass whose point lies farther from a cell's center than the tool radius
/// plus one cell spacing leaves that cell alone. (The extra spacing absorbs
/// the rounding of the tool center to its nearest cell.)
pub proof fn lemma_far_point_no_contribution(
    p: SimulateMaterialRemovalParams,
    pt: ToolpathPoint,
    ix: int,
    iy: int,
)
    requires
        params_wf(p),
        -MAX_COORD <= pt.x <= MAX_COORD,
        -MAX_COORD <= pt.y <= MAX_COORD,
        (cell_world_x(p, ix) - pt.x) * (cell_world_x(p, ix) - pt.x) + (cell_world_y(p, iy)
            - pt.y) * (cell_world_y(p, iy) - pt.y) > (tool_radius(p.tool) + p.grid_size) * (
        tool_radius(p.tool) + p.grid_size),
    ensures
        point_contribution(p, pt, ix, iy) is None,
{
    let s = p.grid_size as int;
    let r = tool_radius(p.tool);
    let cx = nearest_cell(pt.x as int, p.origin_x as int, s);
    let cy = nearest_cell(pt.y as int, p.origin_y as int, s);
    let dx = ix - cx;
    let dy = iy - cy;
    if point_contribution(p, pt, ix, iy) is Some {
        let a = dx * s;
        let b = dy * s;
        assert(a * a + b * b <= r * r);
        lemma_rdiv_error(pt.x - p.origin_x, s);
        lemma_rdiv_error(pt.y - p.origin_y, s);
        let e1 = (pt.x - p.origin_x) - cx * s;
        let e2 = (pt.y - p.origin_y) - cy * s;
        assert(cell_world_x(p, ix) - pt.x == a - e1) by (nonlinear_arith)
            requires
                e1 == (pt.x - p.origin_x) - cx * s,
                a == (ix - cx) * s,
                cell_world_x(p, ix) == p.origin_x + ix * s,
        ;
        assert(cell_world_y(p, iy) - pt.y == b - e2) by (nonlinear_arith)
            requires
                e2 == (pt.y - p.origin_y) - cy * s,
                b == (iy - cy) * s,
                cell_world_y(p, iy) == p.origin_y + iy * s,
        ;
        assert(-r <= a <= r && -r <= b <= r) by (nonlinear_arith)
            requires
                a * a + b * b <= r * r,
                0 <= r,
        ;
        assert(4 * ((a - e1) * (a - e1)) <= 4 * (a * a) + 4 * (r * s) + s * s) by (nonlinear_arith)
            requires
                -r <= a <= r,
                -s <= 2 * e1 <= s,
                0 <= r,
                1 <= s,
        ;
        assert(4 * ((b - e2) * (b - e2)) <= 4 * (b * b) + 4 * (r * s) + s * s) by (nonlinear_arith)
            requires
                -r <= b <= r,
                -s <= 2 * e2 <= s,
                0 <= r,
                1 <= s,
        ;
        assert(4 * ((r + s) * (r + s)) == 4 * (r * r) + 8 * (r * s) + 4 * (s * s))
            by (nonlinear_arith);
        assert(1 <= s * s) by (nonlinear_arith)
            requires
                1 <= s,
        ;
        assert(4 * (a * a) + 4 * (b * b) <= 4 * (r * r));
        assert(4 * ((a - e1) * (a - e1)) + 4 * ((b - e2) * (b - e2)) < 4 * ((r + s) * (r + s)));
        assert((a - e1) * (a - e1) + (b - e2) * (b - e2) < (r + s) * (r + s));
        assert((cell_world_x(p, ix) - pt.x) * (cell_world_x(p, ix) - pt.x) == (a - e1) * (a
            - e1));
        assert((cell_world_y(p, iy) - pt.y) * (cell_world_y(p, iy) - pt.y) == (b - e2) * (b
            - e2));
        assert(false);
    }
}

/// Untouched-cell invariance: a cell whose center lies farther than the tool
/// radius plus one cell spacing from every toolpath point keeps its height.
pub proof fn lemma_untouched_cell(
    p: SimulateMaterialRemovalParams,
    h0: int,
    pts: Seq<ToolpathPoint>,
    ix: int,
    iy: int,
)
    requires
        params_wf(p),
        forall|k: int|
            0 <= k < pts.len() ==> -MAX_COORD <= (#[trigger] pts[k]).x <= MAX_COORD && -MAX_COORD
                <= pts[k].y <= MAX_COORD,
        forall|k: int|
            0 <= k < pts.len() ==> (cell_world_x(p, ix) - (#[trigger] pts[k]).x) * (cell_world_x(
                p,
                ix,
            ) - pts[k].x) + (cell_world_y(p, iy) - pts[k].y) * (cell_world_y(p, iy) - pts[k].y)
                > (tool_radius(p.tool) + p.grid_size) * (tool_radius(p.tool) + p.grid_size),
    ensures
        carved_height(p, h0, pts, ix, iy) == h0,
    decreases pts.len(),
{
    if pts.len() == 0 {
    } else {
        lemma_untouched_cell(p, h0, pts.drop_last(), ix, iy);
        lemma_far_point_no_contribution(p, pts.last(), ix, iy);
    }
}

/// A row maximum is at least its base.
proof fn lemma_safe_z_row_ge_base(
    h: Seq<i64>,
    nx: int,
    ny: int,
    gsx: int,
    gsy: int,
    tool: ToolProfile,
    cx: int,
    cy: int,
    dx: int,
    ry: int,
    cnt: nat,
    base: int,
)
    ensures
        safe_z_row(h, nx, ny, gsx, gsy, tool, cx, cy, dx, ry, cnt, base) >= base,
    decreases cnt,
{
    if cnt > 0 {
        lemma_safe_z_row_ge_base(h, nx, ny, gsx, gsy, tool, cx, cy, dx, ry, (cnt - 1) as nat, base);
    }
}

/// A row maximum dominates every constraint among the cells it covers.
proof fn lemma_safe_z_row_dominates(
    h: Seq<i64>,
    nx: int,
    ny: int,
    gsx: int,
    gsy: int,
    tool: ToolProfile,
    cx: int,
    cy: int,
    dx: int,
    ry: int,
    cnt: nat,
    base: int,
    dy: int,
)
    requires
        -ry <= dy,
        dy < -ry + cnt,
        required_z(h, nx, ny, gsx, gsy, tool, cx, cy, dx, dy) is Some,
    ensures
        safe_z_row(h, nx, ny, gsx, gsy, tool, cx, cy, dx, ry, cnt, base) >= required_z(
            h,
            nx,
            ny,
            gsx,
            gsy,
            tool,
            cx,
            cy,
            dx,
            dy,
        )->Some_0,
    decreases cnt,
{
    if dy == -ry + cnt - 1 {
    } else {
        lemma_safe_z_row_dominates(
            h,
            nx,
            ny,
            gsx,
            gsy,
            tool,
            cx,
            cy,
            dx,
            ry,
            (cnt - 1) as nat,
            base,
            dy,
        );
    }
}

/// The folded rows' maximum is at least its base.
proof fn lemma_safe_z_rows_ge_base(
    h: Seq<i64>,
    nx: int,
    ny: int,
    gsx: int,
    gsy: int,
    tool: ToolProfile,
    cx: int,
    cy: int,
    rx: int,
    ry: int,
    cnt: nat,
    base: int,
)
    ensures
        safe_z_rows(h, nx, ny, gsx, gsy, tool, cx, cy, rx, ry, cnt, base) >= base,
    decreases cnt,
{
    if cnt > 0 {
        lemma_safe_z_rows_ge_base(
            h,
            nx,
            ny,
            gsx,
            gsy,
            tool,
            cx,
            cy,
            rx,
            ry,
            (cnt - 1) as nat,
            base,
        );
        lemma_safe_z_row_ge_base(
            h,
            nx,
            ny,
            gsx,
            gsy,
            tool,
            cx,
            cy,
            -rx + cnt - 1,
            ry,
            (2 * ry + 1) as nat,
            safe_z_rows(h, nx, ny, gsx, gsy, tool, cx, cy, rx, ry, (cnt - 1) as nat, base),
        );
    }
}

/// The clearance height dominates the constraint of every covered cell under
/// the footprint.
pub proof fn lemma_safe_z_dominates(
    h: Seq<i64>,
    nx: int,
    ny: int,
    gsx: int,
    gsy: int,
    ox: int,
    oy: int,
    tool: ToolProfile,
    qx: int,
    qy: int,
    dx: int,
    dy: int,
)
    requires
        -cdiv(tool_radius(tool), gsx) <= dx <= cdiv(tool_radius(tool), gsx),
        -cdiv(tool_radius(tool), gsy) <= dy <= cdiv(tool_radius(tool), gsy),
        required_z(
            h,
            nx,
            ny,
            gsx,
            gsy,
            tool,
            nearest_cell(qx, ox, gsx),
            nearest_cell(qy, oy, gsy),
            dx,
            dy,
        ) is Some,
    ensures
        safe_z(h, nx, ny, gsx, gsy, ox, oy, tool, qx, qy) >= required_z(
            h,
            nx,
            ny,
            gsx,
            gsy,
            tool,
            nearest_cell(qx, ox, gsx),
            nearest_cell(qy, oy, gsy),
            dx,
            dy,
        )->Some_0,
    decreases cdiv(tool_radius(tool), gsx) - dx,
{
    let cx = nearest_cell(qx, ox, gsx);
    let cy = nearest_cell(qy, oy, gsy);
    let rx = cdiv(tool_radius(tool), gsx);
    let ry = cdiv(tool_radius(tool), gsy);
    let v = required_z(h, nx, ny, gsx, gsy, tool, cx, cy, dx, dy)->Some_0;
    // peel rows above dx off the fold; the row holding dx dominates v, and
    // every later row only raises the maximum
    lemma_safe_z_rows_dominates(h, nx, ny, gsx, gsy, tool, cx, cy, rx, ry, (2 * rx + 1) as nat,
        UNSET_HEIGHT as int, dx, dy);
}

/// Within the first `cnt` rows, the folded maximum dominates any constraint
/// of a covered cell.
proof fn lemma_safe_z_rows_dominates(
    h: Seq<i64>,
    nx: int,
    ny: int,
    gsx: int,
    gsy: int,
    tool: ToolProfile,
    cx: int,
    cy: int,
    rx: int,
    ry: int,
    cnt: nat,
    base: int,
    dx: int,
    dy: int,
)
    requires
        -rx <= dx,
        dx < -rx + cnt,
        -ry <= dy <= ry,
        required_z(h, nx, ny, gsx, gsy, tool, cx, cy, dx, dy) is Some,
    ensures
        safe_z_rows(h, nx, ny, gsx, gsy, tool, cx, cy, rx, ry, cnt, base) >= required_z(
            h,
            nx,
            ny,
            gsx,
            gsy,
            tool,
            cx,
            cy,
            dx,
            dy,
        )->Some_0,
    decreases cnt,
{
    let prev = safe_z_rows(h, nx, ny, gsx, gsy, tool, cx, cy, rx, ry, (cnt - 1) as nat, base);
    if dx == -rx + cnt - 1 {
        lemma_safe_z_row_dominates(
            h,
            nx,
            ny,
            gsx,
            gsy,
            tool,
            cx,
            cy,
            dx,
            ry,
            (2 * ry + 1) as nat,
            prev,
            dy,
        );
    } else {
        lemma_safe_z_rows_dominates(
            h,
            nx,
            ny,
            gsx,
            gsy,
            tool,
            cx,
            cy,
            rx,
            ry,
            (cnt - 1) as nat,
            base,
            dx,
            dy,
        );
        lemma_safe_z_row_ge_base(
            h,
            nx,
            ny,
            gsx,
            gsy,
            tool,
            cx,
            cy,
            -rx + cnt - 1,
            ry,
            (2 * ry + 1) as nat,
            prev,
        );
    }
}

/// Safe-toolpath lower bound: the clearance height of a flat or ball tool is
/// at least the held height of any in-grid cell within the tool radius of
/// its footprint, less one tool radius.
pub proof fn lemma_safe_z_lower_bound(
    h: Seq<i64>,
    nx: int,
    ny: int,
    gsx: int,
    gsy: int,
    ox: int,
    oy: int,
    tool: ToolProfile,
    qx: int,
    qy: int,
    dx: int,
    dy: int,
)
    requires
        1 <= gsx,
        1 <= gsy,
        tool_wf(tool),
        !(tool.kind is VBit),
        (dx * gsx) * (dx * gsx) + (dy * gsy) * (dy * gsy) <= tool_radius(tool) * tool_radius(
            tool,
        ),
        0 <= nearest_cell(qx, ox, gsx) + dx < nx,
        0 <= nearest_cell(qy, oy, gsy) + dy < ny,
        cell_at(h, ny, nearest_cell(qx, ox, gsx) + dx, nearest_cell(qy, oy, gsy) + dy)
            != UNSET_HEIGHT,
    ensures
        safe_z(h, nx, ny, gsx, gsy, ox, oy, tool, qx, qy) >= cell_at(
            h,
            ny,
            nearest_cell(qx, ox, gsx) + dx,
            nearest_cell(qy, oy, gsy) + dy,
        ) - tool_radius(tool),
{
    let cx = nearest_cell(qx, ox, gsx);
    let cy = nearest_cell(qy, oy, gsy);
    let r = tool_radius(tool);
    let d2 = (dx * gsx) * (dx * gsx) + (dy * gsy) * (dy * gsy);
    assert(0 <= d2) by (nonlinear_arith)
        requires
            d2 == (dx * gsx) * (dx * gsx) + (dy * gsy) * (dy * gsy),
    ;
    lemma_tool_offset_le_radius(tool, d2);
    let o = tool_offset(tool, d2)->Some_0;
    assert(-r <= dx * gsx <= r && -r <= dy * gsy <= r) by (nonlinear_arith)
        requires
            d2 == (dx * gsx) * (dx * gsx) + (dy * gsy) * (dy * gsy),
            d2 <= r * r,
            0 <= r,
    ;
    assert(-cdiv(r, gsx) <= dx <= cdiv(r, gsx)) by {
        lemma_kernel_reach(r, gsx);
        assert(-(cdiv(r, gsx) * gsx) <= dx * gsx <= cdiv(r, gsx) * gsx ==> -cdiv(r, gsx) <= dx
            <= cdiv(r, gsx)) by (nonlinear_arith)
            requires
                1 <= gsx,
        ;
    }
    assert(-cdiv(r, gsy) <= dy <= cdiv(r, gsy)) by {
        lemma_kernel_reach(r, gsy);
        assert(-(cdiv(r, gsy) * gsy) <= dy * gsy <= cdiv(r, gsy) * gsy ==> -cdiv(r, gsy) <= dy
            <= cdiv(r, gsy)) by (nonlinear_arith)
            requires
                1 <= gsy,
        ;
    }
    lemma_safe_z_dominates(h, nx, ny, gsx, gsy, ox, oy, tool, qx, qy, dx, dy);
}

/// Non-gouging: a removal run whose every point stays at or above its
/// clearance height, as queried against the field being carved, leaves every
/// cell of that field unchanged.
pub proof fn lemma_safe_heights_do_not_gouge(
    p: SimulateMaterialRemovalParams,
    h: Seq<i64>,
    pts: Seq<ToolpathPoint>,
    ix: int,
    iy: int,
)
    requires
        params_wf(p),
        heights_wf(h),
        h.len() == p.nx * p.ny,
        0 <= ix < p.nx,
        0 <= iy < p.ny,
        forall|k: int|
            0 <= k < pts.len() ==> -MAX_COORD <= (#[trigger] pts[k]).z <= MAX_COORD,
        forall|k: int|
            0 <= k < pts.len() ==> (#[trigger] pts[k]).z >= safe_z(
                h,
                p.nx as int,
                p.ny as int,
                p.grid_size as int,
                p.grid_size as int,
                p.origin_x as int,
                p.origin_y as int,
                p.tool,
                pts[k].x as int,
                pts[k].y as int,
            ),
    ensures
        carved_height(p, cell_at(h, p.ny as int, ix, iy) as int, pts, ix, iy) == cell_at(
            h,
            p.ny as int,
            ix,
            iy,
        ),
    decreases pts.len(),
{
    let hv = cell_at(h, p.ny as int, ix, iy) as int;
    assert(0 <= ix * (p.ny as int) + iy < h.len()) by (nonlinear_arith)
        requires
            0 <= ix < p.nx,
            0 <= iy < p.ny,
            h.len() == p.nx * p.ny,
    ;
    if pts.len() == 0 {
    } else {
        lemma_safe_heights_do_not_gouge(p, h, pts.drop_last(), ix, iy);
        let pt = pts.last();
        let s = p.grid_size as int;
        let cx = nearest_cell(pt.x as int, p.origin_x as int, s);
        let cy = nearest_cell(pt.y as int, p.origin_y as int, s);
        match point_contribution(p, pt, ix, iy) {
            None => {},
            Some(v) => {
                let dx = ix - cx;
                let dy = iy - cy;
                let d2 = (dx * s) * (dx * s) + (dy * s) * (dy * s);
                assert(0 <= d2) by (nonlinear_arith)
                    requires
                        d2 == (dx * s) * (dx * s) + (dy * s) * (dy * s),
                ;
                lemma_tool_offset_bounds(p.tool, d2);
                let o = tool_offset(p.tool, d2)->Some_0;
                assert(v == pt.z + o);
                if hv == UNSET_HEIGHT as int {
                    assert(v >= pt.z);
                    assert(v >= UNSET_HEIGHT);
                } else {
                    assert(required_z(
                        h,
                        p.nx as int,
                        p.ny as int,
                        s,
                        s,
                        p.tool,
                        cx,
                        cy,
                        dx,
                        dy,
                    ) == Some(hv - o));
                    lemma_safe_z_dominates(
                        h,
                        p.nx as int,
                        p.ny as int,
                        s,
                        s,
                        p.origin_x as int,
                        p.origin_y as int,
                        p.tool,
                        pt.x as int,
                        pt.y as int,
                        dx,
                        dy,
                    );
                    assert(pt.z >= hv - o);
                }
            },
        }
    }
}

} // verus!
