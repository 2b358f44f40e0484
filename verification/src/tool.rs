//! Tool geometry: the three cutter kinds and the height-offset function that
//! describes how far below the tool's tip its cutting surface sits at a given
//! planar distance from the tool axis, plus the precomputed per-cell lookup
//! table ("kernel") shared by material removal and clearance queries.

use vstd::prelude::*;

verus! {

use crate::num::{
    SCALE, MAX_COORD, cdiv, sqrt_floor, isqrt_u128, ceil_div_i64, lemma_sqrt_floor_bounds,
    lemma_sqrt_floor_monotonic, lemma_sqrt_floor_square,
};

/// The three cutter geometries.
#[derive(Clone, Copy, PartialEq, Eq, Structural, Debug)]
pub enum ToolKind {
    /// Flat-bottomed cylinder.
    Flat,
    /// Hemispherical (ball-nose) tip.
    Ball,
    /// Conical engraving tip.
    VBit,
}

/// Immutable description of a cutter: its kind, its diameter in ticks, and
/// (read only for a v-bit) the tangent of half its included angle, scaled by
/// `SCALE`. A v-bit whose tangent is zero or negative is degenerate and cuts
/// nothing rather than cutting unboundedly deep.
#[derive(Clone, Copy, PartialEq, Eq, Structural, Debug)]
pub struct ToolProfile {
    pub kind: ToolKind,
    pub diameter: i64,
    pub tan_half_angle: i64,
}

pub open spec fn tool_wf(t: ToolProfile) -> bool {
    &&& 0 <= t.diameter <= MAX_COORD
    &&& -MAX_COORD <= t.tan_half_angle <= MAX_COORD
}

/// The tool radius in ticks.
pub open spec fn tool_radius(t: ToolProfile) -> int {
    t.diameter as int / 2
}

/// How far below the tip the cutting surface sits at squared planar distance
/// `d2` from the tool axis: `None` outside the tool radius (no contribution),
/// otherwise a nonnegative offset in ticks.
pub open spec fn tool_offset(t: ToolProfile, d2: int) -> Option<int> {
    let r = tool_radius(t);
    if d2 > r * r {
        None
    } else {
        match t.kind {
            ToolKind::Flat => Some(0),
            ToolKind::Ball => Some(r - sqrt_floor((r * r - d2) as nat)),
            ToolKind::VBit => if t.tan_half_angle >= 1 {
                Some(sqrt_floor(d2 as nat) * (SCALE as int) / (t.tan_half_angle as int))
            } else {
                None
            },
        }
    }
}

/// A tool never cuts above its own tip, and never deeper below the tip than
/// `radius * SCALE` ticks.
pub proof fn lemma_tool_offset_bounds(t: ToolProfile, d2: int)
    requires
        tool_wf(t),
        0 <= d2,
        tool_offset(t, d2) is Some,
    ensures
        0 <= tool_offset(t, d2)->Some_0 <= tool_radius(t) * SCALE,
{
    let r = tool_radius(t);
    assert(0 <= r <= MAX_COORD);
    assert(SCALE >= 1);
    assert(r <= r * SCALE) by (nonlinear_arith)
        requires
            0 <= r,
            1 <= SCALE,
    ;
    match t.kind {
        ToolKind::Flat => {
            assert(0 <= r * SCALE) by (nonlinear_arith)
                requires
                    0 <= r,
                    1 <= SCALE,
            ;
        },
        ToolKind::Ball => {
            let s = sqrt_floor((r * r - d2) as nat);
            lemma_sqrt_floor_bounds((r * r - d2) as nat);
            lemma_sqrt_floor_monotonic((r * r - d2) as nat, (r * r) as nat);
            assert(sqrt_floor((r * r) as nat) == r) by {
                assert((r * r) as nat == (r as nat) * (r as nat)) by (nonlinear_arith)
                    requires
                        0 <= r,
                ;
                lemma_sqrt_floor_square(r as nat);
            }
            assert(s <= r);
        },
        ToolKind::VBit => {
            let tan = t.tan_half_angle as int;
            let d = sqrt_floor(d2 as nat);
            assert(sqrt_floor((r * r) as nat) == r) by {
                assert((r * r) as nat == (r as nat) * (r as nat)) by (nonlinear_arith)
                    requires
                        0 <= r,
                ;
                lemma_sqrt_floor_square(r as nat);
            }
            lemma_sqrt_floor_monotonic(d2 as nat, (r * r) as nat);
            assert(d <= r);
            let o = d * (SCALE as int) / tan;
            assert(0 <= o <= d * SCALE) by (nonlinear_arith)
                requires
                    0 <= d,
                    1 <= tan,
                    o == d * (SCALE as int) / tan,
            ;
            assert(d * SCALE <= r * SCALE) by (nonlinear_arith)
                requires
                    0 <= d <= r,
                    1 <= SCALE,
            ;
        },
    }
}

/// A flat or ball cutter's surface never sits more than one radius below
/// its tip.
pub proof fn lemma_tool_offset_le_radius(t: ToolProfile, d2: int)
    requires
        tool_wf(t),
        0 <= d2,
        !(t.kind is VBit),
        tool_offset(t, d2) is Some,
    ensures
        0 <= tool_offset(t, d2)->Some_0 <= tool_radius(t),
{
    let r = tool_radius(t);
    if t.kind is Ball {
        let s = sqrt_floor((r * r - d2) as nat);
        lemma_sqrt_floor_monotonic((r * r - d2) as nat, (r * r) as nat);
        assert(sqrt_floor((r * r) as nat) == r) by {
            assert((r * r) as nat == (r as nat) * (r as nat)) by (nonlinear_arith)
                requires
                    0 <= r,
            ;
            lemma_sqrt_floor_square(r as nat);
        }
        assert(s <= r);
    }
}

/// At the tool axis itself the cutting surface is exactly at the tip, for
/// every kind that cuts at all.
pub proof fn lemma_tool_offset_at_center(t: ToolProfile)
    requires
        tool_wf(t),
    ensures
        tool_offset(t, 0) == if t.kind is VBit && t.tan_half_angle < 1 {
            Option::<int>::None
        } else {
            Option::<int>::Some(0)
        },
{
    let r = tool_radius(t);
    assert(0 <= r * r) by (nonlinear_arith)
        requires
            0 <= r,
    ;
    match t.kind {
        ToolKind::Flat => {},
        ToolKind::Ball => {
            assert(sqrt_floor((r * r) as nat) == r) by {
                assert((r * r) as nat == (r as nat) * (r as nat)) by (nonlinear_arith)
                    requires
                        0 <= r,
                ;
                lemma_sqrt_floor_square(r as nat);
            }
        },
        ToolKind::VBit => {
            if t.tan_half_angle >= 1 {
                assert(sqrt_floor(0) == 0);
                assert(0 * (SCALE as int) / (t.tan_half_angle as int) == 0);
            }
        },
    }
}

/// Turns an executable optional offset into its mathematical value.
pub open spec fn opt_int(o: Option<i64>) -> Option<int> {
    match o {
        Some(v) => Some(v as int),
        None => None,
    }
}

/// Computes the tool's height offset at planar offset `(dx, dy)` ticks from
/// its axis.
pub fn compute_tool_offset(t: &ToolProfile, dx: i64, dy: i64) -> (off: Option<i64>)
    requires
        tool_wf(*t),
        -0x400_0000_0000 <= dx <= 0x400_0000_0000,
        -0x400_0000_0000 <= dy <= 0x400_0000_0000,
    ensures
        opt_int(off) == tool_offset(*t, dx * dx + dy * dy),
{
    let r: i64 = (t.diameter as u64 / 2) as i64;
    proof {
        assert(0 <= (dx as i128) * (dx as i128) <= 0x100_0000_0000_0000_0000_0000)
            by (nonlinear_arith)
            requires
                -0x400_0000_0000 <= dx <= 0x400_0000_0000,
        ;
        assert(0 <= (dy as i128) * (dy as i128) <= 0x100_0000_0000_0000_0000_0000)
            by (nonlinear_arith)
            requires
                -0x400_0000_0000 <= dy <= 0x400_0000_0000,
        ;
        assert(0 <= (r as i128) * (r as i128) <= 0x1_0000_0000_0000_0000_0000)
            by (nonlinear_arith)
            requires
                0 <= r <= 0x100_0000_0000,
        ;
        assert(sqrt_floor(((r as i128) * (r as i128)) as nat) == r) by {
            assert(((r as i128) * (r as i128)) as nat == (r as nat) * (r as nat))
                by (nonlinear_arith)
                requires
                    0 <= r,
            ;
            lemma_sqrt_floor_square(r as nat);
        }
    }
    let d2: i128 = (dx as i128) * (dx as i128) + (dy as i128) * (dy as i128);
    let r2: i128 = (r as i128) * (r as i128);
    if d2 > r2 {
        return None;
    }
    match t.kind {
        ToolKind::Flat => Some(0),
        ToolKind::Ball => {
            let s = isqrt_u128((r2 - d2) as u128);
            proof {
                lemma_sqrt_floor_monotonic((r2 - d2) as nat, (r2) as nat);
                assert(s <= r);
            }
            Some(r - s as i64)
        },
        ToolKind::VBit => {
            if t.tan_half_angle >= 1 {
                let d = isqrt_u128(d2 as u128);
                proof {
                    lemma_sqrt_floor_monotonic(d2 as nat, (r2) as nat);
                    assert(d <= r);
                }
                let o = ((d as u128) * (SCALE as u128)) / (t.tan_half_angle as u128);
                proof {
                    assert(o <= (d as int) * (SCALE as int) && (d as int) * (SCALE as int)
                        <= 0x100_0000_0000i128 * 0x1_0000i128) by (nonlinear_arith)
                        requires
                            0 <= d <= 0x100_0000_0000u128,
                            1 <= t.tan_half_angle,
                            o == (d as int) * (SCALE as int) / (t.tan_half_angle as int),
                    ;
                }
                Some(o as i64)
            } else {
                None
            }
        },
    }
}

/// The precomputed footprint of a tool at one grid resolution: entry
/// `table[i][j]` holds the tool's height offset at planar cell offset
/// `(i - radius_cells, j - radius_cells)` from the tool's center cell, or
/// `None` where that cell lies outside the tool radius.
pub struct ToolKernel {
    pub radius_cells: i64,
    pub step: i64,
    pub table: Vec<Vec<Option<i64>>>,
}

/// Squared world distance of kernel entry `(i, j)` from the tool axis, for a
/// kernel of cell radius `rc` on a grid of spacing `step`.
pub open spec fn kernel_d2(rc: int, step: int, i: int, j: int) -> int {
    let x = (i - rc) * step;
    let y = (j - rc) * step;
    x * x + y * y
}

pub open spec fn kernel_wf(k: ToolKernel, t: ToolProfile) -> bool {
    &&& 1 <= k.step <= MAX_COORD
    &&& k.radius_cells == cdiv(tool_radius(t), k.step as int)
    &&& 0 <= k.radius_cells <= 0x4000_0000
    &&& k.table.len() == 2 * k.radius_cells + 1
    &&& (forall|i: int| 0 <= i < k.table.len() ==> (#[trigger] k.table[i]).len() == 2
        * k.radius_cells + 1)
    &&& (forall|i: int, j: int|
        0 <= i < k.table.len() && 0 <= j < k.table.len() ==> opt_int(#[trigger] k.table[i][j])
            == tool_offset(t, kernel_d2(k.radius_cells as int, k.step as int, i, j)))
}

/// A kernel reaches at most one cell beyond the tool radius: its world
/// half-width is below `radius + step`.
pub proof fn lemma_kernel_reach(r: int, step: int)
    requires
        0 <= r,
        1 <= step,
    ensures
        0 <= cdiv(r, step),
        r <= cdiv(r, step) * step < r + step,
{
    let rc = cdiv(r, step);
    assert(0 <= rc && r <= rc * step <= r + step - 1) by (nonlinear_arith)
        requires
            0 <= r,
            1 <= step,
            rc == (r + step - 1) / step,
    ;
}

/// Builds the lookup table for one tool on one grid spacing; it is computed
/// once per call into the simulator and reused across every toolpath point.
pub fn build_tool_kernel(t: &ToolProfile, step: i64) -> (k: ToolKernel)
    requires
        tool_wf(*t),
        1 <= step <= MAX_COORD,
        cdiv(tool_radius(*t), step as int) <= 0x4000_0000,
    ensures
        kernel_wf(k, *t),
        k.step == step,
{
    let r: i64 = (t.diameter as u64 / 2) as i64;
    let rc: i64 = ceil_div_i64(r, step);
    proof {
        lemma_kernel_reach(r as int, step as int);
        assert(forall|d: int|
            -rc <= d <= rc ==> -0x400_0000_0000 <= #[trigger] (d * step) <= 0x400_0000_0000)
            by (nonlinear_arith)
            requires
                0 <= rc,
                1 <= step,
                rc * step < 0x200_0000_0000,
        ;
    }
    let size: usize = (2 * rc + 1) as usize;
    let mut table: Vec<Vec<Option<i64>>> = Vec::new();
    let mut i: usize = 0;
    while i < size
        invariant
            tool_wf(*t),
            1 <= step <= MAX_COORD,
            0 <= rc <= 0x4000_0000,
            rc == cdiv(tool_radius(*t), step as int),
            size == 2 * rc + 1,
            i <= size,
            table.len() == i,
            forall|a: int| 0 <= a < i ==> (#[trigger] table[a]).len() == size,
            forall|a: int, b: int|
                0 <= a < i && 0 <= b < size ==> opt_int(#[trigger] table[a][b]) == tool_offset(
                    *t,
                    kernel_d2(rc as int, step as int, a, b),
                ),
            forall|d: int|
                -rc <= d <= rc ==> -0x400_0000_0000 <= #[trigger] (d * step) <= 0x400_0000_0000,
        decreases size - i,
    {
        let mut row: Vec<Option<i64>> = Vec::new();
        let mut j: usize = 0;
        let dx: i64 = (i as i64 - rc) * step;
        while j < size
            invariant
                tool_wf(*t),
                1 <= step <= MAX_COORD,
                0 <= rc <= 0x4000_0000,
                size == 2 * rc + 1,
                i < size,
                j <= size,
                row.len() == j,
                dx == (i - rc) * step,
                -0x400_0000_0000 <= dx <= 0x400_0000_0000,
                forall|b: int|
                    0 <= b < j ==> opt_int(#[trigger] row[b]) == tool_offset(
                        *t,
                        kernel_d2(rc as int, step as int, i as int, b),
                    ),
                forall|d: int|
                    -rc <= d <= rc ==> -0x400_0000_0000 <= #[trigger] (d * step)
                        <= 0x400_0000_0000,
            decreases size - j,
        {
            let dy: i64 = (j as i64 - rc) * step;
            let off = compute_tool_offset(t, dx, dy);
            row.push(off);
            j = j + 1;
        }
        table.push(row);
        i = i + 1;
    }
    ToolKernel { radius_cells: rc, step, table }
}

} // verus!
