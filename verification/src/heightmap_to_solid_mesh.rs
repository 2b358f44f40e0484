//! Reconstructing a closed triangulated solid from a carved height field: a
//! top surface at the stored heights, a flat bottom at a given base
//! elevation, and side walls around all four grid boundaries, with
//! per-vertex normals accumulated from the faces and normalized to `SCALE`.
//!
//! The top vertices are duplicated for the side walls so the sharp rim does
//! not share normal smoothing with the top surface.

use vstd::prelude::*;

verus! {

use crate::num::{
    SCALE, MAX_COORD, rdiv, cell_at, coords_wf, round_div_i64, isqrt_u128, sqrt_floor,
    lemma_sqrt_floor_bounds, lemma_sqrt_floor_monotonic, lemma_sqrt_floor_square,
    lemma_rdiv_exact_multiple, lemma_cell_flat_roundtrip, lemma_flat_index_split,
};

/// The stock of material: a height field plus its world-space geometry.
#[derive(Debug)]
pub struct Stock {
    pub width: i64,
    pub height: i64,
    pub grid_cells_x: usize,
    pub grid_cells_y: usize,
    pub grid_size_x: i64,
    pub grid_size_y: i64,
    pub origin_x: i64,
    pub origin_y: i64,
    pub heights: Vec<i64>,
}

pub open spec fn stock_wf(s: Stock) -> bool {
    &&& 2 <= s.grid_cells_x <= 0x200_0000_0000
    &&& 2 <= s.grid_cells_y <= 0x200_0000_0000
    &&& s.grid_cells_x * s.grid_cells_y <= usize::MAX
    &&& 1 <= s.grid_size_x <= MAX_COORD
    &&& 1 <= s.grid_size_y <= MAX_COORD
    &&& (s.grid_cells_x - 1) * s.grid_size_x <= 2 * MAX_COORD
    &&& (s.grid_cells_y - 1) * s.grid_size_y <= 2 * MAX_COORD
    &&& -MAX_COORD <= s.origin_x <= MAX_COORD
    &&& -MAX_COORD <= s.origin_y <= MAX_COORD
    &&& s.heights@.len() == s.grid_cells_x * s.grid_cells_y
}

/// World x of grid column `ix`.
pub open spec fn stock_sample_x(s: Stock, ix: int) -> int {
    s.origin_x + ix * s.grid_size_x
}

/// World y of grid row `iy`.
pub open spec fn stock_sample_y(s: Stock, iy: int) -> int {
    s.origin_y + iy * s.grid_size_y
}

/// What `get_height` answers: the stored height of the nearest grid cell,
/// or zero for a point whose nearest cell lies outside the grid.
pub open spec fn get_height_spec(s: Stock, x: int, y: int) -> i64 {
    let ix = rdiv(x - s.origin_x, s.grid_size_x as int);
    let iy = rdiv(y - s.origin_y, s.grid_size_y as int);
    if 0 <= ix < s.grid_cells_x && 0 <= iy < s.grid_cells_y {
        cell_at(s.heights@, s.grid_cells_y as int, ix, iy)
    } else {
        0
    }
}

impl Stock {
    /// The stored height nearest a world position, zero off the grid.
    pub fn get_height(&self, x: i64, y: i64) -> (r: i64)
        requires
            stock_wf(*self),
            -0x400_0000_0000_0000 <= x <= 0x400_0000_0000_0000,
            -0x400_0000_0000_0000 <= y <= 0x400_0000_0000_0000,
        ensures
            r == get_height_spec(*self, x as int, y as int),
    {
        let ix = round_div_i64(x - self.origin_x, self.grid_size_x);
        let iy = round_div_i64(y - self.origin_y, self.grid_size_y);
        if ix < 0 || iy < 0 || (ix as u64) >= (self.grid_cells_x as u64) || (iy as u64) >= (
        self.grid_cells_y as u64) {
            return 0;
        }
        proof {
            assert(0 <= (ix as int) * (self.grid_cells_y as int) + (iy as int) && (ix as int) * (
            self.grid_cells_y as int) + (iy as int) < self.grid_cells_x * self.grid_cells_y)
                by (nonlinear_arith)
                requires
                    0 <= ix,
                    0 <= iy,
                    (ix as u64) < (self.grid_cells_x as u64),
                    (iy as u64) < (self.grid_cells_y as u64),
            ;
        }
        self.heights[(ix as usize) * self.grid_cells_y + (iy as usize)]
    }
}

/// Builds a flat stock: a uniform-height field over a rectangle of the
/// given world size, with the derived per-axis cell spacings.
pub fn create_heightmap_stock(
    width: i64,
    height: i64,
    grid_cells_x: usize,
    grid_cells_y: usize,
    initial_height: i64,
    origin_x: i64,
    origin_y: i64,
) -> (s: Stock)
    requires
        2 <= grid_cells_x <= 0x200_0000_0000,
        2 <= grid_cells_y <= 0x200_0000_0000,
        grid_cells_x * grid_cells_y <= usize::MAX,
        grid_cells_x - 1 <= width <= MAX_COORD,
        grid_cells_y - 1 <= height <= MAX_COORD,
        -MAX_COORD <= initial_height <= MAX_COORD,
        -MAX_COORD <= origin_x <= MAX_COORD,
        -MAX_COORD <= origin_y <= MAX_COORD,
    ensures
        stock_wf(s),
        s.width == width,
        s.height == height,
        s.grid_cells_x == grid_cells_x,
        s.grid_cells_y == grid_cells_y,
        s.grid_size_x as int == rdiv(width as int, grid_cells_x - 1),
        s.grid_size_y as int == rdiv(height as int, grid_cells_y - 1),
        s.origin_x == origin_x,
        s.origin_y == origin_y,
        forall|i: int| 0 <= i < s.heights@.len() ==> #[trigger] s.heights@[i] == initial_height,
{
    let grid_size_x = round_div_i64(width, (grid_cells_x - 1) as i64);
    let grid_size_y = round_div_i64(height, (grid_cells_y - 1) as i64);
    proof {
        lemma_step_at_least_one(width as int, grid_cells_x - 1);
        lemma_step_at_least_one(height as int, grid_cells_y - 1);
        lemma_span_product_bound(width as int, grid_cells_x - 1);
        lemma_span_product_bound(height as int, grid_cells_y - 1);
    }
    let n = grid_cells_x * grid_cells_y;
    let mut heights: Vec<i64> = Vec::new();
    let mut i: usize = 0;
    while i < n
        invariant
            i <= n,
            heights@.len() == i,
            forall|j: int| 0 <= j < i ==> #[trigger] heights@[j] == initial_height,
        decreases n - i,
    {
        heights.push(initial_height);
        i = i + 1;
    }
    Stock {
        width,
        height,
        grid_cells_x,
        grid_cells_y,
        grid_size_x,
        grid_size_y,
        origin_x,
        origin_y,
        heights,
    }
}

/// A spacing derived from a span at least as long as the interval count is
/// at least one tick.
proof fn lemma_step_at_least_one(span: int, b: int)
    requires
        1 <= b,
        b <= span,
    ensures
        1 <= rdiv(span, b) <= span,
{
    crate::num::lemma_rdiv_le(span, b);
    vstd::arithmetic::div_mod::lemma_div_is_ordered(b, span + b / 2, b);
    vstd::arithmetic::div_mod::lemma_div_by_self(b);
}

/// The whole-grid extent in ticks stays within twice the coordinate bound.
proof fn lemma_span_product_bound(span: int, b: int)
    requires
        1 <= b,
        b <= span <= MAX_COORD,
    ensures
        b * rdiv(span, b) <= 2 * MAX_COORD,
{
    crate::num::lemma_rdiv_error(span, b);
    let q = rdiv(span, b);
    assert(b * q == q * b) by (nonlinear_arith);
}

/// An output solid mesh: flat vertex positions, triangle vertex-index
/// triples, and per-vertex normals scaled so a unit normal has magnitude
/// `SCALE`.
pub struct Mesh {
    pub positions: Vec<i64>,
    pub indices: Vec<u32>,
    pub normals: Vec<i64>,
}

/// The face normal (unnormalized cross product of two edges) of triangle
/// `k` of an indexed mesh.
pub open spec fn tri_cross(pos: Seq<i64>, idx: Seq<u32>, k: int) -> (int, int, int) {
    let ia = idx[3 * k] as int;
    let ib = idx[3 * k + 1] as int;
    let ic = idx[3 * k + 2] as int;
    let v1x = pos[3 * ib] - pos[3 * ia];
    let v1y = pos[3 * ib + 1] - pos[3 * ia + 1];
    let v1z = pos[3 * ib + 2] - pos[3 * ia + 2];
    let v2x = pos[3 * ic] - pos[3 * ia];
    let v2y = pos[3 * ic + 1] - pos[3 * ia + 1];
    let v2z = pos[3 * ic + 2] - pos[3 * ia + 2];
    (v1y * v2z - v1z * v2y, v1z * v2x - v1x * v2z, v1x * v2y - v1y * v2x)
}

/// What triangle `k` contributes to vertex `v` along one component: its
/// face normal component once for each corner that names `v`.
pub open spec fn tri_share(idx: Seq<u32>, k: int, v: int, comp: int) -> int {
    (if idx[3 * k] == v {
        comp
    } else {
        0int
    }) + (if idx[3 * k + 1] == v {
        comp
    } else {
        0int
    }) + (if idx[3 * k + 2] == v {
        comp
    } else {
        0int
    })
}

/// The unnormalized vertex normal of vertex `v`: the sum of the face
/// normals of the first `k` triangles that use it, counted once per corner.
pub open spec fn accum_normal(pos: Seq<i64>, idx: Seq<u32>, k: nat, v: int) -> (int, int, int)
    decreases k,
{
    if k == 0 {
        (0, 0, 0)
    } else {
        let prev = accum_normal(pos, idx, (k - 1) as nat, v);
        let cr = tri_cross(pos, idx, k - 1);
        (
            prev.0 + tri_share(idx, k - 1, v, cr.0),
            prev.1 + tri_share(idx, k - 1, v, cr.1),
            prev.2 + tri_share(idx, k - 1, v, cr.2),
        )
    }
}

pub open spec fn vabs(v: int) -> int {
    if v >= 0 {
        v
    } else {
        -v
    }
}

/// Halving toward zero, used to scale an accumulated normal down before
/// normalizing.
pub open spec fn halve(v: int) -> int {
    if v >= 0 {
        v / 2
    } else {
        -((-v) / 2)
    }
}

/// Scales a vector down by powers of two, toward zero, until every
/// component fits the normalization working range.
pub open spec fn scale3(x: int, y: int, z: int) -> (int, int, int)
    decreases vabs(x) + vabs(y) + vabs(z),
{
    if vabs(x) <= 0x1000_0000_0000_0000 && vabs(y) <= 0x1000_0000_0000_0000 && vabs(z)
        <= 0x1000_0000_0000_0000 {
        (x, y, z)
    } else {
        scale3(halve(x), halve(y), halve(z))
    }
}

/// Division toward zero by a positive divisor.
pub open spec fn sdiv(p: int, m: int) -> int {
    if p >= 0 {
        p / m
    } else {
        -((-p) / m)
    }
}

/// A vector normalized to magnitude `SCALE`: zero stays zero, anything else
/// is scaled into range and divided by its integer length. A vector along
/// an axis normalizes exactly.
pub open spec fn normalize3(x: int, y: int, z: int) -> (int, int, int) {
    if x == 0 && y == 0 && z == 0 {
        (0, 0, 0)
    } else {
        let (a, b, c) = scale3(x, y, z);
        let mag = sqrt_floor((a * a + b * b + c * c) as nat) as int;
        (sdiv(a * SCALE, mag), sdiv(b * SCALE, mag), sdiv(c * SCALE, mag))
    }
}

/// Normalizes one accumulated vector to magnitude `SCALE`.
#[verifier::loop_isolation(false)]
fn normalize3_exec(x0: i128, y0: i128, z0: i128) -> (n: (i64, i64, i64))
    requires
        -0x1000_0000_0000_0000_0000_0000_0000_0000 < x0 < 0x1000_0000_0000_0000_0000_0000_0000_0000,
        -0x1000_0000_0000_0000_0000_0000_0000_0000 < y0 < 0x1000_0000_0000_0000_0000_0000_0000_0000,
        -0x1000_0000_0000_0000_0000_0000_0000_0000 < z0 < 0x1000_0000_0000_0000_0000_0000_0000_0000,
    ensures
        (n.0 as int, n.1 as int, n.2 as int) == normalize3(x0 as int, y0 as int, z0 as int),
        -SCALE <= n.0 <= SCALE,
        -SCALE <= n.1 <= SCALE,
        -SCALE <= n.2 <= SCALE,
{
    if x0 == 0 && y0 == 0 && z0 == 0 {
        return (0, 0, 0);
    }
    let mut x = x0;
    let mut y = y0;
    let mut z = z0;
    let mut ax: i128 = if x >= 0 {
        x
    } else {
        -x
    };
    let mut ay: i128 = if y >= 0 {
        y
    } else {
        -y
    };
    let mut az: i128 = if z >= 0 {
        z
    } else {
        -z
    };
    while ax > 0x1000_0000_0000_0000 || ay > 0x1000_0000_0000_0000 || az > 0x1000_0000_0000_0000
        invariant
            ax == vabs(x as int),
            ay == vabs(y as int),
            az == vabs(z as int),
            !(x == 0 && y == 0 && z == 0),
            scale3(x as int, y as int, z as int) == scale3(x0 as int, y0 as int, z0 as int),
        decreases ax + ay + az,
    {
        x = if x >= 0 {
            (x as u128 / 2) as i128
        } else {
            -(((-x) as u128 / 2) as i128)
        };
        y = if y >= 0 {
            (y as u128 / 2) as i128
        } else {
            -(((-y) as u128 / 2) as i128)
        };
        z = if z >= 0 {
            (z as u128 / 2) as i128
        } else {
            -(((-z) as u128 / 2) as i128)
        };
        ax = if x >= 0 {
            x
        } else {
            -x
        };
        ay = if y >= 0 {
            y
        } else {
            -y
        };
        az = if z >= 0 {
            z
        } else {
            -z
        };
    }
    proof {
        assert(scale3(x as int, y as int, z as int) == (x as int, y as int, z as int));
        assert(vabs(x as int) >= 1 || vabs(y as int) >= 1 || vabs(z as int) >= 1);
    }
    proof {
        assert((ax as u128) * (ax as u128) == (x as int) * (x as int) && (ax as u128) * (
        ax as u128) <= 0x1000_0000_0000_0000int * 0x1000_0000_0000_0000int) by (nonlinear_arith)
            requires
                0 <= ax <= 0x1000_0000_0000_0000,
                ax == vabs(x as int),
        ;
        assert((ay as u128) * (ay as u128) == (y as int) * (y as int) && (ay as u128) * (
        ay as u128) <= 0x1000_0000_0000_0000int * 0x1000_0000_0000_0000int) by (nonlinear_arith)
            requires
                0 <= ay <= 0x1000_0000_0000_0000,
                ay == vabs(y as int),
        ;
        assert((az as u128) * (az as u128) == (z as int) * (z as int) && (az as u128) * (
        az as u128) <= 0x1000_0000_0000_0000int * 0x1000_0000_0000_0000int) by (nonlinear_arith)
            requires
                0 <= az <= 0x1000_0000_0000_0000,
                az == vabs(z as int),
        ;
    }
    let m2: u128 = (ax as u128) * (ax as u128) + (ay as u128) * (ay as u128) + (az as u128) * (
    az as u128);
    proof {
        assert(m2 >= 1) by (nonlinear_arith)
            requires
                m2 == (ax as int) * (ax as int) + (ay as int) * (ay as int) + (az as int) * (
                az as int),
                ax >= 0,
                ay >= 0,
                az >= 0,
                ax >= 1 || ay >= 1 || az >= 1,
        ;
    }
    let mag: u128 = isqrt_u128(m2);
    proof {
        lemma_sqrt_floor_bounds(m2 as nat);
        assert(mag >= 1) by (nonlinear_arith)
            requires
                m2 >= 1,
                (m2 as nat) < ((mag + 1) * (mag + 1)) as nat,
        ;
        assert(mag <= 0x2000_0000_0000_0000) by (nonlinear_arith)
            requires
                (mag as nat) * (mag as nat) <= m2 as nat,
                m2 <= 3 * (0x1000_0000_0000_0000int * 0x1000_0000_0000_0000int),
        ;
        // each component's magnitude is at most the vector's length
        assert((ax as nat) * (ax as nat) <= m2 as nat) by (nonlinear_arith)
            requires
                0 <= ax,
                0 <= ay,
                0 <= az,
                m2 == (ax as int) * (ax as int) + (ay as int) * (ay as int) + (az as int) * (
                az as int),
        ;
        assert((ay as nat) * (ay as nat) <= m2 as nat) by (nonlinear_arith)
            requires
                0 <= ax,
                0 <= ay,
                0 <= az,
                m2 == (ax as int) * (ax as int) + (ay as int) * (ay as int) + (az as int) * (
                az as int),
        ;
        assert((az as nat) * (az as nat) <= m2 as nat) by (nonlinear_arith)
            requires
                0 <= ax,
                0 <= ay,
                0 <= az,
                m2 == (ax as int) * (ax as int) + (ay as int) * (ay as int) + (az as int) * (
                az as int),
        ;
        lemma_sqrt_floor_monotonic(((ax as nat) * (ax as nat)) as nat, m2 as nat);
        lemma_sqrt_floor_monotonic(((ay as nat) * (ay as nat)) as nat, m2 as nat);
        lemma_sqrt_floor_monotonic(((az as nat) * (az as nat)) as nat, m2 as nat);
        lemma_sqrt_floor_square(ax as nat);
        lemma_sqrt_floor_square(ay as nat);
        lemma_sqrt_floor_square(az as nat);
        assert(ax <= mag && ay <= mag && az <= mag);
    }
    let nx = component_over_mag(x, ax, mag);
    let ny = component_over_mag(y, ay, mag);
    let nz = component_over_mag(z, az, mag);
    (nx, ny, nz)
}

/// One normalized component: the component scaled by `SCALE` and divided,
/// toward zero, by the vector's integer length.
fn component_over_mag(v: i128, av: i128, mag: u128) -> (r: i64)
    requires
        av == vabs(v as int),
        0 <= av,
        av <= mag,
        1 <= mag <= 0x2000_0000_0000_0000,
    ensures
        r as int == sdiv(v as int * SCALE, mag as int),
        -SCALE <= r <= SCALE,
{
    let q: u128 = ((av as u128) * (SCALE as u128)) / mag;
    proof {
        assert((av as u128) * (SCALE as u128) == (av as int) * (SCALE as int) && (av as int) * (
        SCALE as int) <= (mag as int) * (SCALE as int)) by (nonlinear_arith)
            requires
                0 <= av <= mag,
                mag <= 0x2000_0000_0000_0000,
        ;
        vstd::arithmetic::div_mod::lemma_div_is_ordered(
            (av as int) * (SCALE as int),
            (mag as int) * (SCALE as int),
            mag as int,
        );
        vstd::arithmetic::div_mod::lemma_div_by_multiple(SCALE as int, mag as int);
        assert((SCALE as int) * (mag as int) == (mag as int) * (SCALE as int))
            by (nonlinear_arith);
        assert(q <= SCALE);
        if v >= 0 {
            assert(v as int * SCALE == (av as int) * (SCALE as int));
        } else {
            assert(v as int * SCALE == -((av as int) * (SCALE as int))) by (nonlinear_arith)
                requires
                    av == -(v as int),
            ;
        }
    }
    if v >= 0 {
        q as i64
    } else {
        -(q as i64)
    }
}

/// Component `c` of the `v`-th vector in a flat triple buffer.
pub open spec fn vec3_at(p: Seq<i64>, v: int, c: int) -> i64 {
    p[3 * v + c]
}

/// Component `c` of the `v`-th vector in a flat buffer of wide accumulators.
pub open spec fn acc3_at(p: Seq<i128>, v: int, c: int) -> i128 {
    p[3 * v + c]
}

/// Each triple slot belongs to exactly one vertex and component.
proof fn lemma_vec3_slot_injective(v: int, c: int, w: int, d: int)
    requires
        0 <= c < 3,
        0 <= d < 3,
        3 * v + c == 3 * w + d,
    ensures
        v == w && c == d,
{
}

/// Adds one face normal into one vertex's accumulator.
fn add_to_vertex(acc: &mut Vec<i128>, v: usize, cx: i128, cy: i128, cz: i128, Ghost(bound): Ghost<
    int,
>)
    requires
        3 * v + 2 < old(acc)@.len(),
        -0x100_0000_0000_0000_0000_0000 <= cx <= 0x100_0000_0000_0000_0000_0000,
        -0x100_0000_0000_0000_0000_0000 <= cy <= 0x100_0000_0000_0000_0000_0000,
        -0x100_0000_0000_0000_0000_0000 <= cz <= 0x100_0000_0000_0000_0000_0000,
        0 <= bound,
        bound + 0x100_0000_0000_0000_0000_0000 <= i128::MAX,
        forall|j: int| 0 <= j < old(acc)@.len() ==> -bound <= #[trigger] old(acc)@[j] <= bound,
    ensures
        final(acc)@.len() == old(acc)@.len(),
        forall|w: int, c: int|
            0 <= w && 3 * w + c < old(acc)@.len() && 0 <= c < 3 ==> #[trigger] acc3_at(
                final(acc)@,
                w,
                c,
            ) as int == acc3_at(old(acc)@, w, c) + (if w == v {
                (if c == 0 {
                    cx as int
                } else if c == 1 {
                    cy as int
                } else {
                    cz as int
                })
            } else {
                0
            }),
        forall|j: int|
            0 <= j < old(acc)@.len() ==> -(bound + 0x100_0000_0000_0000_0000_0000) <= (
            #[trigger] final(acc)@[j] as int) <= bound + 0x100_0000_0000_0000_0000_0000,
{
    let alen = acc.len();
    let t0 = acc[3 * v];
    acc.set(3 * v, t0 + cx);
    let t1 = acc[3 * v + 1];
    acc.set(3 * v + 1, t1 + cy);
    let t2 = acc[3 * v + 2];
    acc.set(3 * v + 2, t2 + cz);
    proof {
        assert forall|w: int, c: int|
            0 <= w && 3 * w + c < old(acc)@.len() && 0 <= c < 3 implies #[trigger] acc3_at(
            acc@,
            w,
            c,
        ) as int == acc3_at(old(acc)@, w, c) + (if w == v {
            (if c == 0 {
                cx as int
            } else if c == 1 {
                cy as int
            } else {
                cz as int
            })
        } else {
            0
        }) by {
            if 3 * w + c == 3 * (v as int) {
                lemma_vec3_slot_injective(w, c, v as int, 0);
            } else if 3 * w + c == 3 * (v as int) + 1 {
                lemma_vec3_slot_injective(w, c, v as int, 1);
            } else if 3 * w + c == 3 * (v as int) + 2 {
                lemma_vec3_slot_injective(w, c, v as int, 2);
            }
        }
    }
}

/// Per-vertex normals: each triangle's face normal (the cross product of
/// two of its edges, unnormalized, so larger faces weigh more) is added to
/// all three of its corners, and each vertex's sum is then normalized to
/// magnitude `SCALE`; a vertex no triangle touches keeps a zero vector.
#[verifier::loop_isolation(false)]
#[verifier::rlimit(100)]
pub fn compute_vertex_normals(positions: &Vec<i64>, indices: &Vec<u32>) -> (normals: Vec<i64>)
    requires
        positions@.len() % 3 == 0,
        forall|j: int| 0 <= j < positions@.len() ==> -0x400_0000_0000 <= #[trigger] positions@[j]
            <= 0x400_0000_0000,
        forall|j: int|
            0 <= j < indices@.len() ==> (#[trigger] indices@[j]) < positions@.len() / 3,
        indices@.len() % 3 == 0,
        indices@.len() <= 0x8_0000_0000,
    ensures
        normals@.len() == positions@.len(),
        forall|v: int|
            0 <= v < positions@.len() / 3 ==> (
            #[trigger] vec3_at(normals@, v, 0) as int,
            vec3_at(normals@, v, 1) as int,
            vec3_at(normals@, v, 2) as int,
        ) == normalize3(
                accum_normal(positions@, indices@, (indices@.len() / 3) as nat, v).0,
                accum_normal(positions@, indices@, (indices@.len() / 3) as nat, v).1,
                accum_normal(positions@, indices@, (indices@.len() / 3) as nat, v).2,
            ),
        forall|j: int| 0 <= j < normals@.len() ==> -SCALE <= #[trigger] normals@[j] <= SCALE,
{
    let plen = positions.len();
    let ilen = indices.len();
    let n_verts = plen / 3;
    let n_tris = ilen / 3;
    proof {
        vstd::arithmetic::div_mod::lemma_fundamental_div_mod(plen as int, 3);
        vstd::arithmetic::div_mod::lemma_fundamental_div_mod(ilen as int, 3);
    }
    let mut acc: Vec<i128> = Vec::new();
    let mut i: usize = 0;
    while i < plen
        invariant
            i <= plen,
            acc@.len() == i,
            forall|j: int| 0 <= j < i ==> #[trigger] acc@[j] == 0,
        decreases plen - i,
    {
        acc.push(0);
        i = i + 1;
    }
    proof {
        assert forall|v: int| 0 <= v < n_verts implies (
            #[trigger] acc3_at(acc@, v, 0) as int,
            acc3_at(acc@, v, 1) as int,
            acc3_at(acc@, v, 2) as int,
        ) == accum_normal(positions@, indices@, 0, v) by {
            assert(0 <= 3 * v && 3 * v + 2 < plen);
        }
    }
    let mut k: usize = 0;
    while k < n_tris
        invariant
            k <= n_tris,
            acc@.len() == plen,
            forall|v: int|
                0 <= v < n_verts ==> (
                #[trigger] acc3_at(acc@, v, 0) as int,
                acc3_at(acc@, v, 1) as int,
                acc3_at(acc@, v, 2) as int,
            ) == accum_normal(positions@, indices@, k as nat, v),
            forall|j: int|
                0 <= j < plen ==> -((3 * (k as int)) * 0x100_0000_0000_0000_0000_0000) <= (
                #[trigger] acc@[j] as int) <= (3 * (k as int)) * 0x100_0000_0000_0000_0000_0000,
        decreases n_tris - k,
    {
        proof {
            assert(3 * (k as int) + 2 < ilen);
        }
        let ia = indices[3 * k] as usize;
        let ib = indices[3 * k + 1] as usize;
        let ic = indices[3 * k + 2] as usize;
        proof {
            assert(3 * (ia as int) + 2 < plen);
            assert(3 * (ib as int) + 2 < plen);
            assert(3 * (ic as int) + 2 < plen);
        }
        let v1x = (positions[3 * ib] - positions[3 * ia]) as i128;
        let v1y = (positions[3 * ib + 1] - positions[3 * ia + 1]) as i128;
        let v1z = (positions[3 * ib + 2] - positions[3 * ia + 2]) as i128;
        let v2x = (positions[3 * ic] - positions[3 * ia]) as i128;
        let v2y = (positions[3 * ic + 1] - positions[3 * ia + 1]) as i128;
        let v2z = (positions[3 * ic + 2] - positions[3 * ia + 2]) as i128;
        proof {
            lemma_cross_term_bound(v1y as int, v2z as int);
            lemma_cross_term_bound(v1z as int, v2y as int);
            lemma_cross_term_bound(v1z as int, v2x as int);
            lemma_cross_term_bound(v1x as int, v2z as int);
            lemma_cross_term_bound(v1x as int, v2y as int);
            lemma_cross_term_bound(v1y as int, v2x as int);
        }
        let cx = v1y * v2z - v1z * v2y;
        let cy = v1z * v2x - v1x * v2z;
        let cz = v1x * v2y - v1y * v2x;
        proof {
            assert(tri_cross(positions@, indices@, k as int) == (
                cx as int,
                cy as int,
                cz as int,
            ));
        }
        let ghost acc0 = acc@;
        let ghost kbound = (3 * (k as int)) * 0x100_0000_0000_0000_0000_0000;
        add_to_vertex(&mut acc, ia, cx, cy, cz, Ghost(kbound));
        add_to_vertex(
            &mut acc,
            ib,
            cx,
            cy,
            cz,
            Ghost(kbound + 0x100_0000_0000_0000_0000_0000),
        );
        add_to_vertex(
            &mut acc,
            ic,
            cx,
            cy,
            cz,
            Ghost(kbound + 2 * 0x100_0000_0000_0000_0000_0000),
        );
        proof {
            assert forall|v: int| 0 <= v < n_verts implies (
                #[trigger] acc3_at(acc@, v, 0) as int,
                acc3_at(acc@, v, 1) as int,
                acc3_at(acc@, v, 2) as int,
            ) == accum_normal(positions@, indices@, (k + 1) as nat, v) by {
                assert(0 <= 3 * v && 3 * v + 2 < plen);
                assert((acc3_at(acc0, v, 0) as int, acc3_at(acc0, v, 1) as int, acc3_at(
                    acc0,
                    v,
                    2,
                ) as int) == accum_normal(positions@, indices@, k as nat, v));
            }
        }
        k = k + 1;
    }
    let mut normals: Vec<i64> = Vec::new();
    let mut v: usize = 0;
    while v < n_verts
        invariant
            v <= n_verts,
            acc@.len() == plen,
            normals@.len() == 3 * v,
            3 * n_verts == plen,
            forall|j: int|
                0 <= j < plen ==> -((3 * (n_tris as int)) * 0x100_0000_0000_0000_0000_0000) <= (
                #[trigger] acc@[j] as int) <= (3 * (n_tris as int))
                    * 0x100_0000_0000_0000_0000_0000,
            forall|w: int|
                0 <= w < n_verts ==> (
                #[trigger] acc3_at(acc@, w, 0) as int,
                acc3_at(acc@, w, 1) as int,
                acc3_at(acc@, w, 2) as int,
            ) == accum_normal(positions@, indices@, (ilen / 3) as nat, w),
            forall|w: int|
                0 <= w < v ==> (
                #[trigger] vec3_at(normals@, w, 0) as int,
                vec3_at(normals@, w, 1) as int,
                vec3_at(normals@, w, 2) as int,
            ) == normalize3(
                    accum_normal(positions@, indices@, (ilen / 3) as nat, w).0,
                    accum_normal(positions@, indices@, (ilen / 3) as nat, w).1,
                    accum_normal(positions@, indices@, (ilen / 3) as nat, w).2,
                ),
            forall|j: int| 0 <= j < normals@.len() ==> -SCALE <= #[trigger] normals@[j] <= SCALE,
        decreases n_verts - v,
    {
        let ghost pre_norm = normals@;
        let nv = normalize3_exec(acc[3 * v], acc[3 * v + 1], acc[3 * v + 2]);
        normals.push(nv.0);
        normals.push(nv.1);
        normals.push(nv.2);
        proof {
            assert forall|w: int| 0 <= w < v + 1 implies (
                #[trigger] vec3_at(normals@, w, 0) as int,
                vec3_at(normals@, w, 1) as int,
                vec3_at(normals@, w, 2) as int,
            ) == normalize3(
                accum_normal(positions@, indices@, (ilen / 3) as nat, w).0,
                accum_normal(positions@, indices@, (ilen / 3) as nat, w).1,
                accum_normal(positions@, indices@, (ilen / 3) as nat, w).2,
            ) by {
                if w == v {
                    assert(vec3_at(normals@, w, 0) == nv.0);
                    assert(vec3_at(normals@, w, 1) == nv.1);
                    assert(vec3_at(normals@, w, 2) == nv.2);
                    assert(acc3_at(acc@, w, 0) == acc@[3 * (v as int)]);
                    assert(acc3_at(acc@, w, 1) == acc@[3 * (v as int) + 1]);
                    assert(acc3_at(acc@, w, 2) == acc@[3 * (v as int) + 2]);
                    assert((acc3_at(acc@, w, 0) as int, acc3_at(acc@, w, 1) as int, acc3_at(
                        acc@,
                        w,
                        2,
                    ) as int) == accum_normal(positions@, indices@, (ilen / 3) as nat, w));
                } else {
                    assert(0 <= 3 * w && 3 * w + 2 < pre_norm.len());
                    assert(vec3_at(normals@, w, 0) == vec3_at(pre_norm, w, 0));
                    assert(vec3_at(normals@, w, 1) == vec3_at(pre_norm, w, 1));
                    assert(vec3_at(normals@, w, 2) == vec3_at(pre_norm, w, 2));
                }
            }
        }
        v = v + 1;
    }
    normals
}

/// Bounds one term of a face-normal cross product.
proof fn lemma_cross_term_bound(u: int, w: int)
    requires
        -0x800_0000_0000 <= u <= 0x800_0000_0000,
        -0x800_0000_0000 <= w <= 0x800_0000_0000,
    ensures
        -0x40_0000_0000_0000_0000_0000 <= u * w <= 0x40_0000_0000_0000_0000_0000,
{
    assert(-0x40_0000_0000_0000_0000_0000 <= u * w <= 0x40_0000_0000_0000_0000_0000)
        by (nonlinear_arith)
        requires
            -0x800_0000_0000 <= u <= 0x800_0000_0000,
            -0x800_0000_0000 <= w <= 0x800_0000_0000,
    ;
}

/// Component `c` of the `v`-th vector of the block starting at flat offset
/// `base`.
pub open spec fn off3_at(p: Seq<i64>, base: int, v: int, c: int) -> i64 {
    p[base + 3 * v + c]
}

/// Sampling the stock back at a grid sample point returns that cell's
/// stored height: the rounding that maps world points to cells inverts the
/// sample-point map exactly.
pub proof fn lemma_sample_roundtrip(s: Stock, ix: int, iy: int)
    requires
        stock_wf(s),
        0 <= ix < s.grid_cells_x,
        0 <= iy < s.grid_cells_y,
    ensures
        get_height_spec(s, stock_sample_x(s, ix), stock_sample_y(s, iy)) == cell_at(
            s.heights@,
            s.grid_cells_y as int,
            ix,
            iy,
        ),
{
    assert(ix * s.grid_size_x == (s.grid_size_x as int) * ix) by (nonlinear_arith);
    lemma_rdiv_exact_multiple(ix, s.grid_size_x as int);
    assert(iy * s.grid_size_y == (s.grid_size_y as int) * iy) by (nonlinear_arith);
    lemma_rdiv_exact_multiple(iy, s.grid_size_y as int);
}

/// Appends one layer of grid vertices: each sample's world position with
/// either its stored height or one fixed elevation.
#[verifier::loop_isolation(false)]
fn push_layer(positions: &mut Vec<i64>, s: &Stock, use_heights: bool, fill_z: i64)
    requires
        stock_wf(*s),
        coords_wf(s.heights@),
        -MAX_COORD <= fill_z <= MAX_COORD,
        old(positions)@.len() + 3 * (s.grid_cells_x * s.grid_cells_y) <= usize::MAX,
    ensures
        final(positions)@.len() == old(positions)@.len() + 3 * (s.grid_cells_x
            * s.grid_cells_y),
        forall|j: int|
            0 <= j < old(positions)@.len() ==> #[trigger] final(positions)@[j] == old(
                positions,
            )@[j],
        forall|v: int|
            0 <= v < s.grid_cells_x * s.grid_cells_y ==> (
            #[trigger] off3_at(final(positions)@, old(positions)@.len() as int, v, 0) as int,
            off3_at(final(positions)@, old(positions)@.len() as int, v, 1) as int,
            off3_at(final(positions)@, old(positions)@.len() as int, v, 2),
        ) == (
                stock_sample_x(*s, v / (s.grid_cells_y as int)),
                stock_sample_y(*s, v % (s.grid_cells_y as int)),
                (if use_heights {
                    s.heights@[v]
                } else {
                    fill_z
                }),
            ),
{
    let nx = s.grid_cells_x;
    let ny = s.grid_cells_y;
    let ghost base = positions@.len() as int;
    let ghost p0 = positions@;
    let mut ix: usize = 0;
    while ix < nx
        invariant
            ix <= nx,
            positions@.len() == base + 3 * (ix * ny),
            forall|j: int| 0 <= j < base ==> #[trigger] positions@[j] == p0[j],
            forall|v: int|
                0 <= v < ix * ny ==> (
                #[trigger] off3_at(positions@, base, v, 0) as int,
                off3_at(positions@, base, v, 1) as int,
                off3_at(positions@, base, v, 2),
            ) == (
                    stock_sample_x(*s, v / (ny as int)),
                    stock_sample_y(*s, v % (ny as int)),
                    (if use_heights {
                        s.heights@[v]
                    } else {
                        fill_z
                    }),
                ),
        decreases nx - ix,
    {
        proof {
            assert((ix + 1) * ny == ix * ny + ny) by (nonlinear_arith);
            assert(ix * ny + ny <= nx * ny) by (nonlinear_arith)
                requires
                    ix < nx,
                    0 <= ny,
            ;
            assert(0 <= (ix as int) * s.grid_size_x <= (s.grid_cells_x - 1) * s.grid_size_x)
                by (nonlinear_arith)
                requires
                    0 <= ix < s.grid_cells_x,
                    1 <= s.grid_size_x,
            ;
        }
        let x = s.origin_x + (ix as i64) * s.grid_size_x;
        let mut iy: usize = 0;
        while iy < ny
            invariant
                ix < nx,
                iy <= ny,
                x as int == stock_sample_x(*s, ix as int),
                -0x300_0000_0000 <= x <= 0x300_0000_0000,
                positions@.len() == base + 3 * (ix * ny) + 3 * iy,
                forall|j: int| 0 <= j < base ==> #[trigger] positions@[j] == p0[j],
                forall|v: int|
                    0 <= v < ix * ny + iy ==> (
                    #[trigger] off3_at(positions@, base, v, 0) as int,
                    off3_at(positions@, base, v, 1) as int,
                    off3_at(positions@, base, v, 2),
                ) == (
                        stock_sample_x(*s, v / (ny as int)),
                        stock_sample_y(*s, v % (ny as int)),
                        (if use_heights {
                            s.heights@[v]
                        } else {
                            fill_z
                        }),
                    ),
            decreases ny - iy,
        {
            proof {
                assert(0 <= (iy as int) * s.grid_size_y <= (s.grid_cells_y - 1) * s.grid_size_y)
                    by (nonlinear_arith)
                    requires
                        0 <= iy < s.grid_cells_y,
                        1 <= s.grid_size_y,
                ;
                assert(0 <= (ix as int) * (ny as int) + iy && (ix as int) * (ny as int) + iy
                    < nx * ny) by (nonlinear_arith)
                    requires
                        0 <= ix < nx,
                        0 <= iy < ny,
                ;
                lemma_cell_flat_roundtrip(ny as int, ix as int, iy as int);
                lemma_sample_roundtrip(*s, ix as int, iy as int);
            }
            let y = s.origin_y + (iy as i64) * s.grid_size_y;
            let z = if use_heights {
                s.get_height(x, y)
            } else {
                fill_z
            };
            let ghost pre = positions@;
            positions.push(x);
            positions.push(y);
            positions.push(z);
            proof {
                assert forall|v: int| 0 <= v < ix * ny + iy + 1 implies (
                    #[trigger] off3_at(positions@, base, v, 0) as int,
                    off3_at(positions@, base, v, 1) as int,
                    off3_at(positions@, base, v, 2),
                ) == (
                    stock_sample_x(*s, v / (ny as int)),
                    stock_sample_y(*s, v % (ny as int)),
                    (if use_heights {
                        s.heights@[v]
                    } else {
                        fill_z
                    }),
                ) by {
                    if v < ix * ny + iy {
                        assert(off3_at(positions@, base, v, 0) == off3_at(pre, base, v, 0));
                        assert(off3_at(positions@, base, v, 1) == off3_at(pre, base, v, 1));
                        assert(off3_at(positions@, base, v, 2) == off3_at(pre, base, v, 2));
                    } else {
                        assert(off3_at(positions@, base, v, 0) == x);
                        assert(off3_at(positions@, base, v, 1) == y);
                        assert(off3_at(positions@, base, v, 2) == z);
                    }
                }
            }
            iy = iy + 1;
        }
        ix = ix + 1;
    }
}

/// Appends the top and bottom faces: two upward triangles per interior cell
/// over the top vertices, and the same footprint with reversed winding over
/// the bottom vertices.
#[verifier::loop_isolation(false)]
fn push_face_indices(indices: &mut Vec<u32>, nx: usize, ny: usize)
    requires
        2 <= nx,
        2 <= ny,
        3 * (nx * ny) <= u32::MAX,
        old(indices)@.len() + 12 * ((nx - 1) * (ny - 1)) <= usize::MAX,
    ensures
        final(indices)@.len() == old(indices)@.len() + 12 * ((nx - 1) * (ny - 1)),
        forall|j: int|
            0 <= j < old(indices)@.len() ==> #[trigger] final(indices)@[j] == old(indices)@[j],
        forall|j: int|
            old(indices)@.len() <= j < final(indices)@.len()
                ==> (#[trigger] final(indices)@[j]) < 2 * (nx * ny),
{
    let nv = nx * ny;
    let ghost base = indices@.len() as int;
    let ghost i0 = indices@;
    let mut ix: usize = 0;
    while ix < nx - 1
        invariant
            ix <= nx - 1,
            indices@.len() == base + 12 * (ix * (ny - 1)),
            forall|j: int| 0 <= j < base ==> #[trigger] indices@[j] == i0[j],
            forall|j: int| base <= j < indices@.len() ==> (#[trigger] indices@[j]) < 2 * nv,
        decreases nx - 1 - ix,
    {
        proof {
            assert((ix + 1) * (ny - 1) == ix * (ny - 1) + (ny - 1)) by (nonlinear_arith);
            assert(ix * (ny - 1) + (ny - 1) <= (nx - 1) * (ny - 1)) by (nonlinear_arith)
                requires
                    ix < nx - 1,
                    2 <= ny,
            ;
        }
        let mut iy: usize = 0;
        while iy < ny - 1
            invariant
                ix < nx - 1,
                iy <= ny - 1,
                indices@.len() == base + 12 * (ix * (ny - 1)) + 12 * iy,
                forall|j: int| 0 <= j < base ==> #[trigger] indices@[j] == i0[j],
                forall|j: int| base <= j < indices@.len() ==> (#[trigger] indices@[j]) < 2 * nv,
            decreases ny - 1 - iy,
        {
            proof {
                assert(0 <= (ix as int) * (ny as int) && (ix as int) * (ny as int) <= ((
                ix as int) + 1) * (ny as int) && ((ix as int) + 1) * (ny as int) + (iy as int)
                    + 1 < nx * ny) by (nonlinear_arith)
                    requires
                        0 <= ix < nx - 1,
                        0 <= iy < ny - 1,
                        2 <= ny,
                ;
            }
            let a = (ix * ny + iy) as u32;
            let b = ((ix + 1) * ny + iy) as u32;
            let c = ((ix + 1) * ny + (iy + 1)) as u32;
            let d = (ix * ny + (iy + 1)) as u32;
            let a2 = (nv + ix * ny + iy) as u32;
            let b2 = (nv + (ix + 1) * ny + iy) as u32;
            let c2 = (nv + (ix + 1) * ny + (iy + 1)) as u32;
            let d2 = (nv + ix * ny + (iy + 1)) as u32;
            indices.push(a);
            indices.push(b);
            indices.push(d);
            indices.push(b);
            indices.push(c);
            indices.push(d);
            indices.push(a2);
            indices.push(d2);
            indices.push(b2);
            indices.push(b2);
            indices.push(d2);
            indices.push(c2);
            iy = iy + 1;
        }
        ix = ix + 1;
    }
}

/// Appends the side walls: two triangles per boundary edge segment along
/// all four grid boundaries, connecting the duplicated top vertices to the
/// bottom vertices, wound to face outward on each side.
#[verifier::loop_isolation(false)]
fn push_side_indices(indices: &mut Vec<u32>, nx: usize, ny: usize)
    requires
        2 <= nx,
        2 <= ny,
        3 * (nx * ny) <= u32::MAX,
        old(indices)@.len() + 12 * (ny - 1) + 12 * (nx - 1) <= usize::MAX,
    ensures
        final(indices)@.len() == old(indices)@.len() + 12 * (ny - 1) + 12 * (nx - 1),
        forall|j: int|
            0 <= j < old(indices)@.len() ==> #[trigger] final(indices)@[j] == old(indices)@[j],
        forall|j: int|
            old(indices)@.len() <= j < final(indices)@.len()
                ==> (#[trigger] final(indices)@[j]) < 3 * (nx * ny),
{
    let nv = nx * ny;
    let side_top = 2 * nv;
    let bot = nv;
    let ghost base = indices@.len() as int;
    let ghost i0 = indices@;
    proof {
        assert((nx - 1) * (ny as int) + (ny - 1) < nx * ny) by (nonlinear_arith)
            requires
                2 <= nx,
                2 <= ny,
        ;
    }
    let mut iy: usize = 0;
    // left edge (first column) and right edge (last column)
    while iy < ny - 1
        invariant
            iy <= ny - 1,
            indices@.len() == base + 12 * iy,
            forall|j: int| 0 <= j < base ==> #[trigger] indices@[j] == i0[j],
            forall|j: int| base <= j < indices@.len() ==> (#[trigger] indices@[j]) < 3 * nv,
        decreases ny - 1 - iy,
    {
        let top_a = (side_top + iy) as u32;
        let top_b = (side_top + iy + 1) as u32;
        let bot_a = (bot + iy) as u32;
        let bot_b = (bot + iy + 1) as u32;
        indices.push(top_a);
        indices.push(top_b);
        indices.push(bot_a);
        indices.push(bot_a);
        indices.push(top_b);
        indices.push(bot_b);
        proof {
            assert((nx - 1) * (ny as int) + iy + 1 <= nx * ny - 1) by (nonlinear_arith)
                requires
                    2 <= nx,
                    0 <= iy,
                    iy + 1 <= ny - 1,
            ;
        }
        let rt_a = (side_top + (nx - 1) * ny + iy) as u32;
        let rt_b = (side_top + (nx - 1) * ny + iy + 1) as u32;
        let rb_a = (bot + (nx - 1) * ny + iy) as u32;
        let rb_b = (bot + (nx - 1) * ny + iy + 1) as u32;
        indices.push(rt_a);
        indices.push(rb_a);
        indices.push(rt_b);
        indices.push(rt_b);
        indices.push(rb_a);
        indices.push(rb_b);
        iy = iy + 1;
    }
    // front edge (first row) and back edge (last row)
    let mut ix: usize = 0;
    while ix < nx - 1
        invariant
            ix <= nx - 1,
            indices@.len() == base + 12 * (ny - 1) + 12 * ix,
            forall|j: int| 0 <= j < base ==> #[trigger] indices@[j] == i0[j],
            forall|j: int| base <= j < indices@.len() ==> (#[trigger] indices@[j]) < 3 * nv,
        decreases nx - 1 - ix,
    {
        proof {
            assert((ix + 1) * (ny as int) <= (nx - 1) * (ny as int) && (nx - 1) * (ny as int)
                + (ny - 1) < nx * ny && 0 <= (ix as int) * (ny as int) && (ix as int) * (
            ny as int) <= ((ix as int) + 1) * (ny as int)) by (nonlinear_arith)
                requires
                    0 <= ix,
                    ix + 1 <= nx - 1,
                    2 <= ny,
            ;
        }
        let ft_a = (side_top + ix * ny) as u32;
        let ft_b = (side_top + (ix + 1) * ny) as u32;
        let fb_a = (bot + ix * ny) as u32;
        let fb_b = (bot + (ix + 1) * ny) as u32;
        indices.push(ft_a);
        indices.push(fb_a);
        indices.push(ft_b);
        indices.push(ft_b);
        indices.push(fb_a);
        indices.push(fb_b);
        let bt_a = (side_top + ix * ny + (ny - 1)) as u32;
        let bt_b = (side_top + (ix + 1) * ny + (ny - 1)) as u32;
        let bb_a = (bot + ix * ny + (ny - 1)) as u32;
        let bb_b = (bot + (ix + 1) * ny + (ny - 1)) as u32;
        indices.push(bt_a);
        indices.push(bt_b);
        indices.push(bb_a);
        indices.push(bb_a);
        indices.push(bt_b);
        indices.push(bb_b);
        ix = ix + 1;
    }
}

/// Reconstructs a closed solid from the stock: top vertices at the stored
/// heights, bottom vertices at `min_z`, a duplicated copy of the top
/// vertices for the side walls, two triangles per interior cell for the top
/// and bottom faces, a ring of wall triangles around the boundary, and
/// accumulated per-vertex normals normalized to `SCALE`. Linear in the cell
/// count.
#[verifier::loop_isolation(false)]
pub fn heightmap_to_solid_mesh(stock: &Stock, min_z: i64) -> (m: Mesh)
    requires
        stock_wf(*stock),
        coords_wf(stock.heights@),
        -MAX_COORD <= min_z <= MAX_COORD,
        3 * (stock.grid_cells_x * stock.grid_cells_y) <= u32::MAX,
        18 * (stock.grid_cells_x * stock.grid_cells_y) <= usize::MAX,
    ensures
        ({
            let nx = stock.grid_cells_x as int;
            let ny = stock.grid_cells_y as int;
            let nv = nx * ny;
            &&& m.positions@.len() == 9 * nv
            &&& m.indices@.len() == 12 * ((nx - 1) * (ny - 1)) + 12 * (ny - 1) + 12 * (nx - 1)
            &&& m.normals@.len() == m.positions@.len()
            &&& (forall|v: int|
                0 <= v < nv ==> (
                #[trigger] vec3_at(m.positions@, v, 0) as int,
                vec3_at(m.positions@, v, 1) as int,
                vec3_at(m.positions@, v, 2),
            ) == (
                    stock_sample_x(*stock, v / ny),
                    stock_sample_y(*stock, v % ny),
                    stock.heights@[v],
                ))
            &&& (forall|v: int|
                0 <= v < nv ==> (
                #[trigger] vec3_at(m.positions@, nv + v, 0) as int,
                vec3_at(m.positions@, nv + v, 1) as int,
                vec3_at(m.positions@, nv + v, 2),
            ) == (stock_sample_x(*stock, v / ny), stock_sample_y(*stock, v % ny), min_z))
            &&& (forall|v: int|
                0 <= v < nv ==> (
                #[trigger] vec3_at(m.positions@, 2 * nv + v, 0) as int,
                vec3_at(m.positions@, 2 * nv + v, 1) as int,
                vec3_at(m.positions@, 2 * nv + v, 2),
            ) == (
                    stock_sample_x(*stock, v / ny),
                    stock_sample_y(*stock, v % ny),
                    stock.heights@[v],
                ))
            &&& (forall|j: int| 0 <= j < m.indices@.len() ==> (#[trigger] m.indices@[j]) < 3
                * nv)
            &&& (forall|v: int|
                0 <= v < 3 * nv ==> (
                #[trigger] vec3_at(m.normals@, v, 0) as int,
                vec3_at(m.normals@, v, 1) as int,
                vec3_at(m.normals@, v, 2) as int,
            ) == normalize3(
                    accum_normal(m.positions@, m.indices@, (m.indices@.len() / 3) as nat, v).0,
                    accum_normal(m.positions@, m.indices@, (m.indices@.len() / 3) as nat, v).1,
                    accum_normal(m.positions@, m.indices@, (m.indices@.len() / 3) as nat, v).2,
                ))
            &&& (forall|j: int| 0 <= j < m.normals@.len() ==> -SCALE <= #[trigger] m.normals@[j]
                <= SCALE)
        }),
{
    let nx = stock.grid_cells_x;
    let ny = stock.grid_cells_y;
    let nv = nx * ny;
    let ghost nvv = (nx as int) * (ny as int);
    let mut positions: Vec<i64> = Vec::new();
    push_layer(&mut positions, stock, true, 0);
    let ghost s1 = positions@;
    push_layer(&mut positions, stock, false, min_z);
    let ghost s2 = positions@;
    push_layer(&mut positions, stock, true, 0);
    let ghost pf = positions@;
    proof {
        assert(pf.len() == 9 * nvv);
        // carry each layer's vertices through the later appends
        assert forall|v: int, c: int| 0 <= v < nvv && 0 <= c < 3 implies #[trigger] vec3_at(
            pf,
            v,
            c,
        ) == off3_at(s1, 0, v, c) by {
            assert(0 <= 3 * v + c < s1.len());
            assert(s2[3 * v + c] == s1[3 * v + c]);
            assert(pf[3 * v + c] == s2[3 * v + c]);
        }
        assert forall|v: int, c: int| 0 <= v < nvv && 0 <= c < 3 implies #[trigger] vec3_at(
            pf,
            nvv + v,
            c,
        ) == off3_at(s2, 3 * nvv, v, c) by {
            assert(3 * (nvv + v) + c == 3 * nvv + 3 * v + c);
            assert(0 <= 3 * nvv + 3 * v + c < s2.len());
            assert(pf[3 * nvv + 3 * v + c] == s2[3 * nvv + 3 * v + c]);
        }
        assert forall|v: int, c: int| 0 <= v < nvv && 0 <= c < 3 implies #[trigger] vec3_at(
            pf,
            2 * nvv + v,
            c,
        ) == off3_at(pf, 6 * nvv, v, c) by {
            assert(3 * (2 * nvv + v) + c == 6 * nvv + 3 * v + c);
        }
    }
    let mut indices: Vec<u32> = Vec::new();
    proof {
        assert(12 * (((nx as int) - 1) * ((ny as int) - 1)) + 12 * ((ny as int) - 1) + 12 * ((
        nx as int) - 1) <= 18 * (nx * ny) && 12 * (((nx as int) - 1) * ((ny as int) - 1)) >= 0)
            by (nonlinear_arith)
            requires
                2 <= nx,
                2 <= ny,
        ;
    }
    push_face_indices(&mut indices, nx, ny);
    push_side_indices(&mut indices, nx, ny);
    proof {
        assert(indices@.len() % 3 == 0) by (nonlinear_arith)
            requires
                indices@.len() == 12 * (((nx as int) - 1) * ((ny as int) - 1)) + 12 * ((
                ny as int) - 1) + 12 * ((nx as int) - 1),
        ;
        assert(positions@.len() % 3 == 0) by (nonlinear_arith)
            requires
                positions@.len() == 9 * nvv,
        ;
        assert(positions@.len() / 3 == 3 * nvv) by (nonlinear_arith)
            requires
                positions@.len() == 9 * nvv,
        ;
        assert((3 * nvv) * 3 == 9 * nvv) by (nonlinear_arith);
        assert forall|j: int| 0 <= j < positions@.len() implies -0x400_0000_0000 <= (
        #[trigger] positions@[j]) <= 0x400_0000_0000 by {
            lemma_flat_index_split(3 * nvv, 3, j);
            let v = j / 3;
            let c = j % 3;
            assert(3 * v == v * 3) by (nonlinear_arith);
            assert(positions@[3 * v + c] == positions@[j]);
            let w = if v < nvv {
                v
            } else if v < 2 * nvv {
                v - nvv
            } else {
                v - 2 * nvv
            };
            lemma_flat_index_split(nx as int, ny as int, w);
            lemma_sample_in_range(*stock, w / (ny as int));
            lemma_sample_in_range_y(*stock, w % (ny as int));
            if v < nvv {
                assert(vec3_at(pf, w, c) == positions@[j]);
                assert((
                    off3_at(s1, 0, w, 0) as int,
                    off3_at(s1, 0, w, 1) as int,
                    off3_at(s1, 0, w, 2),
                ) == (
                    stock_sample_x(*stock, w / (ny as int)),
                    stock_sample_y(*stock, w % (ny as int)),
                    stock.heights@[w],
                ));
            } else if v < 2 * nvv {
                assert(nvv + w == v);
                assert(vec3_at(pf, nvv + w, c) == positions@[j]);
                assert((
                    off3_at(s2, 3 * nvv, w, 0) as int,
                    off3_at(s2, 3 * nvv, w, 1) as int,
                    off3_at(s2, 3 * nvv, w, 2),
                ) == (
                    stock_sample_x(*stock, w / (ny as int)),
                    stock_sample_y(*stock, w % (ny as int)),
                    min_z,
                ));
            } else {
                assert(2 * nvv + w == v);
                assert(vec3_at(pf, 2 * nvv + w, c) == positions@[j]);
                assert((
                    off3_at(pf, 6 * nvv, w, 0) as int,
                    off3_at(pf, 6 * nvv, w, 1) as int,
                    off3_at(pf, 6 * nvv, w, 2),
                ) == (
                    stock_sample_x(*stock, w / (ny as int)),
                    stock_sample_y(*stock, w % (ny as int)),
                    stock.heights@[w],
                ));
            }
        }
        assert(indices@.len() <= 0x8_0000_0000) by (nonlinear_arith)
            requires
                indices@.len() == 12 * (((nx as int) - 1) * ((ny as int) - 1)) + 12 * ((
                ny as int) - 1) + 12 * ((nx as int) - 1),
                2 <= nx,
                2 <= ny,
                3 * ((nx as int) * (ny as int)) <= u32::MAX,
        ;
        assert forall|j: int| 0 <= j < indices@.len() implies (#[trigger] indices@[j])
            < positions@.len() / 3 by {}
    }
    let normals = compute_vertex_normals(&positions, &indices);
    Mesh { positions, indices, normals }
}

/// A column sample's world x stays within three coordinate bounds.
proof fn lemma_sample_in_range(s: Stock, ix: int)
    requires
        stock_wf(s),
        0 <= ix < s.grid_cells_x,
    ensures
        -0x300_0000_0000 <= stock_sample_x(s, ix) <= 0x300_0000_0000,
{
    assert(0 <= ix * s.grid_size_x <= (s.grid_cells_x - 1) * s.grid_size_x) by (nonlinear_arith)
        requires
            0 <= ix < s.grid_cells_x,
            1 <= s.grid_size_x,
    ;
}

/// A row sample's world y stays within three coordinate bounds.
proof fn lemma_sample_in_range_y(s: Stock, iy: int)
    requires
        stock_wf(s),
        0 <= iy < s.grid_cells_y,
    ensures
        -0x300_0000_0000 <= stock_sample_y(s, iy) <= 0x300_0000_0000,
{
    assert(0 <= iy * s.grid_size_y <= (s.grid_cells_y - 1) * s.grid_size_y) by (nonlinear_arith)
        requires
            0 <= iy < s.grid_cells_y,
            1 <= s.grid_size_y,
    ;
}

/// Scaling a purely vertical vector down keeps it vertical and keeps its
/// upward component positive.
proof fn lemma_scale3_vertical(p: int)
    requires
        1 <= p,
    ensures
        scale3(0, 0, p).0 == 0,
        scale3(0, 0, p).1 == 0,
        1 <= scale3(0, 0, p).2 <= 0x1000_0000_0000_0000,
    decreases p,
{
    if p <= 0x1000_0000_0000_0000 {
    } else {
        assert(halve(0) == 0);
        assert(1 <= halve(p) < p);
        lemma_scale3_vertical(halve(p));
    }
}

/// Normal direction for a flat top: a vertex normal accumulated only from
/// upward-facing triangles — a purely vertical sum with positive z — is
/// normalized to exactly the unit up vector.
pub proof fn lemma_vertical_normal_is_unit_up(p: int)
    requires
        1 <= p,
    ensures
        normalize3(0, 0, p) == (0int, 0int, SCALE as int),
{
    lemma_scale3_vertical(p);
    let c = scale3(0, 0, p).2;
    assert(0 * 0 + 0 * 0 + c * c == c * c);
    assert((c * c) as nat == (c as nat) * (c as nat)) by (nonlinear_arith)
        requires
            0 <= c,
    ;
    lemma_sqrt_floor_square(c as nat);
    let mag = sqrt_floor((c * c) as nat) as int;
    assert(mag == c);
    assert(sdiv(0 * SCALE, mag) == 0) by {
        vstd::arithmetic::div_mod::lemma_div_of0(mag);
    }
    assert(sdiv(c * SCALE, mag) == SCALE) by {
        assert(c * SCALE == SCALE * c) by (nonlinear_arith);
        vstd::arithmetic::div_mod::lemma_div_by_multiple(SCALE as int, c);
        assert(c * SCALE >= 0) by (nonlinear_arith)
            requires
                1 <= c,
    ;
    }
}

} // verus!
