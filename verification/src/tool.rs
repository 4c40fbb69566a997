//! Cutter templates: a tool is a lattice of 3D offsets relative to the
//! sample it is dropped on, one per lattice cell of the sampling pitch
//! inside the cutter's disk, with the z profile of the chosen shape.

use crate::geom::Point3;
use vstd::prelude::*;

verus! {

#[derive(Clone, Copy, PartialEq, Eq, Structural, Debug)]
pub enum ToolKind {
    Endmill,
    Ball,
    Vbit,
}

/// Scale of the V-bit slope parameter: parts per million. A slope of
/// 1_000_000 cuts one micrometer deeper per micrometer toward the center.
pub const SLOPE_UNIT: i64 = 1_000_000;

/// Largest cutter radius accepted, in micrometers: half a meter.
pub const RADIUS_LIMIT: i64 = 500_000;

/// Largest V-bit slope accepted: a rise of 1000, within a tenth of a
/// degree of a square shoulder.
pub const SLOPE_LIMIT: i64 = 1_000_000_000;

#[derive(Clone, PartialEq, Eq, Debug)]
pub struct Tool {
    /// Offsets from the reference sample, in micrometers; x and y lie on
    /// the sampling lattice in `[0, diameter]`, z is 0 or below.
    pub points: Vec<Point3>,
    /// Cutter radius in micrometers.
    pub radius: i64,
    pub kind: ToolKind,
}

/// Floor integer square root, defined by counting up.
pub open spec fn sqrt_floor(n: nat) -> nat
    decreases n,
{
    if n == 0 {
        0
    } else {
        let r = sqrt_floor((n - 1) as nat);
        if (r + 1) * (r + 1) <= n {
            r + 1
        } else {
            r
        }
    }
}

/// `sqrt_floor` brackets its argument between consecutive squares.
pub proof fn lemma_sqrt_floor_bounds(n: nat)
    ensures
        sqrt_floor(n) * sqrt_floor(n) <= n,
        n < (sqrt_floor(n) + 1) * (sqrt_floor(n) + 1),
    decreases n,
{
    let f = sqrt_floor(n);
    if n == 0 {
        assert(f * f <= n && n < (f + 1) * (f + 1)) by (nonlinear_arith)
            requires
                f == 0 && n == 0,
        ;
    } else {
        lemma_sqrt_floor_bounds((n - 1) as nat);
        let r = sqrt_floor((n - 1) as nat);
        if (r + 1) * (r + 1) <= n {
            assert(f == r + 1);
            assert(f * f <= n && n < (f + 1) * (f + 1)) by (nonlinear_arith)
                requires
                    f == r + 1 && (r + 1) * (r + 1) <= n && n - 1 < (r + 1) * (r + 1),
            ;
        } else {
            assert(f == r);
            assert(f * f <= n && n < (f + 1) * (f + 1)) by (nonlinear_arith)
                requires
                    f == r && r * r <= n - 1 && n < (r + 1) * (r + 1),
            ;
        }
    }
}

/// Only one natural number sits between the same consecutive squares.
pub proof fn lemma_sqrt_unique(n: nat, a: nat, b: nat)
    requires
        a * a <= n < (a + 1) * (a + 1),
        b * b <= n < (b + 1) * (b + 1),
    ensures
        a == b,
{
    assert(a <= b && b <= a) by (nonlinear_arith)
        requires
            a * a <= n && n < (a + 1) * (a + 1) && b * b <= n && n < (b + 1) * (b + 1),
    ;
}

/// Floor integer square root.
pub fn isqrt(n: u64) -> (r: u64)
    ensures
        r as nat == sqrt_floor(n as nat),
        r * r <= n,
{
    let mut lo: u64 = 0;
    let mut hi: u64 = 0x1_0000_0000;
    proof {
        assert((0x1_0000_0000int) * (0x1_0000_0000int) == 0x1_0000_0000_0000_0000int)
            by (nonlinear_arith);
    }
    while lo + 1 < hi
        invariant
            lo < hi <= 0x1_0000_0000,
            (lo as nat) * (lo as nat) <= n as nat,
            (n as nat) < (hi as nat) * (hi as nat),
        decreases hi - lo,
    {
        let mid = lo + (hi - lo) / 2;
        proof {
            assert((mid as int) * (mid as int) <= 0x1_0000_0000_0000_0000int) by (nonlinear_arith)
                requires
                    0 <= mid <= 0x1_0000_0000,
            ;
        }
        let sq: u128 = (mid as u128) * (mid as u128);
        if sq <= n as u128 {
            lo = mid;
        } else {
            hi = mid;
        }
    }
    proof {
        lemma_sqrt_floor_bounds(n as nat);
        lemma_sqrt_unique(n as nat, lo as nat, sqrt_floor(n as nat));
    }
    lo
}

/// The z offset of the cutter surface at lattice offset `(x, y)` (both in
/// `[0, 2r]`, micrometers): 0 for a flat endmill, the sphere depth for a
/// ball nose, the cone depth for a V-bit of the given slope.
pub open spec fn tool_z(kind: ToolKind, r: int, slope_ppm: int, x: int, y: int) -> int {
    let d2 = (x - r) * (x - r) + (y - r) * (y - r);
    match kind {
        ToolKind::Endmill => 0,
        ToolKind::Ball => -(r - sqrt_floor((r * r - d2) as nat)),
        ToolKind::Vbit => -((slope_ppm * (r - sqrt_floor(d2 as nat))) / (SLOPE_UNIT as int)),
    }
}

/// Whether lattice offset `(x, y)` lies inside the cutter's disk of radius
/// `r` around `(r, r)`.
pub open spec fn in_disk(r: int, x: int, y: int) -> bool {
    (x - r) * (x - r) + (y - r) * (y - r) <= r * r
}

/// The offsets of one lattice row `x = i * res`, for `j` in `[0, nj)`, in
/// ascending j order, keeping only offsets inside the disk.
pub open spec fn tool_row(kind: ToolKind, r: int, slope_ppm: int, res: int, i: int, nj: nat) -> Seq<
    Point3,
>
    decreases nj,
{
    if nj == 0 {
        Seq::empty()
    } else {
        let s = tool_row(kind, r, slope_ppm, res, i, (nj - 1) as nat);
        let j = nj - 1;
        if in_disk(r, i * res, j * res) {
            s.push(
                Point3 {
                    x: (i * res) as i64,
                    y: (j * res) as i64,
                    z: tool_z(kind, r, slope_ppm, i * res, j * res) as i64,
                },
            )
        } else {
            s
        }
    }
}

/// All rows `i` in `[0, ni)`, concatenated in ascending i order.
pub open spec fn tool_rows(
    kind: ToolKind,
    r: int,
    slope_ppm: int,
    res: int,
    ni: nat,
    nj: nat,
) -> Seq<Point3>
    decreases ni,
{
    if ni == 0 {
        Seq::empty()
    } else {
        tool_rows(kind, r, slope_ppm, res, (ni - 1) as nat, nj) + tool_row(
            kind,
            r,
            slope_ppm,
            res,
            ni - 1,
            nj,
        )
    }
}

/// Every offset a tool may hold: on the lattice within `[0, 2r]` in x and
/// y, and cutting at or below the reference tip in z, no deeper than the
/// slope or radius allows.
pub open spec fn tool_point_ok(p: Point3, r: int) -> bool {
    &&& 0 <= p.x <= 2 * r
    &&& 0 <= p.y <= 2 * r
    &&& -1000 * r <= p.z <= 0
}

/// A well-formed tool: radius within the machine limit and every offset
/// within the tool's own footprint.
pub open spec fn tool_ok(t: Tool) -> bool {
    &&& 1 <= t.radius <= RADIUS_LIMIT
    &&& forall|k: int|
        0 <= k < t.points@.len() ==> tool_point_ok(#[trigger] t.points@[k], t.radius as int)
}

impl ToolKind {
    /// Build the cutter template for this shape: one offset per lattice
    /// cell of pitch `res` inside the disk of radius `diameter / 2`, with
    /// the shape's z profile. `slope_ppm` is the V-bit flank slope in
    /// parts per million and is ignored by the other shapes.
    pub fn create(&self, diameter: i64, slope_ppm: i64, res: i64) -> (t: Tool)
        requires
            2 <= diameter <= 2 * RADIUS_LIMIT,
            crate::grid::valid_resolution(res),
            0 <= slope_ppm <= SLOPE_LIMIT,
        ensures
            t.kind == *self,
            t.radius == diameter / 2,
            tool_ok(t),
            t.points@ == tool_rows(
                *self,
                t.radius as int,
                slope_ppm as int,
                res as int,
                (crate::grid::floor_div(2 * (diameter as int / 2), res as int) + 1) as nat,
                (crate::grid::floor_div(2 * (diameter as int / 2), res as int) + 1) as nat,
            ),
    {
        let radius = diameter / 2;
        let n = crate::grid::div_floor(2 * radius, res) + 1;
        proof {
            let q = (2 * radius as int) / (res as int);
            vstd::arithmetic::div_mod::lemma_div_pos_is_pos(2 * radius as int, res as int);
            vstd::arithmetic::div_mod::lemma_div_nonincreasing(2 * radius as int, res as int);
            vstd::arithmetic::div_mod::lemma_fundamental_div_mod(2 * radius as int, res as int);
            vstd::arithmetic::div_mod::lemma_mod_division_less_than_divisor(
                2 * radius as int,
                res as int,
            );
            assert(q * res == res * q) by (nonlinear_arith);
        }
        let ghost nn = n as nat;
        let mut points: Vec<Point3> = Vec::new();
        let mut i: i64 = 0;
        while i < n
            invariant
                0 <= i <= n,
                1 <= radius <= RADIUS_LIMIT,
                crate::grid::valid_resolution(res),
                0 <= slope_ppm <= SLOPE_LIMIT,
                nn == n as nat,
                1 <= n,
                (n - 1) * res <= 2 * radius,
                points@ == tool_rows(
                    *self,
                    radius as int,
                    slope_ppm as int,
                    res as int,
                    i as nat,
                    nn,
                ),
                forall|k: int|
                    0 <= k < points@.len() ==> tool_point_ok(
                        #[trigger] points@[k],
                        radius as int,
                    ),
            decreases n - i,
        {
            let mut j: i64 = 0;
            while j < n
                invariant
                    0 <= j <= n,
                    0 <= i < n,
                    1 <= radius <= RADIUS_LIMIT,
                    crate::grid::valid_resolution(res),
                    0 <= slope_ppm <= SLOPE_LIMIT,
                    nn == n as nat,
                    (n - 1) * res <= 2 * radius,
                    points@ == tool_rows(
                        *self,
                        radius as int,
                        slope_ppm as int,
                        res as int,
                        i as nat,
                        nn,
                    ) + tool_row(
                        *self,
                        radius as int,
                        slope_ppm as int,
                        res as int,
                        i as int,
                        j as nat,
                    ),
                    forall|k: int|
                        0 <= k < points@.len() ==> tool_point_ok(
                            #[trigger] points@[k],
                            radius as int,
                        ),
                decreases n - j,
            {
                proof {
                    assert(0 <= i * res && i * res <= (n - 1) * res && 0 <= j * res && j * res <= (
                    n - 1) * res) by (nonlinear_arith)
                        requires
                            0 <= i <= n - 1 && 0 <= j <= n - 1 && 1 <= res,
                    ;
                }
                let x = i * res;
                let y = j * res;
                let dx = x - radius;
                let dy = y - radius;
                proof {
                    assert(0 <= dx * dx <= 0x4_0000_0000_0000 && 0 <= dy * dy
                        <= 0x4_0000_0000_0000 && 0 <= radius * radius <= 0x4_0000_0000_0000)
                        by (nonlinear_arith)
                        requires
                            -0x80_0000 <= dx <= 0x80_0000 && -0x80_0000 <= dy <= 0x80_0000 && 0
                                <= radius <= 0x80_0000,
                    ;
                }
                let d2 = dx * dx + dy * dy;
                let rsq = radius * radius;
                if d2 <= rsq {
                    let z: i64 = match self {
                        ToolKind::Endmill => 0,
                        ToolKind::Ball => {
                            let s = isqrt((rsq - d2) as u64);
                            proof {
                                lemma_sqrt_floor_bounds((rsq - d2) as nat);
                                assert(s <= radius) by (nonlinear_arith)
                                    requires
                                        (s as int) * (s as int) <= rsq as int - d2 as int,
                                        rsq as int == (radius as int) * (radius as int),
                                        d2 >= 0,
                                        s >= 0,
                                        radius >= 0,
                                ;
                            }
                            -(radius - s as i64)
                        },
                        ToolKind::Vbit => {
                            let s = isqrt(d2 as u64);
                            proof {
                                lemma_sqrt_floor_bounds(d2 as nat);
                                assert(s <= radius) by (nonlinear_arith)
                                    requires
                                        (s as int) * (s as int) <= d2 as int,
                                        d2 <= rsq,
                                        rsq as int == (radius as int) * (radius as int),
                                        s >= 0,
                                        radius >= 0,
                                ;
                            }
                            let rise = radius - s as i64;
                            proof {
                                assert(0 <= slope_ppm * rise <= SLOPE_LIMIT * RADIUS_LIMIT)
                                    by (nonlinear_arith)
                                    requires
                                        0 <= slope_ppm <= SLOPE_LIMIT && 0 <= rise <= RADIUS_LIMIT,
                                ;
                            }
                            let mag = (slope_ppm as u64 * rise as u64) / (SLOPE_UNIT as u64);
                            proof {
                                vstd::arithmetic::div_mod::lemma_div_pos_is_pos(
                                    slope_ppm as int * rise as int,
                                    SLOPE_UNIT as int,
                                );
                                vstd::arithmetic::div_mod::lemma_div_nonincreasing(
                                    slope_ppm as int * rise as int,
                                    SLOPE_UNIT as int,
                                );
                                assert((slope_ppm * rise) as int / (SLOPE_UNIT as int) <= 1000
                                    * radius) by {
                                    assert(slope_ppm * rise <= SLOPE_LIMIT * radius)
                                        by (nonlinear_arith)
                                        requires
                                            0 <= slope_ppm <= SLOPE_LIMIT && 0 <= rise <= radius,
                                    ;
                                    vstd::arithmetic::div_mod::lemma_div_is_ordered(
                                        slope_ppm as int * rise as int,
                                        SLOPE_LIMIT as int * radius as int,
                                        SLOPE_UNIT as int,
                                    );
                                    assert(SLOPE_LIMIT as int * radius as int == (SLOPE_UNIT as int)
                                        * (1000 * radius)) by (nonlinear_arith);
                                    vstd::arithmetic::div_mod::lemma_div_multiples_vanish(
                                        1000 * radius as int,
                                        SLOPE_UNIT as int,
                                    );
                                };
                            }
                            -(mag as i64)
                        },
                    };
                    points.push(Point3 { x, y, z });
                }
                proof {
                    assert(points@ == tool_rows(
                        *self,
                        radius as int,
                        slope_ppm as int,
                        res as int,
                        i as nat,
                        nn,
                    ) + tool_row(
                        *self,
                        radius as int,
                        slope_ppm as int,
                        res as int,
                        i as int,
                        (j + 1) as nat,
                    ));
                }
                j = j + 1;
            }
            proof {
                assert(tool_rows(
                    *self,
                    radius as int,
                    slope_ppm as int,
                    res as int,
                    (i + 1) as nat,
                    nn,
                ) == tool_rows(*self, radius as int, slope_ppm as int, res as int, i as nat, nn)
                    + tool_row(*self, radius as int, slope_ppm as int, res as int, i as int, nn));
            }
            i = i + 1;
        }
        Tool { points, radius, kind: *self }
    }
}

} // verus!
