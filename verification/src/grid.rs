//! Sample-grid and column derivation from a mesh's bounds, a sampling
//! resolution and a cutter radius. Lengths are micrometers throughout.

use crate::geom::{Bounds, Point3};
use vstd::prelude::*;

verus! {

/// 2D axis-aligned box: `(x1, y1)` is the minimum corner, `(x2, y2)` the
/// maximum corner.
#[derive(Clone, Copy, PartialEq, Eq, Structural, Debug)]
pub struct Aabb2 {
    pub x1: i64,
    pub y1: i64,
    pub x2: i64,
    pub y2: i64,
}

/// Floor division (rounds toward negative infinity). Equals vstd's Euclidean
/// `/` whenever the divisor is positive.
pub open spec fn floor_div(a: int, b: int) -> int {
    a / b
}

/// Ceiling division for a positive divisor.
pub open spec fn ceil_div(a: int, b: int) -> int {
    -((-a) / b)
}

/// Exec floor division of a coordinate by a positive pitch.
pub fn div_floor(a: i64, b: i64) -> (q: i64)
    requires
        1 <= b <= 1_000_000,
        -0x2000_0000_0000_0000 <= a <= 0x2000_0000_0000_0000,
    ensures
        q == floor_div(a as int, b as int),
{
    if a >= 0 {
        let q = (a as u64) / (b as u64);
        proof {
            assert(q == (a as int) / (b as int)) by {
                vstd::arithmetic::div_mod::lemma_fundamental_div_mod(a as int, b as int);
            };
        }
        q as i64
    } else {
        let n = (-a) as u64;
        let bu = b as u64;
        let q = (n + bu - 1) / bu;
        proof {
            let qi = (n + bu - 1) as int / bu as int;
            let ri = (n + bu - 1) as int % bu as int;
            vstd::arithmetic::div_mod::lemma_fundamental_div_mod((n + bu - 1) as int, bu as int);
            vstd::arithmetic::div_mod::lemma_mod_division_less_than_divisor(
                (n + bu - 1) as int,
                bu as int,
            );
            assert((n + bu - 1) as int == bu as int * qi + ri);
            assert((-qi) * b == -(b as int * qi) + 0) by (nonlinear_arith);
            assert(a as int == (-qi) * b + (b - 1 - ri));
            vstd::arithmetic::div_mod::lemma_fundamental_div_mod_converse(
                a as int,
                b as int,
                -qi,
                b - 1 - ri,
            );
        }
        -(q as i64)
    }
}

/// Exec ceiling division of a coordinate by a positive pitch.
pub fn div_ceil(a: i64, b: i64) -> (q: i64)
    requires
        1 <= b <= 1_000_000,
        -0x2000_0000_0000_0000 <= a <= 0x1fff_ffff_ff00_0000,
    ensures
        q == ceil_div(a as int, b as int),
{
    let q = div_floor(a + b - 1, b);
    proof {
        let m = (-a as int) / (b as int);
        let s = (-a as int) % (b as int);
        vstd::arithmetic::div_mod::lemma_fundamental_div_mod(-a as int, b as int);
        vstd::arithmetic::div_mod::lemma_mod_division_less_than_divisor(-a as int, b as int);
        assert(-a as int == b as int * m + s);
        assert((-m) * b == -(b as int * m) + 0) by (nonlinear_arith);
        assert((a + b - 1) as int == (-m) * b + (b - 1 - s));
        vstd::arithmetic::div_mod::lemma_fundamental_div_mod_converse(
            (a + b - 1) as int,
            b as int,
            -m,
            b - 1 - s,
        );
    }
    q
}

/// Exec ceiling division for non-negative u64 values.
pub fn div_ceil_u64(a: u64, b: u64) -> (q: u64)
    requires
        1 <= b,
        a <= 0x1000_0000_0000_0000,
        b <= 0x1000_0000_0000_0000,
    ensures
        q as int == ceil_div(a as int, b as int),
        q <= a,
{
    let q = (a + b - 1) / b;
    proof {
        let m = (-(a as int)) / (b as int);
        let sr = (-(a as int)) % (b as int);
        vstd::arithmetic::div_mod::lemma_fundamental_div_mod(-(a as int), b as int);
        vstd::arithmetic::div_mod::lemma_mod_division_less_than_divisor(-(a as int), b as int);
        assert(-(a as int) == b as int * m + sr);
        assert((-m) * b == -(b as int * m) + 0) by (nonlinear_arith);
        assert((a + b - 1) as int == (-m) * b + (b - 1 - sr));
        vstd::arithmetic::div_mod::lemma_fundamental_div_mod_converse(
            (a + b - 1) as int,
            b as int,
            -m,
            b - 1 - sr,
        );
        if a >= 1 {
            assert((a + b - 1) as int <= (a as int) * (b as int)) by (nonlinear_arith)
                requires
                    a >= 1 && b >= 1,
            ;
            vstd::arithmetic::div_mod::lemma_div_is_ordered(
                (a + b - 1) as int,
                (a as int) * (b as int),
                b as int,
            );
            assert(((a as int) * (b as int)) / (b as int) == a as int) by {
                assert((a as int) * (b as int) == (b as int) * (a as int)) by (nonlinear_arith);
                vstd::arithmetic::div_mod::lemma_div_multiples_vanish(a as int, b as int);
            };
        } else {
            assert((a + b - 1) as int / (b as int) == 0) by {
                vstd::arithmetic::div_mod::lemma_basic_div((b - 1) as int, b as int);
            };
        }
    }
    q
}

/// Number of grid columns: `floor(p2.x / res) - ceil(p1.x / res) + 1`.
pub open spec fn grid_segments(b: Bounds, res: int) -> int {
    floor_div(b.p2.x as int, res) - ceil_div(b.p1.x as int, res) + 1
}

/// Number of grid rows: `floor(p2.y / res) - ceil(p1.y / res) + 1`.
pub open spec fn grid_rows(b: Bounds, res: int) -> int {
    floor_div(b.p2.y as int, res) - ceil_div(b.p1.y as int, res) + 1
}

/// The sample point of grid cell `(i, j)`.
pub open spec fn grid_point(b: Bounds, res: int, i: int, j: int) -> Point3 {
    Point3 { x: (b.p1.x + i * res) as i64, y: (b.p1.y + j * res) as i64, z: b.p1.z }
}

/// Bounds that `move_to_zero` establishes: minimum x and y at 0, maximum z
/// at 0, and everything within twice the raw coordinate limit.
pub open spec fn normalized_bounds(b: Bounds) -> bool {
    &&& b.p1.x == 0
    &&& b.p1.y == 0
    &&& b.p2.z == 0
    &&& 0 <= b.p2.x <= 2 * crate::geom::COORD_LIMIT
    &&& 0 <= b.p2.y <= 2 * crate::geom::COORD_LIMIT
    &&& -2 * crate::geom::COORD_LIMIT <= b.p1.z <= 0
}

/// Valid sampling pitch: 0.001 mm to 1.0 mm.
pub open spec fn valid_resolution(res: i64) -> bool {
    1 <= res <= 1000
}

/// The address book of sample points: column `i`, row `j` holds
/// `(p1.x + i * res, p1.y + j * res, p1.z)`.
pub fn generate_grid(b: &Bounds, res: i64) -> (grid: Vec<Vec<Point3>>)
    requires
        normalized_bounds(*b),
        valid_resolution(res),
    ensures
        grid@.len() == grid_segments(*b, res as int),
        forall|i: int|
            0 <= i < grid@.len() ==> (#[trigger] grid@[i])@.len() == grid_rows(*b, res as int),
        forall|i: int, j: int|
            0 <= i < grid@.len() && 0 <= j < grid@[i]@.len() ==> (#[trigger] grid@[i]@[j])
                == grid_point(*b, res as int, i, j),
{
    let segments = div_floor(b.p2.x, res) + 1;
    let rows = div_floor(b.p2.y, res) + 1;
    proof {
        assert(segments == grid_segments(*b, res as int));
        assert(rows == grid_rows(*b, res as int));
        assert(b.p2.x as int / res as int >= 0) by {
            vstd::arithmetic::div_mod::lemma_div_pos_is_pos(b.p2.x as int, res as int);
        };
        assert(b.p2.y as int / res as int >= 0) by {
            vstd::arithmetic::div_mod::lemma_div_pos_is_pos(b.p2.y as int, res as int);
        };
        assert(b.p2.x as int / res as int <= b.p2.x) by {
            vstd::arithmetic::div_mod::lemma_div_nonincreasing(b.p2.x as int, res as int);
        };
        assert(b.p2.y as int / res as int <= b.p2.y) by {
            vstd::arithmetic::div_mod::lemma_div_nonincreasing(b.p2.y as int, res as int);
        };
    }
    let mut grid: Vec<Vec<Point3>> = Vec::new();
    let mut i: i64 = 0;
    while i < segments
        invariant
            0 <= i <= segments,
            1 <= segments <= b.p2.x + 1,
            1 <= rows <= b.p2.y + 1,
            normalized_bounds(*b),
            valid_resolution(res),
            grid@.len() == i,
            forall|k: int| 0 <= k < i ==> (#[trigger] grid@[k])@.len() == rows,
            forall|k: int, j: int|
                0 <= k < i && 0 <= j < rows ==> (#[trigger] grid@[k]@[j]) == grid_point(
                    *b,
                    res as int,
                    k,
                    j,
                ),
        decreases segments - i,
    {
        let mut column: Vec<Point3> = Vec::new();
        let mut j: i64 = 0;
        while j < rows
            invariant
                0 <= j <= rows,
                0 <= i < segments,
                1 <= segments <= b.p2.x + 1,
                1 <= rows <= b.p2.y + 1,
                normalized_bounds(*b),
                valid_resolution(res),
                column@.len() == j,
                forall|k: int|
                    0 <= k < j ==> (#[trigger] column@[k]) == grid_point(*b, res as int, i as int, k),
            decreases rows - j,
        {
            proof {
                assert(0 <= i * res <= 0x2_0000_0000 * 1000 && 0 <= j * res <= 0x2_0000_0000 * 1000)
                    by (nonlinear_arith)
                    requires
                        0 <= i <= 0x2_0000_0000,
                        0 <= j <= 0x2_0000_0000,
                        1 <= res <= 1000,
                ;
            }
            column.push(Point3 { x: i * res, y: j * res, z: b.p1.z });
            j = j + 1;
        }
        grid.push(column);
        i = i + 1;
    }
    grid
}

/// `ceil_div` brackets its argument: `b * (q - 1) < a <= b * q`.
pub proof fn lemma_ceil_div_props(a: int, b: int)
    requires
        1 <= b,
    ensures
        b * (ceil_div(a, b) - 1) < a <= b * ceil_div(a, b),
{
    vstd::arithmetic::div_mod::lemma_fundamental_div_mod(-a, b);
    vstd::arithmetic::div_mod::lemma_mod_division_less_than_divisor(-a, b);
    let q = (-a) / b;
    let r = (-a) % b;
    assert(-a == b * q + r);
    assert(b * (-q) == -(b * q) + 0) by (nonlinear_arith);
    assert(a == b * ceil_div(a, b) - r);
    assert(b * (ceil_div(a, b) - 1) == b * ceil_div(a, b) - b) by (nonlinear_arith);
}

/// Grid columns are gathered in runs of ten; how many runs a grid of
/// `segments` columns makes.
pub open spec fn chunk_count(segments: int) -> int {
    ceil_div(segments, 10)
}

/// The 2D box of chunk `c`: the x-range of its (up to ten) grid columns,
/// widened by the cutter radius on both sides, over the full y-range.
pub open spec fn chunk_box(b: Bounds, res: int, radius: int, segments: int, c: int) -> Aabb2 {
    let first = 10 * c;
    let last = if 10 * c + 9 <= segments - 1 {
        10 * c + 9
    } else {
        segments - 1
    };
    Aabb2 {
        x1: (b.p1.x + first * res - radius) as i64,
        y1: b.p1.y,
        x2: (b.p1.x + last * res + radius) as i64,
        y2: b.p2.y,
    }
}

/// One 2D box per run of ten grid columns, each widened by the cutter
/// radius so that every triangle a column's samples can hit overlaps it.
pub fn generate_columns_chunks(b: &Bounds, res: i64, radius: i64) -> (cols: Vec<Aabb2>)
    requires
        normalized_bounds(*b),
        valid_resolution(res),
        0 <= radius <= 1_000_000_000,
    ensures
        cols@.len() == chunk_count(grid_segments(*b, res as int)),
        forall|c: int|
            0 <= c < cols@.len() ==> (#[trigger] cols@[c]) == chunk_box(
                *b,
                res as int,
                radius as int,
                grid_segments(*b, res as int),
                c,
            ),
{
    let segments = div_floor(b.p2.x, res) + 1;
    proof {
        assert(segments == grid_segments(*b, res as int));
        assert(b.p2.x as int / res as int >= 0) by {
            vstd::arithmetic::div_mod::lemma_div_pos_is_pos(b.p2.x as int, res as int);
        };
        assert(b.p2.x as int / res as int <= b.p2.x) by {
            vstd::arithmetic::div_mod::lemma_div_nonincreasing(b.p2.x as int, res as int);
        };
        lemma_ceil_div_props(segments as int, 10);
    }
    let nchunks = div_ceil(segments, 10);
    let mut cols: Vec<Aabb2> = Vec::new();
    let mut c: i64 = 0;
    while c < nchunks
        invariant
            0 <= c <= nchunks,
            1 <= segments <= b.p2.x + 1,
            nchunks == chunk_count(segments as int),
            10 * (nchunks - 1) < segments <= 10 * nchunks,
            normalized_bounds(*b),
            valid_resolution(res),
            0 <= radius <= 1_000_000_000,
            cols@.len() == c,
            forall|k: int|
                0 <= k < c ==> (#[trigger] cols@[k]) == chunk_box(
                    *b,
                    res as int,
                    radius as int,
                    segments as int,
                    k,
                ),
        decreases nchunks - c,
    {
        let first = 10 * c;
        let last = if 10 * c + 9 <= segments - 1 {
            10 * c + 9
        } else {
            segments - 1
        };
        proof {
            assert(0 <= first * res <= 0x2_0000_0001 * 1000 && 0 <= last * res <= 0x2_0000_0001
                * 1000) by (nonlinear_arith)
                requires
                    0 <= first <= 0x2_0000_0001,
                    0 <= last <= 0x2_0000_0001,
                    1 <= res <= 1000,
            ;
        }
        cols.push(
            Aabb2 { x1: first * res - radius, y1: b.p1.y, x2: last * res + radius, y2: b.p2.y },
        );
        c = c + 1;
    }
    cols
}

} // verus!
